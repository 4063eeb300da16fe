# Glassboard

A chess core with transparent assistance, written in Verus: every rule,
search step and piece of help is a function with a contract that the
verifier checks.

- `src/` — the verified library
  - `board`, `rules`, `movegen`, `legality`, `perft` — the board, the rules
    of movement as specifications, move generation proved against them, and
    the facts about legal play the rest relies on.
  - `fen`, `fen_laws`, `san`, `text` — notation; `fen_laws` proves that the
    FEN text of a board reads back as the same board.
  - `eval`, `eval_laws`, `search` — evaluation, the proof that it is
    colour-blind, and the alpha-beta search with its transposition table.
  - `assist`, `strategy` — the assistance spectrum, the handicap mapping,
    threats, move notes, the named plans, and the glass-box log.
  - `room`, `signals` — the engine-validated multiplayer room, the per-move
    learning signal and the account checks.
  - `console`, `game` — what the terminal and web front ends decide.
- `tests/` — concrete scenarios, run against the compiled library.
- `app/` — the server (axum, sqlx, tokio), the terminal front ends and the
  browser bindings: the I/O around the library.
