//! Boards written as FEN read back unchanged; what the parser accepts; the
//! terminal's reading of typed moves and of finished games.

use glassboard::board::{Board, Color, Flag, Move};
use glassboard::console::{board_string, parse_move, sq_from, terminal_message};
use glassboard::fen::{fen_valid, parse_fen, to_fen};
use glassboard::legality::{movegen_ok, playable_ok};
use glassboard::movegen::generate_legal;
use glassboard::room::uci_ok;
use glassboard::search::search_ok;

fn same_board(a: &Board, b: &Board) -> bool {
    a.squares == b.squares
        && a.side == b.side
        && a.castling == b.castling
        && a.ep == b.ep
        && a.halfmove == b.halfmove
        && a.fullmove == b.fullmove
}

/// A board written as FEN parses back to the same board.
#[test]
fn board_to_fen_and_back() {
    for fen in [
        "rnbqkbnr/pppppppp/8/8/8/8/PPPPPPPP/RNBQKBNR w KQkq - 0 1",
        "r3k2r/p1ppqpb1/bn2pnp1/3PN3/1p2P3/2N2Q1p/PPPBBPPP/R3K2R w KQkq - 0 1",
        "rnbqkbnr/pp1ppppp/8/2p5/4P3/8/PPPP1PPP/RNBQKBNR w KQkq c6 0 2",
        "8/8/8/8/8/8/8/k6K b - - 99 300",
    ] {
        let b = parse_fen(fen);
        let text = to_fen(&b);
        assert!(fen_valid(&text));
        let back = parse_fen(&text);
        assert!(same_board(&b, &back), "{fen} → {text}");
    }
    let mut b = Board::startpos();
    let m = generate_legal(&b).into_iter().find(|m| m.flag == Flag::DoublePush).unwrap();
    b.make_move(m);
    let back = parse_fen(&to_fen(&b));
    assert!(same_board(&b, &back));
}

/// Texts the parser cannot read are told apart.
#[test]
fn fen_validity() {
    assert!(fen_valid("rnbqkbnr/pppppppp/8/8/8/8/PPPPPPPP/RNBQKBNR w KQkq - 0 1"));
    assert!(fen_valid("8/8/8/8/8/8/8/8 w - -"));
    assert!(!fen_valid("8/8/8/8 w -"), "too few fields");
    assert!(!fen_valid("8/8/8/8/8/8/8/8x w - -"), "unknown letter");
    assert!(!fen_valid("9K/8/8/8/8/8/8/8 w - -"), "a piece past the h-file");
    assert!(!fen_valid("8/8/8/8/8/8/8/8 w - 3"), "a short en-passant square");
}

/// Boards play can go on from, and boards it cannot.
#[test]
fn board_checks() {
    let start = Board::startpos();
    assert!(movegen_ok(&start) && playable_ok(&start) && search_ok(&start, 4));
    let no_king = parse_fen("8/8/8/8/8/8/8/8 w - - 0 1");
    assert!(!movegen_ok(&no_king) && !playable_ok(&no_king) && !search_ok(&no_king, 1));
    let opp_in_check = parse_fen("4k3/8/8/8/8/8/8/4RK2 w - - 0 1");
    assert!(movegen_ok(&opp_in_check) && !playable_ok(&opp_in_check));
    let full_clock = parse_fen("4k3/8/8/8/8/8/8/4K3 w - - 65530 1");
    assert!(movegen_ok(&full_clock) && !search_ok(&full_clock, 10));
    assert!(uci_ok("e2e4") && uci_ok("é") && !uci_ok("aé24"));
}

/// The terminal announces mate, stalemate and the fifty-move rule.
#[test]
fn terminal_messages() {
    assert_eq!(
        terminal_message(&parse_fen("R5k1/5ppp/8/8/8/8/8/6K1 b - - 0 1")),
        Some("Checkmate — White wins.".to_string())
    );
    assert_eq!(
        terminal_message(&parse_fen("7k/5Q2/6K1/8/8/8/8/8 b - - 0 1")),
        Some("Stalemate — draw.".to_string())
    );
    assert_eq!(
        terminal_message(&parse_fen("7k/8/6K1/8/8/8/8/8 w - - 100 80")),
        Some("Draw by the fifty-move rule.".to_string())
    );
    assert_eq!(terminal_message(&Board::startpos()), None);
}

/// Typed moves name legal moves, promotions included.
#[test]
fn typed_moves() {
    let b = Board::startpos();
    let legal = generate_legal(&b);
    let m = parse_move("e2e4", &legal).expect("e2e4 is legal");
    assert_eq!((m.from, m.to), (12, 28));
    assert!(parse_move("e2e5", &legal).is_none());
    assert!(parse_move("e2", &legal).is_none());
    assert!(parse_move("z2e4", &legal).is_none());
    let p = parse_fen("8/P6k/8/8/8/8/8/K7 w - - 0 1");
    let legal = generate_legal(&p);
    let q: Move = parse_move("a7a8n", &legal).expect("underpromotion");
    assert_eq!(q.promo, Some(glassboard::board::PieceKind::Knight));
    assert!(parse_move("a7a8", &legal).is_none(), "a promotion needs its piece");
    assert_eq!(sq_from("e4"), Some(28));
    assert_eq!(sq_from("e9"), None);
    assert_eq!(sq_from("e44"), None);
}

/// The board as 64 characters, a1 first.
#[test]
fn board_characters() {
    let s = board_string(&Board::startpos());
    assert_eq!(&s[0..8], "RNBQKBNR");
    assert_eq!(&s[8..16], "PPPPPPPP");
    assert_eq!(&s[16..48], &".".repeat(32));
    assert_eq!(&s[56..64], "rnbqkbnr");
    assert_eq!(Board::startpos().side, Color::White);
}

#[test]
fn fen_side_must_be_w_or_b() {
    assert!(fen_valid("4k3/8/8/8/8/8/8/4K3 w - - 0 1"));
    assert!(fen_valid("4k3/8/8/8/8/8/8/4K3 b - - 0 1"));
    assert!(!fen_valid("4k3/8/8/8/8/8/8/4K3 x - - 0 1"));
    assert!(!fen_valid("4k3/8/8/8/8/8/8/4K3 white - - 0 1"));
}
