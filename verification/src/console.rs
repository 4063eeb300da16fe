//! What the terminal front ends decide: whether the game is over and how to
//! say so, the board as 64 characters, and which legal move a typed
//! coordinate move names.
use vstd::prelude::*;
use vstd::string::StringExecFns;
use vstd::utf8::encode_utf8;
use crate::board::{Board, Color, Move, Position};
use crate::fen::{fen_char, piece_to_char};
use crate::movegen::generate_legal;
use crate::room::{promo_letter, uci_parts, uci_sliceable, square_from_bytes};
use crate::rules::{legal, movegen_ready};
use crate::search::{in_check, no_legal_move, spec_in_check};
use crate::text::chars_of;

verus! {

/// A colour as the terminal names it.
pub open spec fn color_word(c: Color) -> Seq<char> {
    match c {
        Color::White => "White"@,
        Color::Black => "Black"@,
    }
}

/// How a finished game is announced; `None` while it goes on.
pub open spec fn terminal_text(p: Position) -> Option<Seq<char>> {
    if no_legal_move(p) {
        Some(
            if spec_in_check(p) {
                "Checkmate — "@ + color_word(p.side.spec_opp()) + " wins."@
            } else {
                "Stalemate — draw."@
            },
        )
    } else if p.halfmove >= 100 {
        Some("Draw by the fifty-move rule."@)
    } else {
        None
    }
}

/// Returns a game-over message if `b` is terminal, else `None`.
pub fn terminal_message(b: &Board) -> (r: Option<String>)
    requires
        movegen_ready(b@),
    ensures
        r matches Some(s) ==> terminal_text(b@) == Some(s@),
        r is None ==> terminal_text(b@) is None,
{
    let moves = generate_legal(b);
    if moves.len() == 0 {
        proof {
            assert forall|m: crate::board::Move| !legal(b@, m) by {
                if legal(b@, m) {
                    assert(moves@.contains(m));
                }
            }
        }
        if in_check(b) {
            let mut s = String::from_str("Checkmate — ");
            match b.side.opp() {
                Color::White => s.append("White"),
                Color::Black => s.append("Black"),
            }
            s.append(" wins.");
            return Some(s);
        } else {
            return Some(String::from_str("Stalemate — draw."));
        }
    }
    proof {
        let m = moves@[0];
        assert(moves@.contains(m));
        assert(legal(b@, m));
    }
    if b.halfmove >= 100 {
        return Some(String::from_str("Draw by the fifty-move rule."));
    }
    None
}

/// The board as 64 characters, a1 first: FEN letters for pieces, '.' for
/// empty squares.
pub open spec fn board_chars(p: Position) -> Seq<char> {
    Seq::new(
        64,
        |i: int|
            match p.squares[i] {
                Some(pc) => fen_char(pc),
                None => '.',
            },
    )
}

/// The board as a 64-character string (index 0 = a1 .. 63 = h8).
pub fn board_string(b: &Board) -> (s: String)
    ensures
        s@ == board_chars(b@),
{
    let mut s = String::new();
    let mut i: usize = 0;
    while i < 64
        invariant
            i <= 64,
            s@ == board_chars(b@).subrange(0, i as int),
        decreases 64 - i,
    {
        let c = match b.squares[i] {
            Some(p) => piece_to_char(p),
            None => '.',
        };
        crate::text::push_char(&mut s, c);
        proof {
            assert(s@ =~= board_chars(b@).subrange(0, i + 1));
        }
        i = i + 1;
    }
    proof {
        assert(board_chars(b@).subrange(0, 64) =~= board_chars(b@));
    }
    s
}

/// The first move of `legal` that the coordinate text names (its squares
/// and promotion piece).
pub open spec fn first_named(legal: Seq<Move>, parts: (u8, u8, Option<crate::board::PieceKind>), i: int) -> Option<Move>
    decreases legal.len() - i,
{
    if i < 0 || i >= legal.len() {
        None
    } else if legal[i].from == parts.0 && legal[i].to == parts.1 && legal[i].promo == parts.2 {
        Some(legal[i])
    } else {
        first_named(legal, parts, i + 1)
    }
}

/// Reads a typed coordinate move (e2e4, e7e8q) against the legal moves.
pub fn parse_move(input: &str, legal: &[Move]) -> (r: Option<Move>)
    requires
        uci_sliceable(input@),
    ensures
        r == (match uci_parts(input@) {
            Some(parts) => first_named(legal@, parts, 0),
            None => None,
        }),
{
    let bytes = input.as_bytes();
    if bytes.len() < 4 {
        return None;
    }
    let from = match square_from_bytes(bytes[0], bytes[1]) {
        Some(s) => s,
        None => {
            return None;
        },
    };
    let to = match square_from_bytes(bytes[2], bytes[3]) {
        Some(s) => s,
        None => {
            return None;
        },
    };
    let cs = chars_of(input);
    let promo = if cs.len() > 4 {
        let c = cs[4];
        if c == 'n' || c == 'N' {
            Some(crate::board::PieceKind::Knight)
        } else if c == 'b' || c == 'B' {
            Some(crate::board::PieceKind::Bishop)
        } else if c == 'r' || c == 'R' {
            Some(crate::board::PieceKind::Rook)
        } else if c == 'q' || c == 'Q' {
            Some(crate::board::PieceKind::Queen)
        } else {
            None
        }
    } else {
        None
    };
    let ghost parts = (from, to, promo);
    proof {
        assert(uci_parts(input@) == Some(parts));
    }
    let mut i: usize = 0;
    while i < legal.len()
        invariant
            i <= legal@.len(),
            first_named(legal@, parts, 0) == first_named(legal@, parts, i as int),
            parts == (from, to, promo),
            uci_parts(input@) == Some(parts),
        decreases legal@.len() - i,
    {
        let m = legal[i];
        if m.from == from && m.to == to && m.promo == promo {
            return Some(m);
        }
        i = i + 1;
    }
    None
}

/// The square a two-byte name such as "e4" denotes, if it is one.
pub fn sq_from(s: &str) -> (r: Option<crate::board::Square>)
    ensures
        r == (if encode_utf8(s@).len() == 2 {
            crate::room::byte_square(encode_utf8(s@)[0], encode_utf8(s@)[1])
        } else {
            None
        }),
{
    crate::room::square_of(s)
}

} // verus!
