//! The rules of chess as mathematical definitions over a `Position`: board
//! geometry, which squares a piece attacks, which moves are pseudo-legal, and
//! which are legal. The executable move generator is proved against these.
use vstd::prelude::*;
use crate::board::{ep_victim, spec_make_move, Color, Flag, Move, Piece, PieceKind, Position, CASTLE_BK, CASTLE_BQ, CASTLE_WK, CASTLE_WQ};

verus! {

pub open spec fn on_board(f: int, r: int) -> bool {
    0 <= f < 8 && 0 <= r < 8
}

pub open spec fn sq_index(f: int, r: int) -> int {
    r * 8 + f
}

pub open spec fn piece_at(p: Position, f: int, r: int) -> Option<Piece> {
    p.squares[sq_index(f, r)]
}

/// `pc` stands on the on-board square (f, r).
pub open spec fn has(p: Position, f: int, r: int, pc: Piece) -> bool {
    on_board(f, r) && piece_at(p, f, r) == Some(pc)
}

/// The coordinate `n` unit steps from `x` in direction `d` (d in -1..=1).
pub open spec fn stepn(x: int, d: int, n: int) -> int {
    if d > 0 {
        x + n
    } else if d < 0 {
        x - n
    } else {
        x
    }
}

pub open spec fn diag_dir(df: int, dr: int) -> bool {
    (df == 1 || df == -1) && (dr == 1 || dr == -1)
}

pub open spec fn orth_dir(df: int, dr: int) -> bool {
    (df == 0 && (dr == 1 || dr == -1)) || (dr == 0 && (df == 1 || df == -1))
}

/// Every square strictly between (f, r) and its n-th neighbour along (df, dr)
/// is empty.
pub open spec fn clear_path(p: Position, f: int, r: int, df: int, dr: int, n: int) -> bool {
    forall|k: int| 1 <= k < n ==> (#[trigger] piece_at(p, stepn(f, df, k), stepn(r, dr, k))) is None
}

/// (tf, tr) lies along direction (df, dr) from (f, r) with nothing in between.
pub open spec fn ray_to(p: Position, f: int, r: int, df: int, dr: int, tf: int, tr: int) -> bool {
    exists|n: int|
        1 <= n && tf == stepn(f, df, n) && tr == stepn(r, dr, n) && #[trigger] clear_path(
            p,
            f,
            r,
            df,
            dr,
            n,
        )
}

/// A slider on (f, r) reaches (tf, tr): along a diagonal (`diagonal`) or an
/// orthogonal line, over empty squares only.
pub open spec fn slides_to(p: Position, f: int, r: int, tf: int, tr: int, diagonal: bool) -> bool {
    exists|df: int, dr: int|
        (if diagonal {
            diag_dir(df, dr)
        } else {
            orth_dir(df, dr)
        }) && #[trigger] ray_to(p, f, r, df, dr, tf, tr)
}

/// +1 for White pawns (toward rank 8), -1 for Black.
pub open spec fn pawn_dir(c: Color) -> int {
    if c == Color::White {
        1
    } else {
        -1
    }
}

pub open spec fn knight_jump(df: int, dr: int) -> bool {
    ((df == 1 || df == -1) && (dr == 2 || dr == -2)) || ((df == 2 || df == -2) && (dr == 1 || dr
        == -1))
}

pub open spec fn king_step(df: int, dr: int) -> bool {
    -1 <= df <= 1 && -1 <= dr <= 1 && !(df == 0 && dr == 0)
}

/// The piece `pc` standing on (f, r) attacks (tf, tr).
pub open spec fn attacks_from(p: Position, pc: Piece, f: int, r: int, tf: int, tr: int) -> bool {
    match pc.kind {
        PieceKind::Pawn => tr - r == pawn_dir(pc.color) && (tf - f == 1 || tf - f == -1),
        PieceKind::Knight => knight_jump(tf - f, tr - r),
        PieceKind::King => king_step(tf - f, tr - r),
        PieceKind::Bishop => slides_to(p, f, r, tf, tr, true),
        PieceKind::Rook => slides_to(p, f, r, tf, tr, false),
        PieceKind::Queen => slides_to(p, f, r, tf, tr, true) || slides_to(p, f, r, tf, tr, false),
    }
}

/// Square `s` is attacked by a piece of colour `by`.
pub open spec fn attacked(p: Position, s: int, by: Color) -> bool {
    exists|a: int|
        0 <= a < 64 && (#[trigger] p.squares[a]) is Some && p.squares[a]->0.color == by
            && attacks_from(p, p.squares[a]->0, a % 8, a / 8, s % 8, s / 8)
}

/// A piece of colour `by`, of kind Queen or `slider`, is the first piece met
/// looking from (f, r) along (df, dr).
pub open spec fn ray_meets(
    p: Position,
    f: int,
    r: int,
    df: int,
    dr: int,
    by: Color,
    slider: PieceKind,
) -> bool {
    exists|n: int|
        1 <= n && on_board(stepn(f, df, n), stepn(r, dr, n)) && #[trigger] clear_path(
            p,
            f,
            r,
            df,
            dr,
            n,
        ) && piece_at(p, stepn(f, df, n), stepn(r, dr, n)) is Some && piece_at(
            p,
            stepn(f, df, n),
            stepn(r, dr, n),
        )->0.color == by && (piece_at(p, stepn(f, df, n), stepn(r, dr, n))->0.kind
            == PieceKind::Queen || piece_at(p, stepn(f, df, n), stepn(r, dr, n))->0.kind
            == slider)
}

/// The lowest-indexed square holding a king of colour `c`.
pub open spec fn is_king_at(p: Position, i: int, c: Color) -> bool {
    p.squares[i] == Some(Piece { color: c, kind: PieceKind::King })
}

pub open spec fn has_king(p: Position, c: Color) -> bool {
    exists|i: int| 0 <= i < 64 && #[trigger] is_king_at(p, i, c)
}

pub open spec fn first_king(p: Position, c: Color, k: int) -> bool {
    0 <= k < 64 && is_king_at(p, k, c) && forall|j: int| 0 <= j < k ==> !#[trigger] is_king_at(p, j, c)
}


// ---------------------------------------------------------------------------
// Moves
// ---------------------------------------------------------------------------

/// The destination does not hold a piece of colour `c`.
pub open spec fn not_own(p: Position, to: int, c: Color) -> bool {
    !(p.squares[to] is Some && p.squares[to]->0.color == c)
}

/// A plain move: no promotion, no special flag.
pub open spec fn quiet(m: Move) -> bool {
    m.promo is None && m.flag == Flag::Normal
}

pub open spec fn from_f(m: Move) -> int {
    (m.from as int) % 8
}

pub open spec fn from_r(m: Move) -> int {
    (m.from as int) / 8
}

pub open spec fn to_f(m: Move) -> int {
    (m.to as int) % 8
}

pub open spec fn to_r(m: Move) -> int {
    (m.to as int) / 8
}

pub open spec fn knight_move(p: Position, c: Color, m: Move) -> bool {
    knight_jump(to_f(m) - from_f(m), to_r(m) - from_r(m)) && not_own(p, m.to as int, c) && quiet(m)
}

pub open spec fn king_move(p: Position, c: Color, m: Move) -> bool {
    king_step(to_f(m) - from_f(m), to_r(m) - from_r(m)) && not_own(p, m.to as int, c) && quiet(m)
}

pub open spec fn slide_move(p: Position, c: Color, m: Move, diagonal: bool) -> bool {
    slides_to(p, from_f(m), from_r(m), to_f(m), to_r(m), diagonal) && not_own(p, m.to as int, c)
        && quiet(m)
}

pub open spec fn promo_kind(k: PieceKind) -> bool {
    k == PieceKind::Queen || k == PieceKind::Rook || k == PieceKind::Bishop || k == PieceKind::Knight
}

pub open spec fn promo_rank(c: Color) -> int {
    if c == Color::White {
        7
    } else {
        0
    }
}

pub open spec fn start_rank(c: Color) -> int {
    if c == Color::White {
        1
    } else {
        6
    }
}

/// A pawn landing on rank `tr` promotes (to a queen, rook, bishop or knight)
/// exactly when `tr` is its last rank; otherwise the move is plain.
pub open spec fn pawn_landing(c: Color, tr: int, m: Move) -> bool {
    if tr == promo_rank(c) {
        m.flag == Flag::Normal && m.promo is Some && promo_kind(m.promo->0)
    } else {
        quiet(m)
    }
}

/// One step forward onto an empty square, or two from the start rank over
/// two empty squares.
pub open spec fn pawn_push(p: Position, c: Color, m: Move) -> bool {
    let d = pawn_dir(c);
    ||| to_f(m) == from_f(m) && to_r(m) == from_r(m) + d && p.squares[m.to as int] is None
        && pawn_landing(c, to_r(m), m)
    ||| to_f(m) == from_f(m) && from_r(m) == start_rank(c) && to_r(m) == from_r(m) + 2 * d
        && piece_at(p, from_f(m), from_r(m) + d) is None && p.squares[m.to as int] is None
        && m.promo is None && m.flag == Flag::DoublePush
}

/// A diagonal step forward toward file offset `df`: capturing an enemy piece,
/// or onto the empty en-passant target.
pub open spec fn pawn_capture(p: Position, c: Color, m: Move, df: int) -> bool {
    to_f(m) == from_f(m) + df && to_r(m) == from_r(m) + pawn_dir(c) && (
    (p.squares[m.to as int] is Some && p.squares[m.to as int]->0.color != c && pawn_landing(
        c,
        to_r(m),
        m,
    )) || (p.squares[m.to as int] is None && p.ep == Some(m.to) && m.promo is None && m.flag
        == Flag::EnPassant))
}

pub open spec fn pawn_move(p: Position, c: Color, m: Move) -> bool {
    pawn_push(p, c, m) || pawn_capture(p, c, m, -1) || pawn_capture(p, c, m, 1)
}

pub open spec fn home_rank(c: Color) -> int {
    if c == Color::White {
        0
    } else {
        7
    }
}

pub open spec fn kingside_right(c: Color) -> u8 {
    if c == Color::White {
        CASTLE_WK
    } else {
        CASTLE_BK
    }
}

pub open spec fn queenside_right(c: Color) -> u8 {
    if c == Color::White {
        CASTLE_WQ
    } else {
        CASTLE_BQ
    }
}

/// Castling: the king on its home square, the right still held, the squares
/// between king and rook empty, the rook in its corner, and the king neither
/// in check nor passing over an attacked square. (Safety of the landing square
/// is part of legality.)
pub open spec fn castle_move(p: Position, c: Color, m: Move) -> bool {
    let r = home_rank(c);
    let e = c.spec_opp();
    let rook = Some(Piece { color: c, kind: PieceKind::Rook });
    &&& m.from as int == sq_index(4, r)
    &&& m.promo is None
    &&& m.flag == Flag::Castle
    &&& !attacked(p, sq_index(4, r), e)
    &&& {
        ||| m.to as int == sq_index(6, r) && p.castling & kingside_right(c) != 0 && piece_at(p, 5, r)
            is None && piece_at(p, 6, r) is None && !attacked(p, sq_index(5, r), e) && piece_at(
            p,
            7,
            r,
        ) == rook
        ||| m.to as int == sq_index(2, r) && p.castling & queenside_right(c) != 0 && piece_at(
            p,
            3,
            r,
        ) is None && piece_at(p, 2, r) is None && piece_at(p, 1, r) is None && !attacked(
            p,
            sq_index(3, r),
            e,
        ) && piece_at(p, 0, r) == rook
    }
}

/// The moves the piece `pc` may make by its own movement rules.
pub open spec fn piece_move(p: Position, pc: Piece, m: Move) -> bool {
    match pc.kind {
        PieceKind::Pawn => pawn_move(p, pc.color, m),
        PieceKind::Knight => knight_move(p, pc.color, m),
        PieceKind::Bishop => slide_move(p, pc.color, m, true),
        PieceKind::Rook => slide_move(p, pc.color, m, false),
        PieceKind::Queen => slide_move(p, pc.color, m, true) || slide_move(p, pc.color, m, false),
        PieceKind::King => king_move(p, pc.color, m) || castle_move(p, pc.color, m),
    }
}

/// A move of a piece of the side to move, by that piece's movement rules,
/// that may still leave its own king in check.
pub open spec fn pseudo_legal(p: Position, m: Move) -> bool {
    &&& (m.from as int) < 64
    &&& (m.to as int) < 64
    &&& p.squares[m.from as int] is Some
    &&& p.squares[m.from as int]->0.color == p.side
    &&& piece_move(p, p.squares[m.from as int]->0, m)
}

/// The square of `c`'s king (the lowest-indexed one).
pub open spec fn king_of(p: Position, c: Color) -> int {
    choose|k: int| first_king(p, c, k)
}

/// A pseudo-legal move after which the mover's king is not attacked.
pub open spec fn legal(p: Position, m: Move) -> bool {
    pseudo_legal(p, m) && !attacked(
        spec_make_move(p, m),
        king_of(spec_make_move(p, m), p.side),
        p.side.spec_opp(),
    )
}


/// An en-passant capture never removes the capturing side's own king.
pub open spec fn ep_safe(p: Position) -> bool {
    p.ep is Some && 0 <= ep_victim(p.side, p.ep->0 as int) < 64 ==> !is_king_at(
        p,
        ep_victim(p.side, p.ep->0 as int),
        p.side,
    )
}

/// A position the move generator can work on: the side to move has a king,
/// an en-passant capture cannot take it, and the move clocks can still count.
pub open spec fn movegen_ready(p: Position) -> bool {
    &&& p.squares.len() == 64
    &&& has_king(p, p.side)
    &&& ep_safe(p)
    &&& p.halfmove < u16::MAX
    &&& p.fullmove < u16::MAX
}

} // verus!
