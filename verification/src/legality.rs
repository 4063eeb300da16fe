//! Facts about legal play that the search and the game room rely on: from a
//! playable position, every legal move leads to a playable position, and a
//! capture always takes something off the board; and the run-time checks
//! that a board is one play can go on from.
use vstd::prelude::*;
use crate::board::{
    can_make, castle_rook_from, castle_rook_to, ep_victim, spec_make_move, Board, Color, Flag, Move,
    Piece, PieceKind, Position,
};
use crate::movegen::{
    is_attacked, king_square, lemma_first_king_unique, lemma_index_coords, lemma_king_survives,
    lemma_square_coords,
};
use crate::rules::{
    attacked, attacks_from, first_king, has_king, home_rank, is_king_at, king_of, legal,
    movegen_ready, pseudo_legal,
};

verus! {

/// No king stands on the square an en-passant capture would empty.
pub open spec fn ep_clear(p: Position) -> bool {
    p.ep is Some && 0 <= ep_victim(p.side, p.ep->0 as int) < 64 ==> !(p.squares[ep_victim(
        p.side,
        p.ep->0 as int,
    )] is Some && p.squares[ep_victim(p.side, p.ep->0 as int)]->0.kind == PieceKind::King)
}

/// A position play can continue from: the move generator can run, both kings
/// are on the board, the side that just moved is not in check, and no king
/// stands where an en-passant capture would remove a pawn.
pub open spec fn playable(p: Position) -> bool {
    &&& movegen_ready(p)
    &&& has_king(p, p.side.spec_opp())
    &&& !attacked(p, king_of(p, p.side.spec_opp()), p.side)
    &&& ep_clear(p)
}

/// Whether `m` takes something: its destination is occupied, or it captures
/// en passant.
pub open spec fn takes(p: Position, m: Move) -> bool {
    p.squares[m.to as int] is Some || m.flag == Flag::EnPassant
}

/// Every king has a lowest-indexed square.
pub proof fn lemma_first_king_exists(p: Position, c: Color, i: int)
    requires
        0 <= i < 64,
        is_king_at(p, i, c),
    ensures
        first_king(p, c, king_of(p, c)),
    decreases i,
{
    if exists|j: int| 0 <= j < i && #[trigger] is_king_at(p, j, c) {
        let j = choose|j: int| 0 <= j < i && #[trigger] is_king_at(p, j, c);
        lemma_first_king_exists(p, c, j);
    } else {
        assert(first_king(p, c, i));
    }
}

pub proof fn lemma_king_of(p: Position, c: Color)
    requires
        has_king(p, c),
    ensures
        first_king(p, c, king_of(p, c)),
{
    let i = choose|i: int| 0 <= i < 64 && #[trigger] is_king_at(p, i, c);
    lemma_first_king_exists(p, c, i);
}

/// A pseudo-legal move onto an occupied square (not en passant) attacks it.
pub proof fn lemma_capture_attacks(p: Position, m: Move)
    requires
        pseudo_legal(p, m),
        p.squares[m.to as int] is Some,
        m.flag != Flag::EnPassant,
    ensures
        attacked(p, m.to as int, p.side),
{
    let a = m.from as int;
    let pc = p.squares[a]->0;
    assert(attacks_from(p, pc, a % 8, a / 8, (m.to as int) % 8, (m.to as int) / 8));
    assert(p.squares[a] is Some);
}

/// A legal move from a playable position leaves the opponent's first king in
/// place.
pub proof fn lemma_enemy_king_survives(p: Position, m: Move)
    requires
        playable(p),
        legal(p, m),
    ensures
        has_king(spec_make_move(p, m), p.side.spec_opp()),
        can_make(p, m),
{
    lemma_king_survives(p, m);
    lemma_index_coords(m.from as int);
    lemma_index_coords(m.to as int);
    let e = p.side.spec_opp();
    lemma_king_of(p, e);
    let k = king_of(p, e);
    let q = spec_make_move(p, m);
    let mover = p.squares[m.from as int]->0;
    assert(m.from as int != k);
    assert(m.to as int != k) by {
        if m.to as int == k {
            assert(p.squares[m.to as int] is Some);
            if m.flag != Flag::EnPassant {
                lemma_capture_attacks(p, m);
            }
        }
    }
    if m.flag == Flag::Castle {
        let r = home_rank(p.side);
        lemma_square_coords(7, r);
        lemma_square_coords(5, r);
        lemma_square_coords(0, r);
        lemma_square_coords(3, r);
        lemma_square_coords(4, r);
        lemma_square_coords(6, r);
        lemma_square_coords(2, r);
    }
    let s1 = if m.flag == Flag::EnPassant {
        p.squares.update(ep_victim(mover.color, m.to as int), None)
    } else {
        p.squares
    };
    assert(s1[k] == p.squares[k]);
    let s2 = if m.flag == Flag::Castle {
        s1.update(castle_rook_to(m), s1[castle_rook_from(m)]).update(castle_rook_from(m), None)
    } else {
        s1
    };
    assert(s2[k] == p.squares[k]);
    assert(q.squares[k] == p.squares[k]);
    assert(is_king_at(q, k, e));
}

/// From a playable position, a legal move leads to a playable position, as
/// long as the move clocks can still count.
pub proof fn lemma_playable_next(p: Position, m: Move)
    requires
        playable(p),
        legal(p, m),
        p.halfmove + 1 < u16::MAX || takes(p, m),
        p.fullmove + 1 < u16::MAX,
    ensures
        playable(spec_make_move(p, m)),
        spec_make_move(p, m).fullmove <= p.fullmove + 1,
        spec_make_move(p, m).halfmove <= p.halfmove + 1,
        takes(p, m) ==> spec_make_move(p, m).halfmove == 0,
{
    lemma_enemy_king_survives(p, m);
    lemma_king_survives(p, m);
    lemma_index_coords(m.from as int);
    lemma_index_coords(m.to as int);
    let q = spec_make_move(p, m);
    let mover = p.squares[m.from as int]->0;
    if m.flag == Flag::DoublePush {
        let ep = ep_victim(mover.color.spec_opp(), m.from as int);
        assert(q.ep == Some(ep as u8));
        assert(0 <= ep < 256);
        assert((ep as u8) as int == ep);
        assert(ep_victim(q.side, ep) == m.to as int);
        assert(q.squares[m.to as int] == Some(mover));
    }
    assert(q.squares.len() == 64);
    assert(has_king(q, q.side));
    assert(movegen_ready(q));
    assert(q.side.spec_opp() == p.side);
    assert(has_king(q, q.side.spec_opp()));
    assert(!attacked(q, king_of(q, q.side.spec_opp()), q.side));
    assert(ep_clear(q));
}


/// Number of occupied squares.
pub open spec fn piece_count(s: Seq<Option<Piece>>) -> nat
    decreases s.len(),
{
    if s.len() == 0 {
        0
    } else {
        piece_count(s.drop_last()) + (if s.last() is Some {
            1nat
        } else {
            0nat
        })
    }
}

/// Shrinks with every capture: twice the pieces on the board, plus one while
/// an en-passant target is set.
pub open spec fn capture_measure(p: Position) -> nat {
    2 * piece_count(p.squares) + (if p.ep is Some {
        1nat
    } else {
        0nat
    })
}

proof fn lemma_count_update(s: Seq<Option<Piece>>, i: int, x: Option<Piece>)
    requires
        0 <= i < s.len(),
    ensures
        piece_count(s.update(i, x)) + (if s[i] is Some {
            1int
        } else {
            0int
        }) == piece_count(s) + (if x is Some {
            1int
        } else {
            0int
        }),
    decreases s.len(),
{
    if i == s.len() - 1 {
        assert(s.update(i, x).drop_last() =~= s.drop_last());
    } else {
        lemma_count_update(s.drop_last(), i, x);
        assert(s.update(i, x).drop_last() =~= s.drop_last().update(i, x));
    }
}

pub proof fn lemma_count_le(s: Seq<Option<Piece>>)
    ensures
        piece_count(s) <= s.len(),
    decreases s.len(),
{
    if s.len() > 0 {
        lemma_count_le(s.drop_last());
    }
}

/// A capture takes something off the board, or at least uses up the
/// en-passant target.
pub proof fn lemma_capture_shrinks(p: Position, m: Move)
    requires
        movegen_ready(p),
        legal(p, m),
        takes(p, m),
    ensures
        capture_measure(spec_make_move(p, m)) < capture_measure(p),
{
    lemma_king_survives(p, m);
    lemma_index_coords(m.from as int);
    lemma_index_coords(m.to as int);
    let q = spec_make_move(p, m);
    let mover = p.squares[m.from as int]->0;
    if m.flag == Flag::Castle {
        let r = home_rank(p.side);
        lemma_square_coords(6, r);
        lemma_square_coords(2, r);
        assert(false);
    }
    let s1 = if m.flag == Flag::EnPassant {
        p.squares.update(ep_victim(mover.color, m.to as int), None)
    } else {
        p.squares
    };
    if m.flag == Flag::EnPassant {
        lemma_count_update(p.squares, ep_victim(mover.color, m.to as int), None);
        assert(s1[m.from as int] == p.squares[m.from as int]);
        assert(s1[m.to as int] is None);
    }
    assert(piece_count(s1) <= piece_count(p.squares));
    let t = s1.update(m.from as int, None);
    lemma_count_update(s1, m.from as int, None);
    lemma_count_update(t, m.to as int, Some(crate::board::placed_piece(mover, m)));
    assert(q.squares == t.update(m.to as int, Some(crate::board::placed_piece(mover, m))));
}

/// Attacks and kings depend on the squares only.
pub proof fn lemma_same_squares(p: Position, q: Position, c: Color, by: Color)
    requires
        p.squares == q.squares,
        has_king(p, c),
    ensures
        has_king(q, c),
        king_of(q, c) == king_of(p, c),
        attacked(q, king_of(q, c), by) == attacked(p, king_of(p, c), by),
{
    lemma_king_of(p, c);
    let k = king_of(p, c);
    assert forall|j: int| #[trigger] is_king_at(q, j, c) == is_king_at(p, j, c) by {}
    assert(first_king(q, c, k));
    assert(has_king(q, c));
    lemma_king_of(q, c);
    crate::movegen::lemma_first_king_unique(q, c, k, king_of(q, c));
    assert forall|f: int, r: int| #[trigger] crate::rules::piece_at(p, f, r) == crate::rules::piece_at(q, f, r) by {}
    assert forall|f: int, r: int, df: int, dr: int, n: int|
        #[trigger] crate::rules::clear_path(p, f, r, df, dr, n) == crate::rules::clear_path(q, f, r, df, dr, n) by {
        if crate::rules::clear_path(p, f, r, df, dr, n) {
            assert forall|j: int| 1 <= j < n implies (#[trigger] crate::rules::piece_at(q, crate::rules::stepn(f, df, j), crate::rules::stepn(r, dr, j))) is None by {
                assert(crate::rules::piece_at(p, crate::rules::stepn(f, df, j), crate::rules::stepn(r, dr, j)) is None);
            }
        }
        if crate::rules::clear_path(q, f, r, df, dr, n) {
            assert forall|j: int| 1 <= j < n implies (#[trigger] crate::rules::piece_at(p, crate::rules::stepn(f, df, j), crate::rules::stepn(r, dr, j))) is None by {
                assert(crate::rules::piece_at(q, crate::rules::stepn(f, df, j), crate::rules::stepn(r, dr, j)) is None);
            }
        }
    }
    assert forall|a: int, pc: Piece| #[trigger] attacks_from(p, pc, a % 8, a / 8, k % 8, k / 8) == attacks_from(q, pc, a % 8, a / 8, k % 8, k / 8) by {
        assert forall|df: int, dr: int| #[trigger] crate::rules::ray_to(p, a % 8, a / 8, df, dr, k % 8, k / 8) == crate::rules::ray_to(q, a % 8, a / 8, df, dr, k % 8, k / 8) by {
            let f = a % 8;
            let r = a / 8;
            let tf = k % 8;
            let tr = k / 8;
            if crate::rules::ray_to(p, f, r, df, dr, tf, tr) {
                let n = choose|n: int| 1 <= n && tf == crate::rules::stepn(f, df, n) && tr == crate::rules::stepn(r, dr, n) && #[trigger] crate::rules::clear_path(p, f, r, df, dr, n);
                assert(crate::rules::clear_path(q, f, r, df, dr, n));
            }
            if crate::rules::ray_to(q, f, r, df, dr, tf, tr) {
                let n = choose|n: int| 1 <= n && tf == crate::rules::stepn(f, df, n) && tr == crate::rules::stepn(r, dr, n) && #[trigger] crate::rules::clear_path(q, f, r, df, dr, n);
                assert(crate::rules::clear_path(p, f, r, df, dr, n));
            }
        }
        assert forall|diagonal: bool| #[trigger] crate::rules::slides_to(p, a % 8, a / 8, k % 8, k / 8, diagonal) == crate::rules::slides_to(q, a % 8, a / 8, k % 8, k / 8, diagonal) by {
            let f = a % 8;
            let r = a / 8;
            let tf = k % 8;
            let tr = k / 8;
            if crate::rules::slides_to(p, f, r, tf, tr, diagonal) {
                let (df, dr) = choose|df: int, dr: int| (if diagonal { crate::rules::diag_dir(df, dr) } else { crate::rules::orth_dir(df, dr) }) && #[trigger] crate::rules::ray_to(p, f, r, df, dr, tf, tr);
                assert(crate::rules::ray_to(q, f, r, df, dr, tf, tr));
            }
            if crate::rules::slides_to(q, f, r, tf, tr, diagonal) {
                let (df, dr) = choose|df: int, dr: int| (if diagonal { crate::rules::diag_dir(df, dr) } else { crate::rules::orth_dir(df, dr) }) && #[trigger] crate::rules::ray_to(q, f, r, df, dr, tf, tr);
                assert(crate::rules::ray_to(p, f, r, df, dr, tf, tr));
            }
        }
        assert(crate::rules::slides_to(p, a % 8, a / 8, k % 8, k / 8, true) == crate::rules::slides_to(q, a % 8, a / 8, k % 8, k / 8, true));
        assert(crate::rules::slides_to(p, a % 8, a / 8, k % 8, k / 8, false) == crate::rules::slides_to(q, a % 8, a / 8, k % 8, k / 8, false));
    }
    if attacked(p, k, by) {
        let a = choose|a: int| 0 <= a < 64 && (#[trigger] p.squares[a]) is Some && p.squares[a]->0.color == by
            && attacks_from(p, p.squares[a]->0, a % 8, a / 8, k % 8, k / 8);
        assert(q.squares[a] == p.squares[a]);
        assert(attacks_from(q, q.squares[a]->0, a % 8, a / 8, k % 8, k / 8));
    }
    if attacked(q, k, by) {
        let a = choose|a: int| 0 <= a < 64 && (#[trigger] q.squares[a]) is Some && q.squares[a]->0.color == by
            && attacks_from(q, q.squares[a]->0, a % 8, a / 8, k % 8, k / 8);
        assert(q.squares[a] == p.squares[a]);
        assert(attacks_from(p, p.squares[a]->0, a % 8, a / 8, k % 8, k / 8));
    }
}


// ---------------------------------------------------------------------------
// Checking a board at run time
// ---------------------------------------------------------------------------

/// The square an en-passant capture would empty, if it is on the board.
fn ep_victim_square(b: &Board) -> (r: Option<usize>)
    ensures
        r matches Some(v) ==> b@.ep is Some && v as int == ep_victim(b@.side, b@.ep->0 as int) && v < 64,
        r is None ==> !(b@.ep is Some && 0 <= ep_victim(b@.side, b@.ep->0 as int) < 64),
{
    match b.ep {
        None => None,
        Some(e) => {
            let v: i32 = if b.side == Color::White {
                e as i32 - 8
            } else {
                e as i32 + 8
            };
            if 0 <= v && v < 64 {
                Some(v as usize)
            } else {
                None
            }
        },
    }
}

fn king_on_board(b: &Board, c: Color) -> (r: bool)
    ensures
        r == has_king(b@, c),
{
    let mut i: usize = 0;
    while i < 64
        invariant
            i <= 64,
            forall|j: int| 0 <= j < i ==> !#[trigger] is_king_at(b@, j, c),
        decreases 64 - i,
    {
        if let Some(p) = b.squares[i] {
            if p.color == c && p.kind == PieceKind::King {
                proof {
                    assert(is_king_at(b@, i as int, c));
                }
                return true;
            }
        }
        i = i + 1;
    }
    false
}

/// Whether the move generator can work on `b`.
pub fn movegen_ok(b: &Board) -> (r: bool)
    ensures
        r == movegen_ready(b@),
{
    if !king_on_board(b, b.side) || b.halfmove == u16::MAX || b.fullmove == u16::MAX {
        return false;
    }
    match ep_victim_square(b) {
        Some(v) => match b.squares[v] {
            Some(p) => !(p.color == b.side && p.kind == PieceKind::King),
            None => true,
        },
        None => true,
    }
}

/// Whether play can continue from `b` (see `playable`).
pub fn playable_ok(b: &Board) -> (r: bool)
    ensures
        r == playable(b@),
{
    if !movegen_ok(b) {
        return false;
    }
    let opp = b.side.opp();
    if !king_on_board(b, opp) {
        return false;
    }
    let k = king_square(b, opp);
    proof {
        lemma_king_of(b@, opp);
        lemma_first_king_unique(b@, opp, k as int, king_of(b@, opp));
    }
    if is_attacked(b, k, b.side) {
        return false;
    }
    match ep_victim_square(b) {
        Some(v) => match b.squares[v] {
            Some(p) => p.kind != PieceKind::King,
            None => true,
        },
        None => true,
    }
}

} // verus!
