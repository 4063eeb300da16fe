//! The evaluation is colour-blind: mirroring the board (ranks flipped,
//! colours swapped, the other side to move) leaves the side-to-move score
//! unchanged.
use vstd::prelude::*;
use crate::board::{Color, Piece, PieceKind, Position};
use crate::eval::{
    file_pawns, file_structure, kind_count, own_pawn, placement_score, rook_bonus, shield_at,
    shield_from, spec_eval, spec_king_shield, spec_pst, square_score, structure_score, white_score,
};
use crate::legality::lemma_first_king_exists;
use crate::movegen::lemma_first_king_unique;
use crate::rules::{first_king, has_king, is_king_at, king_of};

verus! {

/// The square on the same file, on the mirrored rank.
pub open spec fn flip(s: int) -> int {
    (7 - s / 8) * 8 + s % 8
}

/// The same piece in the other colour.
pub open spec fn flip_piece(o: Option<Piece>) -> Option<Piece> {
    match o {
        Some(p) => Some(Piece { color: p.color.spec_opp(), kind: p.kind }),
        None => None,
    }
}

/// The position seen from the other side: ranks flipped, colours swapped,
/// the other side to move, castling rights and en-passant square mirrored.
pub open spec fn mirror(p: Position) -> Position {
    Position {
        squares: Seq::new(64, |s: int| flip_piece(p.squares[flip(s)])),
        side: p.side.spec_opp(),
        castling: ((p.castling % 4) * 4 + (p.castling / 4) % 4) as u8,
        ep: match p.ep {
            Some(e) => Some(flip(e as int) as u8),
            None => None,
        },
        halfmove: p.halfmove,
        fullmove: p.fullmove,
    }
}

/// At most one king of colour `c`.
pub open spec fn one_king(p: Position, c: Color) -> bool {
    forall|i: int, j: int| 0 <= i < 64 && 0 <= j < 64 && #[trigger] is_king_at(p, i, c) && #[trigger] is_king_at(p, j, c) ==> i == j
}

/// The sum of `f` over `0..n`.
pub open spec fn sum_to(f: spec_fn(int) -> int, n: int) -> int
    decreases n,
{
    if n <= 0 {
        0
    } else {
        sum_to(f, n - 1) + f(n - 1)
    }
}

proof fn lemma_flip(s: int)
    requires
        0 <= s < 64,
    ensures
        0 <= flip(s) < 64,
        flip(flip(s)) == s,
        flip(s) % 8 == s % 8,
        flip(s) / 8 == 7 - s / 8,
{
}

proof fn lemma_sum_ext(f: spec_fn(int) -> int, g: spec_fn(int) -> int, n: int)
    requires
        forall|s: int| 0 <= s < n ==> #[trigger] f(s) == g(s),
    ensures
        sum_to(f, n) == sum_to(g, n),
    decreases n,
{
    if n > 0 {
        lemma_sum_ext(f, g, n - 1);
    }
}

proof fn lemma_sum_neg(f: spec_fn(int) -> int, n: int)
    ensures
        sum_to(|s: int| -f(s), n) == -sum_to(f, n),
    decreases n,
{
    if n > 0 {
        lemma_sum_neg(f, n - 1);
    }
}

/// Summing over the board with the ranks flipped gives the same total.
proof fn lemma_sum_flip(f: spec_fn(int) -> int)
    ensures
        sum_to(|s: int| f(flip(s)), 64) == sum_to(f, 64),
{
    reveal_with_fuel(sum_to, 65);
}


proof fn lemma_placement_sum(sq: Seq<Option<Piece>>, n: int)
    ensures
        placement_score(sq, n) == sum_to(|s: int| square_score(sq, s), n),
    decreases n,
{
    if n > 0 {
        lemma_placement_sum(sq, n - 1);
    }
}

/// 1 for a `c` pawn on file `f`, else 0.
pub open spec fn pawn_on_file(sq: Seq<Option<Piece>>, c: Color, f: int, s: int) -> int {
    if s % 8 == f && own_pawn(sq[s], c) {
        1
    } else {
        0
    }
}

/// 1 for a piece of colour `c` and kind `k`, else 0.
pub open spec fn piece_is(sq: Seq<Option<Piece>>, c: Color, k: PieceKind, s: int) -> int {
    if sq[s] == Some(Piece { color: c, kind: k }) {
        1
    } else {
        0
    }
}

proof fn lemma_file_pawns_sum(sq: Seq<Option<Piece>>, c: Color, f: int, n: int)
    ensures
        file_pawns(sq, c, f, n) == sum_to(|s: int| pawn_on_file(sq, c, f, s), n),
    decreases n,
{
    if n > 0 {
        lemma_file_pawns_sum(sq, c, f, n - 1);
    }
}

proof fn lemma_kind_count_sum(sq: Seq<Option<Piece>>, c: Color, k: PieceKind, n: int)
    ensures
        kind_count(sq, c, k, n) == sum_to(|s: int| piece_is(sq, c, k, s), n),
    decreases n,
{
    if n > 0 {
        lemma_kind_count_sum(sq, c, k, n - 1);
    }
}

proof fn lemma_mirror_file_pawns(p: Position, c: Color, f: int)
    requires
        p.squares.len() == 64,
    ensures
        file_pawns(mirror(p).squares, c, f, 64) == file_pawns(p.squares, c.spec_opp(), f, 64),
{
    let m = mirror(p).squares;
    let sq = p.squares;
    lemma_file_pawns_sum(m, c, f, 64);
    lemma_file_pawns_sum(sq, c.spec_opp(), f, 64);
    let h = |t: int| pawn_on_file(sq, c.spec_opp(), f, t);
    assert forall|s: int| 0 <= s < 64 implies #[trigger] pawn_on_file(m, c, f, s) == (|t: int| h(flip(t)))(s) by {
        lemma_flip(s);
    }
    lemma_sum_ext(|s: int| pawn_on_file(m, c, f, s), |t: int| h(flip(t)), 64);
    lemma_sum_flip(h);
    lemma_sum_ext(h, |t: int| pawn_on_file(sq, c.spec_opp(), f, t), 64);
}

proof fn lemma_mirror_kind_count(p: Position, c: Color, k: PieceKind)
    requires
        p.squares.len() == 64,
    ensures
        kind_count(mirror(p).squares, c, k, 64) == kind_count(p.squares, c.spec_opp(), k, 64),
{
    let m = mirror(p).squares;
    let sq = p.squares;
    lemma_kind_count_sum(m, c, k, 64);
    lemma_kind_count_sum(sq, c.spec_opp(), k, 64);
    let h = |t: int| piece_is(sq, c.spec_opp(), k, t);
    assert forall|s: int| 0 <= s < 64 implies #[trigger] piece_is(m, c, k, s) == (|t: int| h(flip(t)))(s) by {
        lemma_flip(s);
    }
    lemma_sum_ext(|s: int| piece_is(m, c, k, s), |t: int| h(flip(t)), 64);
    lemma_sum_flip(h);
    lemma_sum_ext(h, |t: int| piece_is(sq, c.spec_opp(), k, t), 64);
}

/// Flipping the rank of a square is `^ 56` on its index.
proof fn lemma_flip_xor(s: int)
    requires
        0 <= s < 64,
    ensures
        (s as u8 ^ 56u8) as int == flip(s),
        (flip(s) as u8 ^ 56u8) as int == s,
{
    let b = s as u8;
    assert((b ^ 56u8) as int == (7 - b / 8) * 8 + b % 8) by (bit_vector)
        requires
            b < 64u8,
    ;
    lemma_flip(s);
    let c = flip(s) as u8;
    assert((c ^ 56u8) as int == (7 - c / 8) * 8 + c % 8) by (bit_vector)
        requires
            c < 64u8,
    ;
}

proof fn lemma_mirror_square(p: Position, s: int)
    requires
        p.squares.len() == 64,
        0 <= s < 64,
    ensures
        square_score(mirror(p).squares, s) == -square_score(p.squares, flip(s)),
{
    lemma_flip(s);
    lemma_flip_xor(s);
    let m = mirror(p).squares;
    match p.squares[flip(s)] {
        Some(pc) => {
            let pm = Piece { color: pc.color.spec_opp(), kind: pc.kind };
            assert(m[s] == Some(pm));
            lemma_mirror_file_pawns(p, pm.color, s % 8);
            lemma_mirror_file_pawns(p, pm.color.spec_opp(), s % 8);
            assert(pm.color.spec_opp() == pc.color);
            assert(rook_bonus(m, pm, s) == rook_bonus(p.squares, pc, flip(s)));
            assert(spec_pst(pm, s) == spec_pst(pc, flip(s)));
        },
        None => {},
    }
}

proof fn lemma_mirror_placement(p: Position)
    requires
        p.squares.len() == 64,
    ensures
        placement_score(mirror(p).squares, 64) == -placement_score(p.squares, 64),
{
    let m = mirror(p).squares;
    let sq = p.squares;
    lemma_placement_sum(m, 64);
    lemma_placement_sum(sq, 64);
    let h = |t: int| square_score(sq, t);
    assert forall|s: int| 0 <= s < 64 implies #[trigger] square_score(m, s) == (|t: int| -h(flip(t)))(s) by {
        lemma_mirror_square(p, s);
    }
    lemma_sum_ext(|s: int| square_score(m, s), |t: int| -h(flip(t)), 64);
    lemma_sum_neg(|t: int| h(flip(t)), 64);
    lemma_sum_ext(|t: int| -h(flip(t)), |t: int| -(|u: int| h(flip(u)))(t), 64);
    lemma_sum_flip(h);
    lemma_sum_ext(h, |t: int| square_score(sq, t), 64);
}

proof fn lemma_mirror_structure(p: Position)
    requires
        p.squares.len() == 64,
    ensures
        structure_score(mirror(p).squares, 8) == -structure_score(p.squares, 8),
{
    let m = mirror(p).squares;
    assert forall|f: int| 0 <= f < 8 implies #[trigger] file_structure(m, f) == -file_structure(p.squares, f) by {
        lemma_mirror_file_pawns(p, Color::White, f);
        lemma_mirror_file_pawns(p, Color::Black, f);
        lemma_mirror_file_pawns(p, Color::White, f - 1);
        lemma_mirror_file_pawns(p, Color::Black, f - 1);
        lemma_mirror_file_pawns(p, Color::White, f + 1);
        lemma_mirror_file_pawns(p, Color::Black, f + 1);
    }
    reveal_with_fuel(structure_score, 9);
}

proof fn lemma_flip_row(r: int, f: int)
    requires
        0 <= r < 8,
        0 <= f < 8,
    ensures
        flip((7 - r) * 8 + f) == r * 8 + f,
{
    assert(((7 - r) * 8 + f) / 8 == 7 - r);
    assert(((7 - r) * 8 + f) % 8 == f);
}

proof fn lemma_mirror_cell(p: Position, c: Color, k: int, df: int, dr: int)
    requires
        p.squares.len() == 64,
        0 <= k < 64,
        -1 <= df <= 1,
        1 <= dr <= 2,
    ensures
        shield_at(mirror(p).squares, c, flip(k) % 8, flip(k) / 8, df, dr) == shield_at(
            p.squares,
            c.spec_opp(),
            k % 8,
            k / 8,
            df,
            dr,
        ),
{
    lemma_flip(k);
    let f = k % 8 + df;
    let r = if c.spec_opp() == Color::White {
        k / 8 + dr
    } else {
        k / 8 - dr
    };
    if 0 <= f < 8 && 0 <= r < 8 {
        lemma_flip_row(r, f);
        let s = (7 - r) * 8 + f;
        assert(mirror(p).squares[s] == flip_piece(p.squares[r * 8 + f]));
    }
}

proof fn lemma_mirror_shield(p: Position, c: Color)
    requires
        p.squares.len() == 64,
        one_king(p, c.spec_opp()),
    ensures
        spec_king_shield(mirror(p), c) == spec_king_shield(p, c.spec_opp()),
{
    let mp = mirror(p);
    let oc = c.spec_opp();
    assert forall|i: int| 0 <= i < 64 implies #[trigger] is_king_at(mp, i, c) == is_king_at(p, flip(i), oc) by {
        lemma_flip(i);
    }
    if has_king(p, oc) {
        let w = choose|i: int| 0 <= i < 64 && #[trigger] is_king_at(p, i, oc);
        lemma_first_king_exists(p, oc, w);
        let k = king_of(p, oc);
        lemma_flip(k);
        assert(is_king_at(mp, flip(k), c));
        assert forall|j: int| 0 <= j < flip(k) implies !#[trigger] is_king_at(mp, j, c) by {
            if is_king_at(mp, j, c) {
                lemma_flip(j);
                assert(is_king_at(p, flip(j), oc));
                assert(flip(j) == k);
                assert(flip(flip(j)) == j);
            }
        }
        assert(first_king(mp, c, flip(k)));
        lemma_first_king_exists(mp, c, flip(k));
        lemma_first_king_unique(mp, c, king_of(mp, c), flip(k));
        assert(has_king(mp, c));
        lemma_mirror_cell(p, c, k, -1, 1);
        lemma_mirror_cell(p, c, k, -1, 2);
        lemma_mirror_cell(p, c, k, 0, 1);
        lemma_mirror_cell(p, c, k, 0, 2);
        lemma_mirror_cell(p, c, k, 1, 1);
        lemma_mirror_cell(p, c, k, 1, 2);
        assert(shield_from(mp.squares, c, flip(k)) == shield_from(p.squares, oc, k));
    } else {
        if has_king(mp, c) {
            let w = choose|i: int| 0 <= i < 64 && #[trigger] is_king_at(mp, i, c);
            assert(is_king_at(p, flip(w), oc));
            lemma_flip(w);
        }
    }
}

/// The evaluation is colour-blind: with one king of each colour, the board
/// mirrored (ranks flipped, colours swapped, the other side to move) scores
/// the same for the side to move.
pub proof fn law_eval_mirror(p: Position)
    requires
        p.squares.len() == 64,
        one_king(p, Color::White),
        one_king(p, Color::Black),
    ensures
        spec_eval(mirror(p)) == spec_eval(p),
{
    let mp = mirror(p);
    lemma_mirror_placement(p);
    lemma_mirror_structure(p);
    lemma_mirror_kind_count(p, Color::White, PieceKind::Bishop);
    lemma_mirror_kind_count(p, Color::Black, PieceKind::Bishop);
    lemma_mirror_shield(p, Color::White);
    lemma_mirror_shield(p, Color::Black);
    assert(white_score(mp) == -white_score(p));
}

/// The evaluation reads only the squares and the side to move.
proof fn lemma_eval_reads_board(q: Position, q2: Position)
    requires
        q.squares == q2.squares,
        q.side == q2.side,
        q.squares.len() == 64,
    ensures
        spec_eval(q) == spec_eval(q2),
{
    assert forall|c: Color| #[trigger] spec_king_shield(q, c) == spec_king_shield(q2, c) by {
        assert forall|i: int| 0 <= i < 64 implies #[trigger] is_king_at(q, i, c) == is_king_at(q2, i, c) by {}
        if has_king(q, c) {
            let w = choose|i: int| 0 <= i < 64 && #[trigger] is_king_at(q, i, c);
            lemma_first_king_exists(q, c, w);
            assert(is_king_at(q2, w, c));
            lemma_first_king_exists(q2, c, w);
            let k = king_of(q, c);
            assert(is_king_at(q2, k, c));
            assert forall|j: int| 0 <= j < k implies !#[trigger] is_king_at(q2, j, c) by {
                assert(!is_king_at(q, j, c));
            }
            assert(first_king(q2, c, k));
            lemma_first_king_unique(q2, c, king_of(q2, c), k);
        } else {
            if has_king(q2, c) {
                let w = choose|i: int| 0 <= i < 64 && #[trigger] is_king_at(q2, i, c);
                assert(is_king_at(q, w, c));
            }
        }
    }
}

/// The evaluation is colour-blind, for any board laid out as the mirror of
/// `p` (whatever its castling rights and en-passant square): with one king of
/// each colour on `p`, the side-to-move score is the same.
pub proof fn law_eval_colour_blind(p: Position, q: Position)
    requires
        p.squares.len() == 64,
        q.squares.len() == 64,
        one_king(p, Color::White),
        one_king(p, Color::Black),
        forall|s: int| 0 <= s < 64 ==> q.squares[flip(s)] == #[trigger] flip_piece(p.squares[s]),
        q.side == p.side.spec_opp(),
    ensures
        spec_eval(q) == spec_eval(p),
{
    let m = mirror(p);
    assert forall|t: int| 0 <= t < 64 implies #[trigger] q.squares[t] == m.squares[t] by {
        lemma_flip(t);
        assert(flip_piece(p.squares[flip(t)]) == q.squares[flip(flip(t))]);
    }
    assert(q.squares =~= m.squares);
    lemma_eval_reads_board(q, m);
    law_eval_mirror(p);
}
} // verus!
