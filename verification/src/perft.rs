//! Perft — the move-generation correctness gate.
//!
//! `perft(depth)` counts the leaf nodes of the legal-move tree to a fixed
//! depth. Matching the well-known reference counts is strong evidence the
//! move generator (including castling, en passant, promotions, and pins) is
//! correct.
use vstd::prelude::*;
use crate::board::{spec_make_move, Board, Move, Position};
use crate::movegen::{generate_legal, lemma_king_survives, legal_seq};
use crate::rules::{legal, movegen_ready};

verus! {

/// `s` lists every legal move of `p` exactly once.
pub open spec fn lists_legal(p: Position, s: Seq<Move>) -> bool {
    s.no_duplicates() && forall|m: Move| s.contains(m) <==> legal(p, m)
}

/// The legal moves of `p`, in some order, each once.
pub open spec fn legal_list(p: Position) -> Seq<Move> {
    choose|s: Seq<Move>| lists_legal(p, s)
}

/// Leaf count of the legal-move tree of `p` to depth `d`.
pub open spec fn spec_perft(p: Position, d: nat) -> nat
    decreases d, 0nat,
{
    if d == 0 {
        1
    } else {
        perft_sum(p, legal_list(p), (d - 1) as nat)
    }
}

/// Sum of the depth-`e` leaf counts below each of the moves `ms` of `p`.
pub open spec fn perft_sum(p: Position, ms: Seq<Move>, e: nat) -> nat
    decreases e, ms.len() + 1,
{
    if ms.len() == 0 {
        0
    } else {
        perft_sum(p, ms.drop_last(), e) + spec_perft(spec_make_move(p, ms.last()), e)
    }
}

/// Every position reached within `d - 1` legal plies can generate moves.
pub open spec fn perft_ready(p: Position, d: nat) -> bool
    decreases d,
{
    d == 0 || (movegen_ready(p) && (d == 1 || forall|m: Move|
        legal(p, m) ==> perft_ready(#[trigger] spec_make_move(p, m), (d - 1) as nat)))
}

proof fn lemma_sum_remove(p: Position, t: Seq<Move>, j: int, e: nat)
    requires
        0 <= j < t.len(),
    ensures
        perft_sum(p, t, e) == perft_sum(p, t.remove(j), e) + spec_perft(spec_make_move(p, t[j]), e),
    decreases t.len(),
{
    if j == t.len() - 1 {
        assert(t.remove(j) =~= t.drop_last());
    } else {
        lemma_sum_remove(p, t.drop_last(), j, e);
        assert(t.remove(j).drop_last() =~= t.drop_last().remove(j));
        assert(t.remove(j).last() == t.last());
    }
}

/// The sum over the moves does not depend on the order they are listed in.
proof fn lemma_sum_perm(p: Position, s: Seq<Move>, t: Seq<Move>, e: nat)
    requires
        s.no_duplicates(),
        t.no_duplicates(),
        forall|m: Move| s.contains(m) <==> t.contains(m),
    ensures
        perft_sum(p, s, e) == perft_sum(p, t, e),
    decreases s.len(),
{
    if s.len() == 0 {
        if t.len() > 0 {
            assert(t.contains(t[0]));
        }
    } else {
        let x = s.last();
        assert(s.contains(x));
        let j = choose|j: int| 0 <= j < t.len() && t[j] == x;
        lemma_sum_remove(p, t, j, e);
        let s2 = s.drop_last();
        let t2 = t.remove(j);
        assert forall|m: Move| s2.contains(m) <==> t2.contains(m) by {
            if s2.contains(m) {
                let i = choose|i: int| 0 <= i < s2.len() && s2[i] == m;
                assert(s[i] == m);
                assert(m != x);
                assert(t.contains(m));
                let k = choose|k: int| 0 <= k < t.len() && t[k] == m;
                if k < j {
                    assert(t2[k] == m);
                } else {
                    assert(t2[k - 1] == m);
                }
            }
            if t2.contains(m) {
                let i = choose|i: int| 0 <= i < t2.len() && t2[i] == m;
                if i < j {
                    assert(t[i] == m);
                } else {
                    assert(t[i + 1] == m);
                }
                assert(m != x);
                assert(s.contains(m));
                let k = choose|k: int| 0 <= k < s.len() && s[k] == m;
                assert(s2[k] == m);
            }
        }
        assert(t2.no_duplicates()) by {
            assert forall|a: int, b: int| 0 <= a < t2.len() && 0 <= b < t2.len() && a != b implies t2[a]
                != t2[b] by {
                let a1 = if a < j {
                    a
                } else {
                    a + 1
                };
                let b1 = if b < j {
                    b
                } else {
                    b + 1
                };
                assert(t2[a] == t[a1]);
                assert(t2[b] == t[b1]);
            }
        }
        lemma_sum_perm(p, s2, t2, e);
    }
}

proof fn lemma_sum_prefix(p: Position, ms: Seq<Move>, i: int, e: nat)
    requires
        0 <= i < ms.len(),
    ensures
        perft_sum(p, ms.subrange(0, i + 1), e) == perft_sum(p, ms.subrange(0, i), e) + spec_perft(
            spec_make_move(p, ms[i]),
            e,
        ),
{
    assert(ms.subrange(0, i + 1).drop_last() =~= ms.subrange(0, i));
}

/// Perft splits over the first ply: for any listing of the legal moves, each
/// once, the leaf count to `d + 1` is the sum of the counts to `d` below them.
pub proof fn law_perft_splits(p: Position, s: Seq<Move>, d: nat)
    requires
        lists_legal(p, s),
    ensures
        spec_perft(p, d + 1) == perft_sum(p, s, d),
{
    let l = legal_list(p);
    assert(lists_legal(p, l));
    lemma_sum_perm(p, l, s, d);
}

/// The sum of the counts of a divide listing.
pub open spec fn divide_total(s: Seq<(Move, u64)>) -> nat
    decreases s.len(),
{
    if s.len() == 0 {
        0
    } else {
        divide_total(s.drop_last()) + s.last().1 as nat
    }
}

/// Count legal-move-tree leaf nodes at the given `depth`.
pub fn perft(b: &Board, depth: u32) -> (nodes: u64)
    requires
        perft_ready(b@, depth as nat),
        spec_perft(b@, depth as nat) <= u64::MAX,
    ensures
        nodes == spec_perft(b@, depth as nat),
    decreases depth,
{
    if depth == 0 {
        return 1;
    }
    let ghost p = b@;
    let moves = generate_legal(b);
    proof {
        assert(lists_legal(p, moves@));
        lemma_sum_perm(p, legal_list(p), moves@, (depth - 1) as nat);
    }
    if depth == 1 {
        proof {
            assert forall|i: int| 0 <= i <= moves@.len() implies perft_sum(p, moves@.subrange(0, i), 0)
                == i by {
                if i > 0 {
                    lemma_sum_prefix_ones(p, moves@, i);
                }
            }
            assert(moves@.subrange(0, moves@.len() as int) =~= moves@);
        }
        return moves.len() as u64;
    }
    let mut nodes: u64 = 0;
    let mut i: usize = 0;
    while i < moves.len()
        invariant
            p == b@,
            depth >= 2,
            i <= moves@.len(),
            lists_legal(p, moves@),
            perft_ready(p, depth as nat),
            spec_perft(p, depth as nat) <= u64::MAX,
            spec_perft(p, depth as nat) == perft_sum(p, moves@, (depth - 1) as nat),
            nodes == perft_sum(p, moves@.subrange(0, i as int), (depth - 1) as nat),
        decreases moves@.len() - i,
    {
        let m = moves[i];
        proof {
            assert(moves@.contains(m));
            lemma_king_survives(p, m);
            lemma_sum_prefix(p, moves@, i as int, (depth - 1) as nat);
            lemma_sum_prefix_le(p, moves@, i as int + 1, (depth - 1) as nat);
        }
        let mut nb = *b;
        nb.make_move(m);
        let n = perft(&nb, depth - 1);
        nodes = nodes + n;
        i = i + 1;
    }
    proof {
        assert(moves@.subrange(0, moves@.len() as int) =~= moves@);
    }
    nodes
}

proof fn lemma_sum_prefix_ones(p: Position, ms: Seq<Move>, i: int)
    requires
        0 < i <= ms.len(),
    ensures
        perft_sum(p, ms.subrange(0, i), 0) == i,
    decreases i,
{
    assert(ms.subrange(0, i).drop_last() =~= ms.subrange(0, i - 1));
    assert(spec_perft(spec_make_move(p, ms.subrange(0, i).last()), 0) == 1);
    if i > 1 {
        lemma_sum_prefix_ones(p, ms, i - 1);
    } else {
        assert(perft_sum(p, ms.subrange(0, 0), 0) == 0);
    }
    assert(perft_sum(p, ms.subrange(0, i - 1), 0) == i - 1);
}

/// A prefix sums to no more than the whole list.
proof fn lemma_sum_prefix_le(p: Position, ms: Seq<Move>, i: int, e: nat)
    requires
        0 <= i <= ms.len(),
    ensures
        perft_sum(p, ms.subrange(0, i), e) <= perft_sum(p, ms, e),
        i < ms.len() ==> spec_perft(spec_make_move(p, ms[i]), e) <= perft_sum(p, ms, e),
    decreases ms.len() - i,
{
    if i < ms.len() {
        lemma_sum_prefix(p, ms, i, e);
        lemma_sum_prefix_le(p, ms, i + 1, e);
    } else {
        assert(ms.subrange(0, i) =~= ms);
    }
}

/// Perft split by first move — the standard debugging aid for locating a
/// discrepancy (compare per-move subtotals against a reference engine).
pub fn perft_divide(b: &Board, depth: u32) -> (out: Vec<(Move, u64)>)
    requires
        movegen_ready(b@),
        perft_ready(b@, depth as nat),
        depth >= 2 ==> forall|m: Move|
            legal(b@, m) ==> #[trigger] spec_perft(spec_make_move(b@, m), (depth - 1) as nat)
                <= u64::MAX,
    ensures
        forall|m: Move| (exists|i: int| 0 <= i < out@.len() && out@[i].0 == m) <==> legal(b@, m),
        forall|i: int, j: int| 0 <= i < j < out@.len() ==> out@[i].0 != out@[j].0,
        forall|i: int|
            0 <= i < out@.len() ==> out@[i].1 == if depth <= 1 {
                1
            } else {
                spec_perft(spec_make_move(b@, out@[i].0), (depth - 1) as nat)
            },
        depth >= 1 ==> divide_total(out@) == spec_perft(b@, depth as nat),
        out@.len() == legal_seq(b@).len(),
        forall|i: int| 0 <= i < out@.len() ==> (#[trigger] out@[i]).0 == legal_seq(b@)[i],
{
    let ghost p = b@;
    let moves = generate_legal(b);
    let mut out: Vec<(Move, u64)> = Vec::new();
    let mut i: usize = 0;
    while i < moves.len()
        invariant
            p == b@,
            i <= moves@.len(),
            out@.len() == i,
            lists_legal(p, moves@),
            movegen_ready(p),
            perft_ready(p, depth as nat),
            depth >= 2 ==> forall|m: Move|
                legal(p, m) ==> #[trigger] spec_perft(spec_make_move(p, m), (depth - 1) as nat)
                    <= u64::MAX,
            forall|k: int| 0 <= k < i ==> out@[k].0 == moves@[k],
            forall|k: int|
                0 <= k < i ==> out@[k].1 == if depth <= 1 {
                    1
                } else {
                    spec_perft(spec_make_move(p, out@[k].0), (depth - 1) as nat)
                },
            depth >= 1 ==> divide_total(out@) == perft_sum(p, moves@.subrange(0, i as int), (depth - 1) as nat),
        decreases moves@.len() - i,
    {
        let m = moves[i];
        proof {
            assert(moves@.contains(m));
            lemma_king_survives(p, m);
        }
        let mut nb = *b;
        nb.make_move(m);
        let n = if depth <= 1 {
            1
        } else {
            perft(&nb, depth - 1)
        };
        let ghost before = out@;
        out.push((m, n));
        proof {
            if depth >= 1 {
                assert(out@.drop_last() =~= before);
                lemma_sum_prefix(p, moves@, i as int, (depth - 1) as nat);
            }
        }
        i = i + 1;
    }
    proof {
        if depth >= 1 {
            assert(moves@.subrange(0, i as int) =~= moves@);
            law_perft_splits(p, moves@, (depth - 1) as nat);
        }
        assert forall|m: Move| (exists|i: int| 0 <= i < out@.len() && out@[i].0 == m) <==> legal(p, m) by {
            if legal(p, m) {
                let k = choose|k: int| 0 <= k < moves@.len() && moves@[k] == m;
                assert(out@[k].0 == m);
            }
            if exists|i: int| 0 <= i < out@.len() && out@[i].0 == m {
                let k = choose|k: int| 0 <= k < out@.len() && out@[k].0 == m;
                assert(moves@[k] == m);
                assert(moves@.contains(m));
            }
        }
        assert forall|i: int, j: int| 0 <= i < j < out@.len() implies out@[i].0 != out@[j].0 by {
            assert(out@[i].0 == moves@[i]);
            assert(out@[j].0 == moves@[j]);
        }
    }
    out
}

} // verus!
