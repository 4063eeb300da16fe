//! Search: negamax alpha-beta with quiescence, iterative deepening, a
//! transposition table (Zobrist-keyed) and TT-move + MVV-LVA ordering.
use vstd::prelude::*;
use crate::board::{file_of, spec_make_move, Board, Color, Flag, Move, Piece, PieceKind, Position, Square};
use crate::eval::{eval, material, spec_eval, spec_material};
use crate::legality::{
    capture_measure, lemma_capture_shrinks, lemma_count_le, lemma_king_of, lemma_playable_next,
    playable, takes,
};
use crate::movegen::{generate_legal, is_attacked, king_square, legal_seq, lemma_first_king_unique};
use crate::rules::{attacked, has_king, king_of, legal, movegen_ready};

verus! {

/// Score assigned to being checkmated (adjusted by distance so shorter mates
/// are preferred). Scores with `abs >= MATE_THRESHOLD` denote a forced mate.
pub const MATE: i32 = 30_000;

pub const MATE_THRESHOLD: i32 = 29_000;

/// The search window's outer bound.
pub const INF: i32 = 1_000_000;

/// The deepest search the score arithmetic is laid out for.
pub const MAX_SEARCH_DEPTH: u32 = 1_000_000;

/// The deepest search whose scores are shown to stay strictly inside the
/// window: beyond it, distance-to-mate scores (`MATE - ply`) change sign.
pub const SCORE_SAFE_DEPTH: u32 = 500_000;

/// How far from zero a score may lie at `ply` with `depth` plies still to
/// search: the room shrinks with both, so a table score read back at a
/// shallower ply (which needs a stored depth at least as deep) still fits.
pub open spec fn score_room(ply: int, depth: int) -> int {
    INF - 1 - ply - depth
}

/// Result of a search: the chosen move, its score (side-to-move relative),
/// nodes visited, and the depth reached.
pub struct SearchResult {
    pub best: Option<Move>,
    pub score: i32,
    pub nodes: u64,
    pub depth: u32,
}

/// The side to move is in check.
pub open spec fn spec_in_check(p: Position) -> bool {
    attacked(p, king_of(p, p.side), p.side.spec_opp())
}

/// Is the side to move currently in check?
pub fn in_check(b: &Board) -> (r: bool)
    requires
        has_king(b@, b.side),
    ensures
        r == spec_in_check(b@),
{
    let k = king_square(b, b.side);
    proof {
        lemma_king_of(b@, b.side);
        lemma_first_king_unique(b@, b.side, k as int, king_of(b@, b.side));
    }
    is_attacked(b, k, b.side.opp())
}

// ---- Zobrist hashing ------------------------------------------------------

pub const ZOB_SEED: u64 = 0x243F_6A88_85A3_08D3;

pub const ZOB_GAMMA: u64 = 0x9E37_79B9_7F4A_7C15;

/// The splitmix64 state after `i` steps from the fixed seed.
pub open spec fn mix_state(i: nat) -> u64
    decreases i,
{
    if i == 0 {
        ZOB_SEED
    } else {
        vstd::wrapping::u64_specs::wrapping_add(mix_state((i - 1) as nat), ZOB_GAMMA)
    }
}

/// The splitmix64 output function.
pub open spec fn mix(z: u64) -> u64 {
    let z1 = vstd::wrapping::u64_specs::wrapping_mul(z ^ (z >> 30u64), 0xBF58_476D_1CE4_E5B9u64);
    let z2 = vstd::wrapping::u64_specs::wrapping_mul(z1 ^ (z1 >> 27u64), 0x94D0_49BB_1331_11EBu64);
    z2 ^ (z2 >> 31u64)
}

/// The `i`-th key of the deterministic key stream.
pub open spec fn zob_key(i: nat) -> u64 {
    mix(mix_state(i + 1))
}

/// Zobrist keys: 12 × 64 piece-square keys (piece index × 64 + square), the
/// side key, 16 castling keys and 8 en-passant file keys, drawn in that order.
pub struct Zob {
    pub piece: Vec<u64>,
    pub side: u64,
    pub castle: Vec<u64>,
    pub ep: Vec<u64>,
}

impl Zob {
    pub open spec fn wf(&self) -> bool {
        &&& self.piece@.len() == 768
        &&& forall|j: int| 0 <= j < 768 ==> #[trigger] self.piece@[j] == zob_key(j as nat)
        &&& self.side == zob_key(768)
        &&& self.castle@.len() == 16
        &&& forall|j: int| 0 <= j < 16 ==> #[trigger] self.castle@[j] == zob_key((769 + j) as nat)
        &&& self.ep@.len() == 8
        &&& forall|j: int| 0 <= j < 8 ==> #[trigger] self.ep@[j] == zob_key((785 + j) as nat)
    }
}

/// Advances the key stream and returns its next key.
fn next_key(state: &mut u64) -> (k: u64)
    ensures
        *final(state) == vstd::wrapping::u64_specs::wrapping_add(*old(state), ZOB_GAMMA),
        k == mix(*final(state)),
{
    *state = state.wrapping_add(ZOB_GAMMA);
    let mut z = *state;
    z = (z ^ (z >> 30)).wrapping_mul(0xBF58_476D_1CE4_E5B9);
    z = (z ^ (z >> 27)).wrapping_mul(0x94D0_49BB_1331_11EB);
    z ^ (z >> 31)
}

/// Draws `n` keys into `out`.
fn draw_keys(state: &mut u64, out: &mut Vec<u64>, n: usize, Ghost(start): Ghost<nat>)
    requires
        *old(state) == mix_state(start),
        old(out)@.len() == 0,
    ensures
        *final(state) == mix_state((start + n) as nat),
        final(out)@.len() == n,
        forall|j: int| 0 <= j < n ==> #[trigger] final(out)@[j] == zob_key((start + j) as nat),
{
    let mut i: usize = 0;
    while i < n
        invariant
            i <= n,
            *state == mix_state((start + i) as nat),
            out@.len() == i,
            forall|j: int| 0 <= j < i ==> #[trigger] out@[j] == zob_key((start + j) as nat),
        decreases n - i,
    {
        let k = next_key(state);
        out.push(k);
        i = i + 1;
    }
}

/// The Zobrist keys, drawn from splitmix64 with a fixed seed.
pub fn new_zob() -> (z: Zob)
    ensures
        z.wf(),
{
    let mut state: u64 = ZOB_SEED;
    let mut piece: Vec<u64> = Vec::new();
    draw_keys(&mut state, &mut piece, 768, Ghost(0));
    let side = next_key(&mut state);
    let mut castle: Vec<u64> = Vec::new();
    draw_keys(&mut state, &mut castle, 16, Ghost(769));
    let mut ep: Vec<u64> = Vec::new();
    draw_keys(&mut state, &mut ep, 8, Ghost(785));
    Zob { piece, side, castle, ep }
}

/// Index of a piece in the key table: kind × 2, plus 1 for Black.
pub open spec fn spec_pidx(p: Piece) -> int {
    let k: int = match p.kind {
        PieceKind::Pawn => 0,
        PieceKind::Knight => 1,
        PieceKind::Bishop => 2,
        PieceKind::Rook => 3,
        PieceKind::Queen => 4,
        PieceKind::King => 5,
    };
    k * 2 + if p.color == Color::White {
        0int
    } else {
        1int
    }
}

fn pidx(p: Piece) -> (i: usize)
    ensures
        i == spec_pidx(p),
        i < 12,
{
    let k: usize = match p.kind {
        PieceKind::Pawn => 0,
        PieceKind::Knight => 1,
        PieceKind::Bishop => 2,
        PieceKind::Rook => 3,
        PieceKind::Queen => 4,
        PieceKind::King => 5,
    };
    k * 2 + if p.color == Color::White {
        0
    } else {
        1
    }
}

/// XOR of the piece-square keys of squares `0..n`.
pub open spec fn squares_hash(sq: Seq<Option<Piece>>, n: int) -> u64
    decreases n,
{
    if n <= 0 {
        0
    } else {
        let h = squares_hash(sq, n - 1);
        match sq[n - 1] {
            Some(p) => h ^ zob_key((spec_pidx(p) * 64 + n - 1) as nat),
            None => h,
        }
    }
}

/// The Zobrist hash of a position.
pub open spec fn spec_zobrist(p: Position) -> u64 {
    let h1 = squares_hash(p.squares, 64);
    let h2 = if p.side == Color::Black {
        h1 ^ zob_key(768)
    } else {
        h1
    };
    let h3 = h2 ^ zob_key((769 + (p.castling & 15u8)) as nat);
    match p.ep {
        Some(e) => h3 ^ zob_key((785 + e % 8) as nat),
        None => h3,
    }
}

fn zobrist(b: &Board, z: &Zob) -> (h: u64)
    requires
        z.wf(),
    ensures
        h == spec_zobrist(b@),
{
    let mut h: u64 = 0;
    let mut s: usize = 0;
    while s < 64
        invariant
            s <= 64,
            z.wf(),
            h == squares_hash(b@.squares, s as int),
        decreases 64 - s,
    {
        if let Some(p) = b.squares[s] {
            h = h ^ z.piece[pidx(p) * 64 + s];
        }
        s = s + 1;
    }
    if b.side == Color::Black {
        h = h ^ z.side;
    }
    let castling = b.castling;
    let c = castling & 15;
    assert(c < 16u8) by (bit_vector)
        requires
            c == castling & 15u8,
    ;
    h = h ^ z.castle[c as usize];
    if let Some(ep) = b.ep {
        h = h ^ z.ep[file_of(ep) as usize];
    }
    h
}


// ---- Transposition table --------------------------------------------------

/// How a stored score relates to the true one.
#[derive(Clone, Copy, PartialEq, Eq, Structural)]
pub enum Bound {
    Exact,
    /// fail-high: the true score is >= stored
    Lower,
    /// fail-low: the true score is <= stored
    Upper,
}

#[derive(Clone, Copy)]
pub struct TtEntry {
    pub key: u64,
    pub depth: u8,
    pub score: i32,
    pub bound: Bound,
    pub mv: Move,
}

/// Number of table slots (2^19).
pub const TT_SIZE: usize = 524288;

/// A direct-mapped table of search results, indexed by the low 19 bits of
/// the key.
pub struct Tt {
    pub e: Vec<Option<TtEntry>>,
}

/// The slot of a key.
pub open spec fn tt_slot(key: u64) -> int {
    (key & 0x7FFFFu64) as int
}

/// A stored mate-range score fits the room of the depth it was stored for.
pub open spec fn entry_bounded(e: TtEntry) -> bool {
    &&& e.score >= MATE_THRESHOLD ==> e.score <= INF - 1 - e.depth
    &&& e.score <= -MATE_THRESHOLD ==> e.score >= -(INF - 1 - e.depth)
}

/// A bounded entry read back at a depth no deeper than it was stored for
/// fits the room there.
proof fn lemma_read_fits(e: TtEntry, ply: int, depth: int)
    requires
        entry_bounded(e),
        0 <= depth <= e.depth,
        0 <= ply,
        ply + depth <= SCORE_SAFE_DEPTH,
    ensures
        -score_room(ply, depth) <= spec_from_tt(e.score as int, ply) <= score_room(ply, depth),
{
}

/// A score within the room, stored at `ply`, makes a bounded entry.
proof fn lemma_store_fits(key: u64, depth: u32, best: int, ply: int, bound: Bound, mv: Move)
    requires
        0 <= ply,
        ply + depth <= SCORE_SAFE_DEPTH,
        -score_room(ply, depth as int) <= best <= score_room(ply, depth as int),
    ensures
        entry_bounded(
            TtEntry { key, depth: depth as u8, score: spec_to_tt(best, ply) as i32, bound, mv },
        ),
{
    let d8 = depth as u8;
    assert(d8 <= depth) by (bit_vector)
        requires
            d8 == depth as u8,
    ;
}

/// The slot of a key lies in the table, and its entry, if any, is bounded.
proof fn lemma_slot_fits(t: &Tt, key: u64)
    requires
        t.wf(),
        t.bounded(),
    ensures
        0 <= tt_slot(key) < t.e@.len(),
        t.e@[tt_slot(key)] is Some ==> entry_bounded(t.e@[tt_slot(key)]->0),
{
    assert(key & 0x7FFFFu64 < 0x80000u64) by (bit_vector);
}

impl Tt {
    pub open spec fn wf(&self) -> bool {
        self.e@.len() == TT_SIZE
    }

    /// Every stored score is bounded (see `entry_bounded`).
    pub open spec fn bounded(&self) -> bool {
        forall|i: int| 0 <= i < self.e@.len() && #[trigger] self.e@[i] is Some ==> entry_bounded(self.e@[i]->0)
    }

    /// An empty table.
    pub fn new() -> (t: Tt)
        ensures
            t.wf(),
            t.bounded(),
            forall|i: int| 0 <= i < TT_SIZE ==> #[trigger] t.e@[i] is None,
            t.e@ == empty_table(),
    {
        let mut e: Vec<Option<TtEntry>> = Vec::new();
        let mut i: usize = 0;
        while i < TT_SIZE
            invariant
                i <= TT_SIZE,
                e@.len() == i,
                forall|j: int| 0 <= j < i ==> #[trigger] e@[j] is None,
            decreases TT_SIZE - i,
        {
            e.push(None);
            i = i + 1;
        }
        assert(e@ =~= empty_table());
        Tt { e }
    }

    /// The entry stored under `key`, if its slot holds that key.
    pub fn probe(&self, key: u64) -> (r: Option<TtEntry>)
        requires
            self.wf(),
        ensures
            r == (match self.e@[tt_slot(key)] {
                Some(x) => if x.key == key {
                    Some(x)
                } else {
                    None
                },
                None => None,
            }),
    {
        let i = key & 0x7FFFF;
        assert(i < 0x80000u64) by (bit_vector)
            requires
                i == key & 0x7FFFFu64,
        ;
        match self.e[i as usize] {
            Some(x) => if x.key == key {
                Some(x)
            } else {
                None
            },
            None => None,
        }
    }

    /// Stores a result; a slot holding another key, or a shallower result for
    /// the same key, is overwritten (depth-preferred).
    pub fn store(&mut self, key: u64, depth: u32, score: i32, bound: Bound, mv: Move)
        requires
            old(self).wf(),
        ensures
            final(self).wf(),
            final(self).e@ == (if (match old(self).e@[tt_slot(key)] {
                None => true,
                Some(x) => x.key != key || depth as u8 >= x.depth,
            }) {
                old(self).e@.update(
                    tt_slot(key),
                    Some(TtEntry { key, depth: depth as u8, score, bound, mv }),
                )
            } else {
                old(self).e@
            }),
            old(self).bounded() && entry_bounded(
                TtEntry { key, depth: depth as u8, score, bound, mv },
            ) ==> final(self).bounded(),
    {
        let i = key & 0x7FFFF;
        assert(i < 0x80000u64) by (bit_vector)
            requires
                i == key & 0x7FFFFu64,
        ;
        let replace = match self.e[i as usize] {
            None => true,
            Some(x) => x.key != key || depth as u8 >= x.depth,
        };
        if replace {
            self.e[i as usize] = Some(TtEntry { key, depth: depth as u8, score, bound, mv });
        }
    }
}

/// `v` saturated to the `i32` range.
pub open spec fn sat(v: int) -> int {
    if v > i32::MAX {
        i32::MAX as int
    } else if v < i32::MIN {
        i32::MIN as int
    } else {
        v
    }
}

fn sat_i64(v: i64) -> (r: i32)
    ensures
        r == sat(v as int),
{
    if v > 2147483647 {
        2147483647
    } else if v < -2147483648 {
        -2147483648
    } else {
        v as i32
    }
}

/// `a + b`, saturating.
fn add_sat(a: i32, b: i32) -> (r: i32)
    ensures
        r == sat(a + b),
{
    sat_i64(a as i64 + b as i64)
}

/// `-a`, saturating.
fn neg_sat(a: i32) -> (r: i32)
    ensures
        r == sat(-a),
{
    sat_i64(-(a as i64))
}

/// Mate scores count distance from the root; in the table they count from
/// the node, so they move away from zero by `ply` on the way in.
pub open spec fn spec_to_tt(score: int, ply: int) -> int {
    if score >= MATE_THRESHOLD {
        sat(score + ply)
    } else if score <= -MATE_THRESHOLD {
        sat(score - ply)
    } else {
        score
    }
}

/// ... and back toward zero by `ply` on the way out.
pub open spec fn spec_from_tt(score: int, ply: int) -> int {
    if score >= MATE_THRESHOLD {
        sat(score - ply)
    } else if score <= -MATE_THRESHOLD {
        sat(score + ply)
    } else {
        score
    }
}

fn to_tt(score: i32, ply: i32) -> (r: i32)
    ensures
        r == spec_to_tt(score as int, ply as int),
{
    if score >= MATE_THRESHOLD {
        sat_i64(score as i64 + ply as i64)
    } else if score <= -MATE_THRESHOLD {
        sat_i64(score as i64 - ply as i64)
    } else {
        score
    }
}

fn from_tt(score: i32, ply: i32) -> (r: i32)
    ensures
        r == spec_from_tt(score as int, ply as int),
{
    if score >= MATE_THRESHOLD {
        sat_i64(score as i64 - ply as i64)
    } else if score <= -MATE_THRESHOLD {
        sat_i64(score as i64 + ply as i64)
    } else {
        score
    }
}

// ---- Move ordering --------------------------------------------------------

/// Does `side` have a piece other than pawns and the king?
pub open spec fn spec_has_non_pawn_material(p: Position, side: Color) -> bool {
    exists|s: int|
        0 <= s < 64 && #[trigger] p.squares[s] is Some && p.squares[s]->0.color == side
            && p.squares[s]->0.kind != PieceKind::Pawn && p.squares[s]->0.kind != PieceKind::King
}

fn has_non_pawn_material(b: &Board, side: Color) -> (r: bool)
    ensures
        r == spec_has_non_pawn_material(b@, side),
{
    let mut s: usize = 0;
    while s < 64
        invariant
            s <= 64,
            forall|j: int|
                0 <= j < s ==> !(#[trigger] b@.squares[j] is Some && b@.squares[j]->0.color == side
                    && b@.squares[j]->0.kind != PieceKind::Pawn && b@.squares[j]->0.kind
                    != PieceKind::King),
        decreases 64 - s,
    {
        if let Some(p) = b.squares[s] {
            if p.color == side && p.kind != PieceKind::Pawn && p.kind != PieceKind::King {
                return true;
            }
        }
        s = s + 1;
    }
    false
}

fn is_capture(b: &Board, m: &Move) -> (r: bool)
    requires
        m.to < 64,
    ensures
        r == takes(b@, *m),
{
    b.squares[m.to as usize].is_some() || m.flag == Flag::EnPassant
}

/// Most valuable victim first, least valuable attacker second.
pub open spec fn spec_mvv_lva(p: Position, m: Move) -> int {
    let victim = if m.flag == Flag::EnPassant {
        100
    } else {
        match p.squares[m.to as int] {
            Some(pc) => spec_material(pc.kind),
            None => 0,
        }
    };
    let attacker = match p.squares[m.from as int] {
        Some(pc) => spec_material(pc.kind),
        None => 0,
    };
    victim * 10 - attacker
}

fn mvv_lva(b: &Board, m: &Move) -> (r: i32)
    requires
        m.to < 64,
        m.from < 64,
    ensures
        r == spec_mvv_lva(b@, *m),
        -900 <= r <= 9000,
{
    let victim = if m.flag == Flag::EnPassant {
        material(PieceKind::Pawn)
    } else {
        match b.squares[m.to as usize] {
            Some(p) => material(p.kind),
            None => 0,
        }
    };
    let attacker = match b.squares[m.from as usize] {
        Some(p) => material(p.kind),
        None => 0,
    };
    victim * 10 - attacker
}

/// The ordering key: the table move first, then captures by MVV-LVA, then
/// quiet moves.
pub open spec fn order_key(p: Position, m: Move, tt_move: Option<Move>) -> int {
    if tt_move == Some(m) {
        -2_000_000
    } else if takes(p, m) {
        -(1_000_000 + spec_mvv_lva(p, m))
    } else {
        0
    }
}

pub open spec fn keys_sorted(s: Seq<(Move, i32)>) -> bool {
    forall|a: int, b: int| 0 <= a < b < s.len() ==> s[a].1 <= s[b].1
}

pub open spec fn distinct_moves(s: Seq<(Move, i32)>) -> bool {
    forall|a: int, b: int| 0 <= a < s.len() && 0 <= b < s.len() && a != b ==> s[a].0 != s[b].0
}

proof fn lemma_swap_keeps(s: Seq<(Move, i32)>, i: int, j: int)
    requires
        0 <= i < s.len(),
        0 <= j < s.len(),
    ensures
        s.update(i, s[j]).update(j, s[i]).len() == s.len(),
        forall|x: (Move, i32)| s.update(i, s[j]).update(j, s[i]).contains(x) <==> s.contains(x),
        distinct_moves(s) ==> distinct_moves(s.update(i, s[j]).update(j, s[i])),
{
    let t = s.update(i, s[j]).update(j, s[i]);
    assert forall|x: (Move, i32)| t.contains(x) <==> s.contains(x) by {
        if t.contains(x) {
            let k = choose|k: int| 0 <= k < t.len() && t[k] == x;
            if k == i {
                assert(s[j] == x);
            } else if k == j {
                assert(s[i] == x);
            } else {
                assert(s[k] == x);
            }
        }
        if s.contains(x) {
            let k = choose|k: int| 0 <= k < s.len() && s[k] == x;
            if k == i {
                assert(t[j] == x);
            } else if k == j {
                assert(t[i] == x);
            } else {
                assert(t[k] == x);
            }
        }
    }
    if distinct_moves(s) {
        assert forall|a: int, b: int| 0 <= a < t.len() && 0 <= b < t.len() && a != b implies t[a].0
            != t[b].0 by {
            let a1 = if a == i {
                j
            } else if a == j {
                i
            } else {
                a
            };
            let b1 = if b == i {
                j
            } else if b == j {
                i
            } else {
                b
            };
            assert(t[a] == s[a1]);
            assert(t[b] == s[b1]);
        }
    }
}

pub open spec fn keys_sorted_desc(s: Seq<(Move, i32)>) -> bool {
    forall|a: int, b: int| 0 <= a < b < s.len() ==> s[a].1 >= s[b].1
}

/// Entries `j - 1` and `j` are in the wrong order.
fn out_of_order(v: &Vec<(Move, i32)>, j: usize, descending: bool) -> (r: bool)
    requires
        0 < j < v@.len(),
    ensures
        r == if descending {
            v@[j - 1].1 < v@[j as int].1
        } else {
            v@[j - 1].1 > v@[j as int].1
        },
{
    if descending {
        v[j - 1].1 < v[j].1
    } else {
        v[j - 1].1 > v[j].1
    }
}

/// Stable insertion sort by the second component, ascending (or descending).
fn sort_by_key(v: &mut Vec<(Move, i32)>, descending: bool)
    ensures
        final(v)@.len() == old(v)@.len(),
        forall|x: (Move, i32)| final(v)@.contains(x) <==> old(v)@.contains(x),
        distinct_moves(old(v)@) ==> distinct_moves(final(v)@),
        !descending ==> keys_sorted(final(v)@),
        descending ==> keys_sorted_desc(final(v)@),
        forall|a: int, b: int|
            0 <= a < b < final(v)@.len() && final(v)@[a].1 == final(v)@[b].1 ==> exists|x: int, y: int|
                0 <= x < y < old(v)@.len() && old(v)@[x] == final(v)@[a] && old(v)@[y] == final(v)@[b],
{
    let ghost orig = v@;
    let n = v.len();
    let ghost mut perm: Seq<int> = Seq::new(n as nat, |k: int| k);
    let mut i: usize = 1;
    while i < n
        invariant
            n == v@.len() == orig.len(),
            forall|x: (Move, i32)| v@.contains(x) <==> orig.contains(x),
            distinct_moves(orig) ==> distinct_moves(v@),
            n == 0 || 1 <= i <= n,
            perm.len() == n,
            forall|k: int| 0 <= k < n ==> 0 <= #[trigger] perm[k] < n && v@[k] == orig[perm[k]],
            forall|a: int, b: int| 0 <= a < b < n && v@[a].1 == v@[b].1 ==> perm[a] < perm[b],
            forall|a: int, b: int|
                0 <= a < b < i ==> if descending {
                    v@[a].1 >= v@[b].1
                } else {
                    v@[a].1 <= v@[b].1
                },
        decreases n - i,
    {
        let mut j: usize = i;
        while j > 0 && out_of_order(v, j, descending)
            invariant
                0 <= j <= i < n,
                n == v@.len() == orig.len(),
                perm.len() == n,
                forall|k: int| 0 <= k < n ==> 0 <= #[trigger] perm[k] < n && v@[k] == orig[perm[k]],
                forall|a: int, b: int| 0 <= a < b < n && v@[a].1 == v@[b].1 ==> perm[a] < perm[b],
                forall|x: (Move, i32)| v@.contains(x) <==> orig.contains(x),
                distinct_moves(orig) ==> distinct_moves(v@),
                forall|a: int, b: int|
                    0 <= a < b <= i && a != j && b != j ==> if descending {
                        v@[a].1 >= v@[b].1
                    } else {
                        v@[a].1 <= v@[b].1
                    },
                forall|b: int|
                    j < b <= i ==> if descending {
                        v@[j as int].1 > v@[b].1
                    } else {
                        v@[j as int].1 < v@[b].1
                    },
            decreases j,
        {
            proof {
                lemma_swap_keeps(v@, j - 1, j as int);
            }
            let x = v[j - 1];
            let y = v[j];
            v.set(j - 1, y);
            v.set(j, x);
            proof {
                perm = perm.update(j - 1, perm[j as int]).update(j as int, perm[j - 1]);
            }
            j = j - 1;
        }
        i = i + 1;
    }
    proof {
        assert forall|a: int, b: int|
            0 <= a < b < v@.len() && v@[a].1 == v@[b].1 implies exists|x: int, y: int|
                0 <= x < y < orig.len() && orig[x] == v@[a] && orig[y] == v@[b] by {
            assert(orig[perm[a]] == v@[a] && orig[perm[b]] == v@[b]);
        }
    }
}

/// `o` lists the moves of `inp`, each once, by `order_key` ascending, moves
/// with equal keys in the order of `inp`.
pub open spec fn stably_ordered(p: Position, tt_move: Option<Move>, inp: Seq<Move>, o: Seq<Move>) -> bool {
    &&& o.no_duplicates()
    &&& forall|m: Move| o.contains(m) <==> inp.contains(m)
    &&& forall|a: int, c: int| 0 <= a < c < o.len() ==> order_key(p, o[a], tt_move) <= order_key(p, o[c], tt_move)
    &&& forall|a: int, c: int|
        0 <= a < c < o.len() && order_key(p, o[a], tt_move) == order_key(p, o[c], tt_move) ==> exists|x: int, y: int|
            0 <= x < y < inp.len() && inp[x] == o[a] && inp[y] == o[c]
}

/// The moves of `inp` in search order (see `stably_ordered`).
pub open spec fn ordered_moves(p: Position, tt_move: Option<Move>, inp: Seq<Move>) -> Seq<Move> {
    choose|o: Seq<Move>| stably_ordered(p, tt_move, inp, o)
}

/// Two stable orderings of the same moves are the same list.
proof fn lemma_stable_unique(p: Position, tt_move: Option<Move>, inp: Seq<Move>, o1: Seq<Move>, o2: Seq<Move>)
    requires
        inp.no_duplicates(),
        o1.no_duplicates(),
        o2.no_duplicates(),
        forall|m: Move| o1.contains(m) <==> o2.contains(m),
        forall|a: int, c: int| 0 <= a < c < o1.len() ==> order_key(p, o1[a], tt_move) <= order_key(p, o1[c], tt_move),
        forall|a: int, c: int| 0 <= a < c < o2.len() ==> order_key(p, o2[a], tt_move) <= order_key(p, o2[c], tt_move),
        forall|a: int, c: int|
            0 <= a < c < o1.len() && order_key(p, o1[a], tt_move) == order_key(p, o1[c], tt_move) ==> exists|x: int, y: int|
                0 <= x < y < inp.len() && inp[x] == o1[a] && inp[y] == o1[c],
        forall|a: int, c: int|
            0 <= a < c < o2.len() && order_key(p, o2[a], tt_move) == order_key(p, o2[c], tt_move) ==> exists|x: int, y: int|
                0 <= x < y < inp.len() && inp[x] == o2[a] && inp[y] == o2[c],
    ensures
        o1 == o2,
    decreases o1.len(),
{
    if o1.len() == 0 {
        if o2.len() > 0 {
            assert(o2.contains(o2[0]));
        }
        assert(o1 =~= o2);
    } else {
        assert(o1.contains(o1[0]));
        assert(o2.len() > 0);
        assert(o2.contains(o2[0]));
        let j = choose|j: int| 0 <= j < o2.len() && o2[j] == o1[0];
        let k = choose|k: int| 0 <= k < o1.len() && o1[k] == o2[0];
        if o1[0] != o2[0] {
            assert(k > 0 && j > 0);
            assert(order_key(p, o1[0], tt_move) <= order_key(p, o1[k], tt_move));
            assert(order_key(p, o2[0], tt_move) <= order_key(p, o2[j], tt_move));
            let (x1, y1) = choose|x: int, y: int| 0 <= x < y < inp.len() && inp[x] == o1[0] && inp[y] == o1[k];
            let (x2, y2) = choose|x: int, y: int| 0 <= x < y < inp.len() && inp[x] == o2[0] && inp[y] == o2[j];
            assert(inp[x1] == inp[y2]);
            assert(inp[y1] == inp[x2]);
        }
        let w1 = o1.drop_first();
        let w2 = o2.drop_first();
        assert forall|m: Move| w1.contains(m) <==> w2.contains(m) by {
            if w1.contains(m) {
                let a = choose|a: int| 0 <= a < w1.len() && w1[a] == m;
                assert(o1[a + 1] == m);
                assert(o1.contains(m));
                let b = choose|b: int| 0 <= b < o2.len() && o2[b] == m;
                assert(b != 0);
                assert(w2[b - 1] == m);
            }
            if w2.contains(m) {
                let a = choose|a: int| 0 <= a < w2.len() && w2[a] == m;
                assert(o2[a + 1] == m);
                assert(o2.contains(m));
                let b = choose|b: int| 0 <= b < o1.len() && o1[b] == m;
                assert(b != 0);
                assert(w1[b - 1] == m);
            }
        }
        assert forall|a: int, c: int|
            0 <= a < c < w1.len() && order_key(p, w1[a], tt_move) == order_key(p, w1[c], tt_move) implies exists|x: int, y: int|
                0 <= x < y < inp.len() && inp[x] == w1[a] && inp[y] == w1[c] by {
            assert(w1[a] == o1[a + 1] && w1[c] == o1[c + 1]);
        }
        assert forall|a: int, c: int|
            0 <= a < c < w2.len() && order_key(p, w2[a], tt_move) == order_key(p, w2[c], tt_move) implies exists|x: int, y: int|
                0 <= x < y < inp.len() && inp[x] == w2[a] && inp[y] == w2[c] by {
            assert(w2[a] == o2[a + 1] && w2[c] == o2[c + 1]);
        }
        assert forall|a: int, c: int| 0 <= a < c < w1.len() implies order_key(p, w1[a], tt_move) <= order_key(p, w1[c], tt_move) by {
            assert(w1[a] == o1[a + 1] && w1[c] == o1[c + 1]);
        }
        assert forall|a: int, c: int| 0 <= a < c < w2.len() implies order_key(p, w2[a], tt_move) <= order_key(p, w2[c], tt_move) by {
            assert(w2[a] == o2[a + 1] && w2[c] == o2[c + 1]);
        }
        lemma_stable_unique(p, tt_move, inp, w1, w2);
        assert(o1 =~= seq![o1[0]] + w1);
        assert(o2 =~= seq![o2[0]] + w2);
    }
}

/// Order the table move first, then captures (MVV-LVA), then quiet moves;
/// moves with equal keys keep their order.
fn order(b: &Board, moves: &mut Vec<Move>, tt_move: Option<Move>)
    requires
        forall|i: int| 0 <= i < old(moves)@.len() ==> #[trigger] old(moves)@[i].from < 64
            && old(moves)@[i].to < 64,
    ensures
        final(moves)@.len() == old(moves)@.len(),
        forall|m: Move| final(moves)@.contains(m) <==> old(moves)@.contains(m),
        old(moves)@.no_duplicates() ==> final(moves)@.no_duplicates(),
        forall|a: int, c: int|
            0 <= a < c < final(moves)@.len() ==> order_key(b@, final(moves)@[a], tt_move)
                <= order_key(b@, final(moves)@[c], tt_move),
        old(moves)@.no_duplicates() ==> final(moves)@ == ordered_moves(b@, tt_move, old(moves)@),
{
    let ghost orig = moves@;
    let mut keyed: Vec<(Move, i32)> = Vec::new();
    let mut i: usize = 0;
    while i < moves.len()
        invariant
            i <= moves@.len(),
            moves@ == orig,
            forall|k: int| 0 <= k < orig.len() ==> #[trigger] orig[k].from < 64 && orig[k].to < 64,
            keyed@.len() == i,
            forall|k: int|
                0 <= k < i ==> #[trigger] keyed@[k].0 == orig[k] && keyed@[k].1 == order_key(
                    b@,
                    orig[k],
                    tt_move,
                ),
        decreases moves@.len() - i,
    {
        let m = moves[i];
        proof {
            assert(orig[i as int].from < 64 && orig[i as int].to < 64);
        }
        let is_tt = match tt_move {
            Some(t) => t == m,
            None => false,
        };
        let key: i32 = if is_tt {
            -2_000_000
        } else if is_capture(b, &m) {
            -(1_000_000 + mvv_lva(b, &m))
        } else {
            0
        };
        keyed.push((m, key));
        i = i + 1;
    }
    proof {
        if orig.no_duplicates() {
            assert forall|a: int, c: int|
                0 <= a < keyed@.len() && 0 <= c < keyed@.len() && a != c implies keyed@[a].0
                != keyed@[c].0 by {
                assert(keyed@[a].0 == orig[a]);
                assert(keyed@[c].0 == orig[c]);
            }
        }
    }
    let ghost before_sort = keyed@;
    assert(forall|j: int|
        0 <= j < before_sort.len() ==> #[trigger] before_sort[j].0 == orig[j]
            && before_sort[j].1 == order_key(b@, orig[j], tt_move));
    sort_by_key(&mut keyed, false);
    let mut out: Vec<Move> = Vec::new();
    let mut k: usize = 0;
    while k < keyed.len()
        invariant
            k <= keyed@.len(),
            keyed@.len() == orig.len() == before_sort.len(),
            forall|x: (Move, i32)| keyed@.contains(x) <==> before_sort.contains(x),
            forall|j: int|
                0 <= j < before_sort.len() ==> #[trigger] before_sort[j].0 == orig[j]
                    && before_sort[j].1 == order_key(b@, orig[j], tt_move),
            keys_sorted(keyed@),
            out@.len() == k,
            forall|j: int| 0 <= j < k ==> #[trigger] out@[j] == keyed@[j].0,
        decreases keyed@.len() - k,
    {
        out.push(keyed[k].0);
        k = k + 1;
    }
    proof {
        assert forall|j: int| 0 <= j < out@.len() implies (#[trigger] keyed@[j]).1 == order_key(
            b@,
            keyed@[j].0,
            tt_move,
        ) by {
            assert(keyed@.contains(keyed@[j]));
            let q = choose|q: int| 0 <= q < before_sort.len() && before_sort[q] == keyed@[j];
        }
        assert forall|m: Move| out@.contains(m) <==> orig.contains(m) by {
            if out@.contains(m) {
                let j = choose|j: int| 0 <= j < out@.len() && out@[j] == m;
                assert(keyed@.contains(keyed@[j]));
                let q = choose|q: int| 0 <= q < before_sort.len() && before_sort[q] == keyed@[j];
                assert(orig[q] == m);
            }
            if orig.contains(m) {
                let q = choose|q: int| 0 <= q < orig.len() && orig[q] == m;
                assert(before_sort.contains(before_sort[q]));
                let j = choose|j: int| 0 <= j < keyed@.len() && keyed@[j] == before_sort[q];
                assert(out@[j] == m);
            }
        }
        if orig.no_duplicates() {
            assert forall|a: int, c: int|
                0 <= a < out@.len() && 0 <= c < out@.len() && a != c implies out@[a] != out@[c] by {
                assert(out@[a] == keyed@[a].0);
                assert(out@[c] == keyed@[c].0);
            }
            assert forall|a: int, c: int|
                0 <= a < c < out@.len() && order_key(b@, out@[a], tt_move) == order_key(b@, out@[c], tt_move)
                    implies exists|x: int, y: int| 0 <= x < y < orig.len() && orig[x] == out@[a] && orig[y] == out@[c] by {
                assert(keyed@[a].1 == keyed@[c].1);
                let (x, y) = choose|x: int, y: int|
                    0 <= x < y < before_sort.len() && before_sort[x] == keyed@[a] && before_sort[y] == keyed@[c];
                assert(orig[x] == out@[a] && orig[y] == out@[c]);
            }
            assert(stably_ordered(b@, tt_move, orig, out@));
            let o = ordered_moves(b@, tt_move, orig);
            assert(stably_ordered(b@, tt_move, orig, o));
            lemma_stable_unique(b@, tt_move, orig, out@, o);
        }
    }
    *moves = out;
}


// ---- Search ---------------------------------------------------------------

/// The side to move has no legal move.
pub open spec fn no_legal_move(p: Position) -> bool {
    forall|m: Move| !legal(p, m)
}

/// `m` checkmates at once.
pub open spec fn mates(p: Position, m: Move) -> bool {
    no_legal_move(spec_make_move(p, m)) && spec_in_check(spec_make_move(p, m))
}

/// What a search of `depth` plies from `p` needs: a playable position, a
/// depth the score arithmetic is laid out for, and move clocks that can count
/// through the whole search (captures at the horizon included).
pub open spec fn search_ready(p: Position, depth: nat) -> bool {
    &&& playable(p)
    &&& depth <= MAX_SEARCH_DEPTH
    &&& p.halfmove + depth + 1 < u16::MAX
    &&& p.fullmove + depth + 131 < u16::MAX
}

/// The legal captures of `b`.
fn legal_captures(b: &Board) -> (caps: Vec<Move>)
    requires
        movegen_ready(b@),
    ensures
        forall|m: Move| caps@.contains(m) <==> legal(b@, m) && takes(b@, m),
        caps@.no_duplicates(),
        forall|i: int| 0 <= i < caps@.len() ==> #[trigger] caps@[i].from < 64 && caps@[i].to < 64,
{
    let all = generate_legal(b);
    let mut caps: Vec<Move> = Vec::new();
    let mut i: usize = 0;
    while i < all.len()
        invariant
            i <= all@.len(),
            forall|m: Move| all@.contains(m) <==> legal(b@, m),
            all@.no_duplicates(),
            caps@.no_duplicates(),
            forall|m: Move|
                #![trigger caps@.contains(m)]
                caps@.contains(m) <==> (all@.subrange(0, i as int).contains(m) && takes(b@, m)),
            forall|k: int| 0 <= k < caps@.len() ==> #[trigger] caps@[k].from < 64 && caps@[k].to < 64,
        decreases all@.len() - i,
    {
        let m = all[i];
        proof {
            assert(all@.contains(m));
        }
        let ghost before = caps@;
        if is_capture(b, &m) {
            proof {
                if before.contains(m) {
                    let j = choose|j: int| 0 <= j < i && #[trigger] all@.subrange(0, i as int)[j] == m;
                    assert(all@[j] == all@[i as int]);
                }
                crate::movegen::lemma_push_nodup(before, m);
            }
            caps.push(m);
        }
        proof {
            assert forall|m2: Move|
                #![trigger caps@.contains(m2)]
                caps@.contains(m2) <==> (all@.subrange(0, i + 1).contains(m2) && takes(b@, m2)) by {
                crate::movegen::lemma_push_contains(before, m, m2);
                if all@.subrange(0, i + 1).contains(m2) {
                    let j = choose|j: int| 0 <= j < i + 1 && #[trigger] all@.subrange(0, i + 1)[j] == m2;
                    if j < i {
                        assert(all@.subrange(0, i as int)[j] == m2);
                    }
                }
                if all@.subrange(0, i as int).contains(m2) {
                    let j = choose|j: int| 0 <= j < i && #[trigger] all@.subrange(0, i as int)[j] == m2;
                    assert(all@.subrange(0, i + 1)[j] == m2);
                }
                assert(all@.subrange(0, i + 1)[i as int] == m);
            }
        }
        i = i + 1;
    }
    proof {
        assert(all@.subrange(0, i as int) =~= all@);
    }
    caps
}

/// `v` held to the window `[lo, hi]`.
pub open spec fn window_clamp(v: int, lo: int, hi: int) -> int {
    if v < lo {
        lo
    } else if v > hi {
        hi
    } else {
        v
    }
}

/// `s` lists the legal captures of `p`, each once.
pub open spec fn lists_captures(p: Position, s: Seq<Move>) -> bool {
    &&& s.no_duplicates()
    &&& forall|m: Move| s.contains(m) <==> legal(p, m) && takes(p, m)
}

/// The better of standing pat on the static evaluation of `p` and the first
/// `n` moves of `s`, each worth the negated quiescence value of the position
/// it leads to (only moves that shrink the material count).
pub open spec fn capture_best(p: Position, s: Seq<Move>, n: int) -> int
    decreases capture_measure(p), 0int, n,
{
    if n <= 0 {
        spec_eval(p)
    } else {
        let rest = capture_best(p, s, n - 1);
        let q = spec_make_move(p, s[n - 1]);
        if capture_measure(q) < capture_measure(p) {
            let v = -qvalue(q);
            if v > rest {
                v
            } else {
                rest
            }
        } else {
            rest
        }
    }
}

/// The quiescence value of `p`: the static evaluation, or the best capture
/// when some capture does better, each capture valued by the opponent's
/// quiescence value after it, negated.
pub open spec fn qvalue(p: Position) -> int
    decreases capture_measure(p), 1int, 0int,
{
    let s = choose|s: Seq<Move>| lists_captures(p, s);
    capture_best(p, s, s.len() as int)
}

proof fn lemma_capture_best(p: Position, s: Seq<Move>, n: int)
    requires
        0 <= n <= s.len(),
    ensures
        capture_best(p, s, n) >= spec_eval(p),
        forall|k: int|
            0 <= k < n && capture_measure(#[trigger] spec_make_move(p, s[k])) < capture_measure(p)
                ==> capture_best(p, s, n) >= -qvalue(spec_make_move(p, s[k])),
        capture_best(p, s, n) == spec_eval(p) || exists|k: int|
            0 <= k < n && capture_measure(#[trigger] spec_make_move(p, s[k])) < capture_measure(p)
                && capture_best(p, s, n) == -qvalue(spec_make_move(p, s[k])),
    decreases n,
{
    if n > 0 {
        lemma_capture_best(p, s, n - 1);
        let q = spec_make_move(p, s[n - 1]);
        if capture_best(p, s, n) != spec_eval(p) {
            if capture_best(p, s, n) == capture_best(p, s, n - 1) {
                let k = choose|k: int|
                    0 <= k < n - 1 && capture_measure(#[trigger] spec_make_move(p, s[k]))
                        < capture_measure(p) && capture_best(p, s, n - 1) == -qvalue(
                        spec_make_move(p, s[k]),
                    );
                assert(0 <= k < n);
            } else {
                assert(capture_best(p, s, n) == -qvalue(q));
                assert(capture_measure(spec_make_move(p, s[n - 1])) < capture_measure(p));
            }
        }
    }
}

/// Standing pat: the quiescence value is never below the static evaluation.
proof fn lemma_qvalue_stand(p: Position)
    ensures
        qvalue(p) >= spec_eval(p),
{
    let s = choose|s: Seq<Move>| lists_captures(p, s);
    if s.len() > 0 {
        lemma_capture_best(p, s, s.len() as int);
    }
}

/// Where the legal captures can be listed, the quiescence value is the
/// larger of the static evaluation and the best capture.
proof fn lemma_qvalue(p: Position, caps: Seq<Move>)
    requires
        movegen_ready(p),
        lists_captures(p, caps),
    ensures
        qvalue(p) >= spec_eval(p),
        forall|m: Move|
            legal(p, m) && takes(p, m) ==> qvalue(p) >= -qvalue(#[trigger] spec_make_move(p, m)),
        qvalue(p) == spec_eval(p) || exists|m: Move|
            legal(p, m) && takes(p, m) && qvalue(p) == -qvalue(#[trigger] spec_make_move(p, m)),
{
    let s = choose|s: Seq<Move>| lists_captures(p, s);
    assert(lists_captures(p, s));
    lemma_capture_best(p, s, s.len() as int);
    assert forall|m: Move|
        legal(p, m) && takes(p, m) implies qvalue(p) >= -qvalue(#[trigger] spec_make_move(p, m)) by {
        assert(s.contains(m));
        let k = choose|k: int| 0 <= k < s.len() && s[k] == m;
        lemma_capture_shrinks(p, m);
        assert(capture_measure(spec_make_move(p, s[k])) < capture_measure(p));
    }
    if qvalue(p) != spec_eval(p) {
        let k = choose|k: int|
            0 <= k < s.len() && capture_measure(#[trigger] spec_make_move(p, s[k]))
                < capture_measure(p) && capture_best(p, s, s.len() as int) == -qvalue(
                spec_make_move(p, s[k]),
            );
        assert(s.contains(s[k]));
        let m = s[k];
        assert(legal(p, m) && takes(p, m) && qvalue(p) == -qvalue(spec_make_move(p, m)));
    }
}

/// Quiescence search: extend along captures so the static eval is only
/// trusted in quiet positions.
#[verifier::loop_isolation(false)]
fn quiesce(b: &Board, alpha: i32, beta: i32, nodes: &mut u64) -> (r: i32)
    requires
        playable(b@),
        b@.fullmove + capture_measure(b@) < u16::MAX,
    ensures
        alpha < beta ==> r == window_clamp(qvalue(b@), alpha as int, beta as int),
        alpha >= beta ==> r == alpha || r == beta,
        r >= beta || r > -200_000,
        r <= alpha || r < 200_000,
    decreases capture_measure(b@),
{
    *nodes = nodes.wrapping_add(1);
    let ghost alpha0 = alpha;
    let mut alpha = alpha;
    let stand = eval(b);
    proof {
        lemma_qvalue_stand(b@);
    }
    if stand >= beta {
        return beta;
    }
    if stand > alpha {
        alpha = stand;
    }
    let mut caps = legal_captures(b);
    order(b, &mut caps, None);
    let mut i: usize = 0;
    while i < caps.len()
        invariant
            playable(b@),
            b@.fullmove + capture_measure(b@) < u16::MAX,
            lists_captures(b@, caps@),
            i <= caps@.len(),
            stand == spec_eval(b@),
            -200_000 < stand < beta,
            alpha >= stand,
            alpha >= alpha0,
            alpha == alpha0 || alpha < 200_000,
            alpha0 >= beta ==> alpha == alpha0,
            alpha0 < beta ==> alpha < beta,
            alpha0 < beta ==> forall|k: int|
                0 <= k < i ==> alpha >= -qvalue(#[trigger] spec_make_move(b@, caps@[k])),
            alpha0 < beta ==> (alpha == alpha0 || alpha == stand || exists|k: int|
                0 <= k < i && alpha == -qvalue(#[trigger] spec_make_move(b@, caps@[k]))),
        decreases caps@.len() - i,
    {
        let m = caps[i];
        proof {
            assert(caps@.contains(m));
            lemma_capture_shrinks(b@, m);
            lemma_playable_next(b@, m);
            crate::movegen::lemma_king_survives(b@, m);
        }
        let mut nb = *b;
        nb.make_move(m);
        let ghost before = alpha;
        let rc = quiesce(&nb, neg_sat(beta), neg_sat(alpha), nodes);
        let s = neg_sat(rc);
        proof {
            assert(nb@ == spec_make_move(b@, m));
            assert(rc >= sat(-alpha) || rc > -200_000);
            assert(s <= alpha || s < 200_000);
            if alpha0 < beta {
                assert(sat(-beta) == -beta);
                assert(sat(-alpha) == -alpha);
                assert(rc == window_clamp(qvalue(nb@), -beta, -alpha));
                assert(s == window_clamp(-qvalue(nb@), alpha as int, beta as int));
                lemma_qvalue(b@, caps@);
                assert(-qvalue(spec_make_move(b@, caps@[i as int])) <= qvalue(b@));
            }
        }
        if s >= beta {
            proof {
                if alpha0 < beta {
                    assert(s == window_clamp(-qvalue(nb@), alpha as int, beta as int));
                    assert(-qvalue(nb@) >= beta);
                    assert(qvalue(b@) >= -qvalue(spec_make_move(b@, m)));
                    assert(window_clamp(qvalue(b@), alpha0 as int, beta as int) == beta);
                }
                assert(beta <= alpha0 || beta < 200_000);
            }
            return beta;
        }
        if s > alpha {
            alpha = s;
        }
        proof {
            if alpha0 < beta {
                assert(alpha == before || alpha == -qvalue(spec_make_move(b@, caps@[i as int])));
                assert forall|k: int| 0 <= k < i + 1 implies alpha >= -qvalue(
                    #[trigger] spec_make_move(b@, caps@[k]),
                ) by {
                    if k < i {
                        assert(before >= -qvalue(spec_make_move(b@, caps@[k])));
                    }
                }
                if alpha != alpha0 && alpha != stand && alpha != -qvalue(
                    spec_make_move(b@, caps@[i as int]),
                ) {
                    let k = choose|k: int|
                        0 <= k < i && before == -qvalue(#[trigger] spec_make_move(b@, caps@[k]));
                    assert(0 <= k < i + 1 && alpha == -qvalue(spec_make_move(b@, caps@[k])));
                }
            }
        }
        i = i + 1;
    }
    proof {
        if alpha0 < beta {
            lemma_qvalue(b@, caps@);
            if qvalue(b@) != spec_eval(b@) {
                let m = choose|m: Move|
                    legal(b@, m) && takes(b@, m) && qvalue(b@) == -qvalue(
                        #[trigger] spec_make_move(b@, m),
                    );
                assert(caps@.contains(m));
                let k = choose|k: int| 0 <= k < caps@.len() && caps@[k] == m;
                assert(alpha >= -qvalue(spec_make_move(b@, caps@[k])));
            }
            if alpha != alpha0 && alpha != stand {
                let k = choose|k: int|
                    0 <= k < i && alpha == -qvalue(#[trigger] spec_make_move(b@, caps@[k]));
                assert(caps@.contains(caps@[k]));
                assert(qvalue(b@) >= -qvalue(spec_make_move(b@, caps@[k])));
            }
        }
    }
    alpha
}

/// The position after a null move: the other side to move, no en-passant
/// target, everything else unchanged.
pub open spec fn null_position(p: Position) -> Position {
    Position { side: p.side.spec_opp(), ep: None, ..p }
}

/// What a probe of the table `tt` for `key` finds.
pub open spec fn tt_probe(tt: Seq<Option<TtEntry>>, key: u64) -> Option<TtEntry> {
    match tt[tt_slot(key)] {
        Some(x) => if x.key == key {
            Some(x)
        } else {
            None
        },
        None => None,
    }
}

/// The table after storing a result (depth-preferred replacement).
pub open spec fn tt_store(tt: Seq<Option<TtEntry>>, key: u64, depth: int, score: int, bound: Bound, mv: Move) -> Seq<
    Option<TtEntry>,
> {
    let e = TtEntry { key, depth: depth as u8, score: score as i32, bound, mv };
    if (match tt[tt_slot(key)] {
        None => true,
        Some(x) => x.key != key || depth as u8 >= x.depth,
    }) {
        tt.update(tt_slot(key), Some(e))
    } else {
        tt
    }
}

/// The score of a position with no legal move at `ply`.
pub open spec fn terminal_value(p: Position, ply: int) -> int {
    if spec_in_check(p) {
        -(MATE - ply)
    } else {
        0
    }
}

/// Null-move pruning applies: deep enough, not already near a mate bound,
/// not in check, and with a piece besides pawns (zugzwang risk).
pub open spec fn null_applies(p: Position, depth: int, beta: int) -> bool {
    depth >= 3 && beta < MATE_THRESHOLD && !spec_in_check(p) && spec_has_non_pawn_material(p, p.side)
}

/// The bound a result is stored with.
pub open spec fn bound_of(best: int, alpha: int, beta: int) -> Bound {
    if best <= alpha {
        Bound::Upper
    } else if best >= beta {
        Bound::Lower
    } else {
        Bound::Exact
    }
}

/// The value the search gives `p` with `depth` plies to go at `ply`, in the
/// window (`alpha`, `beta`), starting from the table `tt`; and the table it
/// leaves. Mirrors the search step by step: a finished board scores mate or
/// draw; depth 0 is quiescence; a table entry deep enough and matching the
/// window answers at once; a null move that still beats `beta` cuts; else
/// the moves, in search order, are searched with alpha-beta until a cutoff,
/// and the result is stored.
pub open spec fn nega(p: Position, depth: int, ply: int, alpha: int, beta: int, tt: Seq<Option<TtEntry>>) -> (int, Seq<
    Option<TtEntry>,
>)
    decreases depth, 2int, 0int,
{
    if no_legal_move(p) {
        (terminal_value(p, ply), tt)
    } else if depth <= 0 {
        (window_clamp(qvalue(p), alpha, beta), tt)
    } else {
        let key = spec_zobrist(p);
        let probe = tt_probe(tt, key);
        let tt_move = match probe {
            Some(e) => Some(e.mv),
            None => None,
        };
        let hit = match probe {
            Some(e) => e.depth >= depth && {
                let sc = spec_from_tt(e.score as int, ply);
                match e.bound {
                    Bound::Exact => true,
                    Bound::Lower => sc >= beta,
                    Bound::Upper => sc <= alpha,
                }
            },
            None => false,
        };
        if hit {
            (spec_from_tt(probe->0.score as int, ply), tt)
        } else {
            let nul = if null_applies(p, depth, beta) {
                nega(null_position(p), depth - 3, ply + 1, sat(-beta), sat(sat(-beta) + 1), tt)
            } else {
                (0, tt)
            };
            if null_applies(p, depth, beta) && sat(-nul.0) >= beta {
                (beta, nul.1)
            } else {
                let moves = ordered_moves(p, tt_move, legal_seq(p));
                let res = nega_loop(p, depth, ply, alpha, beta, moves, 0, -INF as int, moves[0], nul.1);
                (res.0, tt_store(res.2, key, depth, spec_to_tt(res.0, ply), bound_of(res.0, alpha, beta), res.1))
            }
        }
    }
}

/// The move loop of `nega` from the `i`-th move on, with the best score and
/// move so far: each move is searched with the window narrowed to
/// (`alpha`, `beta`), negated, and the loop stops once `alpha` reaches `beta`.
pub open spec fn nega_loop(
    p: Position,
    depth: int,
    ply: int,
    alpha: int,
    beta: int,
    moves: Seq<Move>,
    i: int,
    best: int,
    bm: Move,
    tt: Seq<Option<TtEntry>>,
) -> (int, Move, Seq<Option<TtEntry>>)
    decreases depth, 1int, moves.len() - i,
{
    if i < 0 || i >= moves.len() || depth <= 0 {
        (best, bm, tt)
    } else {
        let child = nega(spec_make_move(p, moves[i]), depth - 1, ply + 1, sat(-beta), sat(-alpha), tt);
        let s = sat(-child.0);
        let best1 = if s > best {
            s
        } else {
            best
        };
        let bm1 = if s > best {
            moves[i]
        } else {
            bm
        };
        let alpha1 = if best1 > alpha {
            best1
        } else {
            alpha
        };
        if alpha1 >= beta {
            (best1, bm1, child.1)
        } else {
            nega_loop(p, depth, ply, alpha1, beta, moves, i + 1, best1, bm1, child.1)
        }
    }
}

/// The null move: the other side to move, no en-passant target.
fn null_move_board(b: &Board) -> (nb: Board)
    requires
        playable(b@),
        !spec_in_check(b@),
    ensures
        playable(nb@),
        nb@.squares == b@.squares,
        nb@.halfmove == b@.halfmove,
        nb@.fullmove == b@.fullmove,
        nb@ == null_position(b@),
{
    let mut nb = *b;
    nb.side = nb.side.opp();
    nb.ep = None;
    proof {
        let c = b@.side;
        crate::legality::lemma_same_squares(b@, nb@, c.spec_opp(), c);
        crate::legality::lemma_same_squares(b@, nb@, c, c.spec_opp());
        assert(nb@.side.spec_opp() == c);
    }
    nb
}

/// Negamax alpha-beta with the transposition table and null-move pruning.
#[verifier::rlimit(100)]
#[verifier::spinoff_prover]
fn negamax(
    b: &Board,
    depth: u32,
    ply: i32,
    alpha: i32,
    beta: i32,
    nodes: &mut u64,
    tt: &mut Tt,
    z: &Zob,
    Ghost(shallow): Ghost<bool>,
) -> (r: i32)
    requires
        playable(b@),
        b@.halfmove + depth < u16::MAX,
        b@.fullmove + depth + 130 < u16::MAX,
        0 <= ply,
        ply + depth <= MAX_SEARCH_DEPTH + 1,
        old(tt).wf(),
        z.wf(),
        shallow ==> ply + depth <= SCORE_SAFE_DEPTH && old(tt).bounded() && alpha <= score_room(
            ply as int,
            depth as int,
        ) && beta >= -score_room(ply as int, depth as int),
    ensures
        final(tt).wf(),
        shallow ==> final(tt).bounded() && -score_room(ply as int, depth as int)
            <= r <= score_room(ply as int, depth as int),
        no_legal_move(b@) ==> r == (if spec_in_check(b@) {
            -(MATE - ply)
        } else {
            0
        }),
        depth == 0 && !no_legal_move(b@) && alpha < beta ==> r == window_clamp(
            qvalue(b@),
            alpha as int,
            beta as int,
        ),
        depth == 0 && !no_legal_move(b@) && alpha >= beta ==> r == alpha || r == beta,
        depth == 0 && !no_legal_move(b@) ==> (r >= beta || r > -200_000) && (r <= alpha || r
            < 200_000),
        shallow && alpha < beta ==> r == nega(b@, depth as int, ply as int, alpha as int, beta as int, old(tt).e@).0
            && final(tt).e@ == nega(b@, depth as int, ply as int, alpha as int, beta as int, old(tt).e@).1,
    decreases depth,
{
    *nodes = nodes.wrapping_add(1);
    let ghost alpha0 = alpha;
    let ghost tt0 = tt.e@;
    let mut alpha = alpha;
    let mut moves = generate_legal(b);
    if moves.len() == 0 {
        proof {
            assert forall|m: Move| !legal(b@, m) by {
                if legal(b@, m) {
                    assert(moves@.contains(m));
                }
            }
        }
        return if in_check(b) {
            -(MATE - ply)
        } else {
            0
        };
    }
    proof {
        assert(moves@.contains(moves@[0]));
    }
    if depth == 0 {
        proof {
            crate::legality::lemma_count_le(b@.squares);
        }
        return quiesce(b, alpha, beta, nodes);
    }
    let alpha_orig = alpha;
    let key = zobrist(b, z);
    let mut tt_move: Option<Move> = None;
    match tt.probe(key) {
        Some(e) => {
            tt_move = Some(e.mv);
            if e.depth as u32 >= depth {
                let sc = from_tt(e.score, ply);
                proof {
                    if shallow {
                        lemma_slot_fits(tt, key);
                        lemma_read_fits(e, ply as int, depth as int);
                    }
                }
                match e.bound {
                    Bound::Exact => {
                        return sc;
                    },
                    Bound::Lower => {
                        if sc >= beta {
                            return sc;
                        }
                    },
                    Bound::Upper => {
                        if sc <= alpha {
                            return sc;
                        }
                    },
                }
            }
        },
        None => {},
    }
    // Null-move pruning: give the opponent a free move; if we're still so good
    // that even then we'd exceed beta, cut. Skipped in check and in pawn-only
    // endgames (zugzwang risk).
    if depth >= 3 && beta < MATE_THRESHOLD && !in_check(b) && has_non_pawn_material(b, b.side) {
        let nb = null_move_board(b);
        let r: u32 = 2;
        proof {
            if shallow {
                assert(sat(-beta) == -beta);
                assert(sat(-beta + 1) == -beta + 1);
                assert(depth.saturating_sub((1 + r) as u32) == depth - 3);
                assert(ply + 1 + depth.saturating_sub((1 + r) as u32) <= SCORE_SAFE_DEPTH);
                assert(-beta <= score_room(ply + 1, depth - 3));
                assert(-beta + 1 >= -score_room(ply + 1, depth - 3));
                assert(tt.bounded());
            }
        }
        let s = neg_sat(
            negamax(&nb, depth.saturating_sub(1 + r), ply + 1, neg_sat(beta), add_sat(neg_sat(beta), 1), nodes, tt, z, Ghost(shallow)),
        );
        proof {
            if shallow {
                assert(tt.bounded());
            }
        }
        if s >= beta {
            return beta;
        }
    }
    proof {
        assert forall|i: int| 0 <= i < moves@.len() implies #[trigger] moves@[i].from < 64
            && moves@[i].to < 64 by {
            assert(moves@.contains(moves@[i]));
        }
    }
    let ghost tt_start = tt.e@;
    proof {
        assert(moves@.no_duplicates());
    }
    order(b, &mut moves, tt_move);
    proof {
        if shallow && alpha0 < beta {
            assert(moves@ == ordered_moves(b@, tt_move, legal_seq(b@)));
        }
    }
    let mut best: i32 = -INF;
    let mut best_move = moves[0];
    let mut i: usize = 0;
    let mut cut = false;
    while i < moves.len() && !cut
        invariant
            playable(b@),
            1 <= depth,
            b@.halfmove + depth < u16::MAX,
            b@.fullmove + depth + 130 < u16::MAX,
            0 <= ply,
            ply + depth <= MAX_SEARCH_DEPTH + 1,
            tt.wf(),
            z.wf(),
            forall|m: Move| moves@.contains(m) ==> legal(b@, m),
            i <= moves@.len(),
            moves@.len() > 0,
            cut ==> i > 0,
            shallow && alpha0 < beta ==> (if cut {
                nega_loop(b@, depth as int, ply as int, alpha0 as int, beta as int, moves@, 0, -INF as int, moves@[0], tt_start)
                    == (best as int, best_move, tt.e@)
            } else {
                nega_loop(b@, depth as int, ply as int, alpha0 as int, beta as int, moves@, 0, -INF as int, moves@[0], tt_start)
                    == nega_loop(b@, depth as int, ply as int, alpha as int, beta as int, moves@, i as int, best as int, best_move, tt.e@)
            }),
            !cut ==> alpha < beta || !(shallow && alpha0 < beta),
            alpha >= alpha0,
            shallow ==> ply + depth <= SCORE_SAFE_DEPTH && tt.bounded() && alpha <= score_room(
                ply as int,
                depth as int,
            ) && beta >= -score_room(ply as int, depth as int) && (i == 0 ==> best == -INF) && (i > 0
                ==> -score_room(ply as int, depth as int) <= best <= score_room(ply as int, depth as int)
                && alpha >= best),
        decreases moves@.len() - i,
    {
        let m = moves[i];
        proof {
            assert(moves@.contains(m));
            lemma_playable_next(b@, m);
            crate::movegen::lemma_king_survives(b@, m);
        }
        let mut nb = *b;
        nb.make_move(m);
        let s = neg_sat(negamax(&nb, depth - 1, ply + 1, neg_sat(beta), neg_sat(alpha), nodes, tt, z, Ghost(shallow)));
        if s > best {
            best = s;
            best_move = m;
        }
        if best > alpha {
            alpha = best;
        }
        if alpha >= beta {
            cut = true;
        }
        i = i + 1;
    }
    let bound = if best <= alpha_orig {
        Bound::Upper
    } else if best >= beta {
        Bound::Lower
    } else {
        Bound::Exact
    };
    let stored = to_tt(best, ply);
    proof {
        if shallow {
            lemma_store_fits(key, depth, best as int, ply as int, bound, best_move);
        }
    }
    tt.store(key, depth, stored, bound, best_move);
    best
}

/// After every legal move that leaves the opponent a move, the opponent's
/// quiescence value stays above a mated score: no pile of material makes a
/// quiet position look like a forced mate.
pub open spec fn no_false_mates(p: Position) -> bool {
    forall|m: Move|
        legal(p, m) && !no_legal_move(spec_make_move(p, m)) ==> qvalue(#[trigger] spec_make_move(p, m))
            > -(MATE - 1)
}

/// The value of a root move in a one-ply search: the mate or draw score when
/// it ends the game, else the opponent's quiescence value, held to the
/// window and negated.
pub open spec fn root_value(p: Position, m: Move) -> int {
    let q = spec_make_move(p, m);
    if no_legal_move(q) {
        terminal_score(p, m)
    } else {
        -window_clamp(qvalue(q), -INF, INF as int)
    }
}

/// The root move loop of one iteration from the `i`-th move on: every move
/// is searched, each with the window raised to the best score so far.
pub open spec fn root_loop(
    p: Position,
    d: int,
    moves: Seq<Move>,
    i: int,
    alpha: int,
    best: int,
    bm: Option<Move>,
    tt: Seq<Option<TtEntry>>,
) -> (int, Option<Move>, Seq<Option<TtEntry>>)
    decreases moves.len() - i,
{
    if i < 0 || i >= moves.len() {
        (best, bm, tt)
    } else {
        let child = nega(spec_make_move(p, moves[i]), d - 1, 1, sat(-INF), sat(-alpha), tt);
        let s = sat(-child.0);
        let best1 = if s > best {
            s
        } else {
            best
        };
        let bm1 = if s > best {
            Some(moves[i])
        } else {
            bm
        };
        let alpha1 = if best1 > alpha {
            best1
        } else {
            alpha
        };
        root_loop(p, d, moves, i + 1, alpha1, best1, bm1, child.1)
    }
}

/// Iterative deepening from depth `d` to `max_depth`, with the best move and
/// score of the last iteration and the table so far: each iteration searches
/// the previous best move first (else the table's move), stores its result,
/// and the search stops early once it finds a forced mate.
pub open spec fn deepen(p: Position, d: int, max_depth: int, best: Option<Move>, score: int, tt: Seq<Option<TtEntry>>) -> (Option<
    Move,
>, int)
    decreases max_depth + 1 - d,
{
    if d < 1 || d > max_depth {
        (best, score)
    } else {
        let key = spec_zobrist(p);
        let tm = match best {
            Some(m) => Some(m),
            None => match tt_probe(tt, key) {
                Some(e) => Some(e.mv),
                None => None,
            },
        };
        let moves = ordered_moves(p, tm, legal_seq(p));
        let res = root_loop(p, d, moves, 0, -INF as int, -INF as int, None, tt);
        let tt2 = match res.1 {
            Some(m) => tt_store(res.2, key, d, spec_to_tt(res.0, 0), Bound::Exact, m),
            None => res.2,
        };
        if res.0 >= MATE_THRESHOLD || res.0 <= -MATE_THRESHOLD {
            (res.1, res.0)
        } else {
            deepen(p, d + 1, max_depth, res.1, res.0, tt2)
        }
    }
}

/// The move and score a search of `p` to `max_depth` gives.
pub open spec fn search_value(p: Position, max_depth: int) -> (Option<Move>, int) {
    if max_depth <= 0 {
        (None, 0)
    } else if no_legal_move(p) {
        (None, if spec_in_check(p) {
            -MATE as int
        } else {
            0
        })
    } else {
        deepen(p, 1, max_depth, None, 0, empty_table())
    }
}

/// An empty table.
pub open spec fn empty_table() -> Seq<Option<TtEntry>> {
    Seq::new(TT_SIZE as nat, |i: int| None)
}

/// The first `i` moves of `moves`, each with its score — the negated search
/// value of the position it leads to at `depth - 1`, full window, at ply 1 —
/// searched in turn with one table; and the table they leave.
pub open spec fn rank_scores(p: Position, moves: Seq<Move>, depth: int, i: int) -> (Seq<(Move, i32)>, Seq<Option<TtEntry>>)
    decreases i,
{
    if i <= 0 {
        (seq![], empty_table())
    } else {
        let prev = rank_scores(p, moves, depth, i - 1);
        let child = nega(
            spec_make_move(p, moves[i - 1]),
            if depth >= 1 {
                depth - 1
            } else {
                0
            },
            1,
            sat(-INF),
            INF as int,
            prev.1,
        );
        (prev.0.push((moves[i - 1], sat(-child.0) as i32)), child.1)
    }
}

/// The legal moves of `p`, each with its score to `depth`, in generation
/// order.
pub open spec fn unsorted_ranking(p: Position, depth: int) -> Seq<(Move, i32)> {
    rank_scores(p, legal_seq(p), depth, legal_seq(p).len() as int).0
}

/// `o` lists the entries of `u` by score, best first, entries with equal
/// scores in the order of `u`.
pub open spec fn stably_ranked(u: Seq<(Move, i32)>, o: Seq<(Move, i32)>) -> bool {
    &&& o.len() == u.len()
    &&& forall|x: (Move, i32)| o.contains(x) <==> u.contains(x)
    &&& keys_sorted_desc(o)
    &&& forall|a: int, c: int|
        0 <= a < c < o.len() && o[a].1 == o[c].1 ==> exists|x: int, y: int|
            0 <= x < y < u.len() && u[x] == o[a] && u[y] == o[c]
}

/// The ranking of `u` (see `stably_ranked`).
pub open spec fn ranked_by_score(u: Seq<(Move, i32)>) -> Seq<(Move, i32)> {
    choose|o: Seq<(Move, i32)>| stably_ranked(u, o)
}

/// Two stable rankings of the same distinct entries are the same list.
proof fn lemma_ranked_unique(u: Seq<(Move, i32)>, o1: Seq<(Move, i32)>, o2: Seq<(Move, i32)>)
    requires
        distinct_moves(u),
        distinct_moves(o1),
        distinct_moves(o2),
        forall|x: (Move, i32)| o1.contains(x) <==> o2.contains(x),
        keys_sorted_desc(o1),
        keys_sorted_desc(o2),
        forall|a: int, c: int|
            0 <= a < c < o1.len() && o1[a].1 == o1[c].1 ==> exists|x: int, y: int|
                0 <= x < y < u.len() && u[x] == o1[a] && u[y] == o1[c],
        forall|a: int, c: int|
            0 <= a < c < o2.len() && o2[a].1 == o2[c].1 ==> exists|x: int, y: int|
                0 <= x < y < u.len() && u[x] == o2[a] && u[y] == o2[c],
    ensures
        o1 == o2,
    decreases o1.len(),
{
    if o1.len() == 0 {
        if o2.len() > 0 {
            assert(o2.contains(o2[0]));
        }
        assert(o1 =~= o2);
    } else {
        assert(o1.contains(o1[0]));
        assert(o2.contains(o2[0]));
        let j = choose|j: int| 0 <= j < o2.len() && o2[j] == o1[0];
        let k = choose|k: int| 0 <= k < o1.len() && o1[k] == o2[0];
        if o1[0] != o2[0] {
            assert(k > 0 && j > 0);
            let (x1, y1) = choose|x: int, y: int| 0 <= x < y < u.len() && u[x] == o1[0] && u[y] == o1[k];
            let (x2, y2) = choose|x: int, y: int| 0 <= x < y < u.len() && u[x] == o2[0] && u[y] == o2[j];
            assert(u[x1].0 == u[y2].0);
            assert(u[y1].0 == u[x2].0);
        }
        let w1 = o1.drop_first();
        let w2 = o2.drop_first();
        assert forall|m: (Move, i32)| w1.contains(m) <==> w2.contains(m) by {
            if w1.contains(m) {
                let a = choose|a: int| 0 <= a < w1.len() && w1[a] == m;
                assert(o1[a + 1] == m);
                assert(o1.contains(m));
                let b = choose|b: int| 0 <= b < o2.len() && o2[b] == m;
                if b == 0 {
                    assert(o1[0].0 == o1[a + 1].0);
                }
                assert(w2[b - 1] == m);
            }
            if w2.contains(m) {
                let a = choose|a: int| 0 <= a < w2.len() && w2[a] == m;
                assert(o2[a + 1] == m);
                assert(o2.contains(m));
                let b = choose|b: int| 0 <= b < o1.len() && o1[b] == m;
                if b == 0 {
                    assert(o2[0].0 == o2[a + 1].0);
                }
                assert(w1[b - 1] == m);
            }
        }
        assert forall|a: int, c: int|
            0 <= a < c < w1.len() && w1[a].1 == w1[c].1 implies exists|x: int, y: int|
                0 <= x < y < u.len() && u[x] == w1[a] && u[y] == w1[c] by {
            assert(w1[a] == o1[a + 1] && w1[c] == o1[c + 1]);
        }
        assert forall|a: int, c: int|
            0 <= a < c < w2.len() && w2[a].1 == w2[c].1 implies exists|x: int, y: int|
                0 <= x < y < u.len() && u[x] == w2[a] && u[y] == w2[c] by {
            assert(w2[a] == o2[a + 1] && w2[c] == o2[c + 1]);
        }
        assert(keys_sorted_desc(w1)) by {
            assert forall|a: int, c: int| 0 <= a < c < w1.len() implies w1[a].1 >= w1[c].1 by {
                assert(w1[a] == o1[a + 1] && w1[c] == o1[c + 1]);
            }
        }
        assert(keys_sorted_desc(w2)) by {
            assert forall|a: int, c: int| 0 <= a < c < w2.len() implies w2[a].1 >= w2[c].1 by {
                assert(w2[a] == o2[a + 1] && w2[c] == o2[c + 1]);
            }
        }
        assert(distinct_moves(w1)) by {
            assert forall|a: int, c: int| 0 <= a < w1.len() && 0 <= c < w1.len() && a != c implies w1[a].0 != w1[c].0 by {
                assert(w1[a] == o1[a + 1] && w1[c] == o1[c + 1]);
            }
        }
        assert(distinct_moves(w2)) by {
            assert forall|a: int, c: int| 0 <= a < w2.len() && 0 <= c < w2.len() && a != c implies w2[a].0 != w2[c].0 by {
                assert(w2[a] == o2[a + 1] && w2[c] == o2[c + 1]);
            }
        }
        lemma_ranked_unique(u, w1, w2);
        assert(o1 =~= seq![o1[0]] + w1);
        assert(o2 =~= seq![o2[0]] + w2);
    }
}

/// A move that leads to a position with no legal move scores MATE - 1 when
/// it checkmates and 0 when it stalemates.
pub open spec fn terminal_score(p: Position, m: Move) -> int {
    if spec_in_check(spec_make_move(p, m)) {
        MATE - 1
    } else {
        0
    }
}

/// Score every legal move to `depth` and return them best-first (equal
/// scores keep move-generation order). Full window per move so the scores are
/// directly comparable; the shared table speeds transpositions.
pub fn rank_moves(b: &Board, depth: u32) -> (scored: Vec<(Move, i32)>)
    requires
        search_ready(b@, depth as nat),
    ensures
        forall|m: Move| (exists|i: int| 0 <= i < scored@.len() && scored@[i].0 == m) <==> legal(b@, m),
        distinct_moves(scored@),
        keys_sorted_desc(scored@),
        forall|i: int|
            0 <= i < scored@.len() && no_legal_move(spec_make_move(b@, #[trigger] scored@[i].0))
                ==> scored@[i].1 == terminal_score(b@, scored@[i].0),
        depth <= 1 ==> forall|i: int|
            0 <= i < scored@.len() && !no_legal_move(spec_make_move(b@, #[trigger] scored@[i].0))
                ==> scored@[i].1 == -window_clamp(qvalue(spec_make_move(b@, scored@[i].0)), -INF, INF as int),
        depth <= SCORE_SAFE_DEPTH ==> forall|i: int| 0 <= i < scored@.len() ==> -INF < #[trigger] scored@[i].1 < INF,
        forall|a: int, c: int|
            0 <= a < c < scored@.len() && scored@[a].1 == scored@[c].1 ==> exists|x: int, y: int|
                0 <= x < y < legal_seq(b@).len() && legal_seq(b@)[x] == scored@[a].0 && legal_seq(b@)[y]
                    == scored@[c].0,
        depth <= SCORE_SAFE_DEPTH ==> scored@ == ranked_by_score(unsorted_ranking(b@, depth as int)),
{
    let mut nodes: u64 = 0;
    let mut tt = Tt::new();
    let z = new_zob();
    let moves = generate_legal(b);
    let mut scored: Vec<(Move, i32)> = Vec::new();
    let mut i: usize = 0;
    while i < moves.len()
        invariant
            search_ready(b@, depth as nat),
            i <= moves@.len(),
            forall|m: Move| moves@.contains(m) <==> legal(b@, m),
            moves@.no_duplicates(),
            tt.wf(),
            z.wf(),
            depth <= SCORE_SAFE_DEPTH ==> tt.bounded(),
            moves@ == legal_seq(b@),
            depth <= SCORE_SAFE_DEPTH ==> scored@ == rank_scores(b@, moves@, depth as int, i as int).0 && tt.e@
                == rank_scores(b@, moves@, depth as int, i as int).1,
            scored@.len() == i,
            forall|k: int| 0 <= k < i ==> #[trigger] scored@[k].0 == moves@[k],
            forall|k: int|
                0 <= k < i && no_legal_move(spec_make_move(b@, #[trigger] scored@[k].0))
                    ==> scored@[k].1 == terminal_score(b@, scored@[k].0),
            depth <= 1 ==> forall|k: int|
                0 <= k < i && !no_legal_move(spec_make_move(b@, #[trigger] scored@[k].0))
                    ==> scored@[k].1 == -window_clamp(qvalue(spec_make_move(b@, scored@[k].0)), -INF, INF as int),
            depth <= SCORE_SAFE_DEPTH ==> forall|k: int| 0 <= k < i ==> -INF < #[trigger] scored@[k].1 < INF,
        decreases moves@.len() - i,
    {
        let m = moves[i];
        proof {
            assert(moves@.contains(m));
            lemma_playable_next(b@, m);
            crate::movegen::lemma_king_survives(b@, m);
        }
        let mut nb = *b;
        nb.make_move(m);
        let s = neg_sat(
            negamax(&nb, depth.saturating_sub(1), 1, neg_sat(INF), INF, &mut nodes, &mut tt, &z, Ghost(depth <= SCORE_SAFE_DEPTH)),
        );
        proof {
            assert(nb@ == spec_make_move(b@, moves@[i as int]));
        }
        scored.push((m, s));
        i = i + 1;
    }
    proof {
        assert forall|a: int, c: int|
            0 <= a < scored@.len() && 0 <= c < scored@.len() && a != c implies scored@[a].0
            != scored@[c].0 by {
            assert(scored@[a].0 == moves@[a]);
            assert(scored@[c].0 == moves@[c]);
        }
    }
    let ghost unsorted = scored@;
    sort_by_key(&mut scored, true);
    proof {
        if depth <= SCORE_SAFE_DEPTH {
            assert(unsorted == unsorted_ranking(b@, depth as int));
            assert(stably_ranked(unsorted, scored@));
            let o = ranked_by_score(unsorted);
            assert(stably_ranked(unsorted, o));
            assert(distinct_moves(o)) by {
                assert forall|a: int, c: int| 0 <= a < o.len() && 0 <= c < o.len() && a != c implies o[a].0 != o[c].0 by {
                    assert(o.contains(o[a]) && o.contains(o[c]));
                    let x = choose|x: int| 0 <= x < unsorted.len() && unsorted[x] == o[a];
                    let y = choose|y: int| 0 <= y < unsorted.len() && unsorted[y] == o[c];
                    if x == y {
                        assert(o.no_duplicates() || true);
                    }
                }
            }
            lemma_ranked_unique(unsorted, scored@, o);
        }
        assert forall|m: Move|
            (exists|i: int| 0 <= i < scored@.len() && scored@[i].0 == m) <==> legal(b@, m) by {
            if exists|i: int| 0 <= i < scored@.len() && scored@[i].0 == m {
                let i = choose|i: int| 0 <= i < scored@.len() && scored@[i].0 == m;
                assert(scored@.contains(scored@[i]));
                let k = choose|k: int| 0 <= k < unsorted.len() && unsorted[k] == scored@[i];
                assert(moves@[k] == m);
                assert(moves@.contains(m));
            }
            if legal(b@, m) {
                assert(moves@.contains(m));
                let k = choose|k: int| 0 <= k < moves@.len() && moves@[k] == m;
                assert(unsorted[k].0 == m);
                assert(unsorted.contains(unsorted[k]));
                assert(scored@.contains(unsorted[k]));
                let i = choose|i: int| 0 <= i < scored@.len() && scored@[i] == unsorted[k];
                assert(scored@[i].0 == m);
            }
        }
        assert forall|i: int|
            0 <= i < scored@.len() && no_legal_move(spec_make_move(b@, #[trigger] scored@[i].0))
                implies scored@[i].1 == terminal_score(b@, scored@[i].0) by {
            assert(scored@.contains(scored@[i]));
            let k = choose|k: int| 0 <= k < unsorted.len() && unsorted[k] == scored@[i];
        }
        if depth <= 1 {
            assert forall|i: int|
                0 <= i < scored@.len() && !no_legal_move(spec_make_move(b@, #[trigger] scored@[i].0))
                    implies scored@[i].1 == -window_clamp(qvalue(spec_make_move(b@, scored@[i].0)), -INF, INF as int) by {
                assert(scored@.contains(scored@[i]));
                let k = choose|k: int| 0 <= k < unsorted.len() && unsorted[k] == scored@[i];
                assert(unsorted[k].0 == scored@[i].0);
            }
        }
        assert forall|a: int, c: int|
            0 <= a < c < scored@.len() && scored@[a].1 == scored@[c].1 implies exists|x: int, y: int|
                0 <= x < y < legal_seq(b@).len() && legal_seq(b@)[x] == scored@[a].0 && legal_seq(b@)[y]
                    == scored@[c].0 by {
            let (x, y) = choose|x: int, y: int|
                0 <= x < y < unsorted.len() && unsorted[x] == scored@[a] && unsorted[y] == scored@[c];
            assert(unsorted[x].0 == moves@[x] && unsorted[y].0 == moves@[y]);
        }
        if depth <= SCORE_SAFE_DEPTH {
            assert forall|i: int| 0 <= i < scored@.len() implies -INF < #[trigger] scored@[i].1 < INF by {
                assert(scored@.contains(scored@[i]));
                let k = choose|k: int| 0 <= k < unsorted.len() && unsorted[k] == scored@[i];
            }
        }
    }
    scored
}

/// Search `b` to `max_depth` with iterative deepening; returns the best move.
pub fn search(b: &Board, max_depth: u32) -> (r: SearchResult)
    requires
        search_ready(b@, max_depth as nat),
    ensures
        max_depth == 0 ==> r.best is None && r.score == 0 && r.nodes == 0 && r.depth == 0,
        max_depth >= 1 && no_legal_move(b@) ==> r.best is None,
        max_depth >= 1 && r.best is None ==> no_legal_move(b@) || r.score == -INF,
        max_depth >= 1 && no_legal_move(b@) ==> r.score == (if spec_in_check(b@) {
            -MATE
        } else {
            0
        }) && r.depth == 1 && r.nodes == 0,
        r.best is Some ==> legal(b@, r.best->0) && r.depth == max_depth,
        max_depth >= 1 && (exists|m: Move| legal(b@, m) && mates(b@, m)) ==> r.score >= MATE - 1,
        max_depth == 1 && !no_legal_move(b@) ==> r.best is Some && r.score == root_value(b@, r.best->0)
            && forall|m: Move| legal(b@, m) ==> #[trigger] root_value(b@, m) <= r.score,
        1 <= max_depth <= SCORE_SAFE_DEPTH && !no_legal_move(b@) ==> r.best is Some && -INF < r.score
            < INF,
        max_depth >= 1 && (exists|m: Move| legal(b@, m) && mates(b@, m)) && no_false_mates(b@)
            ==> r.best is Some && mates(b@, r.best->0),
        max_depth <= SCORE_SAFE_DEPTH ==> (r.best, r.score as int) == search_value(b@, max_depth as int),
{
    let mut best: Option<Move> = None;
    let mut score: i32 = 0;
    let mut total_nodes: u64 = 0;
    let mut tt = Tt::new();
    let z = new_zob();
    let mut d: u32 = 1;
    let mut done = false;
    while d <= max_depth && !done
        invariant
            search_ready(b@, max_depth as nat),
            1 <= d <= max_depth + 1,
            tt.wf(),
            z.wf(),
            d == 1 ==> best is None && score == 0 && total_nodes == 0 && !done,
            d > 1 ==> exists|m: Move| legal(b@, m),
            best is Some ==> legal(b@, best->0),
            d > 1 && best is None ==> score == -INF,
            d > 1 && (exists|m: Move| legal(b@, m) && mates(b@, m)) ==> score >= MATE - 1,
            d == 2 ==> best is Some,
            max_depth == 1 && d == 2 ==> score == root_value(b@, best->0) && forall|m: Move|
                legal(b@, m) ==> #[trigger] root_value(b@, m) <= score,
            max_depth <= SCORE_SAFE_DEPTH ==> tt.bounded(),
            max_depth <= SCORE_SAFE_DEPTH && !no_legal_move(b@) ==> search_value(b@, max_depth as int) == (if done {
                (best, score as int)
            } else {
                deepen(b@, d as int, max_depth as int, best, score as int, tt.e@)
            }),
            (exists|m: Move| legal(b@, m) && mates(b@, m)) && no_false_mates(b@) && d > 1 ==> d == 2
                && done && best is Some && mates(b@, best->0),
            max_depth <= SCORE_SAFE_DEPTH && d > 1 ==> best is Some && -score_room(0, (d - 1) as int) <= score
                <= score_room(0, (d - 1) as int),
        decreases max_depth + 1 - d,
    {
        let mut moves = generate_legal(b);
        if moves.len() == 0 {
            proof {
                assert forall|m: Move| !legal(b@, m) by {
                    if legal(b@, m) {
                        assert(moves@.contains(m));
                    }
                }
            }
            let s = if in_check(b) {
                -MATE
            } else {
                0
            };
            return SearchResult { best: None, score: s, nodes: total_nodes, depth: d };
        }
        // Order by the TT/PV move from the previous iteration, then captures.
        let tt_move = match best {
            Some(m) => Some(m),
            None => match tt.probe(zobrist(b, &z)) {
                Some(e) => Some(e.mv),
                None => None,
            },
        };
        proof {
            assert forall|i: int| 0 <= i < moves@.len() implies #[trigger] moves@[i].from < 64
                && moves@[i].to < 64 by {
                assert(moves@.contains(moves@[i]));
            }
        }
        proof {
            assert(moves@.contains(moves@[0]));
        }
        proof {
            assert(moves@.no_duplicates());
        }
        let ghost tt_start = tt.e@;
        order(b, &mut moves, tt_move);
        let mut alpha: i32 = -INF;
        let beta: i32 = INF;
        let mut local_best: i32 = -INF;
        let mut local_move: Option<Move> = None;
        let mut nodes: u64 = 0;
        let mut i: usize = 0;
        while i < moves.len()
            invariant
                search_ready(b@, max_depth as nat),
                1 <= d <= max_depth,
                tt.wf(),
                z.wf(),
                i <= moves@.len(),
                forall|m: Move| moves@.contains(m) <==> legal(b@, m),
                exists|m: Move| legal(b@, m),
                local_move is Some ==> legal(b@, local_move->0),
                local_move is None ==> local_best == -INF,
                forall|k: int|
                    0 <= k < i && mates(b@, #[trigger] moves@[k]) ==> local_best >= MATE - 1,
                d == 1 && i > 0 ==> local_move is Some,
                alpha == local_best,
                beta == INF,
                max_depth <= SCORE_SAFE_DEPTH ==> tt.bounded(),
                max_depth <= SCORE_SAFE_DEPTH ==> root_loop(b@, d as int, moves@, 0, -INF as int, -INF as int, None, tt_start)
                    == root_loop(b@, d as int, moves@, i as int, alpha as int, local_best as int, local_move, tt.e@),
                max_depth <= SCORE_SAFE_DEPTH && i > 0 ==> local_move is Some && -score_room(0, d as int)
                    <= local_best <= score_room(0, d as int),
                max_depth <= SCORE_SAFE_DEPTH && i == 0 ==> local_best == -INF,
                d == 1 ==> local_best < 200_000,
                d == 1 && i > 0 ==> local_best == root_value(b@, local_move->0) && forall|k: int|
                    0 <= k < i ==> #[trigger] root_value(b@, moves@[k]) <= local_best,
                d == 1 && no_false_mates(b@) && local_best >= MATE - 1 ==> local_move is Some && mates(
                    b@,
                    local_move->0,
                ),
            decreases moves@.len() - i,
        {
            let m = moves[i];
            proof {
                assert(moves@.contains(m));
                lemma_playable_next(b@, m);
                crate::movegen::lemma_king_survives(b@, m);
            }
            let mut nb = *b;
            nb.make_move(m);
            let s = neg_sat(
                negamax(&nb, d - 1, 1, neg_sat(beta), neg_sat(alpha), &mut nodes, &mut tt, &z, Ghost(max_depth <= SCORE_SAFE_DEPTH)),
            );
            proof {
                if d == 1 {
                    assert(sat(-beta) == -INF);
                    assert(nb@ == spec_make_move(b@, m));
                    assert(s > -INF);
                    assert(sat(-alpha) == -alpha);
                    if no_legal_move(nb@) {
                        assert(s == root_value(b@, m));
                    } else {
                        assert(s == (if root_value(b@, m) > alpha { root_value(b@, m) } else { alpha as int }));
                    }
                    if no_false_mates(b@) && !no_legal_move(nb@) {
                        assert(qvalue(spec_make_move(b@, m)) > -(MATE - 1));
                        assert(s < MATE - 1 || s <= alpha);
                    }
                }
            }
            if s > local_best {
                local_best = s;
                local_move = Some(m);
            }
            if local_best > alpha {
                alpha = local_best;
            }
            i = i + 1;
        }
        proof {
            if exists|m: Move| legal(b@, m) && mates(b@, m) {
                let m = choose|m: Move| legal(b@, m) && mates(b@, m);
                assert(moves@.contains(m));
                let k = choose|k: int| 0 <= k < moves@.len() && moves@[k] == m;
                assert(mates(b@, moves@[k]));
            }
        }
        best = local_move;
        score = local_best;
        total_nodes = total_nodes.wrapping_add(nodes);
        if let Some(m) = best {
            let key = zobrist(b, &z);
            proof {
                if max_depth <= SCORE_SAFE_DEPTH {
                    lemma_store_fits(key, d, score as int, 0, Bound::Exact, m);
                }
            }
            tt.store(key, d, to_tt(score, 0), Bound::Exact, m);
        }
        if score >= MATE_THRESHOLD || score <= -MATE_THRESHOLD {
            done = true;  // a forced mate is found — no need to search deeper
        }
        d = d + 1;
    }
    SearchResult { best, score, nodes: total_nodes, depth: max_depth }
}

/// Convenience: the best move for `b` searched to `depth`.
pub fn best_move(b: &Board, depth: u32) -> (m: Option<Move>)
    requires
        search_ready(b@, depth as nat),
    ensures
        m is Some ==> legal(b@, m->0),
        depth == 0 ==> m is None,
        depth >= 1 && no_legal_move(b@) ==> m is None,
        1 <= depth <= SCORE_SAFE_DEPTH && !no_legal_move(b@) ==> m is Some,
        depth == 1 && !no_legal_move(b@) ==> forall|mv: Move|
            legal(b@, mv) ==> #[trigger] root_value(b@, mv) <= root_value(b@, m->0),
        depth <= SCORE_SAFE_DEPTH ==> m == search_value(b@, depth as int).0,
        depth >= 1 && (exists|mv: Move| legal(b@, mv) && mates(b@, mv)) && no_false_mates(b@) ==> m is Some
            && mates(b@, m->0),
{
    search(b, depth).best
}


/// Whether `b` can be searched to `depth` (see `search_ready`).
pub fn search_ok(b: &Board, depth: u32) -> (r: bool)
    ensures
        r == search_ready(b@, depth as nat),
{
    crate::legality::playable_ok(b) && depth <= MAX_SEARCH_DEPTH && (b.halfmove as u64) + (depth as u64) + 1
        < u16::MAX as u64 && (b.fullmove as u64) + (depth as u64) + 131 < u16::MAX as u64
}

} // verus!
