//! The assistance layer: the assistance spectrum and `analyze`, the
//! Assistance-Handicap mapping from a rating gap to a rung, and the
//! glass-box log that records every piece of help so both players see it.
use vstd::prelude::*;
use vstd::string::StringExecFns;
use crate::board::{spec_make_move, Board, Color, Flag, Move, Piece, PieceKind, Position, Square};
use crate::eval::{material, spec_material};
use crate::movegen::{generate_legal, is_attacked, king_square, lemma_first_king_unique, lemma_king_survives};
use crate::rules::{attacked, has_king, is_king_at, king_of, legal, movegen_ready};
use crate::san::san_ready;
use crate::search::{
    distinct_moves, in_check, keys_sorted_desc, no_legal_move, rank_moves, ranked_by_score, search_ready, spec_in_check,
    terminal_score, unsorted_ranking, SCORE_SAFE_DEPTH,
};
use crate::san::{san, san_text};
use crate::legality::lemma_playable_next;
use crate::strategy::{ranked_ready, read_is, strategize, StrategyRead};
use crate::fen::{fen_text, square_name, sq_to_algebraic, to_fen};
use crate::text::{push_char, push_decimal, decimal};

verus! {

/// The assistance spectrum. Higher rungs subsume lower ones.
#[derive(Clone, Copy, PartialEq, Eq, PartialOrd, Ord, Debug, Structural)]
pub enum AssistLevel {
    /// No assistance. Pure play.
    Off,
    /// Passive signals: in check, hanging pieces.
    Awareness,
    /// Natural-language explanation of threats.
    Coaching,
    /// A short list of candidate moves, with scores.
    Suggestion,
    /// A single recommended move (the player still executes it).
    Guided,
    /// The co-pilot's move, ready to auto-play.
    Autopilot,
}

/// The position of a rung on the spectrum (Off = 0 .. Autopilot = 5).
pub open spec fn level_rank(l: AssistLevel) -> int {
    match l {
        AssistLevel::Off => 0,
        AssistLevel::Awareness => 1,
        AssistLevel::Coaching => 2,
        AssistLevel::Suggestion => 3,
        AssistLevel::Guided => 4,
        AssistLevel::Autopilot => 5,
    }
}

/// The rung's position, as a number.
pub fn rank_of_level(l: AssistLevel) -> (r: u8)
    ensures
        r == level_rank(l),
{
    match l {
        AssistLevel::Off => 0,
        AssistLevel::Awareness => 1,
        AssistLevel::Coaching => 2,
        AssistLevel::Suggestion => 3,
        AssistLevel::Guided => 4,
        AssistLevel::Autopilot => 5,
    }
}

/// The rung recommended for a rating gap.
pub open spec fn level_for_gap(gap: int) -> AssistLevel {
    if gap <= 99 {
        AssistLevel::Off
    } else if gap <= 299 {
        AssistLevel::Awareness
    } else if gap <= 499 {
        AssistLevel::Coaching
    } else if gap <= 799 {
        AssistLevel::Suggestion
    } else if gap <= 1199 {
        AssistLevel::Guided
    } else {
        AssistLevel::Autopilot
    }
}

/// The rating gap, never negative.
pub open spec fn rating_gap(stronger_elo: int, weaker_elo: int) -> int {
    if stronger_elo - weaker_elo > 0 {
        stronger_elo - weaker_elo
    } else {
        0
    }
}

/// The Assistance-Handicap seed: recommended assistance for the *weaker*
/// player given both ratings. Monotonic in the gap.
pub fn recommended_level(stronger_elo: i32, weaker_elo: i32) -> (l: AssistLevel)
    requires
        i32::MIN <= stronger_elo - weaker_elo <= i32::MAX,
    ensures
        l == level_for_gap(rating_gap(stronger_elo as int, weaker_elo as int)),
{
    let d = stronger_elo - weaker_elo;
    let gap = if d > 0 {
        d
    } else {
        0
    };
    if gap <= 99 {
        AssistLevel::Off
    } else if gap <= 299 {
        AssistLevel::Awareness
    } else if gap <= 499 {
        AssistLevel::Coaching
    } else if gap <= 799 {
        AssistLevel::Suggestion
    } else if gap <= 1199 {
        AssistLevel::Guided
    } else {
        AssistLevel::Autopilot
    }
}

/// Equal ratings get no help.
pub proof fn law_handicap_zero_at_parity(elo: int)
    ensures
        level_for_gap(rating_gap(elo, elo)) == AssistLevel::Off,
{
}

/// A wider rating gap never gets less help.
pub proof fn law_handicap_monotonic(s1: int, w1: int, s2: int, w2: int)
    requires
        s1 - w1 <= s2 - w2,
    ensures
        level_rank(level_for_gap(rating_gap(s1, w1))) <= level_rank(level_for_gap(rating_gap(s2, w2))),
{
}

// ---------------------------------------------------------------------------
// Names
// ---------------------------------------------------------------------------

pub open spec fn kind_text(k: PieceKind) -> Seq<char> {
    match k {
        PieceKind::Pawn => "pawn"@,
        PieceKind::Knight => "knight"@,
        PieceKind::Bishop => "bishop"@,
        PieceKind::Rook => "rook"@,
        PieceKind::Queen => "queen"@,
        PieceKind::King => "king"@,
    }
}

/// The lower-case name of a piece kind.
pub fn kind_name(k: PieceKind) -> (s: &'static str)
    ensures
        s@ == kind_text(k),
{
    match k {
        PieceKind::Pawn => "pawn",
        PieceKind::Knight => "knight",
        PieceKind::Bishop => "bishop",
        PieceKind::Rook => "rook",
        PieceKind::Queen => "queen",
        PieceKind::King => "king",
    }
}

/// The letter appended to a coordinate move for its promotion.
pub open spec fn promo_char(k: PieceKind) -> char {
    match k {
        PieceKind::Knight => 'n',
        PieceKind::Bishop => 'b',
        PieceKind::Rook => 'r',
        PieceKind::Queen => 'q',
        _ => '?',
    }
}

/// Coordinate notation: from-square, to-square, then the promotion letter.
pub open spec fn uci_text(m: Move) -> Seq<char> {
    square_name(m.from) + square_name(m.to) + match m.promo {
        Some(k) => seq![promo_char(k)],
        None => seq![],
    }
}

/// A move in coordinate notation (e2e4, e7e8q).
pub fn to_uci(m: Move) -> (s: String)
    ensures
        s@ == uci_text(m),
{
    let mut s = sq_to_algebraic(m.from);
    let to = sq_to_algebraic(m.to);
    s.append(to.as_str());
    if let Some(k) = m.promo {
        push_char(
            &mut s,
            match k {
                PieceKind::Knight => 'n',
                PieceKind::Bishop => 'b',
                PieceKind::Rook => 'r',
                PieceKind::Queen => 'q',
                _ => '?',
            },
        );
    }
    proof {
        assert(s@ =~= uci_text(m));
    }
    s
}


// ---------------------------------------------------------------------------
// Reading the board
// ---------------------------------------------------------------------------

/// An own piece (not the king) that the enemy attacks and nobody defends.
pub open spec fn hanging_at(p: Position, side: Color, s: int) -> bool {
    &&& p.squares[s] is Some
    &&& p.squares[s]->0.color == side
    &&& p.squares[s]->0.kind != PieceKind::King
    &&& attacked(p, s, side.spec_opp())
    &&& !attacked(p, s, side)
}

/// An enemy piece (not king or pawn) that we attack and they do not defend.
pub open spec fn free_at(p: Position, side: Color, s: int) -> bool {
    &&& p.squares[s] is Some
    &&& p.squares[s]->0.color == side.spec_opp()
    &&& p.squares[s]->0.kind != PieceKind::King
    &&& p.squares[s]->0.kind != PieceKind::Pawn
    &&& attacked(p, s, side)
    &&& !attacked(p, s, side.spec_opp())
}

/// The hanging squares among `0..n`, ascending.
pub open spec fn hanging_squares(p: Position, side: Color, n: int) -> Seq<u8>
    decreases n,
{
    if n <= 0 {
        seq![]
    } else {
        hanging_squares(p, side, n - 1) + if hanging_at(p, side, n - 1) {
            seq![(n - 1) as u8]
        } else {
            seq![]
        }
    }
}

/// The free-capture squares among `0..n`, ascending.
pub open spec fn free_squares(p: Position, side: Color, n: int) -> Seq<u8>
    decreases n,
{
    if n <= 0 {
        seq![]
    } else {
        free_squares(p, side, n - 1) + if free_at(p, side, n - 1) {
            seq![(n - 1) as u8]
        } else {
            seq![]
        }
    }
}

/// Own pieces (excluding the king) that are attacked by the enemy and not
/// defended by a friendly piece — the simple notion of "hanging".
pub fn hanging_pieces(b: &Board, side: Color) -> (out: Vec<Square>)
    ensures
        out@ == hanging_squares(b@, side, 64),
{
    let mut out: Vec<Square> = Vec::new();
    let mut s: u8 = 0;
    while s < 64
        invariant
            s <= 64,
            out@ == hanging_squares(b@, side, s as int),
        decreases 64 - s,
    {
        let ghost before = out@;
        if let Some(p) = b.squares[s as usize] {
            if p.color == side && p.kind != PieceKind::King && is_attacked(b, s, side.opp())
                && !is_attacked(b, s, side) {
                out.push(s);
            }
        }
        proof {
            assert(out@ =~= hanging_squares(b@, side, s + 1));
        }
        s = s + 1;
    }
    out
}

/// Enemy pieces (excluding king and pawns) that our side attacks and the
/// enemy does not defend — free material available to win right now.
pub fn free_captures(b: &Board, side: Color) -> (out: Vec<Square>)
    ensures
        out@ == free_squares(b@, side, 64),
{
    let opp = side.opp();
    let mut out: Vec<Square> = Vec::new();
    let mut s: u8 = 0;
    while s < 64
        invariant
            s <= 64,
            opp == side.spec_opp(),
            out@ == free_squares(b@, side, s as int),
        decreases 64 - s,
    {
        if let Some(p) = b.squares[s as usize] {
            if p.color == opp && p.kind != PieceKind::King && p.kind != PieceKind::Pawn
                && is_attacked(b, s, side) && !is_attacked(b, s, opp) {
                out.push(s);
            }
        }
        proof {
            assert(out@ =~= free_squares(b@, side, s + 1));
        }
        s = s + 1;
    }
    out
}


/// A piece of ours the opponent can win material from — value-aware, so a
/// *defended* queen attacked by a knight still counts (you'd lose 9 for 3).
#[derive(Clone, Copy, Debug)]
pub struct Threat {
    pub square: Square,
    pub kind: PieceKind,
    /// Material we lose if we ignore it, in centipawns: the piece's value
    /// less the cheapest attacker when defended, the full value when not.
    pub loss: i32,
}

/// The position as the opponent would have it to move (no en-passant target).
pub open spec fn reply_position(p: Position, side: Color) -> Position {
    Position { side: side.spec_opp(), ep: None, ..p }
}

/// The material value of the piece making `m`.
pub open spec fn mover_value(q: Position, m: Move) -> int {
    spec_material(q.squares[m.from as int]->0.kind)
}

/// `v` is the value of the cheapest piece with a legal move to `s`.
pub open spec fn is_min_attacker(q: Position, s: int, v: int) -> bool {
    &&& exists|m: Move| #[trigger] legal(q, m) && m.to == s && v == mover_value(q, m)
    &&& forall|m: Move| #[trigger] legal(q, m) && m.to == s ==> v <= mover_value(q, m)
}

/// The value of the cheapest piece with a legal move to `s` (`i32::MAX`
/// when none has).
pub open spec fn min_attacker(q: Position, s: int) -> int {
    if exists|m: Move| #[trigger] legal(q, m) && m.to == s {
        choose|v: int| is_min_attacker(q, s, v)
    } else {
        i32::MAX as int
    }
}

/// What ignoring the piece on `s` costs: its value less the cheapest
/// attacker when defended, its whole value when not.
pub open spec fn threat_loss(p: Position, side: Color, s: int) -> int {
    let val = spec_material(p.squares[s]->0.kind);
    if attacked(p, s, side) {
        val - min_attacker(reply_position(p, side), s)
    } else {
        val
    }
}

/// An own piece (not the king) that some enemy move reaches, at a loss.
pub open spec fn is_threat(p: Position, side: Color, s: int) -> bool {
    &&& p.squares[s] is Some
    &&& p.squares[s]->0.color == side
    &&& p.squares[s]->0.kind != PieceKind::King
    &&& min_attacker(reply_position(p, side), s) != i32::MAX
    &&& threat_loss(p, side, s) > 0
}

/// When some legal move reaches `s`, a cheapest one exists: `min_attacker`
/// is the value of a piece that can go there, no dearer than any other.
proof fn lemma_min_attacker_exists(q: Position, s: int)
    requires
        exists|m: Move| #[trigger] legal(q, m) && m.to == s,
    ensures
        is_min_attacker(q, s, min_attacker(q, s)),
        0 <= min_attacker(q, s) <= 900,
{
    let vals = seq![0int, 100, 320, 330, 500, 900];
    assert forall|m: Move| #[trigger] legal(q, m) && m.to == s implies vals.contains(mover_value(q, m)) by {
        let k = q.squares[m.from as int]->0.kind;
        match k {
            PieceKind::King => assert(vals[0] == mover_value(q, m)),
            PieceKind::Pawn => assert(vals[1] == mover_value(q, m)),
            PieceKind::Knight => assert(vals[2] == mover_value(q, m)),
            PieceKind::Bishop => assert(vals[3] == mover_value(q, m)),
            PieceKind::Rook => assert(vals[4] == mover_value(q, m)),
            PieceKind::Queen => assert(vals[5] == mover_value(q, m)),
        }
    }
    let v: int = if exists|m: Move| #[trigger] legal(q, m) && m.to == s && mover_value(q, m) == 0 {
        0
    } else if exists|m: Move| #[trigger] legal(q, m) && m.to == s && mover_value(q, m) == 100 {
        100
    } else if exists|m: Move| #[trigger] legal(q, m) && m.to == s && mover_value(q, m) == 320 {
        320
    } else if exists|m: Move| #[trigger] legal(q, m) && m.to == s && mover_value(q, m) == 330 {
        330
    } else if exists|m: Move| #[trigger] legal(q, m) && m.to == s && mover_value(q, m) == 500 {
        500
    } else {
        900
    };
    assert forall|m: Move| #[trigger] legal(q, m) && m.to == s implies v <= mover_value(q, m) by {
        assert(vals.contains(mover_value(q, m)));
    }
    if v == 900 {
        let w = choose|m: Move| #[trigger] legal(q, m) && m.to == s;
        assert(vals.contains(mover_value(q, w)));
    }
    assert(is_min_attacker(q, s, v));
}

/// An undefended piece loses its whole value: for an own piece other than
/// the king that an enemy move reaches and no own piece guards, ignoring it
/// costs its full material value, so it is always reported as a threat.
pub proof fn law_undefended_piece_is_threatened(p: Position, side: Color, s: int)
    requires
        0 <= s < 64,
        p.squares[s] is Some,
        p.squares[s]->0.color == side,
        p.squares[s]->0.kind != PieceKind::King,
        exists|m: Move| #[trigger] legal(reply_position(p, side), m) && m.to == s,
        !attacked(p, s, side),
    ensures
        threat_loss(p, side, s) == spec_material(p.squares[s]->0.kind),
        is_threat(p, side, s),
{
    lemma_min_attacker_exists(reply_position(p, side), s);
}

/// Threats come biggest loss first, then by square.
pub open spec fn threat_before(a: Threat, b: Threat) -> bool {
    a.loss > b.loss || (a.loss == b.loss && a.square <= b.square)
}

/// The cheapest mover to `t` among the moves `ms` (`i32::MAX` when none).
pub open spec fn min_in(ms: Seq<Move>, q: Position, t: int) -> int
    decreases ms.len(),
{
    if ms.len() == 0 {
        i32::MAX as int
    } else {
        let rest = min_in(ms.drop_last(), q, t);
        if ms.last().to == t && mover_value(q, ms.last()) < rest {
            mover_value(q, ms.last())
        } else {
            rest
        }
    }
}

proof fn lemma_min_in(ms: Seq<Move>, q: Position, t: int)
    requires
        forall|i: int| 0 <= i < ms.len() ==> (#[trigger] q.squares[ms[i].from as int]) is Some,
    ensures
        forall|i: int| 0 <= i < ms.len() && #[trigger] ms[i].to == t ==> min_in(ms, q, t) <= mover_value(q, ms[i]),
        min_in(ms, q, t) == i32::MAX || exists|i: int|
            0 <= i < ms.len() && #[trigger] ms[i].to == t && min_in(ms, q, t) == mover_value(q, ms[i]),
        min_in(ms, q, t) == i32::MAX <==> forall|i: int| 0 <= i < ms.len() ==> #[trigger] ms[i].to != t,
    decreases ms.len(),
{
    if ms.len() > 0 {
        let rest = ms.drop_last();
        assert forall|i: int| 0 <= i < rest.len() implies (#[trigger] q.squares[rest[i].from as int]) is Some by {
            assert(rest[i] == ms[i]);
        }
        lemma_min_in(rest, q, t);
        assert(q.squares[ms[ms.len() - 1].from as int] is Some);
        assert(mover_value(q, ms.last()) <= 900);
        assert forall|i: int| 0 <= i < ms.len() && #[trigger] ms[i].to == t implies min_in(ms, q, t) <= mover_value(q, ms[i]) by {
            if i < ms.len() - 1 {
                assert(rest[i] == ms[i]);
            }
        }
        if min_in(ms, q, t) != i32::MAX {
            if ms.last().to == t && mover_value(q, ms.last()) < min_in(rest, q, t) {
                assert(ms[ms.len() - 1].to == t);
            } else {
                let i = choose|i: int| 0 <= i < rest.len() && #[trigger] rest[i].to == t && min_in(rest, q, t) == mover_value(q, rest[i]);
                assert(ms[i] == rest[i]);
            }
        }
        if forall|i: int| 0 <= i < ms.len() ==> #[trigger] ms[i].to != t {
            assert forall|i: int| 0 <= i < rest.len() implies #[trigger] rest[i].to != t by {
                assert(rest[i] == ms[i]);
            }
        }
    }
}

/// The cheapest enemy piece that can land on each square, as if it were the
/// opponent's move.
fn cheapest_attackers(b: &Board, side: Color) -> (cheapest: [i32; 64])
    requires
        b@.squares.len() == 64,
        b@.halfmove < u16::MAX,
        b@.fullmove < u16::MAX,
        has_king(b@, side.spec_opp()),
    ensures
        forall|t: int| 0 <= t < 64 ==> #[trigger] cheapest@[t] == min_attacker(reply_position(b@, side), t),
        forall|t: int| 0 <= t < 64 ==> #[trigger] cheapest@[t] == i32::MAX || 0 <= cheapest@[t] <= 900,
{
    let mut nb = *b;
    nb.side = side.opp();
    nb.ep = None;
    let ghost q = nb@;
    assert(q == reply_position(b@, side));
    proof {
        crate::legality::lemma_same_squares(b@, nb@, side.spec_opp(), side);
    }
    let moves = generate_legal(&nb);
    let mut cheapest: [i32; 64] = [2147483647; 64];
    let mut i: usize = 0;
    while i < moves.len()
        invariant
            i <= moves@.len(),
            q == nb@,
            forall|m: Move| moves@.contains(m) <==> legal(q, m),
            forall|t: int| 0 <= t < 64 ==> #[trigger] cheapest@[t] == min_in(moves@.subrange(0, i as int), q, t),
            forall|t: int| 0 <= t < 64 ==> #[trigger] cheapest@[t] == i32::MAX || 0 <= cheapest@[t] <= 900,
        decreases moves@.len() - i,
    {
        let m = moves[i];
        proof {
            assert(moves@.contains(m));
            assert(legal(q, m));
        }
        let ghost before = cheapest@;
        if let Some(mover) = nb.squares[m.from as usize] {
            let v = material(mover.kind);
            if v < cheapest[m.to as usize] {
                cheapest[m.to as usize] = v;
            }
        }
        proof {
            assert(moves@.subrange(0, i + 1).drop_last() =~= moves@.subrange(0, i as int));
            assert(moves@.subrange(0, i + 1).last() == m);
        }
        i = i + 1;
    }
    proof {
        assert(moves@.subrange(0, i as int) =~= moves@);
        assert forall|k: int| 0 <= k < moves@.len() implies (#[trigger] q.squares[moves@[k].from as int]) is Some by {
            assert(moves@.contains(moves@[k]));
        }
        assert forall|t: int| 0 <= t < 64 implies #[trigger] cheapest@[t] == min_attacker(q, t) by {
            lemma_min_in(moves@, q, t);
            if exists|m: Move| #[trigger] legal(q, m) && m.to == t {
                let m = choose|m: Move| #[trigger] legal(q, m) && m.to == t;
                assert(moves@.contains(m));
                let k = choose|k: int| 0 <= k < moves@.len() && moves@[k] == m;
                assert(moves@[k].to == t);
                let v = cheapest@[t] as int;
                let w = choose|i: int| 0 <= i < moves@.len() && #[trigger] moves@[i].to == t && v == mover_value(q, moves@[i]);
                assert(moves@.contains(moves@[w]));
                assert(is_min_attacker(q, t, v)) by {
                    assert(legal(q, moves@[w]));
                    assert forall|m2: Move| #[trigger] legal(q, m2) && m2.to == t implies v <= mover_value(q, m2) by {
                        assert(moves@.contains(m2));
                        let k2 = choose|k2: int| 0 <= k2 < moves@.len() && moves@[k2] == m2;
                        assert(moves@[k2].to == t);
                    }
                }
                let c = choose|v: int| is_min_attacker(q, t, v);
                assert(is_min_attacker(q, t, c));
                let mc = choose|m: Move| #[trigger] legal(q, m) && m.to == t && c == mover_value(q, m);
                let mv = choose|m: Move| #[trigger] legal(q, m) && m.to == t && v == mover_value(q, m);
                assert(c <= mover_value(q, mv));
                assert(v <= mover_value(q, mc));
            } else {
                assert forall|k: int| 0 <= k < moves@.len() implies #[trigger] moves@[k].to != t by {
                    assert(moves@.contains(moves@[k]));
                    assert(legal(q, moves@[k]));
                }
            }
        }
    }
    cheapest
}


/// The threats in `v` are in order: biggest loss first, then by square.
pub open spec fn threats_sorted(v: Seq<Threat>) -> bool {
    forall|i: int, j: int| 0 <= i < j < v.len() ==> threat_before(v[i], v[j])
}

pub open spec fn distinct_squares(v: Seq<Threat>) -> bool {
    forall|i: int, j: int| 0 <= i < v.len() && 0 <= j < v.len() && i != j ==> v[i].square != v[j].square
}

proof fn lemma_swap_threats(s: Seq<Threat>, i: int, j: int)
    requires
        0 <= i < s.len(),
        0 <= j < s.len(),
    ensures
        s.update(i, s[j]).update(j, s[i]).len() == s.len(),
        forall|x: Threat| s.update(i, s[j]).update(j, s[i]).contains(x) <==> s.contains(x),
        distinct_squares(s) ==> distinct_squares(s.update(i, s[j]).update(j, s[i])),
{
    let t = s.update(i, s[j]).update(j, s[i]);
    assert forall|x: Threat| t.contains(x) <==> s.contains(x) by {
        if t.contains(x) {
            let k = choose|k: int| 0 <= k < t.len() && t[k] == x;
            if k == i {
                assert(s[j] == x);
            } else if k == j {
                assert(s[i] == x);
            } else {
                assert(s[k] == x);
            }
        }
        if s.contains(x) {
            let k = choose|k: int| 0 <= k < s.len() && s[k] == x;
            if k == i {
                assert(t[j] == x);
            } else if k == j {
                assert(t[i] == x);
            } else {
                assert(t[k] == x);
            }
        }
    }
    if distinct_squares(s) {
        assert forall|a: int, b: int| 0 <= a < t.len() && 0 <= b < t.len() && a != b implies t[a].square
            != t[b].square by {
            let a1 = if a == i {
                j
            } else if a == j {
                i
            } else {
                a
            };
            let b1 = if b == i {
                j
            } else if b == j {
                i
            } else {
                b
            };
            assert(t[a] == s[a1]);
            assert(t[b] == s[b1]);
        }
    }
}

/// Whether threat `a` must come after threat `b`.
fn threat_after(a: Threat, b: Threat) -> (r: bool)
    ensures
        r == !threat_before(a, b),
{
    a.loss < b.loss || (a.loss == b.loss && a.square > b.square)
}

/// Sorts threats biggest loss first, then by square (insertion sort).
fn sort_threats(v: &mut Vec<Threat>)
    ensures
        final(v)@.len() == old(v)@.len(),
        forall|x: Threat| final(v)@.contains(x) <==> old(v)@.contains(x),
        distinct_squares(old(v)@) ==> distinct_squares(final(v)@),
        threats_sorted(final(v)@),
{
    let ghost orig = v@;
    let n = v.len();
    let mut i: usize = 1;
    while i < n
        invariant
            n == v@.len() == orig.len(),
            forall|x: Threat| v@.contains(x) <==> orig.contains(x),
            distinct_squares(orig) ==> distinct_squares(v@),
            n == 0 || 1 <= i <= n,
            forall|a: int, b: int| 0 <= a < b < i ==> threat_before(v@[a], v@[b]),
        decreases n - i,
    {
        let mut j: usize = i;
        while j > 0 && threat_after(v[j - 1], v[j])
            invariant
                0 <= j <= i < n,
                n == v@.len() == orig.len(),
                forall|x: Threat| v@.contains(x) <==> orig.contains(x),
                distinct_squares(orig) ==> distinct_squares(v@),
                forall|a: int, b: int|
                    0 <= a < b <= i && a != j && b != j ==> threat_before(v@[a], v@[b]),
                forall|b: int| j < b <= i ==> !threat_before(v@[b], v@[j as int]),
            decreases j,
        {
            proof {
                lemma_swap_threats(v@, j - 1, j as int);
            }
            let x = v[j - 1];
            let y = v[j];
            v.set(j - 1, y);
            v.set(j, x);
            j = j - 1;
        }
        proof {
            assert forall|a: int, b: int| 0 <= a < b <= i implies threat_before(v@[a], v@[b]) by {
                if b == j {
                    if a < j - 1 {
                        assert(threat_before(v@[a], v@[j - 1]));
                    }
                } else if a == j {
                    assert(!threat_before(v@[b], v@[j as int]));
                }
            }
        }
        i = i + 1;
    }
}

/// Value-aware threats to `side`: our pieces the opponent can capture at a
/// net material gain — even if defended — biggest loss first.
pub fn threatened_pieces(b: &Board, side: Color) -> (out: Vec<Threat>)
    requires
        b@.squares.len() == 64,
        b@.halfmove < u16::MAX,
        b@.fullmove < u16::MAX,
    ensures
        !has_king(b@, side.spec_opp()) ==> out@.len() == 0,
        has_king(b@, side.spec_opp()) ==> {
            &&& forall|i: int|
                0 <= i < out@.len() ==> (#[trigger] out@[i]).square < 64 && is_threat(
                    b@,
                    side,
                    out@[i].square as int,
                ) && out@[i].kind == b@.squares[out@[i].square as int]->0.kind && out@[i].loss
                    == threat_loss(b@, side, out@[i].square as int)
            &&& forall|s: int|
                0 <= s < 64 && is_threat(b@, side, s) ==> exists|i: int|
                    0 <= i < out@.len() && (#[trigger] out@[i]).square == s
            &&& threats_sorted(out@)
            &&& distinct_squares(out@)
        },
{
    let opp = side.opp();
    let mut has_enemy_king = false;
    let mut k: usize = 0;
    while k < 64
        invariant
            k <= 64,
            opp == side.spec_opp(),
            has_enemy_king ==> has_king(b@, opp),
            !has_enemy_king ==> forall|j: int| 0 <= j < k ==> !#[trigger] is_king_at(b@, j, opp),
        decreases 64 - k,
    {
        if let Some(p) = b.squares[k] {
            if p.kind == PieceKind::King && p.color == opp {
                has_enemy_king = true;
                proof {
                    assert(is_king_at(b@, k as int, opp));
                }
            }
        }
        k = k + 1;
    }
    if !has_enemy_king {
        proof {
            if has_king(b@, opp) {
                let j = choose|j: int| 0 <= j < 64 && #[trigger] is_king_at(b@, j, opp);
            }
        }
        return Vec::new();
    }
    let cheapest = cheapest_attackers(b, side);
    let mut out: Vec<Threat> = Vec::new();
    let mut s: u8 = 0;
    while s < 64
        invariant
            s <= 64,
            b@.squares.len() == 64,
            forall|t: int| 0 <= t < 64 ==> #[trigger] cheapest@[t] == min_attacker(reply_position(b@, side), t),
            forall|t: int| 0 <= t < 64 ==> #[trigger] cheapest@[t] == i32::MAX || 0 <= cheapest@[t] <= 900,
            forall|i: int|
                0 <= i < out@.len() ==> (#[trigger] out@[i]).square < s && is_threat(
                    b@,
                    side,
                    out@[i].square as int,
                ) && out@[i].kind == b@.squares[out@[i].square as int]->0.kind && out@[i].loss
                    == threat_loss(b@, side, out@[i].square as int),
            forall|t: int|
                0 <= t < s && is_threat(b@, side, t) ==> exists|i: int|
                    0 <= i < out@.len() && (#[trigger] out@[i]).square == t,
            forall|i: int, j: int| 0 <= i < j < out@.len() ==> out@[i].square < out@[j].square,
        decreases 64 - s,
    {
        let ghost before = out@;
        match b.squares[s as usize] {
            Some(p) => {
                if p.color == side && p.kind != PieceKind::King {
                    let attacker = cheapest[s as usize];
                    if attacker != 2147483647 {
                        let val = material(p.kind);
                        let loss = if is_attacked(b, s, side) {
                            val - attacker
                        } else {
                            val
                        };
                        if loss > 0 {
                            out.push(Threat { square: s, kind: p.kind, loss });
                            proof {
                                assert(out@[out@.len() - 1].square == s);
                            }
                        }
                    }
                }
            },
            None => {},
        }
        proof {
            assert forall|t: int| 0 <= t < s + 1 && is_threat(b@, side, t) implies exists|i: int|
                0 <= i < out@.len() && (#[trigger] out@[i]).square == t by {
                if t < s {
                    let i = choose|i: int| 0 <= i < before.len() && (#[trigger] before[i]).square == t;
                    assert(out@[i] == before[i]);
                } else {
                    assert(out@[out@.len() - 1].square == s);
                }
            }
        }
        s = s + 1;
    }
    proof {
        assert forall|i: int, j: int| 0 <= i < out@.len() && 0 <= j < out@.len() && i != j implies out@[i].square
            != out@[j].square by {
            if i < j {
                assert(out@[i].square < out@[j].square);
            } else {
                assert(out@[j].square < out@[i].square);
            }
        }
    }
    let ghost unsorted = out@;
    sort_threats(&mut out);
    proof {
        assert forall|i: int|
            0 <= i < out@.len() implies (#[trigger] out@[i]).square < 64 && is_threat(
                b@,
                side,
                out@[i].square as int,
            ) && out@[i].kind == b@.squares[out@[i].square as int]->0.kind && out@[i].loss
                == threat_loss(b@, side, out@[i].square as int) by {
            assert(out@.contains(out@[i]));
            let k = choose|k: int| 0 <= k < unsorted.len() && unsorted[k] == out@[i];
        }
        assert forall|t: int| 0 <= t < 64 && is_threat(b@, side, t) implies exists|i: int|
            0 <= i < out@.len() && (#[trigger] out@[i]).square == t by {
            let k = choose|k: int| 0 <= k < unsorted.len() && (#[trigger] unsorted[k]).square == t;
            assert(unsorted.contains(unsorted[k]));
            assert(out@.contains(unsorted[k]));
            let i = choose|i: int| 0 <= i < out@.len() && out@[i] == unsorted[k];
            assert(out@[i].square == t);
        }
    }
    out
}


// ---------------------------------------------------------------------------
// Describing a move
// ---------------------------------------------------------------------------

/// The kind a move captures, if any (a pawn for en passant).
pub open spec fn captured_kind(p: Position, m: Move) -> Option<PieceKind> {
    if m.flag == Flag::EnPassant {
        Some(PieceKind::Pawn)
    } else {
        match p.squares[m.to as int] {
            Some(pc) => Some(pc.kind),
            None => None,
        }
    }
}

/// After `m`, the side to move is in check.
pub open spec fn gives_check(p: Position, m: Move) -> bool {
    let q = spec_make_move(p, m);
    attacked(q, king_of(q, q.side), q.side.spec_opp())
}

/// A plain-language, beginner-friendly note on what a move accomplishes.
pub open spec fn describe_text(p: Position, m: Move) -> Seq<char> {
    let q = spec_make_move(p, m);
    let check = gives_check(p, m);
    let mover = p.squares[m.from as int];
    if check && no_legal_move(q) {
        "Checkmate — wins the game!"@
    } else {
        match captured_kind(p, m) {
            Some(vk) => {
                let attacker = match mover {
                    Some(pc) => spec_material(pc.kind),
                    None => 0,
                };
                let safe = !attacked(q, m.to as int, q.side);
                "Captures the "@ + kind_text(vk) + (if spec_material(vk) > attacker || safe {
                    " — wins material"@
                } else {
                    seq![]
                }) + (if check {
                    ", with check"@
                } else {
                    seq![]
                })
            },
            None => if check {
                "Gives check."@
            } else if m.flag == Flag::Castle {
                "Castles — tucks the king to safety."@
            } else if m.promo is Some {
                "Promotes to a queen."@
            } else {
                match mover {
                    Some(pc) => {
                        let back = if p.side == Color::White {
                            0int
                        } else {
                            7int
                        };
                        if (pc.kind == PieceKind::Knight || pc.kind == PieceKind::Bishop) && (
                        m.from as int) / 8 == back {
                            "Develops your "@ + kind_text(pc.kind) + seq!['.']
                        } else if pc.kind == PieceKind::Pawn && (m.to == 27 || m.to == 28 || m.to
                            == 35 || m.to == 36) {
                            "Fights for the centre."@
                        } else {
                            "Improves your "@ + kind_text(pc.kind) + seq!['.']
                        }
                    },
                    None => "A solid move."@,
                }
            },
        }
    }
}

/// A plain-language, beginner-friendly note on what a move accomplishes.
/// `w` occurs in `t`.
pub open spec fn contains_text(t: Seq<char>, w: Seq<char>) -> bool {
    exists|i: int| 0 <= i && i + w.len() <= t.len() && #[trigger] t.subrange(i, i + w.len()) == w
}

/// A capture that wins material says so: when a move (not a mate) takes a
/// piece worth more than the piece that takes it, or lands on a square the
/// opponent cannot then attack, its note says it wins material.
pub proof fn law_winning_capture_is_called_one(p: Position, m: Move)
    requires
        captured_kind(p, m) is Some,
        p.squares[m.from as int] is Some,
        !(gives_check(p, m) && no_legal_move(spec_make_move(p, m))),
        spec_material(captured_kind(p, m)->0) > spec_material(p.squares[m.from as int]->0.kind) || !attacked(
            spec_make_move(p, m),
            m.to as int,
            spec_make_move(p, m).side,
        ),
    ensures
        contains_text(describe_text(p, m), " — wins material"@),
{
    let vk = captured_kind(p, m)->0;
    let a = "Captures the "@ + kind_text(vk);
    let w = " — wins material"@;
    let c = if gives_check(p, m) {
        ", with check"@
    } else {
        seq![]
    };
    let t = describe_text(p, m);
    assert(t == a + w + c);
    assert(t.subrange(a.len() as int, (a.len() + w.len()) as int) =~= w);
}

pub fn describe(b: &Board, mv: Move) -> (s: String)
    requires
        san_ready(b@, mv),
    ensures
        s@ == describe_text(b@, mv),
{
    proof {
        lemma_king_survives(b@, mv);
    }
    let mut nb = *b;
    nb.make_move(mv);
    let opp = nb.side;
    let opp_king = king_square(&nb, opp);
    proof {
        lemma_first_king_unique(nb@, opp, opp_king as int, king_of(nb@, opp));
    }
    let check = is_attacked(&nb, opp_king, opp.opp());
    if check {
        let replies = generate_legal(&nb);
        if replies.len() == 0 {
            proof {
                assert forall|m: Move| !legal(nb@, m) by {
                    if legal(nb@, m) {
                        assert(replies@.contains(m));
                    }
                }
            }
            return String::from_str("Checkmate — wins the game!");
        }
        proof {
            assert(replies@.contains(replies@[0]));
        }
    }
    let mover = match b.squares[mv.from as usize] {
        Some(p) => Some(p.kind),
        None => None,
    };
    let captured = if mv.flag == Flag::EnPassant {
        Some(PieceKind::Pawn)
    } else {
        match b.squares[mv.to as usize] {
            Some(p) => Some(p.kind),
            None => None,
        }
    };
    if let Some(vk) = captured {
        let mut s = String::from_str("Captures the ");
        s.append(kind_name(vk));
        let attacker = match mover {
            Some(k) => material(k),
            None => 0,
        };
        let safe = !is_attacked(&nb, mv.to, opp);
        if material(vk) > attacker || safe {
            s.append(" — wins material");
        }
        if check {
            s.append(", with check");
        }
        return s;
    }
    if check {
        return String::from_str("Gives check.");
    }
    if mv.flag == Flag::Castle {
        return String::from_str("Castles — tucks the king to safety.");
    }
    if mv.promo.is_some() {
        return String::from_str("Promotes to a queen.");
    }
    if let Some(k) = mover {
        let back: u8 = if b.side == Color::White {
            0
        } else {
            7
        };
        if (k == PieceKind::Knight || k == PieceKind::Bishop) && mv.from / 8 == back {
            let mut s = String::from_str("Develops your ");
            s.append(kind_name(k));
            push_char(&mut s, '.');
            return s;
        }
        // d4, e4, d5, e5 — the classic central squares.
        if k == PieceKind::Pawn && (mv.to == 27 || mv.to == 28 || mv.to == 35 || mv.to == 36) {
            return String::from_str("Fights for the centre.");
        }
        let mut s = String::from_str("Improves your ");
        s.append(kind_name(k));
        push_char(&mut s, '.');
        return s;
    }
    String::from_str("A solid move.")
}


// ---------------------------------------------------------------------------
// Analysis at a rung
// ---------------------------------------------------------------------------

/// A candidate move with its engine score (centipawns, side-to-move relative).
#[derive(Clone, Debug)]
pub struct Candidate {
    pub mv: Move,
    pub uci: String,
    /// Human-readable move, e.g. "Nf3", "exd5", "O-O".
    pub san: String,
    pub score: i32,
    /// Plain-language note on what the move does, e.g. "Develops your knight."
    pub note: String,
}

/// The assistance produced for a position at a given rung. A higher rung
/// fills everything a lower rung would, plus more.
#[derive(Clone, Debug)]
pub struct Assistance {
    pub level: AssistLevel,
    /// Is the side to move in check?
    pub in_check: bool,
    /// Own pieces that are attacked and undefended (awareness+).
    pub hanging: Vec<Square>,
    /// Value-aware threats to our pieces, biggest loss first (awareness+).
    pub threats: Vec<Threat>,
    /// Enemy pieces we can capture for free right now (awareness+).
    pub free_captures: Vec<Square>,
    /// Human-readable threat explanations (coaching+).
    pub messages: Vec<String>,
    /// Ranked candidate moves (suggestion+).
    pub candidates: Vec<Candidate>,
    /// The single recommended move (guided+).
    pub best: Option<Candidate>,
    /// The move to auto-play (autopilot only).
    pub autoplay: Option<Move>,
    /// Context-fitted named strategies to choose from (suggestion+).
    pub strategy: Option<StrategyRead>,
}

/// `v` lists exactly the threats to `side`, biggest loss first.
pub open spec fn threat_list(p: Position, side: Color, v: Seq<Threat>) -> bool {
    &&& !has_king(p, side.spec_opp()) ==> v.len() == 0
    &&& has_king(p, side.spec_opp()) ==> {
        &&& forall|i: int|
            0 <= i < v.len() ==> (#[trigger] v[i]).square < 64 && is_threat(p, side, v[i].square as int)
                && v[i].kind == p.squares[v[i].square as int]->0.kind && v[i].loss == threat_loss(
                p,
                side,
                v[i].square as int,
            )
        &&& forall|s: int|
            0 <= s < 64 && is_threat(p, side, s) ==> exists|i: int| 0 <= i < v.len() && (#[trigger] v[i]).square == s
        &&& threats_sorted(v)
        &&& distinct_squares(v)
    }
}

/// `rk` ranks the legal moves of `p` as the engine does: each once, best
/// first, a move that ends the game scored as mate or stalemate.
pub open spec fn ranking_of(p: Position, rk: Seq<(Move, i32)>) -> bool {
    &&& forall|m: Move| (exists|i: int| 0 <= i < rk.len() && rk[i].0 == m) <==> legal(p, m)
    &&& distinct_moves(rk)
    &&& keys_sorted_desc(rk)
    &&& forall|i: int|
        0 <= i < rk.len() && no_legal_move(spec_make_move(p, #[trigger] rk[i].0)) ==> rk[i].1
            == terminal_score(p, rk[i].0)
}

/// `c` presents the ranked move `e` of `p`.
pub open spec fn candidate_is(c: Candidate, p: Position, e: (Move, i32)) -> bool {
    &&& c.mv == e.0
    &&& c.score == e.1
    &&& c.uci@ == uci_text(e.0)
    &&& c.san@ == san_text(p, e.0)
    &&& c.note@ == describe_text(p, e.0)
}

/// `cs` presents the first three moves of the ranking.
pub open spec fn candidates_from(cs: Seq<Candidate>, p: Position, rk: Seq<(Move, i32)>) -> bool {
    &&& cs.len() == (if rk.len() < 3 {
        rk.len()
    } else {
        3
    })
    &&& forall|i: int| 0 <= i < cs.len() ==> candidate_is(#[trigger] cs[i], p, rk[i])
}

pub open spec fn same_candidate(c: Candidate, d: Candidate) -> bool {
    &&& c.mv == d.mv
    &&& c.score == d.score
    &&& c.uci@ == d.uci@
    &&& c.san@ == d.san@
    &&& c.note@ == d.note@
}

pub open spec fn threat_message(t: Threat) -> Seq<char> {
    if t.loss >= 500 {
        "Urgent — your "@ + kind_text(t.kind) + " on "@ + square_name(t.square)
            + " is under attack. Save it before anything else."@
    } else {
        "Your "@ + kind_text(t.kind) + " on "@ + square_name(t.square)
            + " is under attack — defend it or move it to safety."@
    }
}

pub open spec fn free_message(p: Position, s: u8) -> Seq<char> {
    "You can win the "@ + kind_text(p.squares[s as int]->0.kind) + " on "@ + square_name(s) + " — it's free."@
}

/// The coaching messages: the check, then the threats (biggest first), then
/// the free captures; or a calm note when there is nothing to say.
pub open spec fn coaching_messages(p: Position, checked: bool, threats: Seq<Threat>, frees: Seq<u8>) -> Seq<Seq<char>> {
    let all = (if checked {
        seq!["You are in check — you must get out of it."@]
    } else {
        seq![]
    }) + Seq::new(threats.len(), |i: int| threat_message(threats[i])) + Seq::new(
        frees.len(),
        |i: int| free_message(p, frees[i]),
    );
    if all.len() == 0 {
        seq!["No immediate threats — a good moment to improve a piece."@]
    } else {
        all
    }
}

/// The strings `v` read `t`.
pub open spec fn texts_are(v: Seq<String>, t: Seq<Seq<char>>) -> bool {
    v.len() == t.len() && forall|i: int| 0 <= i < v.len() ==> (#[trigger] v[i])@ == t[i]
}

fn threat_note(t: Threat) -> (s: String)
    requires
        t.square < 64,
    ensures
        s@ == threat_message(t),
{
    let mut s = if t.loss >= material(PieceKind::Rook) {
        String::from_str("Urgent — your ")
    } else {
        String::from_str("Your ")
    };
    s.append(kind_name(t.kind));
    s.append(" on ");
    s.append(&sq_to_algebraic(t.square));
    if t.loss >= material(PieceKind::Rook) {
        s.append(" is under attack. Save it before anything else.");
    } else {
        s.append(" is under attack — defend it or move it to safety.");
    }
    s
}

fn free_note(b: &Board, sq: Square, kind: PieceKind) -> (s: String)
    requires
        sq < 64,
        b@.squares[sq as int] matches Some(pc) && pc.kind == kind,
    ensures
        s@ == free_message(b@, sq),
{
    let mut s = String::from_str("You can win the ");
    s.append(kind_name(kind));
    s.append(" on ");
    s.append(&sq_to_algebraic(sq));
    s.append(" — it's free.");
    s
}

proof fn lemma_free_members(p: Position, side: Color, n: int)
    requires
        0 <= n <= 64,
    ensures
        forall|i: int|
            0 <= i < free_squares(p, side, n).len() ==> (#[trigger] free_squares(p, side, n)[i]) < n && free_at(
                p,
                side,
                free_squares(p, side, n)[i] as int,
            ),
    decreases n,
{
    if n > 0 {
        lemma_free_members(p, side, n - 1);
        let prev = free_squares(p, side, n - 1);
        let cur = free_squares(p, side, n);
        assert forall|i: int| 0 <= i < cur.len() implies #[trigger] cur[i] < n && free_at(p, side, cur[i] as int) by {
            if i < prev.len() {
                assert(cur[i] == prev[i]);
            } else {
                assert(cur[i] == (n - 1) as u8);
            }
        }
    }
}

/// The coaching messages for `b`.
fn coach(b: &Board, checked: bool, threats: &Vec<Threat>, frees: &Vec<Square>) -> (msgs: Vec<String>)
    requires
        forall|i: int| 0 <= i < threats@.len() ==> (#[trigger] threats@[i]).square < 64,
        forall|i: int|
            0 <= i < frees@.len() ==> (#[trigger] frees@[i]) < 64 && b@.squares[frees@[i] as int] is Some,
    ensures
        texts_are(msgs@, coaching_messages(b@, checked, threats@, frees@)),
{
    let ghost head: Seq<Seq<char>> = if checked {
        seq!["You are in check — you must get out of it."@]
    } else {
        seq![]
    };
    let ghost tm = Seq::new(threats@.len(), |i: int| threat_message(threats@[i]));
    let ghost fm = Seq::new(frees@.len(), |i: int| free_message(b@, frees@[i]));
    let mut msgs: Vec<String> = Vec::new();
    if checked {
        msgs.push(String::from_str("You are in check — you must get out of it."));
    }
    let mut i: usize = 0;
    while i < threats.len()
        invariant
            i <= threats@.len(),
            forall|j: int| 0 <= j < threats@.len() ==> (#[trigger] threats@[j]).square < 64,
            tm == Seq::new(threats@.len(), |i: int| threat_message(threats@[i])),
            texts_are(msgs@, head + tm.subrange(0, i as int)),
        decreases threats@.len() - i,
    {
        msgs.push(threat_note(threats[i]));
        proof {
            assert(head + tm.subrange(0, i + 1) =~= (head + tm.subrange(0, i as int)).push(tm[i as int]));
        }
        i = i + 1;
    }
    let mut j: usize = 0;
    while j < frees.len()
        invariant
            j <= frees@.len(),
            forall|i: int|
                0 <= i < frees@.len() ==> (#[trigger] frees@[i]) < 64 && b@.squares[frees@[i] as int] is Some,
            tm.len() == threats@.len(),
            fm == Seq::new(frees@.len(), |i: int| free_message(b@, frees@[i])),
            texts_are(msgs@, head + tm + fm.subrange(0, j as int)),
        decreases frees@.len() - j,
    {
        let sq = frees[j];
        let kind = match b.squares[sq as usize] {
            Some(p) => p.kind,
            None => PieceKind::Pawn,
        };
        msgs.push(free_note(b, sq, kind));
        proof {
            assert(head + tm + fm.subrange(0, j + 1) =~= (head + tm + fm.subrange(0, j as int)).push(
                fm[j as int],
            ));
        }
        j = j + 1;
    }
    proof {
        assert(tm.subrange(0, threats@.len() as int) =~= tm);
        assert(fm.subrange(0, frees@.len() as int) =~= fm);
        assert(head + tm + fm =~= (if checked {
            seq!["You are in check — you must get out of it."@]
        } else {
            seq![]
        }) + Seq::new(threats@.len(), |i: int| threat_message(threats@[i])) + Seq::new(
            frees@.len(),
            |i: int| free_message(b@, frees@[i]),
        ));
    }
    if msgs.len() == 0 {
        msgs.push(String::from_str("No immediate threats — a good moment to improve a piece."));
        proof {
            assert(msgs@.len() == 1);
        }
    }
    msgs
}

/// Presents one ranked move.
fn make_candidate(b: &Board, e: (Move, i32)) -> (c: Candidate)
    requires
        san_ready(b@, e.0),
    ensures
        candidate_is(c, b@, e),
{
    Candidate { mv: e.0, uci: to_uci(e.0), san: san(b, e.0), score: e.1, note: describe(b, e.0) }
}

fn copy_candidate(c: &Candidate) -> (d: Candidate)
    ensures
        same_candidate(d, *c),
{
    Candidate { mv: c.mv, uci: c.uci.clone(), san: c.san.clone(), score: c.score, note: c.note.clone() }
}

/// Every move of an engine ranking from a searchable position can be named.
proof fn lemma_ranking_ready(p: Position, depth: nat, rk: Seq<(Move, i32)>)
    requires
        search_ready(p, depth),
        forall|m: Move| (exists|i: int| 0 <= i < rk.len() && rk[i].0 == m) <==> legal(p, m),
    ensures
        ranked_ready(p, rk),
{
    assert forall|i: int| 0 <= i < rk.len() implies #[trigger] san_ready(p, rk[i].0) by {
        let m = rk[i].0;
        assert(exists|j: int| 0 <= j < rk.len() && rk[j].0 == m);
        assert(legal(p, m));
        lemma_playable_next(p, m);
    }
}

/// `a` is the help at rung `level` for the side to move in `p`.
pub open spec fn analysis_is(a: Assistance, p: Position, level: AssistLevel) -> bool {
    &&& a.level == level
    &&& a.in_check == spec_in_check(p)
    &&& level_rank(level) >= 1 ==> {
        &&& a.hanging@ == hanging_squares(p, p.side, 64)
        &&& threat_list(p, p.side, a.threats@)
        &&& a.free_captures@ == free_squares(p, p.side, 64)
    }
    &&& level_rank(level) < 1 ==> a.hanging@.len() == 0 && a.threats@.len() == 0 && a.free_captures@.len() == 0
    &&& level_rank(level) >= 2 ==> texts_are(a.messages@, coaching_messages(p, a.in_check, a.threats@, a.free_captures@))
    &&& level_rank(level) < 2 ==> a.messages@.len() == 0
    &&& level_rank(level) >= 3 ==> exists|rk: Seq<(Move, i32)>|
        {
            &&& ranking_of(p, rk)
            &&& candidates_from(a.candidates@, p, rk)
            &&& rk.len() > 0 ==> (a.strategy matches Some(r) && read_is(r, p, rk))
            &&& rk.len() == 0 ==> a.strategy is None
        }
    &&& level_rank(level) < 3 ==> a.candidates@.len() == 0 && a.strategy is None
    &&& level_rank(level) >= 4 && a.candidates@.len() > 0 ==> (a.best matches Some(c) && same_candidate(c, a.candidates@[0]))
    &&& level_rank(level) < 4 || a.candidates@.len() == 0 ==> a.best is None
    &&& level_rank(level) >= 5 ==> a.autoplay == (match a.best {
        Some(c) => Some(c.mv),
        None => None,
    })
    &&& level_rank(level) < 5 ==> a.autoplay is None
}

/// `analysis_is`, with the ranking fixed: from the suggestion rung on, for a
/// search to `depth` (within the shown score range), the candidates and the
/// plans come from the search's own ranking of the legal moves.
pub open spec fn analysis_at(a: Assistance, p: Position, level: AssistLevel, depth: int) -> bool {
    &&& analysis_is(a, p, level)
    &&& level_rank(level) >= 3 && depth <= SCORE_SAFE_DEPTH ==> {
        let rk = ranked_by_score(unsorted_ranking(p, depth));
        &&& candidates_from(a.candidates@, p, rk)
        &&& rk.len() > 0 ==> (a.strategy matches Some(r) && read_is(r, p, rk))
    }
}

/// Analyses `b` for the side to move at the rung `level`, searching to
/// `depth` where candidate moves are needed.
pub fn analyze(b: &Board, level: AssistLevel, depth: u32) -> (a: Assistance)
    requires
        movegen_ready(b@),
        level_rank(level) >= 3 ==> search_ready(b@, depth as nat),
    ensures
        analysis_is(a, b@, level),
        analysis_at(a, b@, level, depth as int),
{
    let rank = rank_of_level(level);
    let checked = in_check(b);
    let side = b.side;
    let (hanging, threats, frees) = if rank >= 1 {
        (hanging_pieces(b, side), threatened_pieces(b, side), free_captures(b, side))
    } else {
        (Vec::new(), Vec::new(), Vec::new())
    };
    let messages = if rank >= 2 {
        proof {
            lemma_free_members(b@, side, 64);
            if !has_king(b@, side.spec_opp()) {
                assert(threats@.len() == 0);
            }
        }
        coach(b, checked, &threats, &frees)
    } else {
        Vec::new()
    };
    let ranked = if rank >= 3 {
        rank_moves(b, depth)
    } else {
        Vec::new()
    };
    proof {
        if rank >= 3 {
            lemma_ranking_ready(b@, depth as nat, ranked@);
        }
    }
    let mut candidates: Vec<Candidate> = Vec::new();
    let mut i: usize = 0;
    while i < ranked.len() && i < 3
        invariant
            i <= ranked@.len(),
            i <= 3,
            rank >= 3 ==> ranked_ready(b@, ranked@),
            rank < 3 ==> ranked@.len() == 0,
            candidates@.len() == i,
            forall|j: int| 0 <= j < i ==> candidate_is(#[trigger] candidates@[j], b@, ranked@[j]),
        decreases 3 - i,
    {
        proof {
            assert(san_ready(b@, ranked@[i as int].0));
        }
        candidates.push(make_candidate(b, ranked[i]));
        i = i + 1;
    }
    let strategy = if rank >= 3 && ranked.len() > 0 {
        Some(strategize(b, &ranked))
    } else {
        None
    };
    let best = if rank >= 4 && candidates.len() > 0 {
        Some(copy_candidate(&candidates[0]))
    } else {
        None
    };
    let autoplay = if rank >= 5 {
        match &best {
            Some(c) => Some(c.mv),
            None => None,
        }
    } else {
        None
    };
    proof {
        if rank >= 3 {
            assert(ranking_of(b@, ranked@));
            assert(candidates_from(candidates@, b@, ranked@));
        }
    }
    Assistance {
        level,
        in_check: checked,
        hanging,
        threats,
        free_captures: frees,
        messages,
        candidates,
        best,
        autoplay,
        strategy,
    }
}

// ---------------------------------------------------------------------------
// The glass-box log
// ---------------------------------------------------------------------------

/// One transparent record of assistance given, visible to both players.
#[derive(Clone, Debug)]
pub struct AssistEvent {
    pub ply: u32,
    pub for_side: Color,
    pub level: AssistLevel,
    pub fen: String,
    /// A plain summary the opponent can read — what class of help was shown,
    /// and (for guided/autopilot) which move.
    pub summary: String,
}

/// The opponent-visible summary of the help in `a`.
pub open spec fn summary_text(a: Assistance) -> Seq<char> {
    match a.level {
        AssistLevel::Off => "No assistance used."@,
        AssistLevel::Awareness => "Hint: "@ + decimal(a.hanging@.len()) + " hanging piece(s) highlighted."@,
        AssistLevel::Coaching => "Coach: "@ + decimal(a.messages@.len()) + " message(s) shown."@,
        AssistLevel::Suggestion => "Guide: "@ + decimal(a.candidates@.len()) + " candidate move(s) shown."@,
        AssistLevel::Guided => "Guided: recommended "@ + (match a.best {
            Some(c) => c.uci@,
            None => "-"@,
        }) + "."@,
        AssistLevel::Autopilot => "Autopilot: played "@ + (match a.autoplay {
            Some(m) => uci_text(m),
            None => "-"@,
        }) + "."@,
    }
}

/// A plain summary of the help in `a`, for the opponent to read.
pub fn summarize(a: &Assistance) -> (s: String)
    ensures
        s@ == summary_text(*a),
{
    match a.level {
        AssistLevel::Off => String::from_str("No assistance used."),
        AssistLevel::Awareness => {
            let mut s = String::from_str("Hint: ");
            push_decimal(&mut s, a.hanging.len() as u64);
            s.append(" hanging piece(s) highlighted.");
            s
        },
        AssistLevel::Coaching => {
            let mut s = String::from_str("Coach: ");
            push_decimal(&mut s, a.messages.len() as u64);
            s.append(" message(s) shown.");
            s
        },
        AssistLevel::Suggestion => {
            let mut s = String::from_str("Guide: ");
            push_decimal(&mut s, a.candidates.len() as u64);
            s.append(" candidate move(s) shown.");
            s
        },
        AssistLevel::Guided => {
            let mut s = String::from_str("Guided: recommended ");
            match &a.best {
                Some(c) => s.append(c.uci.as_str()),
                None => s.append("-"),
            }
            s.append(".");
            s
        },
        AssistLevel::Autopilot => {
            let mut s = String::from_str("Autopilot: played ");
            match a.autoplay {
                Some(m) => s.append(&to_uci(m)),
                None => s.append("-"),
            }
            s.append(".");
            s
        },
    }
}

/// `e` records the help `a` given to `for_side` at `ply` in position `p`.
pub open spec fn event_is(e: AssistEvent, ply: u32, for_side: Color, a: Assistance, p: Position) -> bool {
    &&& e.ply == ply
    &&& e.for_side == for_side
    &&& e.level == a.level
    &&& e.fen@ == fen_text(p)
    &&& e.summary@ == summary_text(a)
}

/// The glass-box: an append-only, fully visible log of assistance.
pub struct GlassBox {
    events: Vec<AssistEvent>,
}

impl View for GlassBox {
    type V = Seq<AssistEvent>;

    closed spec fn view(&self) -> Seq<AssistEvent> {
        self.events@
    }
}

impl GlassBox {
    /// An empty log.
    pub fn new() -> (g: Self)
        ensures
            g@.len() == 0,
    {
        GlassBox { events: Vec::new() }
    }

    /// Records that `for_side` received `assistance` at `ply` in position `b`.
    pub fn record(&mut self, ply: u32, for_side: Color, assistance: &Assistance, b: &Board)
        ensures
            final(self)@.len() == old(self)@.len() + 1,
            final(self)@.drop_last() == old(self)@,
            event_is(final(self)@.last(), ply, for_side, *assistance, b@),
    {
        self.events.push(
            AssistEvent {
                ply,
                for_side,
                level: assistance.level,
                fen: to_fen(b),
                summary: summarize(assistance),
            },
        );
    }

    /// The full, transparent history — readable by either player.
    pub fn events(&self) -> (r: &[AssistEvent])
        ensures
            r@ == self@,
    {
        self.events.as_slice()
    }

    /// How many events the log holds.
    pub fn len(&self) -> (n: usize)
        ensures
            n == self@.len(),
    {
        self.events.len()
    }

    /// The log holds no event.
    pub fn is_empty(&self) -> (r: bool)
        ensures
            r == (self@.len() == 0),
    {
        self.events.len() == 0
    }
}

impl Default for GlassBox {
    fn default() -> (g: Self)
        ensures
            g@.len() == 0,
    {
        GlassBox::new()
    }
}



/// Two engine rankings of one position list the same number of moves.
proof fn lemma_rankings_same_length(p: Position, rk1: Seq<(Move, i32)>, rk2: Seq<(Move, i32)>)
    requires
        ranking_of(p, rk1),
        ranking_of(p, rk2),
    ensures
        rk1.len() == rk2.len(),
{
    let m1 = Seq::new(rk1.len(), |i: int| rk1[i].0);
    let m2 = Seq::new(rk2.len(), |i: int| rk2[i].0);
    assert(m1.no_duplicates());
    assert(m2.no_duplicates());
    assert forall|m: Move| m1.contains(m) <==> legal(p, m) by {
        if m1.contains(m) {
            let i = choose|i: int| 0 <= i < m1.len() && m1[i] == m;
            assert(rk1[i].0 == m);
        }
        if legal(p, m) {
            let i = choose|i: int| 0 <= i < rk1.len() && rk1[i].0 == m;
            assert(m1[i] == m);
        }
    }
    assert forall|m: Move| m2.contains(m) <==> legal(p, m) by {
        if m2.contains(m) {
            let i = choose|i: int| 0 <= i < m2.len() && m2[i] == m;
            assert(rk2[i].0 == m);
        }
        if legal(p, m) {
            let i = choose|i: int| 0 <= i < rk2.len() && rk2[i].0 == m;
            assert(m2[i] == m);
        }
    }
    assert(m1.to_set() =~= m2.to_set());
    m1.unique_seq_to_set();
    m2.unique_seq_to_set();
}

/// Two sorted threat lists with distinct squares and the same members are
/// the same list.
proof fn lemma_sorted_threats_unique(v: Seq<Threat>, w: Seq<Threat>)
    requires
        threats_sorted(v),
        threats_sorted(w),
        distinct_squares(v),
        distinct_squares(w),
        forall|x: Threat| v.contains(x) <==> w.contains(x),
    ensures
        v == w,
    decreases v.len(),
{
    if v.len() == 0 {
        if w.len() > 0 {
            assert(w.contains(w[0]));
        }
        assert(v =~= w);
    } else {
        assert(v.contains(v[0]));
        assert(w.len() > 0);
        assert(w.contains(w[0]));
        let j = choose|j: int| 0 <= j < w.len() && w[j] == v[0];
        let k = choose|k: int| 0 <= k < v.len() && v[k] == w[0];
        if j > 0 {
            assert(threat_before(w[0], w[j]));
        }
        if k > 0 {
            assert(threat_before(v[0], v[k]));
        }
        assert(v[0].square == w[0].square);
        assert(k == 0);
        let v2 = v.drop_first();
        let w2 = w.drop_first();
        assert forall|x: Threat| v2.contains(x) <==> w2.contains(x) by {
            if v2.contains(x) {
                let a = choose|a: int| 0 <= a < v2.len() && v2[a] == x;
                assert(v[a + 1] == x);
                assert(v.contains(x));
                assert(x.square != v[0].square);
                let b = choose|b: int| 0 <= b < w.len() && w[b] == x;
                assert(b != 0);
                assert(w2[b - 1] == x);
            }
            if w2.contains(x) {
                let a = choose|a: int| 0 <= a < w2.len() && w2[a] == x;
                assert(w[a + 1] == x);
                assert(w.contains(x));
                assert(x.square != w[0].square);
                let b = choose|b: int| 0 <= b < v.len() && v[b] == x;
                assert(b != 0);
                assert(v2[b - 1] == x);
            }
        }
        assert(threats_sorted(v2));
        assert(threats_sorted(w2));
        assert(distinct_squares(v2));
        assert(distinct_squares(w2));
        lemma_sorted_threats_unique(v2, w2);
        assert(v =~= seq![v[0]] + v2);
        assert(w =~= seq![w[0]] + w2);
    }
}

/// The threat list of a position is unique.
proof fn lemma_threat_list_unique(p: Position, side: Color, v: Seq<Threat>, w: Seq<Threat>)
    requires
        threat_list(p, side, v),
        threat_list(p, side, w),
    ensures
        v == w,
{
    if has_king(p, side.spec_opp()) {
        assert forall|x: Threat| v.contains(x) implies w.contains(x) by {
            let a = choose|a: int| 0 <= a < v.len() && v[a] == x;
            let s = v[a].square as int;
            assert(is_threat(p, side, s));
            let b = choose|b: int| 0 <= b < w.len() && (#[trigger] w[b]).square == s;
            assert(w[b] == x);
        }
        assert forall|x: Threat| w.contains(x) implies v.contains(x) by {
            let a = choose|a: int| 0 <= a < w.len() && w[a] == x;
            let s = w[a].square as int;
            assert(is_threat(p, side, s));
            let b = choose|b: int| 0 <= b < v.len() && (#[trigger] v[b]).square == s;
            assert(v[b] == x);
        }
        lemma_sorted_threats_unique(v, w);
    } else {
        assert(v =~= w);
    }
}

/// From the suggestion rung on, two rungs searching to the same depth show
/// the same candidate moves (with their scores, notation and notes) and the
/// same plans; from guided on, the same recommendation.
pub proof fn law_rungs_same_candidates(
    a1: Assistance,
    a2: Assistance,
    p: Position,
    l1: AssistLevel,
    l2: AssistLevel,
    depth: int,
)
    requires
        analysis_at(a1, p, l1, depth),
        analysis_at(a2, p, l2, depth),
        3 <= level_rank(l1),
        3 <= level_rank(l2),
        depth <= SCORE_SAFE_DEPTH,
    ensures
        a1.candidates@.len() == a2.candidates@.len(),
        forall|i: int| 0 <= i < a1.candidates@.len() ==> same_candidate(#[trigger] a1.candidates@[i], a2.candidates@[i]),
        a1.strategy is Some <==> a2.strategy is Some,
        a1.strategy is Some ==> a1.strategy->0.strategies@.len() == a2.strategy->0.strategies@.len() && forall|k: int|
            0 <= k < a1.strategy->0.strategies@.len() ==> (#[trigger] a1.strategy->0.strategies@[k]).id@
                == a2.strategy->0.strategies@[k].id@ && a1.strategy->0.strategies@[k].fit
                == a2.strategy->0.strategies@[k].fit && a1.strategy->0.strategies@[k].move_uci@
                == a2.strategy->0.strategies@[k].move_uci@,
        level_rank(l1) >= 4 && level_rank(l2) >= 4 ==> (a1.best is Some <==> a2.best is Some),
        level_rank(l1) >= 4 && level_rank(l2) >= 4 && a1.best is Some ==> same_candidate(a1.best->0, a2.best->0),
{
}

/// A higher rung gives everything a lower rung gives: the same check flag,
/// hanging pieces, free captures and threat list from awareness on, the same
/// coaching messages from coaching on, as many candidate moves and plans from
/// suggestion on, a recommendation whenever the lower rung has one from guided
/// on, and a move to play at autopilot.
pub proof fn law_rungs_subsume(a1: Assistance, a2: Assistance, p: Position, l1: AssistLevel, l2: AssistLevel)
    requires
        analysis_is(a1, p, l1),
        analysis_is(a2, p, l2),
        level_rank(l1) <= level_rank(l2),
    ensures
        a2.in_check == a1.in_check,
        level_rank(l1) >= 1 ==> a2.hanging@ == a1.hanging@ && a2.free_captures@ == a1.free_captures@,
        level_rank(l1) >= 1 ==> a2.threats@ == a1.threats@,
        level_rank(l1) >= 2 ==> a1.messages@.len() > 0 && a2.messages@.len() == a1.messages@.len() && forall|i: int|
            0 <= i < a1.messages@.len() ==> (#[trigger] a2.messages@[i])@ == a1.messages@[i]@,
        level_rank(l1) >= 3 ==> a2.candidates@.len() == a1.candidates@.len() && (a1.strategy is Some <==> a2.strategy is Some),
        level_rank(l1) >= 4 ==> (a1.best is Some <==> a2.best is Some),
        level_rank(l1) >= 5 ==> (a1.autoplay is Some <==> a2.autoplay is Some),
{
    if level_rank(l1) >= 1 {
        lemma_threat_list_unique(p, p.side, a1.threats@, a2.threats@);
    }
    if level_rank(l1) >= 3 {
        let rk1 = choose|rk: Seq<(Move, i32)>|
            {
                &&& ranking_of(p, rk)
                &&& candidates_from(a1.candidates@, p, rk)
                &&& rk.len() > 0 ==> (a1.strategy matches Some(r) && read_is(r, p, rk))
                &&& rk.len() == 0 ==> a1.strategy is None
            };
        let rk2 = choose|rk: Seq<(Move, i32)>|
            {
                &&& ranking_of(p, rk)
                &&& candidates_from(a2.candidates@, p, rk)
                &&& rk.len() > 0 ==> (a2.strategy matches Some(r) && read_is(r, p, rk))
                &&& rk.len() == 0 ==> a2.strategy is None
            };
        lemma_rankings_same_length(p, rk1, rk2);
    }
}

} // verus!
