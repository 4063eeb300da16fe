//! The strategy layer — context-aware, multi-step plans. Given a position it
//! detects the game phase, scores a library of named strategies by how well
//! they fit the board right now, and returns the top few for the assisted
//! side, each with a visual plan (arrows + target squares), a step tracker
//! and a concrete first move; plus a read of what the opponent is up to.
use vstd::prelude::*;
use vstd::string::StringExecFns;
use crate::board::{file_of, rank_of, spec_make_move, Board, Color, Flag, Move, Piece, PieceKind, Position, Square};
use crate::eval::{material, spec_material};
use crate::fen::{sq_to_algebraic, square_name};
use crate::movegen::{is_attacked, king_square, lemma_first_king_unique};
use crate::rules::{attacked, first_king, has_king, king_of, legal, movegen_ready};
use crate::legality::{lemma_king_of, playable};
use crate::assist::{hanging_pieces, hanging_squares, is_threat, kind_text, threat_loss, threatened_pieces};
use crate::san::{san, san_ready, san_text};
use crate::assist::{to_uci, uci_text, threat_before, Threat};

verus! {

/// How a plan arrow reads on the board.
#[derive(Clone, Copy, Debug, PartialEq, Eq, Structural)]
pub enum ArrowKind {
    Dev,
    Attack,
    Support,
    Castle,
}

pub open spec fn arrow_tag(k: ArrowKind) -> Seq<char> {
    match k {
        ArrowKind::Dev => "dev"@,
        ArrowKind::Attack => "attack"@,
        ArrowKind::Support => "support"@,
        ArrowKind::Castle => "castle"@,
    }
}

impl ArrowKind {
    /// The arrow's short name for the front end.
    pub fn tag(self) -> (s: &'static str)
        ensures
            s@ == arrow_tag(self),
    {
        match self {
            ArrowKind::Dev => "dev",
            ArrowKind::Attack => "attack",
            ArrowKind::Support => "support",
            ArrowKind::Castle => "castle",
        }
    }
}

#[derive(Clone, Copy, Debug, PartialEq, Eq, Structural)]
pub struct PlanArrow {
    pub from: Square,
    pub to: Square,
    pub kind: ArrowKind,
}

#[derive(Clone, Debug)]
pub struct PlanStep {
    pub text: String,
    pub done: bool,
}

/// A named, context-fitted plan.
#[derive(Clone, Debug)]
pub struct Strategy {
    pub id: &'static str,
    pub name: String,
    pub idea: String,
    /// How well this plan fits the current position (higher = better).
    pub fit: i32,
    pub arrows: Vec<PlanArrow>,
    pub rings: Vec<Square>,
    pub steps: Vec<PlanStep>,
    pub move_uci: String,
    pub move_san: String,
    pub move_note: String,
}

#[derive(Clone, Debug)]
pub struct StrategyRead {
    pub phase: &'static str,
    /// Top strategies by fit (already sorted, best first).
    pub strategies: Vec<Strategy>,
    /// What the opponent seems to be doing / threatening.
    pub opponent: Option<String>,
}

// ---------------------------------------------------------------------------
// Board-reading helpers
// ---------------------------------------------------------------------------

/// The home squares of the minor pieces: b1, g1, c1, f1 (b8, g8, c8, f8).
pub open spec fn minor_home_squares(color: Color) -> Seq<u8> {
    if color == Color::White {
        seq![1u8, 6, 2, 5]
    } else {
        seq![57u8, 62, 58, 61]
    }
}

pub fn minor_home(color: Color) -> (h: [Square; 4])
    ensures
        h@ == minor_home_squares(color),
{
    let h: [Square; 4] = match color {
        Color::White => [1, 6, 2, 5],
        Color::Black => [57, 62, 58, 61],
    };
    proof {
        assert(h@ =~= minor_home_squares(color));
    }
    h
}

/// Own pieces of one of `kinds` still on their minor-piece home squares,
/// counted over the first `n` home squares.
pub open spec fn undeveloped_count(p: Position, color: Color, kinds: Seq<PieceKind>, n: int) -> int
    decreases n,
{
    if n <= 0 {
        0
    } else {
        let s = minor_home_squares(color)[n - 1] as int;
        undeveloped_count(p, color, kinds, n - 1) + (if p.squares[s] is Some && p.squares[s]->0.color
            == color && kinds.contains(p.squares[s]->0.kind) {
            1int
        } else {
            0int
        })
    }
}

fn kinds_contain(kinds: &[PieceKind], k: PieceKind) -> (r: bool)
    ensures
        r == kinds@.contains(k),
{
    let mut i: usize = 0;
    while i < kinds.len()
        invariant
            i <= kinds@.len(),
            forall|j: int| 0 <= j < i ==> kinds@[j] != k,
        decreases kinds@.len() - i,
    {
        if kinds[i] == k {
            return true;
        }
        i = i + 1;
    }
    false
}

/// How many of `color`'s minor home squares still hold one of its `kinds`.
pub fn undeveloped(b: &Board, color: Color, kinds: &[PieceKind]) -> (n: i32)
    ensures
        n == undeveloped_count(b@, color, kinds@, 4),
        0 <= n <= 4,
{
    let home = minor_home(color);
    let mut n: i32 = 0;
    let mut i: usize = 0;
    while i < 4
        invariant
            i <= 4,
            home@ == minor_home_squares(color),
            n == undeveloped_count(b@, color, kinds@, i as int),
            0 <= n <= i,
        decreases 4 - i,
    {
        let sq = home[i];
        if let Some(p) = b.squares[sq as usize] {
            if p.color == color && kinds_contain(kinds, p.kind) {
                n = n + 1;
            }
        }
        i = i + 1;
    }
    n
}

pub open spec fn king_home_square(color: Color) -> u8 {
    if color == Color::White {
        4
    } else {
        60
    }
}

/// The king's home square: e1 or e8.
pub fn king_home(color: Color) -> (s: Square)
    ensures
        s == king_home_square(color),
{
    if color == Color::White {
        4
    } else {
        60
    }
}

/// The king stands on a castled square (g1/c1, g8/c8).
pub open spec fn spec_is_castled(p: Position, color: Color) -> bool {
    let k = king_of(p, color);
    if color == Color::White {
        k == 6 || k == 2
    } else {
        k == 62 || k == 58
    }
}

pub fn is_castled(b: &Board, color: Color) -> (r: bool)
    requires
        has_king(b@, color),
    ensures
        r == spec_is_castled(b@, color),
{
    let k = king_square(b, color);
    proof {
        lemma_king_of(b@, color);
        lemma_first_king_unique(b@, color, k as int, king_of(b@, color));
    }
    match color {
        Color::White => k == 6 || k == 2,
        Color::Black => k == 62 || k == 58,
    }
}

/// Pieces of kind `kind` (either colour) among squares `0..n`.
pub open spec fn count_kind(p: Position, kind: PieceKind, n: int) -> int
    decreases n,
{
    if n <= 0 {
        0
    } else {
        count_kind(p, kind, n - 1) + (if p.squares[n - 1] is Some && p.squares[n - 1]->0.kind == kind {
            1int
        } else {
            0int
        })
    }
}

pub fn count_all(b: &Board, kind: PieceKind) -> (n: i32)
    ensures
        n == count_kind(b@, kind, 64),
        0 <= n <= 64,
{
    let mut n: i32 = 0;
    let mut s: usize = 0;
    while s < 64
        invariant
            s <= 64,
            n == count_kind(b@, kind, s as int),
            0 <= n <= s,
        decreases 64 - s,
    {
        if let Some(p) = b.squares[s] {
            if p.kind == kind {
                n = n + 1;
            }
        }
        s = s + 1;
    }
    n
}

/// Material of `color`'s pieces other than the king among squares `0..n`.
pub open spec fn material_sum(p: Position, color: Color, n: int) -> int
    decreases n,
{
    if n <= 0 {
        0
    } else {
        material_sum(p, color, n - 1) + (if p.squares[n - 1] is Some && p.squares[n - 1]->0.color
            == color && p.squares[n - 1]->0.kind != PieceKind::King {
            spec_material(p.squares[n - 1]->0.kind)
        } else {
            0
        })
    }
}

pub fn nonking_material(b: &Board, color: Color) -> (v: i32)
    ensures
        v == material_sum(b@, color, 64),
        0 <= v <= 64 * 900,
{
    let mut v: i32 = 0;
    let mut s: usize = 0;
    while s < 64
        invariant
            s <= 64,
            v == material_sum(b@, color, s as int),
            0 <= v <= s * 900,
        decreases 64 - s,
    {
        if let Some(p) = b.squares[s] {
            if p.color == color && p.kind != PieceKind::King {
                v = v + material(p.kind);
            }
        }
        s = s + 1;
    }
    v
}


/// An enemy piece (not the king) that we attack and they do not defend.
pub open spec fn loose_at(p: Position, side: Color, s: int) -> bool {
    &&& p.squares[s] is Some
    &&& p.squares[s]->0.color == side.spec_opp()
    &&& p.squares[s]->0.kind != PieceKind::King
    &&& attacked(p, s, side)
    &&& !attacked(p, s, side.spec_opp())
}

pub open spec fn loose_squares(p: Position, side: Color, n: int) -> Seq<u8>
    decreases n,
{
    if n <= 0 {
        seq![]
    } else {
        loose_squares(p, side, n - 1) + if loose_at(p, side, n - 1) {
            seq![(n - 1) as u8]
        } else {
            seq![]
        }
    }
}

/// Enemy pieces we attack that they leave undefended — free to win.
pub fn loose_enemy(b: &Board, side: Color) -> (out: Vec<Square>)
    ensures
        out@ == loose_squares(b@, side, 64),
{
    let opp = side.opp();
    let mut out: Vec<Square> = Vec::new();
    let mut s: u8 = 0;
    while s < 64
        invariant
            s <= 64,
            opp == side.spec_opp(),
            out@ == loose_squares(b@, side, s as int),
        decreases 64 - s,
    {
        if let Some(p) = b.squares[s as usize] {
            if p.color == opp && p.kind != PieceKind::King && is_attacked(b, s, side)
                && !is_attacked(b, s, opp) {
                out.push(s);
            }
        }
        proof {
            assert(out@ =~= loose_squares(b@, side, s + 1));
        }
        s = s + 1;
    }
    out
}

/// Our pieces the opponent attacks and we don't defend — under threat.
pub fn own_hanging(b: &Board, side: Color) -> (out: Vec<Square>)
    ensures
        out@ == hanging_squares(b@, side, 64),
{
    hanging_pieces(b, side)
}

/// An enemy pawn on an adjacent-or-same file, further up the board (from
/// `color`'s side) than rank `r`.
pub open spec fn blocker_at(p: Position, color: Color, f: int, r: int, es: int) -> bool {
    &&& p.squares[es] == Some(Piece { color: color.spec_opp(), kind: PieceKind::Pawn })
    &&& -1 <= es % 8 - f <= 1
    &&& if color == Color::White {
        es / 8 > r
    } else {
        es / 8 < r
    }
}

/// A `color` pawn on `s` that no enemy pawn can stop.
pub open spec fn passed_at(p: Position, color: Color, s: int) -> bool {
    &&& p.squares[s] == Some(Piece { color, kind: PieceKind::Pawn })
    &&& forall|es: int| 0 <= es < 64 ==> !#[trigger] blocker_at(p, color, s % 8, s / 8, es)
}

pub open spec fn passed_squares(p: Position, color: Color, n: int) -> Seq<u8>
    decreases n,
{
    if n <= 0 {
        seq![]
    } else {
        passed_squares(p, color, n - 1) + if passed_at(p, color, n - 1) {
            seq![(n - 1) as u8]
        } else {
            seq![]
        }
    }
}

fn has_blocker(b: &Board, color: Color, f: i32, r: i32) -> (res: bool)
    requires
        0 <= f < 8,
        0 <= r < 8,
    ensures
        res == exists|es: int| 0 <= es < 64 && #[trigger] blocker_at(b@, color, f as int, r as int, es),
{
    let mut es: u8 = 0;
    while es < 64
        invariant
            es <= 64,
            0 <= f < 8,
            0 <= r < 8,
            forall|j: int| 0 <= j < es ==> !#[trigger] blocker_at(b@, color, f as int, r as int, j),
        decreases 64 - es,
    {
        if let Some(ep) = b.squares[es as usize] {
            if ep.color == color.opp() && ep.kind == PieceKind::Pawn {
                let ef = file_of(es);
                let er = rank_of(es);
                let ahead = if color == Color::White {
                    er > r
                } else {
                    er < r
                };
                if -1 <= ef - f && ef - f <= 1 && ahead {
                    proof {
                        assert(blocker_at(b@, color, f as int, r as int, es as int));
                    }
                    return true;
                }
            }
        }
        es = es + 1;
    }
    false
}

/// `color`'s passed pawns, by square.
pub fn passed_pawns(b: &Board, color: Color) -> (out: Vec<Square>)
    ensures
        out@ == passed_squares(b@, color, 64),
{
    let mut out: Vec<Square> = Vec::new();
    let mut s: u8 = 0;
    while s < 64
        invariant
            s <= 64,
            out@ == passed_squares(b@, color, s as int),
        decreases 64 - s,
    {
        match b.squares[s as usize] {
            Some(p) => {
                if p.color == color && p.kind == PieceKind::Pawn {
                    let blocked = has_blocker(b, color, file_of(s), rank_of(s));
                    if !blocked {
                        out.push(s);
                    }
                }
            },
            None => {},
        }
        proof {
            assert(out@ =~= passed_squares(b@, color, s + 1));
        }
        s = s + 1;
    }
    out
}

/// The stage of the game.
#[derive(Clone, Copy, PartialEq, Eq, Structural)]
pub enum Phase {
    Opening,
    Middlegame,
    Endgame,
}

/// The game phase: the opening while, within the first ten moves, at least
/// four minor pieces are still at home; the endgame once few pieces are
/// left; else the middlegame.
pub open spec fn spec_phase(p: Position) -> Phase {
    let queens = count_kind(p, PieceKind::Queen, 64);
    let heavy_minor = count_kind(p, PieceKind::Rook, 64) + count_kind(p, PieceKind::Knight, 64)
        + count_kind(p, PieceKind::Bishop, 64);
    let minors = seq![PieceKind::Knight, PieceKind::Bishop];
    let undev = undeveloped_count(p, Color::White, minors, 4) + undeveloped_count(
        p,
        Color::Black,
        minors,
        4,
    );
    if p.fullmove <= 10 && undev >= 4 {
        Phase::Opening
    } else if (queens == 0 && heavy_minor <= 6) || heavy_minor <= 4 {
        Phase::Endgame
    } else {
        Phase::Middlegame
    }
}

pub open spec fn phase_word(ph: Phase) -> Seq<char> {
    match ph {
        Phase::Opening => "opening"@,
        Phase::Middlegame => "middlegame"@,
        Phase::Endgame => "endgame"@,
    }
}

pub open spec fn phase_text(p: Position) -> Seq<char> {
    phase_word(spec_phase(p))
}

/// The game phase of `b`.
pub fn phase_of(b: &Board) -> (ph: Phase)
    ensures
        ph == spec_phase(b@),
{
    let queens = count_all(b, PieceKind::Queen);
    let heavy_minor = count_all(b, PieceKind::Rook) + count_all(b, PieceKind::Knight) + count_all(
        b,
        PieceKind::Bishop,
    );
    let minors = [PieceKind::Knight, PieceKind::Bishop];
    proof {
        assert(minors@ =~= seq![PieceKind::Knight, PieceKind::Bishop]);
    }
    let undev = undeveloped(b, Color::White, &minors) + undeveloped(b, Color::Black, &minors);
    if b.fullmove <= 10 && undev >= 4 {
        Phase::Opening
    } else if (queens == 0 && heavy_minor <= 6) || heavy_minor <= 4 {
        Phase::Endgame
    } else {
        Phase::Middlegame
    }
}

/// "opening", "middlegame" or "endgame".
pub fn phase(b: &Board) -> (s: &'static str)
    ensures
        s@ == phase_text(b@),
{
    match phase_of(b) {
        Phase::Opening => "opening",
        Phase::Middlegame => "middlegame",
        Phase::Endgame => "endgame",
    }
}

/// `color` has a pawn on file `f` (0..=7).
pub open spec fn pawn_on_file(p: Position, color: Color, f: int) -> bool {
    exists|s: int|
        0 <= s < 64 && s % 8 == f && #[trigger] p.squares[s] == Some(
            Piece { color, kind: PieceKind::Pawn },
        )
}

/// A `color` pawn with no friendly pawn on an adjacent file.
pub open spec fn isolated_at(p: Position, color: Color, s: int) -> bool {
    &&& p.squares[s] == Some(Piece { color, kind: PieceKind::Pawn })
    &&& !(s % 8 > 0 && pawn_on_file(p, color, s % 8 - 1))
    &&& !(s % 8 < 7 && pawn_on_file(p, color, s % 8 + 1))
}

pub open spec fn isolated_squares(p: Position, color: Color, n: int) -> Seq<u8>
    decreases n,
{
    if n <= 0 {
        seq![]
    } else {
        isolated_squares(p, color, n - 1) + if isolated_at(p, color, n - 1) {
            seq![(n - 1) as u8]
        } else {
            seq![]
        }
    }
}

/// Pawns of `color` that have no friendly pawn on an adjacent file.
pub fn isolated_of(b: &Board, color: Color) -> (out: Vec<Square>)
    ensures
        out@ == isolated_squares(b@, color, 64),
{
    let mut has_file: [bool; 8] = [false; 8];
    let mut s: u8 = 0;
    while s < 64
        invariant
            s <= 64,
            forall|f: int|
                0 <= f < 8 ==> #[trigger] has_file@[f] == exists|t: int|
                    0 <= t < s && t % 8 == f && #[trigger] b@.squares[t] == Some(
                        Piece { color, kind: PieceKind::Pawn },
                    ),
        decreases 64 - s,
    {
        if let Some(p) = b.squares[s as usize] {
            if p.color == color && p.kind == PieceKind::Pawn {
                has_file[file_of(s) as usize] = true;
            }
        }
        proof {
            assert forall|f: int| 0 <= f < 8 implies #[trigger] has_file@[f] == exists|t: int|
                0 <= t < s + 1 && t % 8 == f && #[trigger] b@.squares[t] == Some(
                    Piece { color, kind: PieceKind::Pawn },
                ) by {
                if b@.squares[s as int] == Some(Piece { color, kind: PieceKind::Pawn }) && f == s % 8 {
                    assert(has_file@[f]);
                }
            }
        }
        s = s + 1;
    }
    let mut out: Vec<Square> = Vec::new();
    let mut s: u8 = 0;
    while s < 64
        invariant
            s <= 64,
            forall|f: int| 0 <= f < 8 ==> #[trigger] has_file@[f] == pawn_on_file(b@, color, f),
            out@ == isolated_squares(b@, color, s as int),
        decreases 64 - s,
    {
        if let Some(p) = b.squares[s as usize] {
            if p.color == color && p.kind == PieceKind::Pawn {
                let f = file_of(s) as usize;
                let left = f > 0 && has_file[f - 1];
                let right = f < 7 && has_file[f + 1];
                if !left && !right {
                    out.push(s);
                }
            }
        }
        proof {
            assert(out@ =~= isolated_squares(b@, color, s + 1));
        }
        s = s + 1;
    }
    out
}

/// No pawn of either colour stands on file `file`.
pub open spec fn is_open_file(p: Position, file: int) -> bool {
    forall|s: int|
        0 <= s < 64 && s % 8 == file ==> !(#[trigger] p.squares[s] is Some && p.squares[s]->0.kind
            == PieceKind::Pawn)
}

pub fn open_file(b: &Board, file: i32) -> (r: bool)
    ensures
        r == is_open_file(b@, file as int),
{
    let mut s: u8 = 0;
    while s < 64
        invariant
            s <= 64,
            forall|t: int|
                0 <= t < s && t % 8 == file ==> !(#[trigger] b@.squares[t] is Some
                    && b@.squares[t]->0.kind == PieceKind::Pawn),
        decreases 64 - s,
    {
        if let Some(p) = b.squares[s as usize] {
            if p.kind == PieceKind::Pawn && file_of(s) == file {
                return false;
            }
        }
        s = s + 1;
    }
    true
}

pub open spec fn spec_has_rook(p: Position, color: Color) -> bool {
    exists|s: int| 0 <= s < 64 && #[trigger] p.squares[s] == Some(Piece { color, kind: PieceKind::Rook })
}

pub fn has_rook(b: &Board, color: Color) -> (r: bool)
    ensures
        r == spec_has_rook(b@, color),
{
    let mut s: usize = 0;
    while s < 64
        invariant
            s <= 64,
            forall|t: int| 0 <= t < s ==> #[trigger] b@.squares[t] != Some(Piece { color, kind: PieceKind::Rook }),
        decreases 64 - s,
    {
        if let Some(p) = b.squares[s] {
            if p.color == color && p.kind == PieceKind::Rook {
                return true;
            }
        }
        s = s + 1;
    }
    false
}

/// A `color` bishop on g2, else b2 (g7, else b7 for Black).
pub open spec fn spec_fianchetto(p: Position, color: Color) -> Option<u8> {
    let (a, b) = if color == Color::White {
        (14u8, 9u8)
    } else {
        (54u8, 49u8)
    };
    let bishop = Some(Piece { color, kind: PieceKind::Bishop });
    if p.squares[a as int] == bishop {
        Some(a)
    } else if p.squares[b as int] == bishop {
        Some(b)
    } else {
        None
    }
}

pub fn fianchetto_bishop(b: &Board, color: Color) -> (r: Option<Square>)
    ensures
        r == spec_fianchetto(b@, color),
{
    let (x, y): (Square, Square) = if color == Color::White {
        (14, 9)
    } else {
        (54, 49)
    };
    let is_bishop = |o: Option<Piece>| -> (r: bool)
        ensures
            r == (o == Some(Piece { color, kind: PieceKind::Bishop })),
        {
            match o {
                Some(p) => p.color == color && p.kind == PieceKind::Bishop,
                None => false,
            }
        };
    if is_bishop(b.squares[x as usize]) {
        Some(x)
    } else if is_bishop(b.squares[y as usize]) {
        Some(y)
    } else {
        None
    }
}

/// Is `sq` defended by one of `side`'s pawns (diagonally behind it)?
pub open spec fn spec_pawn_defends(p: Position, sq: int, side: Color) -> bool {
    let f = sq % 8;
    let br = if side == Color::White {
        sq / 8 - 1
    } else {
        sq / 8 + 1
    };
    let pawn = Some(Piece { color: side, kind: PieceKind::Pawn });
    0 <= br < 8 && ((0 <= f - 1 < 8 && p.squares[br * 8 + f - 1] == pawn) || (0 <= f + 1 < 8
        && p.squares[br * 8 + f + 1] == pawn))
}

fn own_pawn_on(b: &Board, f: i32, r: i32, side: Color) -> (res: bool)
    requires
        0 <= f < 8,
        0 <= r < 8,
    ensures
        res == (b@.squares[r * 8 + f] == Some(Piece { color: side, kind: PieceKind::Pawn })),
{
    match b.squares[(r * 8 + f) as usize] {
        Some(p) => p.color == side && p.kind == PieceKind::Pawn,
        None => false,
    }
}

pub fn pawn_defends(b: &Board, sq: Square, side: Color) -> (r: bool)
    requires
        sq < 64,
    ensures
        r == spec_pawn_defends(b@, sq as int, side),
{
    let f = file_of(sq);
    let br = if side == Color::White {
        rank_of(sq) - 1
    } else {
        rank_of(sq) + 1
    };
    if !(0 <= br && br < 8) {
        return false;
    }
    (0 <= f - 1 && f - 1 < 8 && own_pawn_on(b, f - 1, br, side)) || (0 <= f + 1 && f + 1 < 8
        && own_pawn_on(b, f + 1, br, side))
}

/// Could any enemy pawn ever advance to attack `sq`? (No → a true outpost.)
pub open spec fn spec_enemy_pawn_can_hit(p: Position, sq: int, side: Color) -> bool {
    exists|nf: int, rr: int|
        0 <= nf < 8 && (nf - sq % 8 == 1 || nf - sq % 8 == -1) && 0 <= rr < 8 && (if side
            == Color::White {
            rr > sq / 8
        } else {
            rr < sq / 8
        }) && #[trigger] p.squares[rr * 8 + nf] == Some(
            Piece { color: side.spec_opp(), kind: PieceKind::Pawn },
        )
}

/// An enemy pawn stands on file `nf` further up the board than rank `r`.
fn enemy_pawn_ahead(b: &Board, nf: i32, r: i32, side: Color) -> (res: bool)
    requires
        0 <= nf < 8,
    ensures
        res == exists|rr: int|
            0 <= rr < 8 && (if side == Color::White {
                rr > r
            } else {
                rr < r
            }) && #[trigger] b@.squares[rr * 8 + nf] == Some(
                Piece { color: side.spec_opp(), kind: PieceKind::Pawn },
            ),
{
    let opp = side.opp();
    let mut rr: i32 = 0;
    while rr < 8
        invariant
            0 <= rr <= 8,
            0 <= nf < 8,
            opp == side.spec_opp(),
            forall|r2: int|
                0 <= r2 < rr && (if side == Color::White {
                    r2 > r
                } else {
                    r2 < r
                }) ==> !(#[trigger] b@.squares[r2 * 8 + nf] == Some(
                    Piece { color: opp, kind: PieceKind::Pawn },
                )),
        decreases 8 - rr,
    {
        let ahead = if side == Color::White {
            rr > r
        } else {
            rr < r
        };
        if ahead && own_pawn_on(b, nf, rr, opp) {
            return true;
        }
        rr = rr + 1;
    }
    false
}

pub fn enemy_pawn_can_hit(b: &Board, sq: Square, side: Color) -> (res: bool)
    requires
        sq < 64,
    ensures
        res == spec_enemy_pawn_can_hit(b@, sq as int, side),
{
    let f = file_of(sq);
    let r = rank_of(sq);
    let left = 0 <= f - 1 && enemy_pawn_ahead(b, f - 1, r, side);
    let right = f + 1 < 8 && enemy_pawn_ahead(b, f + 1, r, side);
    proof {
        if spec_enemy_pawn_can_hit(b@, sq as int, side) {
            let (nf, rr) = choose|nf: int, rr: int|
                0 <= nf < 8 && (nf - sq % 8 == 1 || nf - sq % 8 == -1) && 0 <= rr < 8 && (if side
                    == Color::White {
                    rr > sq / 8
                } else {
                    rr < sq / 8
                }) && #[trigger] b@.squares[rr * 8 + nf] == Some(
                    Piece { color: side.spec_opp(), kind: PieceKind::Pawn },
                );
            assert(nf == f - 1 || nf == f + 1);
        }
    }
    left || right
}

/// A protected, unassailable advanced square is a knight outpost.
pub open spec fn spec_is_outpost(p: Position, sq: int, side: Color) -> bool {
    let r = sq / 8;
    let advanced = if side == Color::White {
        r >= 4
    } else {
        r <= 3
    };
    advanced && spec_pawn_defends(p, sq, side) && !spec_enemy_pawn_can_hit(p, sq, side)
}

pub fn is_outpost(b: &Board, sq: Square, side: Color) -> (res: bool)
    requires
        sq < 64,
    ensures
        res == spec_is_outpost(b@, sq as int, side),
{
    let r = rank_of(sq);
    let advanced = if side == Color::White {
        r >= 4
    } else {
        r <= 3
    };
    advanced && pawn_defends(b, sq, side) && !enemy_pawn_can_hit(b, sq, side)
}

/// Back-rank home squares of `color`'s pieces (without the king).
pub open spec fn home_piece_list(color: Color) -> Seq<(u8, PieceKind)> {
    if color == Color::White {
        seq![(0u8, PieceKind::Rook), (1u8, PieceKind::Knight), (2u8, PieceKind::Bishop), (3u8, PieceKind::Queen), (5u8, PieceKind::Bishop), (6u8, PieceKind::Knight), (7u8, PieceKind::Rook)]
    } else {
        seq![(56u8, PieceKind::Rook), (57u8, PieceKind::Knight), (58u8, PieceKind::Bishop), (59u8, PieceKind::Queen), (61u8, PieceKind::Bishop), (62u8, PieceKind::Knight), (63u8, PieceKind::Rook)]
    }
}

pub fn home_pieces(color: Color) -> (h: [(Square, PieceKind); 7])
    ensures
        h@ == home_piece_list(color),
{
    let h: [(Square, PieceKind); 7] = if color == Color::White {
        [(0, PieceKind::Rook), (1, PieceKind::Knight), (2, PieceKind::Bishop), (3, PieceKind::Queen), (5, PieceKind::Bishop), (6, PieceKind::Knight), (7, PieceKind::Rook)]
    } else {
        [(56, PieceKind::Rook), (57, PieceKind::Knight), (58, PieceKind::Bishop), (59, PieceKind::Queen), (61, PieceKind::Bishop), (62, PieceKind::Knight), (63, PieceKind::Rook)]
    };
    proof {
        assert(h@ =~= home_piece_list(color));
    }
    h
}

pub open spec fn spec_kind_at(p: Position, sq: int) -> Option<PieceKind> {
    match p.squares[sq] {
        Some(pc) => Some(pc.kind),
        None => None,
    }
}

pub fn kind_at(b: &Board, sq: Square) -> (k: Option<PieceKind>)
    requires
        sq < 64,
    ensures
        k == spec_kind_at(b@, sq as int),
{
    match b.squares[sq as usize] {
        Some(p) => Some(p.kind),
        None => None,
    }
}

/// The lower-case name of a piece kind.
pub fn piece_word(k: PieceKind) -> (s: &'static str)
    ensures
        s@ == kind_text(k),
{
    match k {
        PieceKind::Pawn => "pawn",
        PieceKind::Knight => "knight",
        PieceKind::Bishop => "bishop",
        PieceKind::Rook => "rook",
        PieceKind::Queen => "queen",
        PieceKind::King => "king",
    }
}

// ---------------------------------------------------------------------------
// Move themes
// ---------------------------------------------------------------------------

/// A knight or bishop leaving its home square.
pub open spec fn spec_develops(p: Position, m: Move, color: Color) -> bool {
    match p.squares[m.from as int] {
        Some(pc) => (pc.kind == PieceKind::Knight || pc.kind == PieceKind::Bishop)
            && minor_home_squares(color).contains(m.from),
        None => false,
    }
}

pub fn develops(b: &Board, m: &Move, color: Color) -> (r: bool)
    requires
        m.from < 64,
    ensures
        r == spec_develops(b@, *m, color),
{
    match b.squares[m.from as usize] {
        Some(p) => {
            if p.kind == PieceKind::Knight || p.kind == PieceKind::Bishop {
                let home = minor_home(color);
                let r = home[0] == m.from || home[1] == m.from || home[2] == m.from || home[3] == m.from;
                proof {
                    if r {
                        if home[0] == m.from {
                            assert(home@[0] == m.from);
                        } else if home[1] == m.from {
                            assert(home@[1] == m.from);
                        } else if home[2] == m.from {
                            assert(home@[2] == m.from);
                        } else {
                            assert(home@[3] == m.from);
                        }
                    } else {
                        assert(!minor_home_squares(color).contains(m.from));
                    }
                }
                r
            } else {
                false
            }
        },
        None => false,
    }
}

/// A pawn move onto d4, e4, d5 or e5.
pub open spec fn spec_center_push(p: Position, m: Move) -> bool {
    (p.squares[m.from as int] is Some && p.squares[m.from as int]->0.kind == PieceKind::Pawn) && (
    m.to == 27 || m.to == 28 || m.to == 35 || m.to == 36)
}

pub fn center_push(b: &Board, m: &Move) -> (r: bool)
    requires
        m.from < 64,
    ensures
        r == spec_center_push(b@, *m),
{
    let pawn = match b.squares[m.from as usize] {
        Some(p) => p.kind == PieceKind::Pawn,
        None => false,
    };
    pawn && (m.to == 27 || m.to == 28 || m.to == 35 || m.to == 36)
}

/// The destination is within two squares of the enemy king (not on it).
pub open spec fn spec_toward_king(m: Move, opp_king: int) -> bool {
    let df = (m.to as int) % 8 - opp_king % 8;
    let dr = (m.to as int) / 8 - opp_king / 8;
    -2 <= df <= 2 && -2 <= dr <= 2 && !(df == 0 && dr == 0)
}

pub fn toward_king(m: &Move, opp_king: Square) -> (r: bool)
    ensures
        r == spec_toward_king(*m, opp_king as int),
{
    let df = file_of(m.to) - file_of(opp_king);
    let dr = rank_of(m.to) - rank_of(opp_king);
    let adf = if df < 0 {
        -df
    } else {
        df
    };
    let adr = if dr < 0 {
        -dr
    } else {
        dr
    };
    let far = if adf > adr {
        adf
    } else {
        adr
    };
    far <= 2 && !(df == 0 && dr == 0)
}

/// A pawn move up the board (from `color`'s side).
pub open spec fn spec_forward_pawn(p: Position, m: Move, color: Color) -> bool {
    (p.squares[m.from as int] is Some && p.squares[m.from as int]->0.kind == PieceKind::Pawn) && if color
        == Color::White {
        (m.to as int) / 8 > (m.from as int) / 8
    } else {
        (m.to as int) / 8 < (m.from as int) / 8
    }
}

pub fn forward_pawn(b: &Board, m: &Move, color: Color) -> (r: bool)
    requires
        m.from < 64,
    ensures
        r == spec_forward_pawn(b@, *m, color),
{
    let pawn = match b.squares[m.from as usize] {
        Some(p) => p.kind == PieceKind::Pawn,
        None => false,
    };
    pawn && if color == Color::White {
        rank_of(m.to) > rank_of(m.from)
    } else {
        rank_of(m.to) < rank_of(m.from)
    }
}

/// A quiet forward pawn push that lands attacking an enemy pawn.
pub open spec fn spec_pawn_break(p: Position, m: Move, color: Color) -> bool {
    let f = (m.to as int) % 8;
    let ar = if color == Color::White {
        (m.to as int) / 8 + 1
    } else {
        (m.to as int) / 8 - 1
    };
    let enemy_pawn = Some(Piece { color: color.spec_opp(), kind: PieceKind::Pawn });
    &&& spec_forward_pawn(p, m, color)
    &&& p.squares[m.to as int] is None
    &&& 0 <= ar < 8
    &&& ((0 <= f - 1 < 8 && p.squares[ar * 8 + f - 1] == enemy_pawn) || (0 <= f + 1 < 8
        && p.squares[ar * 8 + f + 1] == enemy_pawn))
}

pub fn pawn_break(b: &Board, m: &Move, color: Color) -> (r: bool)
    requires
        m.from < 64,
        m.to < 64,
    ensures
        r == spec_pawn_break(b@, *m, color),
{
    if !forward_pawn(b, m, color) || b.squares[m.to as usize].is_some() {
        return false;  // must be a quiet push, not a capture
    }
    let f = file_of(m.to);
    let ar = if color == Color::White {
        rank_of(m.to) + 1
    } else {
        rank_of(m.to) - 1
    };
    if !(0 <= ar && ar < 8) {
        return false;
    }
    let opp = color.opp();
    (0 <= f - 1 && f - 1 < 8 && own_pawn_on(b, f - 1, ar, opp)) || (0 <= f + 1 && f + 1 < 8
        && own_pawn_on(b, f + 1, ar, opp))
}


/// The worst loss among `side`'s threatened pieces (0 when nothing is
/// threatened or the enemy has no king to move).
pub open spec fn worst_threat(p: Position, side: Color) -> int {
    if has_king(p, side.spec_opp()) && exists|s: int| 0 <= s < 64 && #[trigger] is_threat(p, side, s) {
        choose|v: int| #[trigger] is_worst(p, side, v)
    } else {
        0
    }
}

/// `v` is the largest loss among `side`'s threatened pieces.
pub open spec fn is_worst(p: Position, side: Color, v: int) -> bool {
    &&& exists|s: int| 0 <= s < 64 && #[trigger] is_threat(p, side, s) && threat_loss(p, side, s) == v
    &&& forall|s: int| 0 <= s < 64 && #[trigger] is_threat(p, side, s) ==> threat_loss(p, side, s) <= v
}

/// After `m`, the worst material `side` can lose is below `threshold`.
pub open spec fn spec_move_saves(p: Position, m: Move, side: Color, threshold: int) -> bool {
    worst_threat(spec_make_move(p, m), side) < threshold
}

/// Does `m` get us out of danger — after it, is the worst material we can
/// lose below `threshold`?
pub fn move_saves(b: &Board, m: &Move, side: Color, threshold: i32) -> (r: bool)
    requires
        san_ready(b@, *m),
    ensures
        r == spec_move_saves(b@, *m, side, threshold as int),
{
    proof {
        crate::movegen::lemma_king_survives(b@, *m);
    }
    let mut nb = *b;
    nb.make_move(*m);
    let threats = threatened_pieces(&nb, side);
    let worst = if threats.len() > 0 {
        threats[0].loss
    } else {
        0
    };
    proof {
        let q = nb@;
        if has_king(q, side.spec_opp()) && exists|s: int| 0 <= s < 64 && #[trigger] is_threat(q, side, s) {
            let s0 = choose|s: int| 0 <= s < 64 && #[trigger] is_threat(q, side, s);
            let i0 = choose|i: int| 0 <= i < threats@.len() && (#[trigger] threats@[i]).square == s0;
            assert(threats@.len() > 0);
            let t = threats@[0];
            assert(t.square < 64 && is_threat(q, side, t.square as int));
            assert forall|s: int| 0 <= s < 64 && #[trigger] is_threat(q, side, s) implies threat_loss(q, side, s) <= worst by {
                let i = choose|i: int| 0 <= i < threats@.len() && (#[trigger] threats@[i]).square == s;
                if i > 0 {
                    assert(crate::assist::threat_before(threats@[0], threats@[i]));
                }
            }
            assert(is_worst(q, side, worst as int)) by {
                assert(is_threat(q, side, t.square as int) && threat_loss(q, side, t.square as int) == worst);
            }
            let c = choose|v: int| #[trigger] is_worst(q, side, v);
            let sc = choose|s: int| 0 <= s < 64 && #[trigger] is_threat(q, side, s) && threat_loss(q, side, s) == c;
            assert(c <= worst);
            assert(worst <= c) by {
                assert(is_threat(q, side, t.square as int));
            }
        } else if has_king(q, side.spec_opp()) {
            if threats@.len() > 0 {
                assert(threats@[0].square < 64 && is_threat(q, side, threats@[0].square as int));
            }
        }
    }
    worst < threshold
}

/// What a plan wants of its move.
pub enum Theme {
    /// Castling.
    Castle,
    /// Leaves no threat of `threshold` or more against `side`.
    Saves(Color, i32),
    /// Lands on the square.
    OnTo(Square),
    /// Develops a minor piece of the colour, or castles.
    DevelopOrCastle(Color),
    /// A pawn onto a central square.
    CenterPush,
    /// A pawn break for the colour.
    PawnBreak(Color),
    /// Lands near the enemy king on the square.
    TowardKing(Square),
    /// Takes a piece standing on the destination.
    Capture,
    /// Pushes one of the listed (passed) pawns forward for the colour.
    PasserPush(Vec<Square>, Color),
    /// Lands on either square.
    OnToEither(Square, Square),
    /// A rook onto the file.
    RookToFile(i32),
    /// A forward kingside (f-, g-, h-file) pawn push for the colour.
    Storm(Color),
    /// Moves the piece on the square.
    From(Square),
    /// A knight onto an outpost for the colour.
    Outpost(Color),
    /// A rook onto the rank.
    RookToRank(i32),
}

/// A theme as a mathematical value (the pawn list as a sequence).
pub enum ThemeSpec {
    Castle,
    Saves(Color, i32),
    OnTo(u8),
    DevelopOrCastle(Color),
    CenterPush,
    PawnBreak(Color),
    TowardKing(u8),
    Capture,
    PasserPush(Seq<u8>, Color),
    OnToEither(u8, u8),
    RookToFile(i32),
    Storm(Color),
    From(u8),
    Outpost(Color),
    RookToRank(i32),
}

impl View for Theme {
    type V = ThemeSpec;

    open spec fn view(&self) -> ThemeSpec {
        match self {
            Theme::Castle => ThemeSpec::Castle,
            Theme::Saves(c, t) => ThemeSpec::Saves(*c, *t),
            Theme::OnTo(s) => ThemeSpec::OnTo(*s),
            Theme::DevelopOrCastle(c) => ThemeSpec::DevelopOrCastle(*c),
            Theme::CenterPush => ThemeSpec::CenterPush,
            Theme::PawnBreak(c) => ThemeSpec::PawnBreak(*c),
            Theme::TowardKing(k) => ThemeSpec::TowardKing(*k),
            Theme::Capture => ThemeSpec::Capture,
            Theme::PasserPush(v, c) => ThemeSpec::PasserPush(v@, *c),
            Theme::OnToEither(a, b) => ThemeSpec::OnToEither(*a, *b),
            Theme::RookToFile(f) => ThemeSpec::RookToFile(*f),
            Theme::Storm(c) => ThemeSpec::Storm(*c),
            Theme::From(s) => ThemeSpec::From(*s),
            Theme::Outpost(c) => ThemeSpec::Outpost(*c),
            Theme::RookToRank(r) => ThemeSpec::RookToRank(*r),
        }
    }
}

/// Whether `m` serves the theme in `p`.
pub open spec fn theme_holds(p: Position, t: ThemeSpec, m: Move) -> bool {
    match t {
        ThemeSpec::Castle => m.flag == Flag::Castle,
        ThemeSpec::Saves(side, threshold) => spec_move_saves(p, m, side, threshold as int),
        ThemeSpec::OnTo(s) => m.to == s,
        ThemeSpec::DevelopOrCastle(c) => spec_develops(p, m, c) || m.flag == Flag::Castle,
        ThemeSpec::CenterPush => spec_center_push(p, m),
        ThemeSpec::PawnBreak(c) => spec_pawn_break(p, m, c),
        ThemeSpec::TowardKing(k) => spec_toward_king(m, k as int),
        ThemeSpec::Capture => p.squares[m.to as int] is Some,
        ThemeSpec::PasserPush(passers, c) => passers.contains(m.from) && spec_forward_pawn(p, m, c),
        ThemeSpec::OnToEither(a, b) => m.to == a || m.to == b,
        ThemeSpec::RookToFile(f) => spec_kind_at(p, m.from as int) == Some(PieceKind::Rook) && (m.to as int)
            % 8 == f,
        ThemeSpec::Storm(c) => spec_kind_at(p, m.from as int) == Some(PieceKind::Pawn) && (m.from as int)
            % 8 >= 5 && spec_forward_pawn(p, m, c),
        ThemeSpec::From(s) => m.from == s,
        ThemeSpec::Outpost(c) => spec_kind_at(p, m.from as int) == Some(PieceKind::Knight)
            && spec_is_outpost(p, m.to as int, c),
        ThemeSpec::RookToRank(r) => spec_kind_at(p, m.from as int) == Some(PieceKind::Rook) && (
        m.to as int) / 8 == r,
    }
}

fn contains_square(v: &Vec<Square>, s: Square) -> (r: bool)
    ensures
        r == v@.contains(s),
{
    let mut i: usize = 0;
    while i < v.len()
        invariant
            i <= v@.len(),
            forall|j: int| 0 <= j < i ==> v@[j] != s,
        decreases v@.len() - i,
    {
        if v[i] == s {
            return true;
        }
        i = i + 1;
    }
    false
}

/// Whether `m` serves the theme.
pub fn fits(b: &Board, t: &Theme, m: &Move) -> (r: bool)
    requires
        san_ready(b@, *m),
    ensures
        r == theme_holds(b@, t@, *m),
{
    match t {
        Theme::Castle => m.flag == Flag::Castle,
        Theme::Saves(side, threshold) => move_saves(b, m, *side, *threshold),
        Theme::OnTo(s) => m.to == *s,
        Theme::DevelopOrCastle(c) => develops(b, m, *c) || m.flag == Flag::Castle,
        Theme::CenterPush => center_push(b, m),
        Theme::PawnBreak(c) => pawn_break(b, m, *c),
        Theme::TowardKing(k) => toward_king(m, *k),
        Theme::Capture => b.squares[m.to as usize].is_some(),
        Theme::PasserPush(passers, c) => contains_square(passers, m.from) && forward_pawn(b, m, *c),
        Theme::OnToEither(x, y) => m.to == *x || m.to == *y,
        Theme::RookToFile(f) => kind_at(b, m.from) == Some(PieceKind::Rook) && file_of(m.to) == *f,
        Theme::Storm(c) => kind_at(b, m.from) == Some(PieceKind::Pawn) && file_of(m.from) >= 5
            && forward_pawn(b, m, *c),
        Theme::From(s) => m.from == *s,
        Theme::Outpost(c) => kind_at(b, m.from) == Some(PieceKind::Knight) && is_outpost(b, m.to, *c),
        Theme::RookToRank(r) => kind_at(b, m.from) == Some(PieceKind::Rook) && rank_of(m.to) == *r,
    }
}

/// Every ranked move can be named in SAN from `p`.
pub open spec fn ranked_ready(p: Position, ranked: Seq<(Move, i32)>) -> bool {
    forall|i: int| 0 <= i < ranked.len() ==> #[trigger] san_ready(p, ranked[i].0)
}

/// The first ranked move from index `i` on that serves the theme.
pub open spec fn first_fit(p: Position, ranked: Seq<(Move, i32)>, t: ThemeSpec, i: int) -> Option<Move>
    decreases ranked.len() - i,
{
    if i < 0 || i >= ranked.len() {
        None
    } else if theme_holds(p, t, ranked[i].0) {
        Some(ranked[i].0)
    } else {
        first_fit(p, ranked, t, i + 1)
    }
}

/// How far below the best score a thematic move may be (0.4 pawns).
pub const PLAN_SLACK: i32 = 40;

/// The first ranked move from index `i` on that serves the theme within the
/// slack of the top score.
pub open spec fn first_plan(p: Position, ranked: Seq<(Move, i32)>, top_score: int, t: ThemeSpec, i: int) -> Option<Move>
    decreases ranked.len() - i,
{
    if i < 0 || i >= ranked.len() {
        None
    } else if theme_holds(p, t, ranked[i].0) && ranked[i].1 + PLAN_SLACK >= top_score {
        Some(ranked[i].0)
    } else {
        first_plan(p, ranked, top_score, t, i + 1)
    }
}

/// Every ranked move looked at before a plan move is found can be played and
/// read: those up to and including the first that serves the theme within
/// the slack.
pub open spec fn plan_ready(p: Position, ranked: Seq<(Move, i32)>, top_score: int, t: ThemeSpec) -> bool {
    forall|i: int|
        0 <= i < ranked.len() && (forall|j: int|
            0 <= j < i ==> !(theme_holds(p, t, #[trigger] ranked[j].0) && ranked[j].1 + PLAN_SLACK >= top_score))
            ==> san_ready(p, #[trigger] ranked[i].0)
}

/// The move a plan recommends: the first ranked move serving the theme
/// within the slack, else the engine's best move.
pub open spec fn spec_plan_move(p: Position, ranked: Seq<(Move, i32)>, top_score: int, t: ThemeSpec) -> Move {
    match first_plan(p, ranked, top_score, t, 0) {
        Some(m) => m,
        None => ranked[0].0,
    }
}

/// The first ranked move that serves the theme, if any.
pub fn pick(b: &Board, ranked: &Vec<(Move, i32)>, t: &Theme) -> (r: Option<Move>)
    requires
        ranked_ready(b@, ranked@),
    ensures
        r == first_fit(b@, ranked@, t@, 0),
{
    let mut i: usize = 0;
    while i < ranked.len()
        invariant
            i <= ranked@.len(),
            ranked_ready(b@, ranked@),
            first_fit(b@, ranked@, t@, 0) == first_fit(b@, ranked@, t@, i as int),
        decreases ranked@.len() - i,
    {
        let m = ranked[i].0;
        proof {
            assert(san_ready(b@, ranked@[i as int].0));
        }
        if fits(b, t, &m) {
            return Some(m);
        }
        i = i + 1;
    }
    None
}

/// The best ranked move that serves the plan — but only if it is essentially
/// as good as the engine's best move (within the slack); otherwise the
/// engine's best move. A plan must never cost material.
pub fn plan_move(b: &Board, ranked: &Vec<(Move, i32)>, top_score: i32, t: &Theme) -> (m: Move)
    requires
        ranked@.len() > 0,
        plan_ready(b@, ranked@, top_score as int, t@),
    ensures
        m == spec_plan_move(b@, ranked@, top_score as int, t@),
{
    let mut i: usize = 0;
    while i < ranked.len()
        invariant
            i <= ranked@.len(),
            ranked@.len() > 0,
            plan_ready(b@, ranked@, top_score as int, t@),
            first_plan(b@, ranked@, top_score as int, t@, 0) == first_plan(b@, ranked@, top_score as int, t@, i as int),
            forall|j: int|
                0 <= j < i ==> !(theme_holds(b@, t@, #[trigger] ranked@[j].0) && ranked@[j].1 + PLAN_SLACK
                    >= top_score),
        decreases ranked@.len() - i,
    {
        let (m, s) = ranked[i];
        proof {
            assert(san_ready(b@, ranked@[i as int].0));
        }
        if fits(b, t, &m) && s as i64 + 40 >= top_score as i64 {
            return m;
        }
        i = i + 1;
    }
    ranked[0].0
}

proof fn lemma_first_plan(p: Position, ranked: Seq<(Move, i32)>, top_score: int, t: ThemeSpec, i: int)
    requires
        0 <= i,
    ensures
        first_plan(p, ranked, top_score, t, i) matches Some(m) ==> exists|k: int|
            i <= k < ranked.len() && m == (#[trigger] ranked[k]).0 && theme_holds(p, t, m) && ranked[k].1
                + PLAN_SLACK >= top_score,
    decreases ranked.len() - i,
{
    if i < ranked.len() && !(theme_holds(p, t, ranked[i].0) && ranked[i].1 + PLAN_SLACK >= top_score) {
        lemma_first_plan(p, ranked, top_score, t, i + 1);
    }
}

/// A plan's move is the engine's best move, or one of the ranked moves that
/// serves the plan and scores within the slack of the best.
pub proof fn law_plan_move_within_slack(p: Position, ranked: Seq<(Move, i32)>, top_score: int, t: ThemeSpec)
    requires
        ranked.len() > 0,
    ensures
        spec_plan_move(p, ranked, top_score, t) == ranked[0].0 || exists|k: int|
            0 <= k < ranked.len() && spec_plan_move(p, ranked, top_score, t) == (#[trigger] ranked[k]).0
                && theme_holds(p, t, ranked[k].0) && ranked[k].1 + PLAN_SLACK >= top_score,
{
    lemma_first_plan(p, ranked, top_score, t, 0);
}


// ---------------------------------------------------------------------------
// Building plans
// ---------------------------------------------------------------------------

/// A plan as a mathematical value.
pub struct PlanSpec {
    pub id: Seq<char>,
    pub name: Seq<char>,
    pub idea: Seq<char>,
    pub fit: int,
    pub arrows: Seq<PlanArrow>,
    pub rings: Seq<u8>,
    pub steps: Seq<(Seq<char>, bool)>,
    pub mv: Move,
    pub note: Seq<char>,
}

/// `st` is the plan `sp`, its move written in coordinates and in SAN from `p`.
pub open spec fn strategy_is(st: Strategy, sp: PlanSpec, p: Position) -> bool {
    &&& st.id@ == sp.id
    &&& st.name@ == sp.name
    &&& st.idea@ == sp.idea
    &&& st.fit == sp.fit
    &&& st.arrows@ == sp.arrows
    &&& st.rings@ == sp.rings
    &&& st.steps@.len() == sp.steps.len()
    &&& forall|i: int|
        0 <= i < sp.steps.len() ==> (#[trigger] st.steps@[i]).text@ == sp.steps[i].0
            && st.steps@[i].done == sp.steps[i].1
    &&& st.move_uci@ == uci_text(sp.mv)
    &&& st.move_san@ == san_text(p, sp.mv)
    &&& st.move_note@ == sp.note
}

pub open spec fn built(r: Option<Strategy>, sp: Option<PlanSpec>, p: Position) -> bool {
    match (r, sp) {
        (None, None) => true,
        (Some(st), Some(x)) => strategy_is(st, x, p),
        _ => false,
    }
}

pub open spec fn steps_of(a: Seq<char>, da: bool, b: Seq<char>, db: bool, c: Seq<char>, dc: bool) -> Seq<(Seq<char>, bool)> {
    seq![(a, da), (b, db), (c, dc)]
}

/// What strategize needs: a playable position with the side to move being
/// assisted, and a non-empty ranking of its legal moves, best first.
pub open spec fn strat_ready(p: Position, ranked: Seq<(Move, i32)>) -> bool {
    &&& playable(p)
    &&& ranked.len() > 0
    &&& ranked_ready(p, ranked)
}

fn step(text: &str, done: bool) -> (st: PlanStep)
    ensures
        st.text@ == text@,
        st.done == done,
{
    PlanStep { text: String::from_str(text), done }
}

fn three_steps(a: &str, da: bool, b: &str, db: bool, c: &str, dc: bool) -> (v: Vec<PlanStep>)
    ensures
        v@.len() == 3,
        v@[0].text@ == a@ && v@[0].done == da,
        v@[1].text@ == b@ && v@[1].done == db,
        v@[2].text@ == c@ && v@[2].done == dc,
{
    let mut v = Vec::new();
    v.push(step(a, da));
    v.push(step(b, db));
    v.push(step(c, dc));
    v
}

fn one_arrow(from: Square, to: Square, kind: ArrowKind) -> (v: Vec<PlanArrow>)
    ensures
        v@ == seq![PlanArrow { from, to, kind }],
{
    let mut v = Vec::new();
    v.push(PlanArrow { from, to, kind });
    proof {
        assert(v@ =~= seq![PlanArrow { from, to, kind }]);
    }
    v
}

fn one_ring(s: Square) -> (v: Vec<Square>)
    ensures
        v@ == seq![s],
{
    let mut v = Vec::new();
    v.push(s);
    proof {
        assert(v@ =~= seq![s]);
    }
    v
}

/// Assembles a plan around its recommended move.
fn mk(
    b: &Board,
    id: &'static str,
    name: String,
    idea: &str,
    fit: i32,
    rec: Move,
    note: String,
    arrows: Vec<PlanArrow>,
    rings: Vec<Square>,
    steps: Vec<PlanStep>,
) -> (st: Strategy)
    requires
        san_ready(b@, rec),
    ensures
        st.id == id,
        st.name@ == name@,
        st.idea@ == idea@,
        st.fit == fit,
        st.arrows@ == arrows@,
        st.rings@ == rings@,
        st.steps@ == steps@,
        st.move_uci@ == uci_text(rec),
        st.move_san@ == san_text(b@, rec),
        st.move_note@ == note@,
{
    Strategy {
        id,
        name,
        idea: String::from_str(idea),
        fit,
        arrows,
        rings,
        steps,
        move_uci: to_uci(rec),
        move_san: san(b, rec),
        move_note: note,
    }
}

/// The ranked moves all start from squares on the board.
proof fn lemma_ranked_legal(p: Position, ranked: Seq<(Move, i32)>, i: int)
    requires
        ranked_ready(p, ranked),
        0 <= i < ranked.len(),
    ensures
        legal(p, ranked[i].0),
        ranked[i].0.from < 64,
        ranked[i].0.to < 64,
        san_ready(p, ranked[i].0),
{
    assert(san_ready(p, ranked[i].0));
}

proof fn lemma_first_fit_ranked(p: Position, ranked: Seq<(Move, i32)>, t: ThemeSpec, i: int)
    requires
        0 <= i,
    ensures
        first_fit(p, ranked, t, i) matches Some(m) ==> exists|k: int|
            i <= k < ranked.len() && m == (#[trigger] ranked[k]).0 && theme_holds(p, t, m),
    decreases ranked.len() - i,
{
    if i < ranked.len() && !theme_holds(p, t, ranked[i].0) {
        lemma_first_fit_ranked(p, ranked, t, i + 1);
    }
}

/// The recommended moves of plans are ranked moves.
proof fn lemma_plan_ranked(p: Position, ranked: Seq<(Move, i32)>, top: int, t: ThemeSpec)
    requires
        ranked.len() > 0,
        ranked_ready(p, ranked),
    ensures
        san_ready(p, spec_plan_move(p, ranked, top, t)),
        spec_plan_move(p, ranked, top, t).from < 64,
        spec_plan_move(p, ranked, top, t).to < 64,
{
    law_plan_move_within_slack(p, ranked, top, t);
    if spec_plan_move(p, ranked, top, t) == ranked[0].0 {
        lemma_ranked_legal(p, ranked, 0);
    } else {
        let k = choose|k: int|
            0 <= k < ranked.len() && spec_plan_move(p, ranked, top, t) == (#[trigger] ranked[k]).0
                && theme_holds(p, t, ranked[k].0) && ranked[k].1 + PLAN_SLACK >= top;
        lemma_ranked_legal(p, ranked, k);
    }
}

// ---- Safety first: save a piece under real threat ----

/// `s` holds the biggest threat (the lowest such square among equals).
pub open spec fn threat_first(p: Position, side: Color, s: int) -> bool {
    &&& 0 <= s < 64
    &&& is_threat(p, side, s)
    &&& forall|t: int|
        0 <= t < 64 && #[trigger] is_threat(p, side, t) ==> threat_loss(p, side, s) > threat_loss(p, side, t) || (
        threat_loss(p, side, s) == threat_loss(p, side, t) && s <= t)
}

pub open spec fn save_piece_spec(p: Position, ranked: Seq<(Move, i32)>) -> Option<PlanSpec> {
    let side = p.side;
    if has_king(p, side.spec_opp()) && exists|s: int| 0 <= s < 64 && #[trigger] is_threat(p, side, s) {
        let sq = choose|s: int| threat_first(p, side, s);
        let loss = threat_loss(p, side, sq);
        let word = kind_text(p.squares[sq]->0.kind);
        let rec = spec_plan_move(p, ranked, ranked[0].1 as int, ThemeSpec::Saves(side, loss as i32));
        if loss >= 200 && spec_move_saves(p, rec, side, loss) {
            Some(
                PlanSpec {
                    id: "save_piece"@,
                    name: "Save your "@ + word,
                    idea: "A piece is under attack — get it safe (move it, defend it, or take the attacker) before anything else."@,
                    fit: 96,
                    arrows: seq![PlanArrow { from: rec.from, to: rec.to, kind: ArrowKind::Support }],
                    rings: seq![sq as u8],
                    steps: steps_of(
                        "Deal with the threat"@,
                        false,
                        "Get every piece safe and defended"@,
                        false,
                        "Then get on with your plan"@,
                        false,
                    ),
                    mv: rec,
                    note: "Gets your "@ + word + " out of danger — safety comes first."@,
                },
            )
        } else {
            None
        }
    } else {
        None
    }
}

fn build_save_piece(b: &Board, ranked: &Vec<(Move, i32)>) -> (r: Option<Strategy>)
    requires
        strat_ready(b@, ranked@),
    ensures
        built(r, save_piece_spec(b@, ranked@), b@),
{
    let side = b.side;
    let top_score = ranked[0].1;
    let threats = threatened_pieces(b, side);
    if threats.len() == 0 {
        proof {
            if has_king(b@, side.spec_opp()) && exists|s: int| 0 <= s < 64 && #[trigger] is_threat(b@, side, s) {
                let s0 = choose|s: int| 0 <= s < 64 && #[trigger] is_threat(b@, side, s);
                let i = choose|i: int| 0 <= i < threats@.len() && (#[trigger] threats@[i]).square == s0;
            }
        }
        return None;
    }
    let t = threats[0];
    proof {
        let q = b@;
        assert(has_king(q, side.spec_opp()));
        assert(t.square < 64 && is_threat(q, side, t.square as int));
        assert(threat_first(q, side, t.square as int)) by {
            assert forall|u: int| 0 <= u < 64 && #[trigger] is_threat(q, side, u) implies threat_loss(q, side, t.square as int) > threat_loss(q, side, u) || (
                threat_loss(q, side, t.square as int) == threat_loss(q, side, u) && t.square <= u) by {
                let i = choose|i: int| 0 <= i < threats@.len() && (#[trigger] threats@[i]).square == u;
                if i > 0 {
                    assert(threat_before(threats@[0], threats@[i]));
                }
            }
        }
        let c = choose|s: int| threat_first(q, side, s);
        assert(threat_first(q, side, c));
        assert(c == t.square as int) by {
            assert(is_threat(q, side, c));
            assert(is_threat(q, side, t.square as int));
        }
    }
    if t.loss < 200 {
        return None;
    }
    let sq = t.square;
    let loss = t.loss;
    let word = piece_word(t.kind);
    let theme = Theme::Saves(side, loss);
    let rec = plan_move(b, ranked, top_score, &theme);
    proof {
        lemma_plan_ranked(b@, ranked@, top_score as int, theme@);
    }
    if !move_saves(b, &rec, side, loss) {
        return None;
    }
    let mut name = String::from_str("Save your ");
    name.append(word);
    let mut note = String::from_str("Gets your ");
    note.append(word);
    note.append(" out of danger — safety comes first.");
    Some(
        mk(
            b,
            "save_piece",
            name,
            "A piece is under attack — get it safe (move it, defend it, or take the attacker) before anything else.",
            96,
            rec,
            note,
            one_arrow(rec.from, rec.to, ArrowKind::Support),
            one_ring(sq),
            three_steps(
                "Deal with the threat",
                false,
                "Get every piece safe and defended",
                false,
                "Then get on with your plan",
                false,
            ),
        ),
    )
}


// ---- Reading the board for plans ----

/// The material value of what stands on `s` (0 for an empty square).
pub open spec fn value_at(p: Position, s: int) -> int {
    match p.squares[s] {
        Some(pc) => spec_material(pc.kind),
        None => 0,
    }
}

/// The heaviest piece among the squares `v`; of equally heavy ones, the last.
pub open spec fn heaviest(p: Position, v: Seq<u8>) -> Option<u8>
    decreases v.len(),
{
    if v.len() == 0 {
        None
    } else {
        match heaviest(p, v.drop_last()) {
            None => Some(v.last()),
            Some(h) => if value_at(p, v.last() as int) >= value_at(p, h as int) {
                Some(v.last())
            } else {
                Some(h)
            },
        }
    }
}

proof fn lemma_heaviest_in(p: Position, v: Seq<u8>)
    ensures
        heaviest(p, v) matches Some(h) ==> v.contains(h),
    decreases v.len(),
{
    if v.len() > 0 {
        lemma_heaviest_in(p, v.drop_last());
        assert(v[v.len() - 1] == v.last());
        if heaviest(p, v.drop_last()) is Some {
            let h = heaviest(p, v.drop_last())->0;
            let i = choose|i: int| 0 <= i < v.drop_last().len() && v.drop_last()[i] == h;
            assert(v[i] == h);
        }
    }
}

fn value_of(b: &Board, s: Square) -> (v: i32)
    requires
        s < 64,
    ensures
        v == value_at(b@, s as int),
{
    match b.squares[s as usize] {
        Some(p) => material(p.kind),
        None => 0,
    }
}

/// The heaviest piece among `v`, the last of equally heavy ones.
fn heaviest_square(b: &Board, v: &Vec<Square>) -> (r: Option<Square>)
    requires
        forall|i: int| 0 <= i < v@.len() ==> v@[i] < 64,
    ensures
        r == heaviest(b@, v@),
{
    let mut best: Option<Square> = None;
    let mut i: usize = 0;
    while i < v.len()
        invariant
            i <= v@.len(),
            forall|j: int| 0 <= j < v@.len() ==> v@[j] < 64,
            best == heaviest(b@, v@.subrange(0, i as int)),
            best matches Some(h) ==> h < 64,
        decreases v@.len() - i,
    {
        let s = v[i];
        proof {
            assert(v@.subrange(0, i + 1).drop_last() =~= v@.subrange(0, i as int));
            assert(v@.subrange(0, i + 1).last() == s);
        }
        best = match best {
            None => Some(s),
            Some(h) => if value_of(b, s) >= value_of(b, h) {
                Some(s)
            } else {
                Some(h)
            },
        };
        i = i + 1;
    }
    proof {
        assert(v@.subrange(0, v@.len() as int) =~= v@);
    }
    best
}

proof fn lemma_loose_members(p: Position, side: Color, n: int)
    requires
        0 <= n <= 64,
    ensures
        forall|i: int|
            0 <= i < loose_squares(p, side, n).len() ==> (#[trigger] loose_squares(p, side, n)[i]) < n
                && loose_at(p, side, loose_squares(p, side, n)[i] as int),
    decreases n,
{
    if n > 0 {
        lemma_loose_members(p, side, n - 1);
        let prev = loose_squares(p, side, n - 1);
        let cur = loose_squares(p, side, n);
        assert forall|i: int| 0 <= i < cur.len() implies #[trigger] cur[i] < n && loose_at(p, side, cur[i] as int) by {
            if i < prev.len() {
                assert(cur[i] == prev[i]);
            } else {
                assert(cur[i] == (n - 1) as u8);
            }
        }
    }
}

/// The king of `color`, by square.
fn king_sq(b: &Board, color: Color) -> (s: Square)
    requires
        has_king(b@, color),
    ensures
        s as int == king_of(b@, color),
        s < 64,
{
    let k = king_square(b, color);
    proof {
        lemma_king_of(b@, color);
        lemma_first_king_unique(b@, color, k as int, king_of(b@, color));
    }
    k
}

/// The name of what stands on `s` ("piece" for an empty square).
pub open spec fn piece_name_at(p: Position, s: int) -> Seq<char> {
    match p.squares[s] {
        Some(pc) => kind_text(pc.kind),
        None => "piece"@,
    }
}

fn name_at(b: &Board, s: Square) -> (w: &'static str)
    requires
        s < 64,
    ensures
        w@ == piece_name_at(b@, s as int),
{
    match kind_at(b, s) {
        Some(k) => piece_word(k),
        None => "piece",
    }
}

/// The plan's move, from `p` with the best score first in `ranked`.
pub open spec fn best_plan(p: Position, ranked: Seq<(Move, i32)>, t: ThemeSpec) -> Move {
    spec_plan_move(p, ranked, ranked[0].1 as int, t)
}

fn plan_for(b: &Board, ranked: &Vec<(Move, i32)>, t: &Theme) -> (m: Move)
    requires
        strat_ready(b@, ranked@),
    ensures
        m == best_plan(b@, ranked@, t@),
        san_ready(b@, m),
        m.from < 64,
        m.to < 64,
{
    let m = plan_move(b, ranked, ranked[0].1, t);
    proof {
        lemma_plan_ranked(b@, ranked@, ranked@[0].1 as int, t@);
    }
    m
}

/// The first ranked move that serves the theme within the slack of the
/// best score, if any.
fn pick_plan_for(b: &Board, ranked: &Vec<(Move, i32)>, t: &Theme) -> (r: Option<Move>)
    requires
        strat_ready(b@, ranked@),
    ensures
        r == first_plan(b@, ranked@, ranked@[0].1 as int, t@, 0),
        r matches Some(m) ==> san_ready(b@, m) && m.from < 64 && m.to < 64,
{
    let top_score = ranked[0].1;
    let mut i: usize = 0;
    while i < ranked.len()
        invariant
            i <= ranked@.len(),
            strat_ready(b@, ranked@),
            top_score == ranked@[0].1,
            first_plan(b@, ranked@, top_score as int, t@, 0) == first_plan(b@, ranked@, top_score as int, t@, i as int),
        decreases ranked@.len() - i,
    {
        let (m, s) = ranked[i];
        proof {
            lemma_ranked_legal(b@, ranked@, i as int);
        }
        if fits(b, t, &m) && s as i64 + 40 >= top_score as i64 {
            return Some(m);
        }
        i = i + 1;
    }
    None
}

fn pick_for(b: &Board, ranked: &Vec<(Move, i32)>, t: &Theme) -> (r: Option<Move>)
    requires
        strat_ready(b@, ranked@),
    ensures
        r == first_fit(b@, ranked@, t@, 0),
        r matches Some(m) ==> san_ready(b@, m) && m.from < 64 && m.to < 64,
{
    let r = pick(b, ranked, t);
    proof {
        lemma_first_fit_ranked(b@, ranked@, t@, 0);
        if r is Some {
            let m = r->0;
            let k = choose|k: int| 0 <= k < ranked@.len() && m == (#[trigger] ranked@[k]).0 && theme_holds(b@, t@, m);
            lemma_ranked_legal(b@, ranked@, k);
        }
    }
    r
}

// ---- Win the loose piece ----

pub open spec fn win_material_spec(p: Position, ranked: Seq<(Move, i32)>) -> Option<PlanSpec> {
    match heaviest(p, loose_squares(p, p.side, 64)) {
        None => None,
        Some(target) => match first_plan(p, ranked, ranked[0].1 as int, ThemeSpec::OnTo(target), 0) {
            None => None,
            Some(cap) => Some(
                PlanSpec {
                    id: "win_material"@,
                    name: "Win the loose piece"@,
                    idea: "Your opponent left a piece undefended — take it and bank the material."@,
                    fit: 90,
                    arrows: seq![PlanArrow { from: cap.from, to: cap.to, kind: ArrowKind::Attack }],
                    rings: seq![target],
                    steps: steps_of(
                        "Take the loose piece"@,
                        false,
                        "Consolidate — get safe"@,
                        false,
                        "Convert your extra material"@,
                        false,
                    ),
                    mv: cap,
                    note: "Captures the undefended "@ + piece_name_at(p, target as int) + " — free material."@,
                },
            ),
        },
    }
}

fn build_win_material(b: &Board, ranked: &Vec<(Move, i32)>) -> (r: Option<Strategy>)
    requires
        strat_ready(b@, ranked@),
    ensures
        built(r, win_material_spec(b@, ranked@), b@),
{
    let loose = loose_enemy(b, b.side);
    proof {
        lemma_loose_members(b@, b.side, 64);
    }
    match heaviest_square(b, &loose) {
        None => None,
        Some(target) => {
            proof {
                lemma_heaviest_in(b@, loose@);
            }
            let theme = Theme::OnTo(target);
            match pick_plan_for(b, ranked, &theme) {
                None => None,
                Some(cap) => {
                    let mut note = String::from_str("Captures the undefended ");
                    note.append(name_at(b, target));
                    note.append(" — free material.");
                    Some(
                        mk(
                            b,
                            "win_material",
                            String::from_str("Win the loose piece"),
                            "Your opponent left a piece undefended — take it and bank the material.",
                            90,
                            cap,
                            note,
                            one_arrow(cap.from, cap.to, ArrowKind::Attack),
                            one_ring(target),
                            three_steps(
                                "Take the loose piece",
                                false,
                                "Consolidate — get safe",
                                false,
                                "Convert your extra material",
                                false,
                            ),
                        ),
                    )
                },
            }
        },
    }
}


// ---- Develop & Castle ----

pub open spec fn develop_spec(p: Position, ranked: Seq<(Move, i32)>, ph: Phase) -> Option<PlanSpec> {
    let side = p.side;
    let kn = undeveloped_count(p, side, seq![PieceKind::Knight], 4);
    let bi = undeveloped_count(p, side, seq![PieceKind::Bishop], 4);
    let castled = spec_is_castled(p, side);
    let castle_mv = first_fit(p, ranked, ThemeSpec::Castle, 0);
    let can_castle = !castled && castle_mv is Some;
    if kn + bi > 0 || can_castle {
        let rec = best_plan(p, ranked, ThemeSpec::DevelopOrCastle(side));
        let first = PlanArrow {
            from: rec.from,
            to: rec.to,
            kind: if rec.flag == Flag::Castle {
                ArrowKind::Castle
            } else {
                ArrowKind::Dev
            },
        };
        let c = castle_mv->0;
        let extra = rec.flag != Flag::Castle && castle_mv is Some;
        Some(
            PlanSpec {
                id: "develop"@,
                name: "Develop & Castle"@,
                idea: "Get your last pieces into the game and tuck your king away — the #1 opening priority."@,
                fit: 30 + 12 * (kn + bi) + (if can_castle {
                    22int
                } else {
                    0int
                }) + (if ph == Phase::Opening {
                    15int
                } else {
                    0int
                }),
                arrows: if extra {
                    seq![first, PlanArrow { from: c.from, to: c.to, kind: ArrowKind::Castle }]
                } else {
                    seq![first]
                },
                rings: if extra {
                    seq![rec.to, c.to]
                } else {
                    seq![rec.to]
                },
                steps: steps_of(
                    "Develop your knights"@,
                    kn == 0,
                    "Develop your bishops"@,
                    bi == 0,
                    "Castle your king"@,
                    castled,
                ),
                mv: rec,
                note: if rec.flag == Flag::Castle {
                    "Castles — your king reaches safety and your rook joins the game."@
                } else {
                    "Develops your "@ + piece_name_at(p, rec.from as int)
                        + " — a piece into the game, part of the plan."@
                },
            },
        )
    } else {
        None
    }
}

fn build_develop(b: &Board, ranked: &Vec<(Move, i32)>, ph: Phase) -> (r: Option<Strategy>)
    requires
        strat_ready(b@, ranked@),
    ensures
        built(r, develop_spec(b@, ranked@, ph), b@),
{
    let side = b.side;
    let knights = [PieceKind::Knight];
    let bishops = [PieceKind::Bishop];
    proof {
        assert(knights@ =~= seq![PieceKind::Knight]);
        assert(bishops@ =~= seq![PieceKind::Bishop]);
    }
    let kn = undeveloped(b, side, &knights);
    let bi = undeveloped(b, side, &bishops);
    let castled = is_castled(b, side);
    let castle_mv = pick_for(b, ranked, &Theme::Castle);
    let can_castle = !castled && castle_mv.is_some();
    if !(kn + bi > 0 || can_castle) {
        return None;
    }
    let mut fit = 30 + 12 * (kn + bi);
    if can_castle {
        fit = fit + 22;
    }
    if ph == Phase::Opening {
        fit = fit + 15;
    }
    let rec = plan_for(b, ranked, &Theme::DevelopOrCastle(side));
    let is_castle = rec.flag == Flag::Castle;
    let first = PlanArrow {
        from: rec.from,
        to: rec.to,
        kind: if is_castle {
            ArrowKind::Castle
        } else {
            ArrowKind::Dev
        },
    };
    let mut arrows = one_arrow(first.from, first.to, first.kind);
    let mut rings = one_ring(rec.to);
    if !is_castle {
        match castle_mv {
            Some(c) => {
                arrows.push(PlanArrow { from: c.from, to: c.to, kind: ArrowKind::Castle });
                rings.push(c.to);
                proof {
                    assert(arrows@ =~= seq![first, PlanArrow { from: c.from, to: c.to, kind: ArrowKind::Castle }]);
                    assert(rings@ =~= seq![rec.to, c.to]);
                }
            },
            None => {},
        }
    }
    let note = if is_castle {
        String::from_str("Castles — your king reaches safety and your rook joins the game.")
    } else {
        let mut n = String::from_str("Develops your ");
        n.append(name_at(b, rec.from));
        n.append(" — a piece into the game, part of the plan.");
        n
    };
    Some(
        mk(
            b,
            "develop",
            String::from_str("Develop & Castle"),
            "Get your last pieces into the game and tuck your king away — the #1 opening priority.",
            fit,
            rec,
            note,
            arrows,
            rings,
            three_steps(
                "Develop your knights",
                kn == 0,
                "Develop your bishops",
                bi == 0,
                "Castle your king",
                castled,
            ),
        ),
    )
}

// ---- Seize the Centre ----

pub open spec fn own_pawn_at(p: Position, side: Color, s: int) -> bool {
    p.squares[s] == Some(Piece { color: side, kind: PieceKind::Pawn })
}

pub open spec fn one_if(c: bool) -> int {
    if c {
        1
    } else {
        0
    }
}

/// How many of d4, e4, d5, e5 hold a pawn of `side`.
pub open spec fn own_center_count(p: Position, side: Color) -> int {
    one_if(own_pawn_at(p, side, 27)) + one_if(own_pawn_at(p, side, 28)) + one_if(own_pawn_at(p, side, 35))
        + one_if(own_pawn_at(p, side, 36))
}

pub open spec fn center_spec(p: Position, ranked: Seq<(Move, i32)>, ph: Phase) -> Option<PlanSpec> {
    let own = own_center_count(p, p.side);
    let rec = best_plan(p, ranked, ThemeSpec::CenterPush);
    if ph != Phase::Endgame && own < 2 && spec_center_push(p, rec) {
        Some(
            PlanSpec {
                id: "center"@,
                name: "Seize the Centre"@,
                idea: "Plant a pawn in the middle — central space cramps your opponent and frees your pieces."@,
                fit: 28 + (2 - own) * 8 + (if ph == Phase::Opening {
                    10int
                } else {
                    0int
                }),
                arrows: seq![PlanArrow { from: rec.from, to: rec.to, kind: ArrowKind::Dev }],
                rings: seq![rec.to],
                steps: steps_of(
                    "Put a pawn in the centre"@,
                    own > 0,
                    "Support it with pieces/pawns"@,
                    false,
                    "Contest your opponent's centre"@,
                    false,
                ),
                mv: rec,
                note: "Stakes a claim in the centre — the pawn there controls key squares."@,
            },
        )
    } else {
        None
    }
}

fn build_center(b: &Board, ranked: &Vec<(Move, i32)>, ph: Phase) -> (r: Option<Strategy>)
    requires
        strat_ready(b@, ranked@),
    ensures
        built(r, center_spec(b@, ranked@, ph), b@),
{
    let side = b.side;
    if ph == Phase::Endgame {
        return None;
    }
    let mut own: i32 = 0;
    if own_pawn_on(b, 3, 3, side) {
        own = own + 1;
    }
    if own_pawn_on(b, 4, 3, side) {
        own = own + 1;
    }
    if own_pawn_on(b, 3, 4, side) {
        own = own + 1;
    }
    if own_pawn_on(b, 4, 4, side) {
        own = own + 1;
    }
    if own >= 2 {
        return None;
    }
    let rec = plan_for(b, ranked, &Theme::CenterPush);
    if !center_push(b, &rec) {
        return None;
    }
    let fit = 28 + (2 - own) * 8 + if ph == Phase::Opening {
        10
    } else {
        0
    };
    Some(
        mk(
            b,
            "center",
            String::from_str("Seize the Centre"),
            "Plant a pawn in the middle — central space cramps your opponent and frees your pieces.",
            fit,
            rec,
            String::from_str("Stakes a claim in the centre — the pawn there controls key squares."),
            one_arrow(rec.from, rec.to, ArrowKind::Dev),
            one_ring(rec.to),
            three_steps(
                "Put a pawn in the centre",
                own > 0,
                "Support it with pieces/pawns",
                false,
                "Contest your opponent's centre",
                false,
            ),
        ),
    )
}

// ---- Make a pawn break ----

pub open spec fn pawn_break_spec(p: Position, ranked: Seq<(Move, i32)>, ph: Phase) -> Option<PlanSpec> {
    let rec = best_plan(p, ranked, ThemeSpec::PawnBreak(p.side));
    if ph != Phase::Endgame && spec_pawn_break(p, rec, p.side) {
        Some(
            PlanSpec {
                id: "pawn_break"@,
                name: "Make a pawn break"@,
                idea: "Advance a pawn to challenge theirs — a break opens lines for your pieces and frees a cramped position."@,
                fit: 32 + (if ph == Phase::Middlegame {
                    10int
                } else {
                    0int
                }),
                arrows: seq![PlanArrow { from: rec.from, to: rec.to, kind: ArrowKind::Attack }],
                rings: seq![rec.to],
                steps: steps_of(
                    "Back the break with a piece or pawn"@,
                    false,
                    "Play the break"@,
                    false,
                    "Use the open line you created"@,
                    false,
                ),
                mv: rec,
                note: "Pushes to "@ + square_name(rec.to)
                    + " to challenge their pawns — prepares to open the position."@,
            },
        )
    } else {
        None
    }
}

fn build_pawn_break(b: &Board, ranked: &Vec<(Move, i32)>, ph: Phase) -> (r: Option<Strategy>)
    requires
        strat_ready(b@, ranked@),
    ensures
        built(r, pawn_break_spec(b@, ranked@, ph), b@),
{
    if ph == Phase::Endgame {
        return None;
    }
    let side = b.side;
    let rec = plan_for(b, ranked, &Theme::PawnBreak(side));
    if !pawn_break(b, &rec, side) {
        return None;
    }
    let mut note = String::from_str("Pushes to ");
    note.append(&sq_to_algebraic(rec.to));
    note.append(" to challenge their pawns — prepares to open the position.");
    Some(
        mk(
            b,
            "pawn_break",
            String::from_str("Make a pawn break"),
            "Advance a pawn to challenge theirs — a break opens lines for your pieces and frees a cramped position.",
            32 + if ph == Phase::Middlegame {
                10
            } else {
                0
            },
            rec,
            note,
            one_arrow(rec.from, rec.to, ArrowKind::Attack),
            one_ring(rec.to),
            three_steps(
                "Back the break with a piece or pawn",
                false,
                "Play the break",
                false,
                "Use the open line you created",
                false,
            ),
        ),
    )
}

// ---- Attack the King ----

pub open spec fn attack_king_spec(p: Position, ranked: Seq<(Move, i32)>, ph: Phase) -> Option<PlanSpec> {
    let side = p.side;
    let opp = side.spec_opp();
    let opp_king = king_of(p, opp);
    let opp_castled = spec_is_castled(p, opp);
    let opp_home = opp_king == king_home_square(opp);
    let developed = 4 - undeveloped_count(p, side, seq![PieceKind::Knight, PieceKind::Bishop], 4);
    let rec = best_plan(p, ranked, ThemeSpec::TowardKing(opp_king as u8));
    if ph == Phase::Middlegame && (!opp_castled || opp_home) && developed >= 2 {
        Some(
            PlanSpec {
                id: "attack_king"@,
                name: "Attack the King"@,
                idea: "Their king is exposed in the centre — throw your pieces at it before they get safe."@,
                fit: 34 + (if opp_home {
                    24int
                } else {
                    0int
                }) + developed * 3,
                arrows: seq![PlanArrow { from: rec.from, to: rec.to, kind: ArrowKind::Attack }],
                rings: seq![opp_king as u8],
                steps: steps_of(
                    "Aim pieces at the enemy king"@,
                    false,
                    "Open a line to it"@,
                    false,
                    "Break through"@,
                    false,
                ),
                mv: rec,
                note: "Brings a piece toward the enemy king — building the attack."@,
            },
        )
    } else {
        None
    }
}

fn build_attack_king(b: &Board, ranked: &Vec<(Move, i32)>, ph: Phase) -> (r: Option<Strategy>)
    requires
        strat_ready(b@, ranked@),
    ensures
        built(r, attack_king_spec(b@, ranked@, ph), b@),
{
    if ph != Phase::Middlegame {
        return None;
    }
    let side = b.side;
    let opp = side.opp();
    let opp_king = king_sq(b, opp);
    let opp_castled = is_castled(b, opp);
    let opp_home = opp_king == king_home(opp);
    let minors = [PieceKind::Knight, PieceKind::Bishop];
    proof {
        assert(minors@ =~= seq![PieceKind::Knight, PieceKind::Bishop]);
    }
    let developed = 4 - undeveloped(b, side, &minors);
    if !((!opp_castled || opp_home) && developed >= 2) {
        return None;
    }
    let rec = plan_for(b, ranked, &Theme::TowardKing(opp_king));
    Some(
        mk(
            b,
            "attack_king",
            String::from_str("Attack the King"),
            "Their king is exposed in the centre — throw your pieces at it before they get safe.",
            34 + (if opp_home {
                24
            } else {
                0
            }) + developed * 3,
            rec,
            String::from_str("Brings a piece toward the enemy king — building the attack."),
            one_arrow(rec.from, rec.to, ArrowKind::Attack),
            one_ring(opp_king),
            three_steps(
                "Aim pieces at the enemy king",
                false,
                "Open a line to it",
                false,
                "Break through",
                false,
            ),
        ),
    )
}

// ---- Simplify when ahead ----

pub open spec fn simplify_spec(p: Position, ranked: Seq<(Move, i32)>, ph: Phase) -> Option<PlanSpec> {
    let lead = material_sum(p, p.side, 64) - material_sum(p, p.side.spec_opp(), 64);
    let rec = best_plan(p, ranked, ThemeSpec::Capture);
    if lead >= 200 && ph != Phase::Opening {
        Some(
            PlanSpec {
                id: "simplify"@,
                name: "Simplify — you're ahead"@,
                idea: "You're up material — trade pieces (not pawns) to steer toward an easily winning endgame."@,
                fit: 26 + lead / 120,
                arrows: seq![PlanArrow { from: rec.from, to: rec.to, kind: ArrowKind::Support }],
                rings: seq![rec.to],
                steps: steps_of(
                    "Trade pieces, keep pawns"@,
                    false,
                    "Avoid complications"@,
                    false,
                    "Reach a winning endgame"@,
                    false,
                ),
                mv: rec,
                note: "Trades pieces down — every swap makes your extra material count for more."@,
            },
        )
    } else {
        None
    }
}

fn build_simplify(b: &Board, ranked: &Vec<(Move, i32)>, ph: Phase) -> (r: Option<Strategy>)
    requires
        strat_ready(b@, ranked@),
    ensures
        built(r, simplify_spec(b@, ranked@, ph), b@),
{
    let side = b.side;
    let lead = nonking_material(b, side) - nonking_material(b, side.opp());
    if !(lead >= 200 && ph != Phase::Opening) {
        return None;
    }
    let rec = plan_for(b, ranked, &Theme::Capture);
    Some(
        mk(
            b,
            "simplify",
            String::from_str("Simplify — you're ahead"),
            "You're up material — trade pieces (not pawns) to steer toward an easily winning endgame.",
            26 + lead / 120,
            rec,
            String::from_str("Trades pieces down — every swap makes your extra material count for more."),
            one_arrow(rec.from, rec.to, ArrowKind::Support),
            one_ring(rec.to),
            three_steps(
                "Trade pieces, keep pawns",
                false,
                "Avoid complications",
                false,
                "Reach a winning endgame",
                false,
            ),
        ),
    )
}


// ---- Push the Passed Pawn ----

/// The promotion square on the file of `to`, for `side`.
pub open spec fn promo_square(side: Color, to: u8) -> u8 {
    if side == Color::White {
        (56 + to % 8) as u8
    } else {
        (to % 8) as u8
    }
}

pub open spec fn passer_spec(p: Position, ranked: Seq<(Move, i32)>, ph: Phase) -> Option<PlanSpec> {
    let side = p.side;
    let passers = passed_squares(p, side, 64);
    let rec = best_plan(p, ranked, ThemeSpec::PasserPush(passers, side));
    if ph == Phase::Endgame && passers.len() > 0 && passers.contains(rec.from) && spec_forward_pawn(p, rec, side) {
        Some(
            PlanSpec {
                id: "passer"@,
                name: "Push the Passed Pawn"@,
                idea: "You have a pawn no enemy pawn can stop — march it toward promotion."@,
                fit: 40,
                arrows: seq![PlanArrow { from: rec.from, to: rec.to, kind: ArrowKind::Dev }],
                rings: seq![promo_square(side, rec.to)],
                steps: steps_of(
                    "Advance the passed pawn"@,
                    false,
                    "Support it with your king/rook"@,
                    false,
                    "Promote to a queen"@,
                    false,
                ),
                mv: rec,
                note: "Advances your passed pawn — one step closer to a new queen."@,
            },
        )
    } else {
        None
    }
}

fn build_passer(b: &Board, ranked: &Vec<(Move, i32)>, ph: Phase) -> (r: Option<Strategy>)
    requires
        strat_ready(b@, ranked@),
    ensures
        built(r, passer_spec(b@, ranked@, ph), b@),
{
    if ph != Phase::Endgame {
        return None;
    }
    let side = b.side;
    let passers = passed_pawns(b, side);
    if passers.len() == 0 {
        return None;
    }
    let theme = Theme::PasserPush(passers, side);
    let rec = plan_for(b, ranked, &theme);
    if !fits(b, &theme, &rec) {
        return None;
    }
    let promo_file = file_of(rec.to);
    let promo_sq: Square = if side == Color::White {
        (56 + promo_file) as u8
    } else {
        promo_file as u8
    };
    Some(
        mk(
            b,
            "passer",
            String::from_str("Push the Passed Pawn"),
            "You have a pawn no enemy pawn can stop — march it toward promotion.",
            40,
            rec,
            String::from_str("Advances your passed pawn — one step closer to a new queen."),
            one_arrow(rec.from, rec.to, ArrowKind::Dev),
            one_ring(promo_sq),
            three_steps(
                "Advance the passed pawn",
                false,
                "Support it with your king/rook",
                false,
                "Promote to a queen",
                false,
            ),
        ),
    )
}


// ---- Attack the isolated pawn ----

/// How far the file of `s` is from the centre files (d and e).
pub open spec fn off_centre(s: u8) -> int {
    let f = (s % 8) as int;
    let a = if f >= 4 {
        f - 4
    } else {
        4 - f
    };
    let c = if f >= 3 {
        f - 3
    } else {
        3 - f
    };
    if a < c {
        a
    } else {
        c
    }
}

/// The most central square of `v`; of equally central ones, the first.
pub open spec fn most_central(v: Seq<u8>) -> Option<u8>
    decreases v.len(),
{
    if v.len() == 0 {
        None
    } else {
        match most_central(v.drop_last()) {
            None => Some(v.last()),
            Some(h) => if off_centre(v.last()) < off_centre(h) {
                Some(v.last())
            } else {
                Some(h)
            },
        }
    }
}

proof fn lemma_most_central_in(v: Seq<u8>)
    ensures
        most_central(v) matches Some(h) ==> v.contains(h),
    decreases v.len(),
{
    if v.len() > 0 {
        lemma_most_central_in(v.drop_last());
        assert(v[v.len() - 1] == v.last());
        if most_central(v.drop_last()) is Some {
            let h = most_central(v.drop_last())->0;
            let i = choose|i: int| 0 <= i < v.drop_last().len() && v.drop_last()[i] == h;
            assert(v[i] == h);
        }
    }
}

fn off_centre_of(s: Square) -> (d: i32)
    ensures
        d == off_centre(s),
{
    let f = file_of(s);
    let a = if f >= 4 {
        f - 4
    } else {
        4 - f
    };
    let c = if f >= 3 {
        f - 3
    } else {
        3 - f
    };
    if a < c {
        a
    } else {
        c
    }
}

fn most_central_square(v: &Vec<Square>) -> (r: Option<Square>)
    ensures
        r == most_central(v@),
{
    let mut best: Option<Square> = None;
    let mut i: usize = 0;
    while i < v.len()
        invariant
            i <= v@.len(),
            best == most_central(v@.subrange(0, i as int)),
        decreases v@.len() - i,
    {
        let s = v[i];
        proof {
            assert(v@.subrange(0, i + 1).drop_last() =~= v@.subrange(0, i as int));
            assert(v@.subrange(0, i + 1).last() == s);
        }
        best = match best {
            None => Some(s),
            Some(h) => if off_centre_of(s) < off_centre_of(h) {
                Some(s)
            } else {
                Some(h)
            },
        };
        i = i + 1;
    }
    proof {
        assert(v@.subrange(0, v@.len() as int) =~= v@);
    }
    best
}

proof fn lemma_isolated_members(p: Position, color: Color, n: int)
    requires
        0 <= n <= 64,
    ensures
        forall|i: int|
            0 <= i < isolated_squares(p, color, n).len() ==> (#[trigger] isolated_squares(p, color, n)[i]) < n,
    decreases n,
{
    if n > 0 {
        lemma_isolated_members(p, color, n - 1);
        let prev = isolated_squares(p, color, n - 1);
        let cur = isolated_squares(p, color, n);
        assert forall|i: int| 0 <= i < cur.len() implies #[trigger] cur[i] < n by {
            if i < prev.len() {
                assert(cur[i] == prev[i]);
            } else {
                assert(cur[i] == (n - 1) as u8);
            }
        }
    }
}

/// The square in front of an enemy pawn (from its own side), as `u8`
/// arithmetic has it: past the board's edge it is off the board.
pub open spec fn block_square(opp: Color, pawn: u8) -> u8 {
    if opp == Color::White {
        (pawn + 8) as u8
    } else {
        vstd::wrapping::u8_specs::wrapping_sub(pawn, 8)
    }
}

pub open spec fn iso_attack_spec(p: Position, ranked: Seq<(Move, i32)>) -> Option<PlanSpec> {
    let opp = p.side.spec_opp();
    match most_central(isolated_squares(p, opp, 64)) {
        None => None,
        Some(pawn) => {
            let block = block_square(opp, pawn);
            let rec = best_plan(p, ranked, ThemeSpec::OnToEither(pawn, block));
            Some(
                PlanSpec {
                    id: "iso_attack"@,
                    name: "Attack the isolated pawn"@,
                    idea: "Their pawn has no neighbour to defend it — blockade it with a knight, pile up, and win it."@,
                    fit: 44,
                    arrows: seq![PlanArrow { from: rec.from, to: rec.to, kind: ArrowKind::Attack }],
                    rings: if block < 64 {
                        seq![pawn, block]
                    } else {
                        seq![pawn]
                    },
                    steps: steps_of(
                        "Blockade it with a knight"@,
                        false,
                        "Pile up attackers on it"@,
                        false,
                        "Win the weak pawn"@,
                        false,
                    ),
                    mv: rec,
                    note: "Targets the weak isolated pawn — blockade it, then win it."@,
                },
            )
        },
    }
}

fn build_iso_attack(b: &Board, ranked: &Vec<(Move, i32)>) -> (r: Option<Strategy>)
    requires
        strat_ready(b@, ranked@),
    ensures
        built(r, iso_attack_spec(b@, ranked@), b@),
{
    let opp = b.side.opp();
    let opp_iso = isolated_of(b, opp);
    let pawn = match most_central_square(&opp_iso) {
        Some(s) => s,
        None => {
            return None;
        },
    };
    proof {
        lemma_most_central_in(opp_iso@);
        lemma_isolated_members(b@, opp, 64);
        let i = choose|i: int| 0 <= i < opp_iso@.len() && opp_iso@[i] == pawn;
        assert(opp_iso@[i] < 64);
    }
    let block_sq = if opp == Color::White {
        pawn.saturating_add(8)
    } else {
        pawn.wrapping_sub(8)
    };
    let rec = plan_for(b, ranked, &Theme::OnToEither(pawn, block_sq));
    let mut rings = one_ring(pawn);
    if block_sq < 64 {
        rings.push(block_sq);
        proof {
            assert(rings@ =~= seq![pawn, block_sq]);
        }
    }
    Some(
        mk(
            b,
            "iso_attack",
            String::from_str("Attack the isolated pawn"),
            "Their pawn has no neighbour to defend it — blockade it with a knight, pile up, and win it.",
            44,
            rec,
            String::from_str("Targets the weak isolated pawn — blockade it, then win it."),
            one_arrow(rec.from, rec.to, ArrowKind::Attack),
            rings,
            three_steps(
                "Blockade it with a knight",
                false,
                "Pile up attackers on it",
                false,
                "Win the weak pawn",
                false,
            ),
        ),
    )
}

// ---- Seize the open file ----

/// The first fully open file from `f` on.
pub open spec fn first_open_file(p: Position, f: int) -> Option<int>
    decreases 8 - f,
{
    if f < 0 || f >= 8 {
        None
    } else if is_open_file(p, f) {
        Some(f)
    } else {
        first_open_file(p, f + 1)
    }
}

proof fn lemma_first_open_file_range(p: Position, f: int)
    requires
        0 <= f,
    ensures
        first_open_file(p, f) matches Some(x) ==> 0 <= x < 8,
    decreases 8 - f,
{
    if f < 8 && !is_open_file(p, f) {
        lemma_first_open_file_range(p, f + 1);
    }
}

/// The letter of file `f` (0..=7).
pub open spec fn file_letter(f: int) -> char {
    ((97 + f) as u8) as char
}

pub open spec fn open_file_spec(p: Position, ranked: Seq<(Move, i32)>) -> Option<PlanSpec> {
    match first_open_file(p, 0) {
        None => None,
        Some(file) => {
            let rec = best_plan(p, ranked, ThemeSpec::RookToFile(file as i32));
            if spec_has_rook(p, p.side) {
                Some(
                    PlanSpec {
                        id: "open_file"@,
                        name: "Seize the open file"@,
                        idea: "An open file is a highway for your rooks — occupy it, double up, and invade."@,
                        fit: 33,
                        arrows: seq![PlanArrow { from: rec.from, to: rec.to, kind: ArrowKind::Support }],
                        rings: seq![rec.to],
                        steps: steps_of(
                            "Put a rook on the open file"@,
                            false,
                            "Double your rooks"@,
                            false,
                            "Invade the 7th rank"@,
                            false,
                        ),
                        mv: rec,
                        note: "Puts a rook on the open "@ + seq![file_letter(file)]
                            + "-file — control it and invade the 7th."@,
                    },
                )
            } else {
                None
            }
        },
    }
}

fn first_open(b: &Board) -> (r: Option<i32>)
    ensures
        r matches Some(f) ==> first_open_file(b@, 0) == Some(f as int),
        r is None ==> first_open_file(b@, 0) is None,
{
    let mut f: i32 = 0;
    while f < 8
        invariant
            0 <= f <= 8,
            first_open_file(b@, 0) == first_open_file(b@, f as int),
        decreases 8 - f,
    {
        if open_file(b, f) {
            return Some(f);
        }
        f = f + 1;
    }
    None
}

fn build_open_file(b: &Board, ranked: &Vec<(Move, i32)>) -> (r: Option<Strategy>)
    requires
        strat_ready(b@, ranked@),
    ensures
        built(r, open_file_spec(b@, ranked@), b@),
{
    if !has_rook(b, b.side) {
        return None;
    }
    let file = match first_open(b) {
        Some(f) => f,
        None => {
            return None;
        },
    };
    proof {
        lemma_first_open_file_range(b@, 0);
    }
    let rec = plan_for(b, ranked, &Theme::RookToFile(file));
    let mut note = String::from_str("Puts a rook on the open ");
    let letter = ((97 + file) as u8) as char;
    crate::text::push_char(&mut note, letter);
    note.append("-file — control it and invade the 7th.");
    proof {
        assert(letter == file_letter(file as int));
        assert(note@ =~= "Puts a rook on the open "@ + seq![file_letter(file as int)]
            + "-file — control it and invade the 7th."@);
    }
    Some(
        mk(
            b,
            "open_file",
            String::from_str("Seize the open file"),
            "An open file is a highway for your rooks — occupy it, double up, and invade.",
            33,
            rec,
            note,
            one_arrow(rec.from, rec.to, ArrowKind::Support),
            one_ring(rec.to),
            three_steps(
                "Put a rook on the open file",
                false,
                "Double your rooks",
                false,
                "Invade the 7th rank",
                false,
            ),
        ),
    )
}

// ---- Kingside pawn storm ----

/// The enemy king sits castled short: on the f-, g- or h-file of its own
/// back two ranks.
pub open spec fn castled_short(side: Color, opp_king: int) -> bool {
    let kf = opp_king % 8;
    let kr = opp_king / 8;
    kf >= 5 && ((side == Color::White && kr >= 6) || (side == Color::Black && kr <= 1))
}

pub open spec fn pawn_storm_spec(p: Position, ranked: Seq<(Move, i32)>, ph: Phase) -> Option<PlanSpec> {
    let side = p.side;
    let opp_king = king_of(p, side.spec_opp());
    let rec = best_plan(p, ranked, ThemeSpec::Storm(side));
    if ph == Phase::Middlegame && castled_short(side, opp_king) {
        Some(
            PlanSpec {
                id: "pawn_storm"@,
                name: "Kingside pawn storm"@,
                idea: "Their king is castled kingside — roll your g- and h-pawns up the board to tear open its cover."@,
                fit: 36,
                arrows: seq![PlanArrow { from: rec.from, to: rec.to, kind: ArrowKind::Attack }],
                rings: seq![opp_king as u8],
                steps: steps_of(
                    "Advance your g/h pawns"@,
                    false,
                    "Pry open the king's cover"@,
                    false,
                    "Break through with your pieces"@,
                    false,
                ),
                mv: rec,
                note: "Advances a kingside pawn — the storm that cracks their king open."@,
            },
        )
    } else {
        None
    }
}

fn build_pawn_storm(b: &Board, ranked: &Vec<(Move, i32)>, ph: Phase) -> (r: Option<Strategy>)
    requires
        strat_ready(b@, ranked@),
    ensures
        built(r, pawn_storm_spec(b@, ranked@, ph), b@),
{
    if ph != Phase::Middlegame {
        return None;
    }
    let side = b.side;
    let opp_king = king_sq(b, side.opp());
    let kf = file_of(opp_king);
    let kr = rank_of(opp_king);
    let enemy_short = kf >= 5 && ((side == Color::White && kr >= 6) || (side == Color::Black && kr <= 1));
    if !enemy_short {
        return None;
    }
    let rec = plan_for(b, ranked, &Theme::Storm(side));
    Some(
        mk(
            b,
            "pawn_storm",
            String::from_str("Kingside pawn storm"),
            "Their king is castled kingside — roll your g- and h-pawns up the board to tear open its cover.",
            36,
            rec,
            String::from_str("Advances a kingside pawn — the storm that cracks their king open."),
            one_arrow(rec.from, rec.to, ArrowKind::Attack),
            one_ring(opp_king),
            three_steps(
                "Advance your g/h pawns",
                false,
                "Pry open the king's cover",
                false,
                "Break through with your pieces",
                false,
            ),
        ),
    )
}

// ---- The long diagonal ----

pub open spec fn fianchetto_spec(p: Position, ranked: Seq<(Move, i32)>) -> Option<PlanSpec> {
    let side = p.side;
    let opp_king = king_of(p, side.spec_opp());
    match spec_fianchetto(p, side) {
        None => None,
        Some(bsq) => {
            let rec = best_plan(p, ranked, ThemeSpec::From(bsq));
            Some(
                PlanSpec {
                    id: "fianchetto"@,
                    name: "The long diagonal"@,
                    idea: "Your fianchettoed bishop rakes the long diagonal — keep it open and aim it at their king."@,
                    fit: 29,
                    arrows: seq![PlanArrow { from: bsq, to: opp_king as u8, kind: ArrowKind::Attack }],
                    rings: seq![opp_king as u8],
                    steps: steps_of(
                        "Keep the long diagonal open"@,
                        false,
                        "Aim the bishop at their king"@,
                        false,
                        "Add pieces to the attack"@,
                        false,
                    ),
                    mv: rec,
                    note: "Works the long diagonal — your bishop is a long-range sniper on their position."@,
                },
            )
        },
    }
}

fn build_fianchetto(b: &Board, ranked: &Vec<(Move, i32)>) -> (r: Option<Strategy>)
    requires
        strat_ready(b@, ranked@),
    ensures
        built(r, fianchetto_spec(b@, ranked@), b@),
{
    let side = b.side;
    let bsq = match fianchetto_bishop(b, side) {
        Some(s) => s,
        None => {
            return None;
        },
    };
    let opp_king = king_sq(b, side.opp());
    let rec = plan_for(b, ranked, &Theme::From(bsq));
    Some(
        mk(
            b,
            "fianchetto",
            String::from_str("The long diagonal"),
            "Your fianchettoed bishop rakes the long diagonal — keep it open and aim it at their king.",
            29,
            rec,
            String::from_str("Works the long diagonal — your bishop is a long-range sniper on their position."),
            one_arrow(bsq, opp_king, ArrowKind::Attack),
            one_ring(opp_king),
            three_steps(
                "Keep the long diagonal open",
                false,
                "Aim the bishop at their king",
                false,
                "Add pieces to the attack",
                false,
            ),
        ),
    )
}


// ---- Plant a knight outpost ----

pub open spec fn outpost_spec(p: Position, ranked: Seq<(Move, i32)>, ph: Phase) -> Option<PlanSpec> {
    let side = p.side;
    let rec = best_plan(p, ranked, ThemeSpec::Outpost(side));
    if ph != Phase::Opening && theme_holds(p, ThemeSpec::Outpost(side), rec) {
        Some(
            PlanSpec {
                id: "outpost"@,
                name: "Plant a knight outpost"@,
                idea: "A knight on a protected square no pawn can chase is a monster — park it deep in their position."@,
                fit: 42,
                arrows: seq![PlanArrow { from: rec.from, to: rec.to, kind: ArrowKind::Support }],
                rings: seq![rec.to],
                steps: steps_of(
                    "Post the knight on the strong square"@,
                    false,
                    "Support it with a pawn"@,
                    spec_pawn_defends(p, rec.to as int, side),
                    "Use it to pressure weaknesses"@,
                    false,
                ),
                mv: rec,
                note: "Lands your knight on "@ + square_name(rec.to)
                    + " — a protected outpost that cramps their game."@,
            },
        )
    } else {
        None
    }
}

fn build_outpost(b: &Board, ranked: &Vec<(Move, i32)>, ph: Phase) -> (r: Option<Strategy>)
    requires
        strat_ready(b@, ranked@),
    ensures
        built(r, outpost_spec(b@, ranked@, ph), b@),
{
    if ph == Phase::Opening {
        return None;
    }
    let side = b.side;
    let theme = Theme::Outpost(side);
    let rec = plan_for(b, ranked, &theme);
    if !fits(b, &theme, &rec) {
        return None;
    }
    let mut note = String::from_str("Lands your knight on ");
    note.append(&sq_to_algebraic(rec.to));
    note.append(" — a protected outpost that cramps their game.");
    Some(
        mk(
            b,
            "outpost",
            String::from_str("Plant a knight outpost"),
            "A knight on a protected square no pawn can chase is a monster — park it deep in their position.",
            42,
            rec,
            note,
            one_arrow(rec.from, rec.to, ArrowKind::Support),
            one_ring(rec.to),
            three_steps(
                "Post the knight on the strong square",
                false,
                "Support it with a pawn",
                pawn_defends(b, rec.to, side),
                "Use it to pressure weaknesses",
                false,
            ),
        ),
    )
}

// ---- Rook to the 7th ----

/// The rank a rook of `side` invades: the 7th (the 2nd for Black).
pub open spec fn seventh_rank(side: Color) -> i32 {
    if side == Color::White {
        6
    } else {
        1
    }
}

pub open spec fn rook_seventh_spec(p: Position, ranked: Seq<(Move, i32)>, ph: Phase) -> Option<PlanSpec> {
    let side = p.side;
    let theme = ThemeSpec::RookToRank(seventh_rank(side));
    let rec = best_plan(p, ranked, theme);
    if ph != Phase::Opening && spec_has_rook(p, side) && theme_holds(p, theme, rec) {
        Some(
            PlanSpec {
                id: "rook_seventh"@,
                name: "Rook to the 7th"@,
                idea: "A rook on the 7th rank feasts on pawns and pins their king back — get one there."@,
                fit: 39,
                arrows: seq![PlanArrow { from: rec.from, to: rec.to, kind: ArrowKind::Attack }],
                rings: seq![rec.to],
                steps: steps_of(
                    "Get a rook to the 7th rank"@,
                    false,
                    "Gobble the pawns there"@,
                    false,
                    "Double rooks on the 7th if you can"@,
                    false,
                ),
                mv: rec,
                note: "Swings a rook to the 7th rank — it attacks pawns and traps their king."@,
            },
        )
    } else {
        None
    }
}

fn build_rook_seventh(b: &Board, ranked: &Vec<(Move, i32)>, ph: Phase) -> (r: Option<Strategy>)
    requires
        strat_ready(b@, ranked@),
    ensures
        built(r, rook_seventh_spec(b@, ranked@, ph), b@),
{
    let side = b.side;
    if ph == Phase::Opening || !has_rook(b, side) {
        return None;
    }
    let seventh: i32 = if side == Color::White {
        6
    } else {
        1
    };
    let theme = Theme::RookToRank(seventh);
    let rec = plan_for(b, ranked, &theme);
    if !fits(b, &theme, &rec) {
        return None;
    }
    Some(
        mk(
            b,
            "rook_seventh",
            String::from_str("Rook to the 7th"),
            "A rook on the 7th rank feasts on pawns and pins their king back — get one there.",
            39,
            rec,
            String::from_str("Swings a rook to the 7th rank — it attacks pawns and traps their king."),
            one_arrow(rec.from, rec.to, ArrowKind::Attack),
            one_ring(rec.to),
            three_steps(
                "Get a rook to the 7th rank",
                false,
                "Gobble the pawns there",
                false,
                "Double rooks on the 7th if you can",
                false,
            ),
        ),
    )
}

// ---- Improve your worst piece ----

/// Some ranked move starts from `sq`.
pub open spec fn moves_from(ranked: Seq<(Move, i32)>, sq: u8) -> bool {
    exists|i: int| 0 <= i < ranked.len() && (#[trigger] ranked[i]).0.from == sq
}

/// A piece still on its home square that has somewhere to go.
pub open spec fn stuck_at(p: Position, ranked: Seq<(Move, i32)>, side: Color, e: (u8, PieceKind)) -> bool {
    p.squares[e.0 as int] == Some(Piece { color: side, kind: e.1 }) && moves_from(ranked, e.0)
}

/// The first stuck home piece of `side`, from index `i` of its home list on.
pub open spec fn first_stuck(p: Position, ranked: Seq<(Move, i32)>, side: Color, i: int) -> Option<(u8, PieceKind)>
    decreases 7 - i,
{
    if i < 0 || i >= 7 {
        None
    } else if stuck_at(p, ranked, side, home_piece_list(side)[i]) {
        Some(home_piece_list(side)[i])
    } else {
        first_stuck(p, ranked, side, i + 1)
    }
}

proof fn lemma_first_stuck_home(p: Position, ranked: Seq<(Move, i32)>, side: Color, i: int)
    requires
        0 <= i,
    ensures
        first_stuck(p, ranked, side, i) matches Some(e) ==> e.0 < 64,
    decreases 7 - i,
{
    if i < 7 && !stuck_at(p, ranked, side, home_piece_list(side)[i]) {
        lemma_first_stuck_home(p, ranked, side, i + 1);
    }
}

pub open spec fn improve_spec(p: Position, ranked: Seq<(Move, i32)>, ph: Phase) -> Option<PlanSpec> {
    let side = p.side;
    match first_stuck(p, ranked, side, 0) {
        None => None,
        Some(e) => {
            let rec = best_plan(p, ranked, ThemeSpec::From(e.0));
            if ph != Phase::Opening && rec.from == e.0 {
                Some(
                    PlanSpec {
                        id: "improve"@,
                        name: "Improve your worst piece"@,
                        idea: "The classic principle: find your least-active piece and give it a better square. Every piece should work."@,
                        fit: 27,
                        arrows: seq![PlanArrow { from: rec.from, to: rec.to, kind: ArrowKind::Dev }],
                        rings: seq![rec.to],
                        steps: steps_of(
                            "Spot your least-active piece"@,
                            false,
                            "Find it a better square"@,
                            false,
                            "Get every piece working"@,
                            false,
                        ),
                        mv: rec,
                        note: "Activates your "@ + kind_text(e.1)
                            + " — it was sitting idle; bring it into the game."@,
                    },
                )
            } else {
                None
            }
        },
    }
}

fn some_move_from(ranked: &Vec<(Move, i32)>, sq: Square) -> (r: bool)
    ensures
        r == moves_from(ranked@, sq),
{
    let mut i: usize = 0;
    while i < ranked.len()
        invariant
            i <= ranked@.len(),
            forall|j: int| 0 <= j < i ==> (#[trigger] ranked@[j]).0.from != sq,
        decreases ranked@.len() - i,
    {
        if ranked[i].0.from == sq {
            return true;
        }
        i = i + 1;
    }
    false
}

fn build_improve(b: &Board, ranked: &Vec<(Move, i32)>, ph: Phase) -> (r: Option<Strategy>)
    requires
        strat_ready(b@, ranked@),
    ensures
        built(r, improve_spec(b@, ranked@, ph), b@),
{
    if ph == Phase::Opening {
        return None;
    }
    let side = b.side;
    let home = home_pieces(side);
    let mut found: Option<(Square, PieceKind)> = None;
    let mut i: usize = 0;
    while i < 7
        invariant
            i <= 7,
            home@ == home_piece_list(side),
            side == b@.side,
            found is None ==> first_stuck(b@, ranked@, side, 0) == first_stuck(b@, ranked@, side, i as int),
            found matches Some(e) ==> first_stuck(b@, ranked@, side, 0) == Some(e),
        decreases 7 - i,
    {
        if found.is_none() {
            let (sq, k) = home[i];
            let here = match b.squares[sq as usize] {
                Some(p) => p.color == side && p.kind == k,
                None => false,
            };
            if here && some_move_from(ranked, sq) {
                found = Some((sq, k));
            }
        }
        i = i + 1;
    }
    let (sq, k) = match found {
        Some(e) => e,
        None => {
            return None;
        },
    };
    proof {
        lemma_first_stuck_home(b@, ranked@, side, 0);
    }
    let rec = plan_for(b, ranked, &Theme::From(sq));
    if rec.from != sq {
        return None;
    }
    let mut note = String::from_str("Activates your ");
    note.append(piece_word(k));
    note.append(" — it was sitting idle; bring it into the game.");
    Some(
        mk(
            b,
            "improve",
            String::from_str("Improve your worst piece"),
            "The classic principle: find your least-active piece and give it a better square. Every piece should work.",
            27,
            rec,
            note,
            one_arrow(rec.from, rec.to, ArrowKind::Dev),
            one_ring(rec.to),
            three_steps(
                "Spot your least-active piece",
                false,
                "Find it a better square",
                false,
                "Get every piece working",
                false,
            ),
        ),
    )
}


// ---------------------------------------------------------------------------
// Reading the opponent
// ---------------------------------------------------------------------------

proof fn lemma_hanging_members(p: Position, side: Color, n: int)
    requires
        0 <= n <= 64,
    ensures
        forall|i: int|
            0 <= i < hanging_squares(p, side, n).len() ==> (#[trigger] hanging_squares(p, side, n)[i]) < n,
    decreases n,
{
    if n > 0 {
        lemma_hanging_members(p, side, n - 1);
        let prev = hanging_squares(p, side, n - 1);
        let cur = hanging_squares(p, side, n);
        assert forall|i: int| 0 <= i < cur.len() implies #[trigger] cur[i] < n by {
            if i < prev.len() {
                assert(cur[i] == prev[i]);
            } else {
                assert(cur[i] == (n - 1) as u8);
            }
        }
    }
}

/// The `i`-th square (of nine) around the king on file `kf`, rank `kr` is
/// on the board and attacked by `by`.
pub open spec fn zone_hit(p: Position, by: Color, kf: int, kr: int, i: int) -> bool {
    let f = kf + i / 3 - 1;
    let r = kr + i % 3 - 1;
    0 <= f < 8 && 0 <= r < 8 && attacked(p, r * 8 + f, by)
}

/// How many of the first `n` squares around the king `by` attacks.
pub open spec fn zone_hits(p: Position, by: Color, kf: int, kr: int, n: int) -> int
    decreases n,
{
    if n <= 0 {
        0
    } else {
        zone_hits(p, by, kf, kr, n - 1) + one_if(zone_hit(p, by, kf, kr, n - 1))
    }
}

/// An enemy pawn within two files of our king on `kf`, already on our half
/// of the board (rank 5 or lower from our side).
pub open spec fn stormer_at(p: Position, side: Color, kf: int, s: int) -> bool {
    &&& p.squares[s] == Some(Piece { color: side.spec_opp(), kind: PieceKind::Pawn })
    &&& -2 <= s % 8 - kf <= 2
    &&& if side == Color::White {
        s / 8 <= 4
    } else {
        s / 8 >= 3
    }
}

pub open spec fn stormer_count(p: Position, side: Color, kf: int, n: int) -> int
    decreases n,
{
    if n <= 0 {
        0
    } else {
        stormer_count(p, side, kf, n - 1) + one_if(stormer_at(p, side, kf, n - 1))
    }
}

/// A `color` rook stands on file `f`.
pub open spec fn rook_on_file(p: Position, color: Color, f: int) -> bool {
    exists|s: int| 0 <= s < 64 && s % 8 == f && #[trigger] p.squares[s] == Some(Piece { color, kind: PieceKind::Rook })
}

/// The first open file from `f` on with a `color` rook on it.
pub open spec fn invasion_file(p: Position, color: Color, f: int) -> Option<int>
    decreases 8 - f,
{
    if f < 0 || f >= 8 {
        None
    } else if is_open_file(p, f) && rook_on_file(p, color, f) {
        Some(f)
    } else {
        invasion_file(p, color, f + 1)
    }
}

proof fn lemma_invasion_file_range(p: Position, color: Color, f: int)
    requires
        0 <= f,
    ensures
        invasion_file(p, color, f) matches Some(x) ==> 0 <= x < 8,
    decreases 8 - f,
{
    if f < 8 && !(is_open_file(p, f) && rook_on_file(p, color, f)) {
        lemma_invasion_file_range(p, color, f + 1);
    }
}

/// What the opponent of `side` seems to be up to, most urgent first: a
/// hanging piece of ours, an attack building on our king, a rook on an open
/// file, or their own uncastled king.
pub open spec fn opponent_text(p: Position, side: Color) -> Option<Seq<char>> {
    let opp = side.spec_opp();
    match heaviest(p, hanging_squares(p, side, 64)) {
        Some(s) => Some(
            "Your opponent is threatening your "@ + piece_name_at(p, s as int) + " on "@ + square_name(s)
                + " — defend it or move it."@,
        ),
        None => {
            let myk = king_of(p, side);
            if spec_phase(p) != Phase::Opening && (zone_hits(p, opp, myk % 8, myk / 8, 9) >= 3
                || stormer_count(p, side, myk % 8, 64) >= 2) {
                Some(
                    "Your opponent is building an attack on your king — bring pieces back to defend and watch for a pawn break."@,
                )
            } else {
                match invasion_file(p, opp, 0) {
                    Some(f) => Some(
                        "Your opponent has a rook on the open "@ + seq![file_letter(f)]
                            + "-file — contest it before they invade."@,
                    ),
                    None => if king_of(p, opp) == king_home_square(opp) && spec_phase(p)
                        == Phase::Middlegame {
                        Some("Your opponent hasn't castled — their king is exposed in the centre."@)
                    } else {
                        None
                    },
                }
            }
        },
    }
}

fn count_zone_hits(b: &Board, by: Color, kf: i32, kr: i32) -> (n: i32)
    requires
        0 <= kf < 8,
        0 <= kr < 8,
    ensures
        n == zone_hits(b@, by, kf as int, kr as int, 9),
{
    let mut n: i32 = 0;
    let mut i: i32 = 0;
    while i < 9
        invariant
            0 <= i <= 9,
            0 <= kf < 8,
            0 <= kr < 8,
            n == zone_hits(b@, by, kf as int, kr as int, i as int),
            0 <= n <= i,
        decreases 9 - i,
    {
        let f = kf + i / 3 - 1;
        let r = kr + i % 3 - 1;
        if 0 <= f && f < 8 && 0 <= r && r < 8 && is_attacked(b, (r * 8 + f) as u8, by) {
            n = n + 1;
        }
        i = i + 1;
    }
    n
}

fn count_stormers(b: &Board, side: Color, kf: i32) -> (n: i32)
    requires
        0 <= kf < 8,
    ensures
        n == stormer_count(b@, side, kf as int, 64),
{
    let opp = side.opp();
    let mut n: i32 = 0;
    let mut s: u8 = 0;
    while s < 64
        invariant
            s <= 64,
            0 <= kf < 8,
            opp == side.spec_opp(),
            n == stormer_count(b@, side, kf as int, s as int),
            0 <= n <= s,
        decreases 64 - s,
    {
        let pawn = match b.squares[s as usize] {
            Some(p) => p.color == opp && p.kind == PieceKind::Pawn,
            None => false,
        };
        let d = file_of(s) - kf;
        let near = if side == Color::White {
            rank_of(s) <= 4
        } else {
            rank_of(s) >= 3
        };
        if pawn && -2 <= d && d <= 2 && near {
            n = n + 1;
        }
        s = s + 1;
    }
    n
}

fn rook_on(b: &Board, color: Color, f: i32) -> (r: bool)
    requires
        0 <= f < 8,
    ensures
        r == rook_on_file(b@, color, f as int),
{
    let mut s: u8 = 0;
    while s < 64
        invariant
            s <= 64,
            0 <= f < 8,
            forall|t: int|
                0 <= t < s && t % 8 == f ==> #[trigger] b@.squares[t] != Some(Piece { color, kind: PieceKind::Rook }),
        decreases 64 - s,
    {
        if let Some(p) = b.squares[s as usize] {
            if p.color == color && p.kind == PieceKind::Rook && file_of(s) == f {
                return true;
            }
        }
        s = s + 1;
    }
    false
}

/// A plain read of what the opponent is up to — their most salient plan or
/// threat.
pub fn opponent_read(b: &Board, side: Color) -> (r: Option<String>)
    requires
        has_king(b@, side),
        has_king(b@, side.spec_opp()),
    ensures
        r matches Some(s) ==> opponent_text(b@, side) == Some(s@),
        r is None ==> opponent_text(b@, side) is None,
{
    let opp = side.opp();
    let hanging = own_hanging(b, side);
    proof {
        lemma_hanging_members(b@, side, 64);
    }
    match heaviest_square(b, &hanging) {
        Some(s) => {
            proof {
                lemma_heaviest_in(b@, hanging@);
                let i = choose|i: int| 0 <= i < hanging@.len() && hanging@[i] == s;
                assert(hanging@[i] < 64);
            }
            let mut t = String::from_str("Your opponent is threatening your ");
            t.append(name_at(b, s));
            t.append(" on ");
            t.append(&sq_to_algebraic(s));
            t.append(" — defend it or move it.");
            return Some(t);
        },
        None => {},
    }
    let ph = phase_of(b);
    if ph != Phase::Opening {
        let myk = king_sq(b, side);
        let kf = file_of(myk);
        let kr = rank_of(myk);
        let hits = count_zone_hits(b, opp, kf, kr);
        let stormers = count_stormers(b, side, kf);
        if hits >= 3 || stormers >= 2 {
            return Some(
                String::from_str(
                    "Your opponent is building an attack on your king — bring pieces back to defend and watch for a pawn break.",
                ),
            );
        }
    }
    let mut f: i32 = 0;
    while f < 8
        invariant
            0 <= f <= 8,
            opp == side.spec_opp(),
            invasion_file(b@, opp, 0) == invasion_file(b@, opp, f as int),
            heaviest(b@, hanging_squares(b@, side, 64)) is None,
            !(spec_phase(b@) != Phase::Opening && (zone_hits(
                b@,
                opp,
                king_of(b@, side) % 8,
                king_of(b@, side) / 8,
                9,
            ) >= 3 || stormer_count(b@, side, king_of(b@, side) % 8, 64) >= 2)),
        decreases 8 - f,
    {
        if open_file(b, f) && rook_on(b, opp, f) {
            let mut t = String::from_str("Your opponent has a rook on the open ");
            let letter = ((97 + f) as u8) as char;
            crate::text::push_char(&mut t, letter);
            t.append("-file — contest it before they invade.");
            proof {
                assert(letter == file_letter(f as int));
                assert(t@ =~= "Your opponent has a rook on the open "@ + seq![file_letter(f as int)]
                    + "-file — contest it before they invade."@);
            }
            return Some(t);
        }
        f = f + 1;
    }
    if king_sq(b, opp) == king_home(opp) && ph == Phase::Middlegame {
        return Some(String::from_str("Your opponent hasn't castled — their king is exposed in the centre."));
    }
    None
}


// ---------------------------------------------------------------------------
// Choosing the plans
// ---------------------------------------------------------------------------

/// The plans that apply, in the order they are tried.
pub open spec fn present(v: Seq<Option<PlanSpec>>) -> Seq<PlanSpec>
    decreases v.len(),
{
    if v.len() == 0 {
        seq![]
    } else {
        present(v.drop_last()) + match v.last() {
            Some(x) => seq![x],
            None => seq![],
        }
    }
}

/// Every plan strategize tries, safety first.
pub open spec fn candidate_specs(p: Position, ranked: Seq<(Move, i32)>) -> Seq<Option<PlanSpec>> {
    let ph = spec_phase(p);
    seq![
        save_piece_spec(p, ranked),
        win_material_spec(p, ranked),
        develop_spec(p, ranked, ph),
        center_spec(p, ranked, ph),
        pawn_break_spec(p, ranked, ph),
        attack_king_spec(p, ranked, ph),
        simplify_spec(p, ranked, ph),
        passer_spec(p, ranked, ph),
        iso_attack_spec(p, ranked),
        open_file_spec(p, ranked),
        pawn_storm_spec(p, ranked, ph),
        fianchetto_spec(p, ranked),
        outpost_spec(p, ranked, ph),
        rook_seventh_spec(p, ranked, ph),
        improve_spec(p, ranked, ph),
    ]
}

/// The plans tried first: safety, tactics, the opening and the centre.
pub open spec fn first_specs(p: Position, ranked: Seq<(Move, i32)>, ph: Phase) -> Seq<Option<PlanSpec>> {
    seq![
        save_piece_spec(p, ranked),
        win_material_spec(p, ranked),
        develop_spec(p, ranked, ph),
        center_spec(p, ranked, ph),
        pawn_break_spec(p, ranked, ph),
        attack_king_spec(p, ranked, ph),
        simplify_spec(p, ranked, ph),
        passer_spec(p, ranked, ph),
    ]
}

/// The structural plans, tried after the others.
pub open spec fn later_specs(p: Position, ranked: Seq<(Move, i32)>, ph: Phase) -> Seq<Option<PlanSpec>> {
    seq![
        iso_attack_spec(p, ranked),
        open_file_spec(p, ranked),
        pawn_storm_spec(p, ranked, ph),
        fianchetto_spec(p, ranked),
        outpost_spec(p, ranked, ph),
        rook_seventh_spec(p, ranked, ph),
        improve_spec(p, ranked, ph),
    ]
}

pub open spec fn candidate_plans(p: Position, ranked: Seq<(Move, i32)>) -> Seq<PlanSpec> {
    present(candidate_specs(p, ranked))
}

pub open spec fn plan_fits(ps: Seq<PlanSpec>) -> Seq<int> {
    Seq::new(ps.len(), |i: int| ps[i].fit)
}

/// Among the indices below `j` not in `used`, the one with the highest fit
/// (the lowest index among equals).
pub open spec fn best_unused(fs: Seq<int>, used: Seq<usize>, j: int) -> Option<usize>
    decreases j,
{
    if j <= 0 {
        None
    } else {
        let b = best_unused(fs, used, j - 1);
        let c = (j - 1) as usize;
        if used.contains(c) {
            b
        } else {
            match b {
                None => Some(c),
                Some(x) => if fs[j - 1] > fs[x as int] {
                    Some(c)
                } else {
                    b
                },
            }
        }
    }
}

/// The indices of the `k` best fits, best first; equal fits keep their order.
pub open spec fn top_order(fs: Seq<int>, k: nat) -> Seq<usize>
    decreases k,
{
    if k == 0 {
        seq![]
    } else {
        let prev = top_order(fs, (k - 1) as nat);
        match best_unused(fs, prev, fs.len() as int) {
            None => prev,
            Some(b) => prev.push(b),
        }
    }
}

/// The plans strategize returns: the five that fit best, best first.
pub open spec fn chosen_plans(p: Position, ranked: Seq<(Move, i32)>) -> Seq<PlanSpec> {
    let ps = candidate_plans(p, ranked);
    let order = top_order(plan_fits(ps), 5);
    Seq::new(order.len(), |k: int| ps[order[k] as int])
}

proof fn lemma_best_unused(fs: Seq<int>, used: Seq<usize>, j: int)
    requires
        0 <= j <= fs.len(),
        j <= usize::MAX,
    ensures
        best_unused(fs, used, j) matches Some(b) ==> b < j && !used.contains(b) && forall|x: int|
            0 <= x < j && !used.contains(x as usize) ==> #[trigger] fs[x] <= fs[b as int],
        best_unused(fs, used, j) is None ==> forall|x: int| 0 <= x < j ==> #[trigger] used.contains(x as usize),
    decreases j,
{
    if j > 0 {
        lemma_best_unused(fs, used, j - 1);
        let c = (j - 1) as usize;
        assert(c as int == j - 1);
        if best_unused(fs, used, j) is Some {
            let r = best_unused(fs, used, j)->0;
            assert forall|x: int| 0 <= x < j && !used.contains(x as usize) implies #[trigger] fs[x] <= fs[r as int] by {
                if x == j - 1 {
                    assert(x as usize == c);
                }
            }
        }
    }
}

proof fn lemma_present_len(v: Seq<Option<PlanSpec>>)
    ensures
        present(v).len() <= v.len(),
    decreases v.len(),
{
    if v.len() > 0 {
        lemma_present_len(v.drop_last());
    }
}

proof fn lemma_top_order(fs: Seq<int>, k: nat)
    requires
        fs.len() <= usize::MAX,
    ensures
        top_order(fs, k).len() <= k,
        top_order(fs, k).no_duplicates(),
        forall|i: int| 0 <= i < top_order(fs, k).len() ==> (#[trigger] top_order(fs, k)[i]) < fs.len(),
        forall|i: int, x: int|
            #![trigger top_order(fs, k)[i], fs[x]]
            0 <= i < top_order(fs, k).len() && 0 <= x < fs.len() && !top_order(fs, k).subrange(0, i).contains(
                x as usize,
            ) ==> fs[x] <= fs[top_order(fs, k)[i] as int],
    decreases k,
{
    if k > 0 {
        let prev = top_order(fs, (k - 1) as nat);
        lemma_top_order(fs, (k - 1) as nat);
        lemma_best_unused(fs, prev, fs.len() as int);
        let cur = top_order(fs, k);
        if best_unused(fs, prev, fs.len() as int) is Some {
            let b = best_unused(fs, prev, fs.len() as int)->0;
            assert(cur == prev.push(b));
            assert forall|i: int, x: int|
                #![trigger cur[i], fs[x]]
                0 <= i < cur.len() && 0 <= x < fs.len() && !cur.subrange(0, i).contains(x as usize) implies fs[x]
                <= fs[cur[i] as int] by {
                if i < prev.len() {
                    assert(cur.subrange(0, i) =~= prev.subrange(0, i));
                    assert(cur[i] == prev[i]);
                } else {
                    assert(cur.subrange(0, i) =~= prev);
                }
            }
            assert forall|a: int, c: int| 0 <= a < cur.len() && 0 <= c < cur.len() && a != c implies cur[a]
                != cur[c] by {
                if a < prev.len() && c < prev.len() {
                } else if a < prev.len() {
                    assert(prev.contains(cur[a]));
                } else {
                    assert(prev.contains(cur[c]));
                }
            }
        }
    }
}

/// The plans come best first: their fits never rise, and there are at most
/// five of them.
pub proof fn law_plans_best_first(p: Position, ranked: Seq<(Move, i32)>)
    ensures
        chosen_plans(p, ranked).len() <= 5,
        forall|i: int, j: int|
            0 <= i < j < chosen_plans(p, ranked).len() ==> (#[trigger] chosen_plans(p, ranked)[i]).fit
                >= (#[trigger] chosen_plans(p, ranked)[j]).fit,
{
    let ps = candidate_plans(p, ranked);
    let fs = plan_fits(ps);
    let order = top_order(fs, 5);
    lemma_present_len(candidate_specs(p, ranked));
    lemma_top_order(fs, 5);
    assert forall|i: int, j: int|
        0 <= i < j < chosen_plans(p, ranked).len() implies (#[trigger] chosen_plans(p, ranked)[i]).fit
        >= (#[trigger] chosen_plans(p, ranked)[j]).fit by {
        let x = order[j] as int;
        if order.subrange(0, i).contains(x as usize) {
            let t = choose|t: int| 0 <= t < order.subrange(0, i).len() && order.subrange(0, i)[t] == x as usize;
            assert(order[t] == order[j]);
        }
        assert(fs[x] <= fs[order[i] as int]);
    }
}

/// `m` is the engine's best move, or a ranked move within the slack of it.
pub open spec fn near_best(ranked: Seq<(Move, i32)>, m: Move) -> bool {
    m == ranked[0].0 || exists|k: int|
        0 <= k < ranked.len() && (#[trigger] ranked[k]).0 == m && ranked[k].1 + PLAN_SLACK >= ranked[0].1
}

proof fn lemma_present_from(v: Seq<Option<PlanSpec>>, i: int)
    requires
        0 <= i < present(v).len(),
    ensures
        exists|j: int| 0 <= j < v.len() && #[trigger] v[j] == Some(present(v)[i]),
    decreases v.len(),
{
    let w = v.drop_last();
    if i < present(w).len() {
        lemma_present_from(w, i);
        let j = choose|j: int| 0 <= j < w.len() && #[trigger] w[j] == Some(present(w)[i]);
        assert(v[j] == w[j]);
    } else {
        assert(v[v.len() - 1] == Some(present(v)[i]));
    }
}

/// No plan costs material: every plan strategize offers plays the engine's
/// best move or a move scored within the slack of it.
pub proof fn law_plans_within_slack(p: Position, ranked: Seq<(Move, i32)>)
    requires
        ranked.len() > 0,
    ensures
        forall|k: int|
            0 <= k < chosen_plans(p, ranked).len() ==> near_best(ranked, (#[trigger] chosen_plans(p, ranked)[k]).mv),
{
    let top = ranked[0].1 as int;
    assert forall|t: ThemeSpec| near_best(ranked, #[trigger] best_plan(p, ranked, t)) by {
        law_plan_move_within_slack(p, ranked, top, t);
    }
    assert forall|t: ThemeSpec| (#[trigger] first_plan(p, ranked, top, t, 0)) is Some implies near_best(
        ranked,
        first_plan(p, ranked, top, t, 0)->0,
    ) by {
        lemma_first_plan(p, ranked, top, t, 0);
    }
    let cs = candidate_specs(p, ranked);
    assert forall|j: int| 0 <= j < cs.len() && (#[trigger] cs[j]) is Some implies near_best(ranked, cs[j]->0.mv) by {}
    let ps = candidate_plans(p, ranked);
    let order = top_order(plan_fits(ps), 5);
    lemma_present_len(cs);
    lemma_top_order(plan_fits(ps), 5);
    assert forall|k: int| 0 <= k < chosen_plans(p, ranked).len() implies near_best(
        ranked,
        (#[trigger] chosen_plans(p, ranked)[k]).mv,
    ) by {
        let x = order[k] as int;
        assert(chosen_plans(p, ranked)[k] == ps[x]);
        lemma_present_from(cs, x);
        let j = choose|j: int| 0 <= j < cs.len() && #[trigger] cs[j] == Some(ps[x]);
    }
}

/// The slots hold, in order, the built plans `ps`.
pub open spec fn slots_built(v: Seq<Option<Strategy>>, ps: Seq<PlanSpec>, p: Position) -> bool {
    &&& v.len() == ps.len()
    &&& forall|i: int| 0 <= i < v.len() ==> (#[trigger] v[i]) is Some && strategy_is(v[i]->0, ps[i], p)
}

fn add_plan(
    slots: &mut Vec<Option<Strategy>>,
    x: Option<Strategy>,
    Ghost(p): Ghost<Position>,
    Ghost(gs): Ghost<Seq<Option<PlanSpec>>>,
    Ghost(sp): Ghost<Option<PlanSpec>>,
)
    requires
        slots_built(old(slots)@, present(gs), p),
        built(x, sp, p),
    ensures
        slots_built(final(slots)@, present(gs.push(sp)), p),
{
    proof {
        assert(gs.push(sp).drop_last() =~= gs);
    }
    match x {
        Some(s) => {
            slots.push(Some(s));
            proof {
                assert(present(gs.push(sp)) =~= present(gs).push(sp->0));
            }
        },
        None => {
            proof {
                assert(present(gs.push(sp)) =~= present(gs));
            }
        },
    }
}

fn contains_index(v: &Vec<usize>, x: usize) -> (r: bool)
    ensures
        r == v@.contains(x),
{
    let mut i: usize = 0;
    while i < v.len()
        invariant
            i <= v@.len(),
            forall|j: int| 0 <= j < i ==> v@[j] != x,
        decreases v@.len() - i,
    {
        if v[i] == x {
            return true;
        }
        i = i + 1;
    }
    false
}

fn best_unused_of(fits: &Vec<i32>, used: &Vec<usize>, Ghost(fs): Ghost<Seq<int>>) -> (r: Option<usize>)
    requires
        fits@.len() == fs.len(),
        forall|i: int| 0 <= i < fs.len() ==> fits@[i] as int == #[trigger] fs[i],
    ensures
        r == best_unused(fs, used@, fits@.len() as int),
{
    let mut best: Option<usize> = None;
    let mut j: usize = 0;
    while j < fits.len()
        invariant
            j <= fits@.len(),
            fits@.len() == fs.len(),
            forall|i: int| 0 <= i < fs.len() ==> fits@[i] as int == #[trigger] fs[i],
            best == best_unused(fs, used@, j as int),
            best matches Some(x) ==> x < j,
        decreases fits@.len() - j,
    {
        if !contains_index(used, j) {
            match best {
                None => {
                    best = Some(j);
                },
                Some(x) => {
                    if fits[j] > fits[x] {
                        best = Some(j);
                    }
                },
            }
        }
        j = j + 1;
    }
    best
}

fn top_five(fits: &Vec<i32>, Ghost(fs): Ghost<Seq<int>>) -> (order: Vec<usize>)
    requires
        fits@.len() == fs.len(),
        forall|i: int| 0 <= i < fs.len() ==> fits@[i] as int == #[trigger] fs[i],
    ensures
        order@ == top_order(fs, 5),
{
    let mut order: Vec<usize> = Vec::new();
    let mut k: usize = 0;
    while k < 5
        invariant
            k <= 5,
            fits@.len() == fs.len(),
            forall|i: int| 0 <= i < fs.len() ==> fits@[i] as int == #[trigger] fs[i],
            order@ == top_order(fs, k as nat),
        decreases 5 - k,
    {
        match best_unused_of(fits, &order, Ghost(fs)) {
            Some(b) => {
                order.push(b);
            },
            None => {},
        }
        k = k + 1;
    }
    order
}

/// Builds every plan that applies, in the order they are tried.
fn gather_first(b: &Board, ranked: &Vec<(Move, i32)>, ph: Phase) -> (slots: Vec<Option<Strategy>>)
    requires
        strat_ready(b@, ranked@),
    ensures
        slots_built(slots@, present(first_specs(b@, ranked@, ph)), b@),
{
    let ghost p = b@;
    let ghost rk = ranked@;
    let mut slots: Vec<Option<Strategy>> = Vec::new();
    let ghost mut gs: Seq<Option<PlanSpec>> = seq![];
    proof {
        assert(present(gs) =~= seq![]);
    }
    add_plan(&mut slots, build_save_piece(b, ranked), Ghost(p), Ghost(gs), Ghost(save_piece_spec(p, rk)));
    proof {
        gs = gs.push(save_piece_spec(p, rk));
    }
    add_plan(&mut slots, build_win_material(b, ranked), Ghost(p), Ghost(gs), Ghost(win_material_spec(p, rk)));
    proof {
        gs = gs.push(win_material_spec(p, rk));
    }
    add_plan(&mut slots, build_develop(b, ranked, ph), Ghost(p), Ghost(gs), Ghost(develop_spec(p, rk, ph)));
    proof {
        gs = gs.push(develop_spec(p, rk, ph));
    }
    add_plan(&mut slots, build_center(b, ranked, ph), Ghost(p), Ghost(gs), Ghost(center_spec(p, rk, ph)));
    proof {
        gs = gs.push(center_spec(p, rk, ph));
    }
    add_plan(&mut slots, build_pawn_break(b, ranked, ph), Ghost(p), Ghost(gs), Ghost(pawn_break_spec(p, rk, ph)));
    proof {
        gs = gs.push(pawn_break_spec(p, rk, ph));
    }
    add_plan(&mut slots, build_attack_king(b, ranked, ph), Ghost(p), Ghost(gs), Ghost(attack_king_spec(p, rk, ph)));
    proof {
        gs = gs.push(attack_king_spec(p, rk, ph));
    }
    add_plan(&mut slots, build_simplify(b, ranked, ph), Ghost(p), Ghost(gs), Ghost(simplify_spec(p, rk, ph)));
    proof {
        gs = gs.push(simplify_spec(p, rk, ph));
    }
    add_plan(&mut slots, build_passer(b, ranked, ph), Ghost(p), Ghost(gs), Ghost(passer_spec(p, rk, ph)));
    proof {
        gs = gs.push(passer_spec(p, rk, ph));
    }
    proof {
        assert(gs =~= first_specs(p, rk, ph));
    }
    slots
}

fn gather_later(b: &Board, ranked: &Vec<(Move, i32)>, ph: Phase, slots: &mut Vec<Option<Strategy>>)
    requires
        strat_ready(b@, ranked@),
        slots_built(old(slots)@, present(first_specs(b@, ranked@, ph)), b@),
    ensures
        slots_built(final(slots)@, present(first_specs(b@, ranked@, ph) + later_specs(b@, ranked@, ph)), b@),
{
    let ghost p = b@;
    let ghost rk = ranked@;
    let ghost mut gs: Seq<Option<PlanSpec>> = first_specs(p, rk, ph);
    add_plan(slots, build_iso_attack(b, ranked), Ghost(p), Ghost(gs), Ghost(iso_attack_spec(p, rk)));
    proof {
        gs = gs.push(iso_attack_spec(p, rk));
    }
    add_plan(slots, build_open_file(b, ranked), Ghost(p), Ghost(gs), Ghost(open_file_spec(p, rk)));
    proof {
        gs = gs.push(open_file_spec(p, rk));
    }
    add_plan(slots, build_pawn_storm(b, ranked, ph), Ghost(p), Ghost(gs), Ghost(pawn_storm_spec(p, rk, ph)));
    proof {
        gs = gs.push(pawn_storm_spec(p, rk, ph));
    }
    add_plan(slots, build_fianchetto(b, ranked), Ghost(p), Ghost(gs), Ghost(fianchetto_spec(p, rk)));
    proof {
        gs = gs.push(fianchetto_spec(p, rk));
    }
    add_plan(slots, build_outpost(b, ranked, ph), Ghost(p), Ghost(gs), Ghost(outpost_spec(p, rk, ph)));
    proof {
        gs = gs.push(outpost_spec(p, rk, ph));
    }
    add_plan(slots, build_rook_seventh(b, ranked, ph), Ghost(p), Ghost(gs), Ghost(rook_seventh_spec(p, rk, ph)));
    proof {
        gs = gs.push(rook_seventh_spec(p, rk, ph));
    }
    add_plan(slots, build_improve(b, ranked, ph), Ghost(p), Ghost(gs), Ghost(improve_spec(p, rk, ph)));
    proof {
        gs = gs.push(improve_spec(p, rk, ph));
        assert(gs =~= first_specs(p, rk, ph) + later_specs(p, rk, ph));
    }
}

/// Builds every plan that applies, in the order they are tried.
fn gather_plans(b: &Board, ranked: &Vec<(Move, i32)>) -> (slots: Vec<Option<Strategy>>)
    requires
        strat_ready(b@, ranked@),
    ensures
        slots_built(slots@, candidate_plans(b@, ranked@), b@),
{
    let ph = phase_of(b);
    let mut slots = gather_first(b, ranked, ph);
    gather_later(b, ranked, ph, &mut slots);
    proof {
        assert(first_specs(b@, ranked@, ph) + later_specs(b@, ranked@, ph) =~= candidate_specs(b@, ranked@));
    }
    slots
}

/// Moves the plans named by `order` out of their slots, in that order.
fn select_plans(
    slots: Vec<Option<Strategy>>,
    order: &Vec<usize>,
    Ghost(ps): Ghost<Seq<PlanSpec>>,
    Ghost(p): Ghost<Position>,
) -> (out: Vec<Strategy>)
    requires
        slots_built(slots@, ps, p),
        order@.no_duplicates(),
        forall|t: int| 0 <= t < order@.len() ==> (#[trigger] order@[t]) < ps.len(),
    ensures
        out@.len() == order@.len(),
        forall|t: int| 0 <= t < out@.len() ==> strategy_is(#[trigger] out@[t], ps[order@[t] as int], p),
{
    let mut slots = slots;
    let mut out: Vec<Strategy> = Vec::new();
    let mut k: usize = 0;
    while k < order.len()
        invariant
            k <= order@.len(),
            order@.no_duplicates(),
            forall|t: int| 0 <= t < order@.len() ==> (#[trigger] order@[t]) < ps.len(),
            slots@.len() == ps.len(),
            out@.len() == k,
            forall|t: int| 0 <= t < k ==> strategy_is(#[trigger] out@[t], ps[order@[t] as int], p),
            forall|x: int|
                0 <= x < ps.len() && !order@.subrange(0, k as int).contains(x as usize) ==> (#[trigger] slots@[x]) is Some
                    && strategy_is(slots@[x]->0, ps[x], p),
        decreases order@.len() - k,
    {
        let j = order[k];
        proof {
            if order@.subrange(0, k as int).contains(j) {
                let t = choose|t: int| 0 <= t < k && order@.subrange(0, k as int)[t] == j;
                assert(order@[t] == order@[k as int]);
            }
            assert(order@[k as int] < ps.len());
        }
        let ghost before = slots@;
        let taken = slots[j].take();
        proof {
            assert(order@.subrange(0, k + 1) =~= order@.subrange(0, k as int).push(j));
            assert forall|x: int|
                0 <= x < ps.len() && !order@.subrange(0, k + 1).contains(x as usize) implies (#[trigger] slots@[x]) is Some
                    && strategy_is(slots@[x]->0, ps[x], p) by {
                if x as usize == j {
                    assert(order@.subrange(0, k + 1)[k as int] == j);
                }
                assert(slots@[x] == before[x]);
            }
        }
        match taken {
            Some(st) => {
                out.push(st);
            },
            None => {},
        }
        k = k + 1;
    }
    out
}

/// `r` is the read of `p`: its phase, the chosen plans in order and the
/// read of the opponent.
pub open spec fn read_is(r: StrategyRead, p: Position, ranked: Seq<(Move, i32)>) -> bool {
    &&& r.phase@ == phase_text(p)
    &&& r.strategies@.len() == chosen_plans(p, ranked).len()
    &&& forall|k: int|
        0 <= k < r.strategies@.len() ==> strategy_is(#[trigger] r.strategies@[k], chosen_plans(p, ranked)[k], p)
    &&& (r.opponent matches Some(s) ==> opponent_text(p, p.side) == Some(s@))
    &&& (r.opponent is None ==> opponent_text(p, p.side) is None)
}

/// Detects strategies for the side to move, from its legal moves ranked best
/// first: the phase of the game, the five plans that fit best (best first)
/// and a read of the opponent.
pub fn strategize(b: &Board, ranked: &Vec<(Move, i32)>) -> (r: StrategyRead)
    requires
        ranked@.len() == 0 || strat_ready(b@, ranked@),
    ensures
        r.phase@ == phase_text(b@),
        ranked@.len() == 0 ==> r.strategies@.len() == 0 && r.opponent is None,
        ranked@.len() > 0 ==> read_is(r, b@, ranked@),
{
    let ph_word = phase(b);
    if ranked.len() == 0 {
        return StrategyRead { phase: ph_word, strategies: Vec::new(), opponent: None };
    }
    let ghost p = b@;
    let ghost rk = ranked@;
    let slots = gather_plans(b, ranked);
    let ghost ps = candidate_plans(p, rk);
    let ghost fs = plan_fits(ps);
    let mut fits: Vec<i32> = Vec::new();
    let mut i: usize = 0;
    while i < slots.len()
        invariant
            i <= slots@.len(),
            slots_built(slots@, ps, p),
            fs == plan_fits(ps),
            fits@.len() == i,
            forall|j: int| 0 <= j < i ==> fits@[j] as int == #[trigger] fs[j],
        decreases slots@.len() - i,
    {
        let f = match &slots[i] {
            Some(s) => s.fit,
            None => 0,
        };
        fits.push(f);
        i = i + 1;
    }
    let order = top_five(&fits, Ghost(fs));
    proof {
        lemma_top_order(fs, 5);
    }
    let out = select_plans(slots, &order, Ghost(ps), Ghost(p));
    proof {
        assert forall|t: int| 0 <= t < out@.len() implies strategy_is(
            #[trigger] out@[t],
            chosen_plans(p, rk)[t],
            p,
        ) by {
            assert(chosen_plans(p, rk)[t] == ps[order@[t] as int]);
        }
    }
    StrategyRead { phase: ph_word, strategies: out, opponent: opponent_read(b, b.side) }
}

} // verus!
