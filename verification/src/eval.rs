//! Static evaluation: material + piece-square tables, plus bishop pair, pawn
//! structure, rook files, king shield and tempo.
//!
//! Returns a score in centipawns from the **side-to-move's** perspective
//! (positive = better for the player to move).
use vstd::prelude::*;
use crate::board::{file_of, rank_of, Board, Color, Piece, PieceKind, Position, Square};
use crate::rules::{first_king, has_king, is_king_at, king_of};
use crate::movegen::lemma_first_king_unique;

verus! {

/// Material value of a piece kind, in centipawns (kings count 0).
pub open spec fn spec_material(kind: PieceKind) -> int {
    match kind {
        PieceKind::Pawn => 100,
        PieceKind::Knight => 320,
        PieceKind::Bishop => 330,
        PieceKind::Rook => 500,
        PieceKind::Queen => 900,
        PieceKind::King => 0,
    }
}

/// Material value of a piece kind, in centipawns.
pub fn material(kind: PieceKind) -> (v: i32)
    ensures
        v == spec_material(kind),
{
    match kind {
        PieceKind::Pawn => 100,
        PieceKind::Knight => 320,
        PieceKind::Bishop => 330,
        PieceKind::Rook => 500,
        PieceKind::Queen => 900,
        PieceKind::King => 0,
    }
}

// Piece-square tables, stored a8-first (rank 8 first).
pub const PST_PAWN: [i32; 64] = [
     0,  0,  0,  0,  0,  0,  0,  0,
    50, 50, 50, 50, 50, 50, 50, 50,
    10, 10, 20, 30, 30, 20, 10, 10,
     5,  5, 10, 25, 25, 10,  5,  5,
     0,  0,  0, 20, 20,  0,  0,  0,
     5, -5,-10,  0,  0,-10, -5,  5,
     5, 10, 10,-20,-20, 10, 10,  5,
     0,  0,  0,  0,  0,  0,  0,  0,
];

pub const PST_KNIGHT: [i32; 64] = [
    -50,-40,-30,-30,-30,-30,-40,-50,
    -40,-20,  0,  0,  0,  0,-20,-40,
    -30,  0, 10, 15, 15, 10,  0,-30,
    -30,  5, 15, 20, 20, 15,  5,-30,
    -30,  0, 15, 20, 20, 15,  0,-30,
    -30,  5, 10, 15, 15, 10,  5,-30,
    -40,-20,  0,  5,  5,  0,-20,-40,
    -50,-40,-30,-30,-30,-30,-40,-50,
];

pub const PST_BISHOP: [i32; 64] = [
    -20,-10,-10,-10,-10,-10,-10,-20,
    -10,  0,  0,  0,  0,  0,  0,-10,
    -10,  0,  5, 10, 10,  5,  0,-10,
    -10,  5,  5, 10, 10,  5,  5,-10,
    -10,  0, 10, 10, 10, 10,  0,-10,
    -10, 10, 10, 10, 10, 10, 10,-10,
    -10,  5,  0,  0,  0,  0,  5,-10,
    -20,-10,-10,-10,-10,-10,-10,-20,
];

pub const PST_ROOK: [i32; 64] = [
     0,  0,  0,  0,  0,  0,  0,  0,
     5, 10, 10, 10, 10, 10, 10,  5,
    -5,  0,  0,  0,  0,  0,  0, -5,
    -5,  0,  0,  0,  0,  0,  0, -5,
    -5,  0,  0,  0,  0,  0,  0, -5,
    -5,  0,  0,  0,  0,  0,  0, -5,
    -5,  0,  0,  0,  0,  0,  0, -5,
     0,  0,  0,  5,  5,  0,  0,  0,
];

pub const PST_QUEEN: [i32; 64] = [
    -20,-10,-10, -5, -5,-10,-10,-20,
    -10,  0,  0,  0,  0,  0,  0,-10,
    -10,  0,  5,  5,  5,  5,  0,-10,
     -5,  0,  5,  5,  5,  5,  0, -5,
      0,  0,  5,  5,  5,  5,  0, -5,
    -10,  5,  5,  5,  5,  5,  0,-10,
    -10,  0,  5,  0,  0,  0,  0,-10,
    -20,-10,-10, -5, -5,-10,-10,-20,
];

pub const PST_KING: [i32; 64] = [
    -30,-40,-40,-50,-50,-40,-40,-30,
    -30,-40,-40,-50,-50,-40,-40,-30,
    -30,-40,-40,-50,-50,-40,-40,-30,
    -30,-40,-40,-50,-50,-40,-40,-30,
    -20,-30,-30,-40,-40,-30,-30,-20,
    -10,-20,-20,-20,-20,-20,-20,-10,
     20, 20,  0,  0,  0,  0, 20, 20,
     20, 30, 10,  0,  0, 10, 30, 20,
];

/// The table entry for `kind` at table index `idx`.
pub open spec fn pst_entry(kind: PieceKind, idx: int) -> int {
    match kind {
        PieceKind::Pawn => PST_PAWN@[idx] as int,
        PieceKind::Knight => PST_KNIGHT@[idx] as int,
        PieceKind::Bishop => PST_BISHOP@[idx] as int,
        PieceKind::Rook => PST_ROOK@[idx] as int,
        PieceKind::Queen => PST_QUEEN@[idx] as int,
        PieceKind::King => PST_KING@[idx] as int,
    }
}

/// Piece-square bonus: a White piece reads the table with the rank flipped
/// (`s ^ 56`), a Black piece reads it as stored.
pub open spec fn spec_pst(p: Piece, s: int) -> int {
    if p.color == Color::White {
        pst_entry(p.kind, (s as u8 ^ 56u8) as int)
    } else {
        pst_entry(p.kind, s)
    }
}

/// Piece-square bonus for a piece on a square.
pub fn pst_value(p: Piece, s: Square) -> (v: i32)
    requires
        s < 64,
    ensures
        v == spec_pst(p, s as int),
        -50 <= v <= 50,
{
    let idx = if p.color == Color::White {
        assert((s ^ 56u8) < 64) by (bit_vector)
            requires
                s < 64u8,
        ;
        (s ^ 56) as usize
    } else {
        s as usize
    };
    match p.kind {
        PieceKind::Pawn => PST_PAWN[idx],
        PieceKind::Knight => PST_KNIGHT[idx],
        PieceKind::Bishop => PST_BISHOP[idx],
        PieceKind::Rook => PST_ROOK[idx],
        PieceKind::Queen => PST_QUEEN[idx],
        PieceKind::King => PST_KING[idx],
    }
}


// ---------------------------------------------------------------------------
// The evaluation, term by term
// ---------------------------------------------------------------------------

pub open spec fn own_pawn(o: Option<Piece>, c: Color) -> bool {
    o == Some(Piece { color: c, kind: PieceKind::Pawn })
}

/// Number of `c` pawns on file `f` among squares `0..n`.
pub open spec fn file_pawns(sq: Seq<Option<Piece>>, c: Color, f: int, n: int) -> int
    decreases n,
{
    if n <= 0 {
        0
    } else {
        file_pawns(sq, c, f, n - 1) + (if (n - 1) % 8 == f && own_pawn(sq[n - 1], c) {
            1int
        } else {
            0int
        })
    }
}

/// Number of pieces of colour `c` and kind `k` among squares `0..n`.
pub open spec fn kind_count(sq: Seq<Option<Piece>>, c: Color, k: PieceKind, n: int) -> int
    decreases n,
{
    if n <= 0 {
        0
    } else {
        kind_count(sq, c, k, n - 1) + (if sq[n - 1] == Some(Piece { color: c, kind: k }) {
            1int
        } else {
            0int
        })
    }
}

/// A rook on a file with no pawns gets 22, on a file with only enemy pawns 11.
pub open spec fn rook_bonus(sq: Seq<Option<Piece>>, p: Piece, s: int) -> int {
    if p.kind == PieceKind::Rook {
        let own = file_pawns(sq, p.color, s % 8, 64);
        let opp = file_pawns(sq, p.color.spec_opp(), s % 8, 64);
        if own == 0 {
            if opp == 0 {
                22
            } else {
                11
            }
        } else {
            0
        }
    } else {
        0
    }
}

/// Material, table bonus and rook-file bonus of square `s`, from White's side.
pub open spec fn square_score(sq: Seq<Option<Piece>>, s: int) -> int {
    match sq[s] {
        None => 0,
        Some(p) => {
            let v = spec_material(p.kind) + spec_pst(p, s) + rook_bonus(sq, p, s);
            if p.color == Color::White {
                v
            } else {
                -v
            }
        },
    }
}

pub open spec fn placement_score(sq: Seq<Option<Piece>>, n: int) -> int
    decreases n,
{
    if n <= 0 {
        0
    } else {
        placement_score(sq, n - 1) + square_score(sq, n - 1)
    }
}

/// Doubled pawns cost 16 per extra pawn, isolated pawns 13 each (White's side).
pub open spec fn file_structure(sq: Seq<Option<Piece>>, f: int) -> int {
    let w = file_pawns(sq, Color::White, f, 64);
    let b = file_pawns(sq, Color::Black, f, 64);
    let w_iso = w > 0 && (f == 0 || file_pawns(sq, Color::White, f - 1, 64) == 0) && (f == 7
        || file_pawns(sq, Color::White, f + 1, 64) == 0);
    let b_iso = b > 0 && (f == 0 || file_pawns(sq, Color::Black, f - 1, 64) == 0) && (f == 7
        || file_pawns(sq, Color::Black, f + 1, 64) == 0);
    (if w > 1 {
        -16 * (w - 1)
    } else {
        0
    }) + (if b > 1 {
        16 * (b - 1)
    } else {
        0
    }) + (if w_iso {
        -13 * w
    } else {
        0
    }) + (if b_iso {
        13 * b
    } else {
        0
    })
}

pub open spec fn structure_score(sq: Seq<Option<Piece>>, n: int) -> int
    decreases n,
{
    if n <= 0 {
        0
    } else {
        structure_score(sq, n - 1) + file_structure(sq, n - 1)
    }
}

/// The shield a `c` pawn gives at file offset `df`, `dr` ranks ahead of a king
/// on (kf, kr): 10 on the rank just ahead, 5 on the one after.
pub open spec fn shield_at(sq: Seq<Option<Piece>>, c: Color, kf: int, kr: int, df: int, dr: int) -> int {
    let f = kf + df;
    let r = if c == Color::White {
        kr + dr
    } else {
        kr - dr
    };
    if 0 <= f < 8 && 0 <= r < 8 && own_pawn(sq[r * 8 + f], c) {
        if dr == 1 {
            10
        } else {
            5
        }
    } else {
        0
    }
}

/// The pawn shield of a king of colour `c` on square `k`, counted only while
/// the king is still on its first two ranks.
pub open spec fn shield_from(sq: Seq<Option<Piece>>, c: Color, k: int) -> int {
    let kf = k % 8;
    let kr = k / 8;
    let home = if c == Color::White {
        kr <= 1
    } else {
        kr >= 6
    };
    if !home {
        0
    } else {
        shield_at(sq, c, kf, kr, -1, 1) + shield_at(sq, c, kf, kr, -1, 2) + shield_at(
            sq,
            c,
            kf,
            kr,
            0,
            1,
        ) + shield_at(sq, c, kf, kr, 0, 2) + shield_at(sq, c, kf, kr, 1, 1) + shield_at(
            sq,
            c,
            kf,
            kr,
            1,
            2,
        )
    }
}

/// The pawn shield of `c`'s (first) king; 0 without a king.
pub open spec fn spec_king_shield(p: Position, c: Color) -> int {
    if has_king(p, c) {
        shield_from(p.squares, c, king_of(p, c))
    } else {
        0
    }
}

/// The score from White's point of view, before the tempo bonus.
pub open spec fn white_score(p: Position) -> int {
    placement_score(p.squares, 64) + (if kind_count(p.squares, Color::White, PieceKind::Bishop, 64)
        >= 2 {
        30int
    } else {
        0int
    }) - (if kind_count(p.squares, Color::Black, PieceKind::Bishop, 64) >= 2 {
        30int
    } else {
        0int
    }) + structure_score(p.squares, 8) + spec_king_shield(p, Color::White) - spec_king_shield(
        p,
        Color::Black,
    )
}

/// Full static evaluation, side-to-move relative: the side to move gets a
/// tempo bonus of 12.
pub open spec fn spec_eval(p: Position) -> int {
    if p.side == Color::White {
        white_score(p) + 12
    } else {
        -(white_score(p) - 12)
    }
}

/// The shield value at one offset from the king on (kf, kr).
fn shield_cell(b: &Board, color: Color, kf: i32, kr: i32, df: i32, dr: i32) -> (v: i32)
    requires
        0 <= kf < 8,
        0 <= kr < 8,
        -1 <= df <= 1,
        1 <= dr <= 2,
    ensures
        v == shield_at(b@.squares, color, kf as int, kr as int, df as int, dr as int),
{
    let f = kf + df;
    if !(0 <= f && f < 8) {
        return 0;
    }
    let r = if color == Color::White {
        kr + dr
    } else {
        kr - dr
    };
    if !(0 <= r && r < 8) {
        return 0;
    }
    match b.squares[(r * 8 + f) as usize] {
        Some(p) => if p.color == color && p.kind == PieceKind::Pawn {
            if dr == 1 {
                10
            } else {
                5
            }
        } else {
            0
        },
        None => 0,
    }
}

/// Pawn shield in front of the king: friendly pawns on the king's file and
/// its neighbours, on the two ranks just ahead. Cheap king-safety proxy.
fn king_shield(b: &Board, color: Color) -> (v: i32)
    ensures
        v == spec_king_shield(b@, color),
        0 <= v <= 45,
{
    let mut ks: u8 = 64;
    let mut s: u8 = 0;
    while s < 64
        invariant
            s <= 64,
            ks == 64 || (ks < 64 && first_king(b@, color, ks as int)),
            ks == 64 ==> forall|j: int| 0 <= j < s ==> !#[trigger] is_king_at(b@, j, color),
        decreases 64 - s,
    {
        if ks == 64 {
            match b.squares[s as usize] {
                Some(p) => {
                    if p.color == color && p.kind == PieceKind::King {
                        ks = s;
                    }
                },
                None => {},
            }
        }
        s = s + 1;
    }
    if ks == 64 {
        proof {
            if has_king(b@, color) {
                let k = choose|i: int| 0 <= i < 64 && #[trigger] is_king_at(b@, i, color);
                assert(!is_king_at(b@, k, color));
            }
        }
        return 0;
    }
    proof {
        lemma_first_king_unique(b@, color, ks as int, king_of(b@, color));
    }
    let kf = file_of(ks);
    let kr = rank_of(ks);
    let home = if color == Color::White {
        kr <= 1
    } else {
        kr >= 6
    };
    if !home {
        return 0;
    }
    shield_cell(b, color, kf, kr, -1, 1) + shield_cell(b, color, kf, kr, -1, 2) + shield_cell(
        b,
        color,
        kf,
        kr,
        0,
        1,
    ) + shield_cell(b, color, kf, kr, 0, 2) + shield_cell(b, color, kf, kr, 1, 1) + shield_cell(
        b,
        color,
        kf,
        kr,
        1,
        2,
    )
}

/// Full static evaluation of `b`, side-to-move relative.
pub fn eval(b: &Board) -> (v: i32)
    ensures
        v == spec_eval(b@),
        -200_000 < v < 200_000,
{
    let ghost sq = b@.squares;
    // Pass 1: per-file pawn counts.
    let mut wpawn: [i32; 8] = [0; 8];
    let mut bpawn: [i32; 8] = [0; 8];
    let mut s: usize = 0;
    while s < 64
        invariant
            s <= 64,
            sq == b@.squares,
            forall|f: int|
                0 <= f < 8 ==> #[trigger] wpawn@[f] == file_pawns(sq, Color::White, f, s as int)
                    && 0 <= wpawn@[f] <= s,
            forall|f: int|
                0 <= f < 8 ==> #[trigger] bpawn@[f] == file_pawns(sq, Color::Black, f, s as int)
                    && 0 <= bpawn@[f] <= s,
        decreases 64 - s,
    {
        if let Some(p) = b.squares[s] {
            if p.kind == PieceKind::Pawn {
                let f = s % 8;
                if p.color == Color::White {
                    wpawn[f] = wpawn[f] + 1;
                } else {
                    bpawn[f] = bpawn[f] + 1;
                }
            }
        }
        s = s + 1;
    }
    // Pass 2: material + tables, bishop count, rook-file bonus.
    let mut score: i32 = 0;
    let mut wbishops: i32 = 0;
    let mut bbishops: i32 = 0;
    let mut s: usize = 0;
    while s < 64
        invariant
            s <= 64,
            sq == b@.squares,
            forall|f: int|
                0 <= f < 8 ==> #[trigger] wpawn@[f] == file_pawns(sq, Color::White, f, 64) && 0
                    <= wpawn@[f] <= 64,
            forall|f: int|
                0 <= f < 8 ==> #[trigger] bpawn@[f] == file_pawns(sq, Color::Black, f, 64) && 0
                    <= bpawn@[f] <= 64,
            score == placement_score(sq, s as int),
            -1000 * s <= score <= 1000 * s,
            wbishops == kind_count(sq, Color::White, PieceKind::Bishop, s as int),
            bbishops == kind_count(sq, Color::Black, PieceKind::Bishop, s as int),
            0 <= wbishops <= s,
            0 <= bbishops <= s,
        decreases 64 - s,
    {
        if let Some(p) = b.squares[s] {
            let mut v = material(p.kind) + pst_value(p, s as u8);
            let f = s % 8;
            match p.kind {
                PieceKind::Bishop => {
                    if p.color == Color::White {
                        wbishops = wbishops + 1;
                    } else {
                        bbishops = bbishops + 1;
                    }
                },
                PieceKind::Rook => {
                    let own = if p.color == Color::White {
                        wpawn[f]
                    } else {
                        bpawn[f]
                    };
                    let opp = if p.color == Color::White {
                        bpawn[f]
                    } else {
                        wpawn[f]
                    };
                    if own == 0 {
                        v = v + if opp == 0 {
                            22
                        } else {
                            11
                        };
                    }
                },
                _ => {},
            }
            if p.color == Color::White {
                score = score + v;
            } else {
                score = score - v;
            }
        }
        s = s + 1;
    }
    // Bishop pair.
    if wbishops >= 2 {
        score = score + 30;
    }
    if bbishops >= 2 {
        score = score - 30;
    }
    let ghost after_pairs = score;
    // Pawn structure: doubled and isolated pawns.
    let mut f: usize = 0;
    while f < 8
        invariant
            f <= 8,
            sq == b@.squares,
            forall|g: int|
                0 <= g < 8 ==> #[trigger] wpawn@[g] == file_pawns(sq, Color::White, g, 64) && 0
                    <= wpawn@[g] <= 64,
            forall|g: int|
                0 <= g < 8 ==> #[trigger] bpawn@[g] == file_pawns(sq, Color::Black, g, 64) && 0
                    <= bpawn@[g] <= 64,
            score == after_pairs + structure_score(sq, f as int),
            -70_000 <= after_pairs <= 70_000,
            -3000 * f <= structure_score(sq, f as int) <= 3000 * f,
        decreases 8 - f,
    {
        if wpawn[f] > 1 {
            score = score - 16 * (wpawn[f] - 1);
        }
        if bpawn[f] > 1 {
            score = score + 16 * (bpawn[f] - 1);
        }
        let w_iso = wpawn[f] > 0 && (f == 0 || wpawn[f - 1] == 0) && (f == 7 || wpawn[f + 1] == 0);
        let b_iso = bpawn[f] > 0 && (f == 0 || bpawn[f - 1] == 0) && (f == 7 || bpawn[f + 1] == 0);
        if w_iso {
            score = score - 13 * wpawn[f];
        }
        if b_iso {
            score = score + 13 * bpawn[f];
        }
        f = f + 1;
    }
    // King safety.
    score = score + king_shield(b, Color::White);
    score = score - king_shield(b, Color::Black);
    // Tempo.
    let white_rel = if b.side == Color::White {
        score + 12
    } else {
        score - 12
    };
    if b.side == Color::White {
        white_rel
    } else {
        -white_rel
    }
}

} // verus!
