//! Move generation: attack detection, pseudo-legal moves, and legal moves
//! (pseudo-legal filtered by king safety).
use vstd::prelude::*;
use crate::board::{
    can_make, castle_rook_from, castle_rook_to, ep_victim, placed_piece, spec_make_move, sq,
    file_of, rank_of, Board, Color, Flag, Move, Piece, PieceKind, Position, Square, CASTLE_BK,
    CASTLE_BQ, CASTLE_WK, CASTLE_WQ,
};
use crate::rules::{
    attacked, attacks_from, castle_move, clear_path, home_rank, king_of, kingside_right, legal,
    movegen_ready, piece_move, pseudo_legal, queenside_right, diag_dir, first_king, from_f, from_r, has, has_king,
    is_king_at, king_move, king_step, knight_jump, knight_move, not_own, on_board, orth_dir,
    pawn_capture, pawn_dir, pawn_landing, pawn_move, pawn_push, piece_at, promo_kind, promo_rank, quiet, ray_meets, start_rank, ray_to, slide_move, slides_to, sq_index, stepn, to_f, to_r,
};

verus! {

// ---------------------------------------------------------------------------
// Geometry facts
// ---------------------------------------------------------------------------

pub proof fn lemma_square_coords(f: int, r: int)
    requires
        on_board(f, r),
    ensures
        0 <= sq_index(f, r) < 64,
        sq_index(f, r) % 8 == f,
        sq_index(f, r) / 8 == r,
{
    assert(0 <= r * 8 + f < 64 && (r * 8 + f) % 8 == f && (r * 8 + f) / 8 == r) by (nonlinear_arith)
        requires
            0 <= f < 8,
            0 <= r < 8,
    ;
}

pub proof fn lemma_index_coords(a: int)
    requires
        0 <= a < 64,
    ensures
        on_board(a % 8, a / 8),
        sq_index(a % 8, a / 8) == a,
{
    assert(0 <= a % 8 < 8 && 0 <= a / 8 < 8 && (a / 8) * 8 + a % 8 == a) by (nonlinear_arith)
        requires
            0 <= a < 64,
    ;
}

/// A clear line read from the far end is the same clear line.
pub proof fn lemma_clear_path_reverse(p: Position, f: int, r: int, df: int, dr: int, n: int)
    requires
        -1 <= df <= 1,
        -1 <= dr <= 1,
        clear_path(p, f, r, df, dr, n),
    ensures
        clear_path(p, stepn(f, df, n), stepn(r, dr, n), -df, -dr, n),
{
    let tf = stepn(f, df, n);
    let tr = stepn(r, dr, n);
    assert forall|k: int| 1 <= k < n implies (#[trigger] piece_at(
        p,
        stepn(tf, -df, k),
        stepn(tr, -dr, k),
    )) is None by {
        assert(stepn(tf, -df, k) == stepn(f, df, n - k));
        assert(stepn(tr, -dr, k) == stepn(r, dr, n - k));
        assert(piece_at(p, stepn(f, df, n - k), stepn(r, dr, n - k)) is None);
    }
}

// ---------------------------------------------------------------------------
// Attack detection
// ---------------------------------------------------------------------------

/// Is (file, rank) on the board?
pub fn on_board_xy(file: i32, rank: i32) -> (b: bool)
    ensures
        b == on_board(file as int, rank as int),
{
    0 <= file && file < 8 && 0 <= rank && rank < 8
}

/// Does `pc` stand on (file, rank)? (false off the board)
fn has_piece(b: &Board, file: i32, rank: i32, pc: Piece) -> (res: bool)
    ensures
        res == has(b@, file as int, rank as int, pc),
{
    if on_board_xy(file, rank) {
        let s = sq(file, rank);
        match b.squares[s as usize] {
            Some(q) => q == pc,
            None => false,
        }
    } else {
        false
    }
}

/// Locate `color`'s king: the lowest-indexed square holding one.
pub fn king_square(b: &Board, color: Color) -> (s: Square)
    requires
        has_king(b@, color),
    ensures
        first_king(b@, color, s as int),
{
    let mut s: u8 = 0;
    while s < 64
        invariant
            s <= 64,
            has_king(b@, color),
            forall|j: int| 0 <= j < s ==> !#[trigger] is_king_at(b@, j, color),
        decreases 64 - s,
    {
        if let Some(p) = b.squares[s as usize] {
            if p.color == color && p.kind == PieceKind::King {
                return s;
            }
        }
        s = s + 1;
    }
    proof {
        let i = choose|i: int| 0 <= i < 64 && #[trigger] is_king_at(b@, i, color);
        assert(!is_king_at(b@, i, color));
    }
    0
}

pub open spec fn pawn_attack_view(p: Position, f: int, r: int, by: Color) -> bool {
    let pw = Piece { color: by, kind: PieceKind::Pawn };
    has(p, f - 1, r - pawn_dir(by), pw) || has(p, f + 1, r - pawn_dir(by), pw)
}

pub open spec fn jump_view(p: Position, f: int, r: int, pc: Piece) -> bool {
    has(p, f + 1, r + 2, pc) || has(p, f + 2, r + 1, pc) || has(p, f + 2, r - 1, pc) || has(
        p,
        f + 1,
        r - 2,
        pc,
    ) || has(p, f - 1, r - 2, pc) || has(p, f - 2, r - 1, pc) || has(p, f - 2, r + 1, pc) || has(
        p,
        f - 1,
        r + 2,
        pc,
    )
}

pub open spec fn step_view(p: Position, f: int, r: int, pc: Piece) -> bool {
    has(p, f + 1, r, pc) || has(p, f + 1, r + 1, pc) || has(p, f, r + 1, pc) || has(
        p,
        f - 1,
        r + 1,
        pc,
    ) || has(p, f - 1, r, pc) || has(p, f - 1, r - 1, pc) || has(p, f, r - 1, pc) || has(
        p,
        f + 1,
        r - 1,
        pc,
    )
}

pub open spec fn diag_view(p: Position, f: int, r: int, by: Color) -> bool {
    ray_meets(p, f, r, 1, 1, by, PieceKind::Bishop) || ray_meets(
        p,
        f,
        r,
        1,
        -1,
        by,
        PieceKind::Bishop,
    ) || ray_meets(p, f, r, -1, 1, by, PieceKind::Bishop) || ray_meets(
        p,
        f,
        r,
        -1,
        -1,
        by,
        PieceKind::Bishop,
    )
}

pub open spec fn orth_view(p: Position, f: int, r: int, by: Color) -> bool {
    ray_meets(p, f, r, 1, 0, by, PieceKind::Rook) || ray_meets(p, f, r, -1, 0, by, PieceKind::Rook)
        || ray_meets(p, f, r, 0, 1, by, PieceKind::Rook) || ray_meets(
        p,
        f,
        r,
        0,
        -1,
        by,
        PieceKind::Rook,
    )
}

/// Looking out from the target square, in the five ways a piece can attack.
pub open spec fn attacked_view(p: Position, f: int, r: int, by: Color) -> bool {
    pawn_attack_view(p, f, r, by) || jump_view(p, f, r, Piece { color: by, kind: PieceKind::Knight })
        || step_view(p, f, r, Piece { color: by, kind: PieceKind::King }) || diag_view(p, f, r, by)
        || orth_view(p, f, r, by)
}

/// A slider reaching the target along (df, dr) is met first looking back
/// along (-df, -dr); and conversely.
proof fn lemma_slider_seen(
    p: Position,
    a: int,
    s: int,
    diagonal: bool,
    by: Color,
    slider: PieceKind,
)
    requires
        p.squares.len() == 64,
        0 <= a < 64,
        0 <= s < 64,
        p.squares[a] is Some,
        p.squares[a]->0.color == by,
        p.squares[a]->0.kind == slider || p.squares[a]->0.kind == PieceKind::Queen,
        slides_to(p, a % 8, a / 8, s % 8, s / 8, diagonal),
    ensures
        diagonal ==> diag_view(p, s % 8, s / 8, by) || slider != PieceKind::Bishop,
        !diagonal ==> orth_view(p, s % 8, s / 8, by) || slider != PieceKind::Rook,
{
    lemma_index_coords(a);
    lemma_index_coords(s);
    let (df, dr) = choose|df: int, dr: int|
        (if diagonal {
            diag_dir(df, dr)
        } else {
            orth_dir(df, dr)
        }) && #[trigger] ray_to(p, a % 8, a / 8, df, dr, s % 8, s / 8);
    let n = choose|n: int|
        1 <= n && s % 8 == stepn(a % 8, df, n) && s / 8 == stepn(a / 8, dr, n) && #[trigger] clear_path(
            p,
            a % 8,
            a / 8,
            df,
            dr,
            n,
        );
    lemma_clear_path_reverse(p, a % 8, a / 8, df, dr, n);
    assert(stepn(s % 8, -df, n) == a % 8);
    assert(stepn(s / 8, -dr, n) == a / 8);
    assert(ray_meets(p, s % 8, s / 8, -df, -dr, by, slider));
}

proof fn lemma_seen_slider(
    p: Position,
    s: int,
    df: int,
    dr: int,
    by: Color,
    slider: PieceKind,
)
    requires
        p.squares.len() == 64,
        0 <= s < 64,
        slider == PieceKind::Bishop ==> diag_dir(df, dr),
        slider == PieceKind::Rook ==> orth_dir(df, dr),
        slider == PieceKind::Bishop || slider == PieceKind::Rook,
        ray_meets(p, s % 8, s / 8, df, dr, by, slider),
    ensures
        attacked(p, s, by),
{
    lemma_index_coords(s);
    let f = s % 8;
    let r = s / 8;
    let n = choose|n: int|
        1 <= n && on_board(stepn(f, df, n), stepn(r, dr, n)) && #[trigger] clear_path(
            p,
            f,
            r,
            df,
            dr,
            n,
        ) && piece_at(p, stepn(f, df, n), stepn(r, dr, n)) is Some && piece_at(
            p,
            stepn(f, df, n),
            stepn(r, dr, n),
        )->0.color == by && (piece_at(p, stepn(f, df, n), stepn(r, dr, n))->0.kind
            == PieceKind::Queen || piece_at(p, stepn(f, df, n), stepn(r, dr, n))->0.kind
            == slider);
    let af = stepn(f, df, n);
    let ar = stepn(r, dr, n);
    lemma_square_coords(af, ar);
    let a = sq_index(af, ar);
    lemma_clear_path_reverse(p, f, r, df, dr, n);
    assert(stepn(af, -df, n) == f);
    assert(stepn(ar, -dr, n) == r);
    assert(ray_to(p, af, ar, -df, -dr, f, r));
    let diagonal = slider == PieceKind::Bishop;
    assert(if diagonal {
        diag_dir(-df, -dr)
    } else {
        orth_dir(-df, -dr)
    });
    assert(slides_to(p, af, ar, f, r, diagonal));
    assert(p.squares[a] is Some);
    assert(attacks_from(p, p.squares[a]->0, a % 8, a / 8, s % 8, s / 8));
}

proof fn lemma_has_attacker(p: Position, s: int, af: int, ar: int, pc: Piece)
    requires
        p.squares.len() == 64,
        0 <= s < 64,
        has(p, af, ar, pc),
        attacks_from(p, pc, af, ar, s % 8, s / 8),
    ensures
        attacked(p, s, pc.color),
{
    lemma_square_coords(af, ar);
    let a = sq_index(af, ar);
    assert(p.squares[a] is Some);
}

/// `attacked` agrees with the view from the target square.
pub proof fn lemma_attacked_view(p: Position, s: int, by: Color)
    requires
        p.squares.len() == 64,
        0 <= s < 64,
    ensures
        attacked(p, s, by) == attacked_view(p, s % 8, s / 8, by),
{
    lemma_index_coords(s);
    let f = s % 8;
    let r = s / 8;
    if attacked(p, s, by) {
        let a = choose|a: int|
            0 <= a < 64 && (#[trigger] p.squares[a]) is Some && p.squares[a]->0.color == by
                && attacks_from(p, p.squares[a]->0, a % 8, a / 8, s % 8, s / 8);
        lemma_index_coords(a);
        let pc = p.squares[a]->0;
        assert(has(p, a % 8, a / 8, pc));
        match pc.kind {
            PieceKind::Bishop => {
                lemma_slider_seen(p, a, s, true, by, PieceKind::Bishop);
            },
            PieceKind::Rook => {
                lemma_slider_seen(p, a, s, false, by, PieceKind::Rook);
            },
            PieceKind::Queen => {
                if slides_to(p, a % 8, a / 8, f, r, true) {
                    lemma_slider_seen(p, a, s, true, by, PieceKind::Bishop);
                } else {
                    lemma_slider_seen(p, a, s, false, by, PieceKind::Rook);
                }
            },
            _ => {},
        }
    }
    if attacked_view(p, f, r, by) {
        let pw = Piece { color: by, kind: PieceKind::Pawn };
        let kn = Piece { color: by, kind: PieceKind::Knight };
        let kg = Piece { color: by, kind: PieceKind::King };
        if has(p, f - 1, r - pawn_dir(by), pw) {
            lemma_has_attacker(p, s, f - 1, r - pawn_dir(by), pw);
        } else if has(p, f + 1, r - pawn_dir(by), pw) {
            lemma_has_attacker(p, s, f + 1, r - pawn_dir(by), pw);
        } else if has(p, f + 1, r + 2, kn) {
            lemma_has_attacker(p, s, f + 1, r + 2, kn);
        } else if has(p, f + 2, r + 1, kn) {
            lemma_has_attacker(p, s, f + 2, r + 1, kn);
        } else if has(p, f + 2, r - 1, kn) {
            lemma_has_attacker(p, s, f + 2, r - 1, kn);
        } else if has(p, f + 1, r - 2, kn) {
            lemma_has_attacker(p, s, f + 1, r - 2, kn);
        } else if has(p, f - 1, r - 2, kn) {
            lemma_has_attacker(p, s, f - 1, r - 2, kn);
        } else if has(p, f - 2, r - 1, kn) {
            lemma_has_attacker(p, s, f - 2, r - 1, kn);
        } else if has(p, f - 2, r + 1, kn) {
            lemma_has_attacker(p, s, f - 2, r + 1, kn);
        } else if has(p, f - 1, r + 2, kn) {
            lemma_has_attacker(p, s, f - 1, r + 2, kn);
        } else if has(p, f + 1, r, kg) {
            lemma_has_attacker(p, s, f + 1, r, kg);
        } else if has(p, f + 1, r + 1, kg) {
            lemma_has_attacker(p, s, f + 1, r + 1, kg);
        } else if has(p, f, r + 1, kg) {
            lemma_has_attacker(p, s, f, r + 1, kg);
        } else if has(p, f - 1, r + 1, kg) {
            lemma_has_attacker(p, s, f - 1, r + 1, kg);
        } else if has(p, f - 1, r, kg) {
            lemma_has_attacker(p, s, f - 1, r, kg);
        } else if has(p, f - 1, r - 1, kg) {
            lemma_has_attacker(p, s, f - 1, r - 1, kg);
        } else if has(p, f, r - 1, kg) {
            lemma_has_attacker(p, s, f, r - 1, kg);
        } else if has(p, f + 1, r - 1, kg) {
            lemma_has_attacker(p, s, f + 1, r - 1, kg);
        } else if ray_meets(p, f, r, 1, 1, by, PieceKind::Bishop) {
            lemma_seen_slider(p, s, 1, 1, by, PieceKind::Bishop);
        } else if ray_meets(p, f, r, 1, -1, by, PieceKind::Bishop) {
            lemma_seen_slider(p, s, 1, -1, by, PieceKind::Bishop);
        } else if ray_meets(p, f, r, -1, 1, by, PieceKind::Bishop) {
            lemma_seen_slider(p, s, -1, 1, by, PieceKind::Bishop);
        } else if ray_meets(p, f, r, -1, -1, by, PieceKind::Bishop) {
            lemma_seen_slider(p, s, -1, -1, by, PieceKind::Bishop);
        } else if ray_meets(p, f, r, 1, 0, by, PieceKind::Rook) {
            lemma_seen_slider(p, s, 1, 0, by, PieceKind::Rook);
        } else if ray_meets(p, f, r, -1, 0, by, PieceKind::Rook) {
            lemma_seen_slider(p, s, -1, 0, by, PieceKind::Rook);
        } else if ray_meets(p, f, r, 0, 1, by, PieceKind::Rook) {
            lemma_seen_slider(p, s, 0, 1, by, PieceKind::Rook);
        } else {
            lemma_seen_slider(p, s, 0, -1, by, PieceKind::Rook);
        }
    }
}

/// Walk from (f, r) along (df, dr); true if the first piece met is a
/// `by`-coloured queen or the given `slider` kind.
fn ray_hits_dir(b: &Board, f: i32, r: i32, df: i32, dr: i32, by: Color, slider: PieceKind) -> (res:
    bool)
    requires
        on_board(f as int, r as int),
        -1 <= df <= 1,
        -1 <= dr <= 1,
        !(df == 0 && dr == 0),
    ensures
        res == ray_meets(b@, f as int, r as int, df as int, dr as int, by, slider),
{
    let ghost p = b@;
    let mut nf = f + df;
    let mut nr = r + dr;
    let ghost mut n: int = 1;
    while on_board_xy(nf, nr)
        invariant
            on_board(f as int, r as int),
            -1 <= df <= 1,
            -1 <= dr <= 1,
            !(df == 0 && dr == 0),
            1 <= n <= 8,
            p == b@,
            nf == stepn(f as int, df as int, n),
            nr == stepn(r as int, dr as int, n),
            clear_path(p, f as int, r as int, df as int, dr as int, n),
        decreases 8 - n,
    {
        let s = sq(nf, nr);
        if let Some(pc) = b.squares[s as usize] {
            let res = pc.color == by && (pc.kind == PieceKind::Queen || pc.kind == slider);
            proof {
                if !res {
                    assert forall|m: int|
                        1 <= m && on_board(stepn(f as int, df as int, m), stepn(r as int, dr as int, m))
                            && #[trigger] clear_path(p, f as int, r as int, df as int, dr as int, m)
                        implies !(piece_at(p, stepn(f as int, df as int, m), stepn(r as int, dr as int, m)) is Some
                        && piece_at(p, stepn(f as int, df as int, m), stepn(r as int, dr as int, m))->0.color == by
                        && (piece_at(p, stepn(f as int, df as int, m), stepn(r as int, dr as int, m))->0.kind
                        == PieceKind::Queen || piece_at(p, stepn(f as int, df as int, m), stepn(r as int, dr as int, m))->0.kind
                        == slider)) by {
                        if m > n {
                            assert(piece_at(p, stepn(f as int, df as int, n), stepn(r as int, dr as int, n)) is None);
                        }
                    }
                }
            }
            return res;
        }
        proof {
            assert forall|k: int| 1 <= k < n + 1 implies (#[trigger] piece_at(
                p,
                stepn(f as int, df as int, k),
                stepn(r as int, dr as int, k),
            )) is None by {
                if k < n {
                } else {
                }
            }
            n = n + 1;
        }
        nf = nf + df;
        nr = nr + dr;
    }
    proof {
        assert forall|m: int|
            1 <= m && on_board(stepn(f as int, df as int, m), stepn(r as int, dr as int, m))
                && #[trigger] clear_path(p, f as int, r as int, df as int, dr as int, m)
            implies !(piece_at(p, stepn(f as int, df as int, m), stepn(r as int, dr as int, m)) is Some) by {
            if m < n {
            }
        }
    }
    false
}

/// Is square `s` attacked by any piece of color `by`?
pub fn is_attacked(b: &Board, s: Square, by: Color) -> (res: bool)
    requires
        s < 64,
    ensures
        res == attacked(b@, s as int, by),
{
    let f = file_of(s);
    let r = rank_of(s);
    proof {
        lemma_index_coords(s as int);
        lemma_attacked_view(b@, s as int, by);
    }
    // Pawns: a `by` pawn one rank toward its forward direction, on an adjacent
    // file, attacks `s`.
    let pr = if by == Color::White {
        r - 1
    } else {
        r + 1
    };
    let pawn = Piece { color: by, kind: PieceKind::Pawn };
    let knight = Piece { color: by, kind: PieceKind::Knight };
    let king = Piece { color: by, kind: PieceKind::King };
    has_piece(b, f - 1, pr, pawn) || has_piece(b, f + 1, pr, pawn)
    // Knights.
     || has_piece(b, f + 1, r + 2, knight) || has_piece(b, f + 2, r + 1, knight) || has_piece(
        b,
        f + 2,
        r - 1,
        knight,
    ) || has_piece(b, f + 1, r - 2, knight) || has_piece(b, f - 1, r - 2, knight) || has_piece(
        b,
        f - 2,
        r - 1,
        knight,
    ) || has_piece(b, f - 2, r + 1, knight) || has_piece(b, f - 1, r + 2, knight)
    // King.
     || has_piece(b, f + 1, r, king) || has_piece(b, f + 1, r + 1, king) || has_piece(
        b,
        f,
        r + 1,
        king,
    ) || has_piece(b, f - 1, r + 1, king) || has_piece(b, f - 1, r, king) || has_piece(
        b,
        f - 1,
        r - 1,
        king,
    ) || has_piece(b, f, r - 1, king) || has_piece(b, f + 1, r - 1, king)
    // Bishops / queens (diagonal rays).
     || ray_hits(b, f, r, true, by)
    // Rooks / queens (orthogonal rays).
     || ray_hits(b, f, r, false, by)
}

/// The four diagonal (or orthogonal) rays from (f, r): true if the first
/// piece met on one is a `by`-coloured queen or bishop (or rook).
fn ray_hits(b: &Board, f: i32, r: i32, diagonal: bool, by: Color) -> (res: bool)
    requires
        on_board(f as int, r as int),
    ensures
        diagonal ==> res == diag_view(b@, f as int, r as int, by),
        !diagonal ==> res == orth_view(b@, f as int, r as int, by),
{
    if diagonal {
        ray_hits_dir(b, f, r, 1, 1, by, PieceKind::Bishop) || ray_hits_dir(
            b,
            f,
            r,
            1,
            -1,
            by,
            PieceKind::Bishop,
        ) || ray_hits_dir(b, f, r, -1, 1, by, PieceKind::Bishop) || ray_hits_dir(
            b,
            f,
            r,
            -1,
            -1,
            by,
            PieceKind::Bishop,
        )
    } else {
        ray_hits_dir(b, f, r, 1, 0, by, PieceKind::Rook) || ray_hits_dir(
            b,
            f,
            r,
            -1,
            0,
            by,
            PieceKind::Rook,
        ) || ray_hits_dir(b, f, r, 0, 1, by, PieceKind::Rook) || ray_hits_dir(
            b,
            f,
            r,
            0,
            -1,
            by,
            PieceKind::Rook,
        )
    }
}


// ---------------------------------------------------------------------------
// Pseudo-legal move generation, piece by piece
// ---------------------------------------------------------------------------

pub open spec fn jump_target_ok(p: Position, c: Color, f: int, r: int) -> bool {
    on_board(f, r) && not_own(p, sq_index(f, r), c)
}

pub open spec fn plain_move(from: int, f: int, r: int) -> Move {
    Move { from: from as u8, to: sq_index(f, r) as u8, promo: None, flag: Flag::Normal }
}

pub open spec fn add_if_on(seen: Set<int>, f: int, r: int) -> Set<int> {
    if on_board(f, r) {
        seen.insert(sq_index(f, r))
    } else {
        seen
    }
}

// ---------------------------------------------------------------------------
// The order moves are generated in
// ---------------------------------------------------------------------------

/// The jump from (f, r) by (df, dr), when it lands on the board on a square
/// not holding one of our own pieces.
pub open spec fn jump_step(p: Position, c: Color, from: int, f: int, r: int, df: int, dr: int) -> Seq<Move> {
    if jump_target_ok(p, c, f + df, r + dr) {
        seq![plain_move(from, f + df, r + dr)]
    } else {
        seq![]
    }
}

/// Knight jumps (clockwise from one file right, two ranks up) or king steps
/// (anticlockwise from one file right), in generation order.
pub open spec fn jump_seq(p: Position, c: Color, from: int, knight: bool) -> Seq<Move> {
    let f = from % 8;
    let r = from / 8;
    if knight {
        jump_step(p, c, from, f, r, 1, 2) + jump_step(p, c, from, f, r, 2, 1) + jump_step(p, c, from, f, r, 2, -1)
            + jump_step(p, c, from, f, r, 1, -2) + jump_step(p, c, from, f, r, -1, -2) + jump_step(p, c, from, f, r, -2, -1)
            + jump_step(p, c, from, f, r, -2, 1) + jump_step(p, c, from, f, r, -1, 2)
    } else {
        jump_step(p, c, from, f, r, 1, 0) + jump_step(p, c, from, f, r, 1, 1) + jump_step(p, c, from, f, r, 0, 1)
            + jump_step(p, c, from, f, r, -1, 1) + jump_step(p, c, from, f, r, -1, 0) + jump_step(p, c, from, f, r, -1, -1)
            + jump_step(p, c, from, f, r, 0, -1) + jump_step(p, c, from, f, r, 1, -1)
    }
}

/// A pawn move to `to`: the four promotions (queen, rook, bishop, knight) on
/// the last rank, else the one move with `flag`.
pub open spec fn pawn_moves_to(from: u8, to: u8, is_promo: bool, flag: Flag) -> Seq<Move> {
    if is_promo {
        seq![
            Move { from, to, promo: Some(PieceKind::Queen), flag: Flag::Normal },
            Move { from, to, promo: Some(PieceKind::Rook), flag: Flag::Normal },
            Move { from, to, promo: Some(PieceKind::Bishop), flag: Flag::Normal },
            Move { from, to, promo: Some(PieceKind::Knight), flag: Flag::Normal },
        ]
    } else {
        seq![Move { from, to, promo: None, flag }]
    }
}

/// The pushes of the pawn on `from`: one step, then two from the start rank.
pub open spec fn push_seq(p: Position, c: Color, from: u8) -> Seq<Move> {
    let f = from % 8;
    let r = from / 8;
    let r1 = r + pawn_dir(c);
    let r2 = r + 2 * pawn_dir(c);
    if on_board(f as int, r1) && p.squares[sq_index(f as int, r1)] is None {
        pawn_moves_to(from, sq_index(f as int, r1) as u8, r1 == promo_rank(c), Flag::Normal) + if r == start_rank(c)
            && p.squares[sq_index(f as int, r2)] is None {
            seq![Move { from, to: sq_index(f as int, r2) as u8, promo: None, flag: Flag::DoublePush }]
        } else {
            seq![]
        }
    } else {
        seq![]
    }
}

/// The capture of the pawn on `from` toward file offset `df`, en passant
/// included.
pub open spec fn capture_seq(p: Position, c: Color, from: u8, df: int) -> Seq<Move> {
    let cf = from % 8 + df;
    let cr = from / 8 + pawn_dir(c);
    let to = sq_index(cf, cr) as u8;
    if on_board(cf, cr) {
        match p.squares[sq_index(cf, cr)] {
            Some(tp) => if tp.color != c {
                pawn_moves_to(from, to, cr == promo_rank(c), Flag::Normal)
            } else {
                seq![]
            },
            None => if p.ep == Some(to) {
                seq![Move { from, to, promo: None, flag: Flag::EnPassant }]
            } else {
                seq![]
            },
        }
    } else {
        seq![]
    }
}

/// The slides from (f, r) along (df, dr) from the `n`-th square on: each empty
/// square, then the first occupied one if it holds an enemy piece.
pub open spec fn ray_seq(p: Position, c: Color, from: u8, f: int, r: int, df: int, dr: int, n: int) -> Seq<Move>
    decreases 8 - n,
{
    let tf = stepn(f, df, n);
    let tr = stepn(r, dr, n);
    let m = Move { from, to: sq_index(tf, tr) as u8, promo: None, flag: Flag::Normal };
    if n < 1 || n >= 8 || !on_board(tf, tr) {
        seq![]
    } else {
        match p.squares[sq_index(tf, tr)] {
            None => seq![m] + ray_seq(p, c, from, f, r, df, dr, n + 1),
            Some(tp) => if tp.color != c {
                seq![m]
            } else {
                seq![]
            },
        }
    }
}

/// The slides of a bishop (`diagonal`) or rook from `from`, direction by
/// direction.
pub open spec fn slide_seq(p: Position, c: Color, from: u8, diagonal: bool) -> Seq<Move> {
    let f = from % 8;
    let r = from / 8;
    if diagonal {
        ray_seq(p, c, from, f as int, r as int, 1, 1, 1) + ray_seq(p, c, from, f as int, r as int, 1, -1, 1)
            + ray_seq(p, c, from, f as int, r as int, -1, 1, 1) + ray_seq(p, c, from, f as int, r as int, -1, -1, 1)
    } else {
        ray_seq(p, c, from, f as int, r as int, 1, 0, 1) + ray_seq(p, c, from, f as int, r as int, -1, 0, 1)
            + ray_seq(p, c, from, f as int, r as int, 0, 1, 1) + ray_seq(p, c, from, f as int, r as int, 0, -1, 1)
    }
}

/// The castling moves of the king on `from`: kingside, then queenside.
pub open spec fn castle_seq(p: Position, c: Color, from: u8) -> Seq<Move> {
    let r: int = if c == Color::White {
        0
    } else {
        7
    };
    let home = sq_index(4, r);
    let enemy = c.spec_opp();
    let rk: u8 = if c == Color::White {
        1
    } else {
        4
    };
    let rq: u8 = if c == Color::White {
        2
    } else {
        8
    };
    let rook = Some(Piece { color: c, kind: PieceKind::Rook });
    let king_side = p.castling & rk != 0 && p.squares[sq_index(5, r)] is None && p.squares[sq_index(6, r)] is None
        && !attacked(p, sq_index(5, r), enemy) && p.squares[sq_index(7, r)] == rook;
    let queen_side = p.castling & rq != 0 && p.squares[sq_index(3, r)] is None && p.squares[sq_index(2, r)] is None
        && p.squares[sq_index(1, r)] is None && !attacked(p, sq_index(3, r), enemy) && p.squares[sq_index(0, r)]
        == rook;
    if from as int != home || attacked(p, home, enemy) {
        seq![]
    } else {
        (if king_side {
            seq![Move { from: home as u8, to: sq_index(6, r) as u8, promo: None, flag: Flag::Castle }]
        } else {
            seq![]
        }) + (if queen_side {
            seq![Move { from: home as u8, to: sq_index(2, r) as u8, promo: None, flag: Flag::Castle }]
        } else {
            seq![]
        })
    }
}

/// The moves of the piece `pc` on `from`, in generation order.
pub open spec fn piece_seq(p: Position, from: u8, pc: Piece) -> Seq<Move> {
    match pc.kind {
        PieceKind::Pawn => pawn_seq(p, pc.color, from),
        PieceKind::Knight => jump_seq(p, pc.color, from as int, true),
        PieceKind::Bishop => slide_seq(p, pc.color, from, true),
        PieceKind::Rook => slide_seq(p, pc.color, from, false),
        PieceKind::Queen => slide_seq(p, pc.color, from, true) + slide_seq(p, pc.color, from, false),
        PieceKind::King => jump_seq(p, pc.color, from as int, false) + castle_seq(p, pc.color, from),
    }
}

/// The pseudo-legal moves of the pieces on squares `0..n`, square by square.
pub open spec fn pseudo_upto(p: Position, n: int) -> Seq<Move>
    decreases n,
{
    if n <= 0 {
        seq![]
    } else {
        pseudo_upto(p, n - 1) + match p.squares[n - 1] {
            Some(pc) => if pc.color == p.side {
                piece_seq(p, (n - 1) as u8, pc)
            } else {
                seq![]
            },
            None => seq![],
        }
    }
}

/// The pseudo-legal moves in generation order: square a1 to h8, and for each
/// piece in the order of its own rules.
pub open spec fn pseudo_seq(p: Position) -> Seq<Move> {
    pseudo_upto(p, 64)
}

/// The legal moves in generation order: the pseudo-legal list, filtered.
pub open spec fn legal_seq(p: Position) -> Seq<Move> {
    pseudo_seq(p).filter(|m: Move| legal(p, m))
}

/// All the moves of the pawn on `from`: pushes, then the capture toward the
/// a-file, then toward the h-file.
pub open spec fn pawn_seq(p: Position, c: Color, from: u8) -> Seq<Move> {
    push_seq(p, c, from) + capture_seq(p, c, from, -1) + capture_seq(p, c, from, 1)
}

/// Push the plain move from (f, r) by (df, dr) when it lands on the board on
/// a square not holding one of our own pieces.
fn try_jump(
    b: &Board,
    from: Square,
    f: i32,
    r: i32,
    df: i32,
    dr: i32,
    color: Color,
    out: &mut Vec<Move>,
    Ghost(seen): Ghost<Set<int>>,
)
    requires
        from < 64,
        f == from % 8,
        r == from / 8,
        -2 <= df <= 2,
        -2 <= dr <= 2,
        old(out)@.no_duplicates(),
        forall|i: int| 0 <= i < old(out)@.len() ==> seen.contains(old(out)@[i].to as int),
        on_board(f + df, r + dr) ==> !seen.contains(sq_index(f + df, r + dr)),
    ensures
        final(out)@ == old(out)@ + jump_step(b@, color, from as int, f as int, r as int, df as int, dr as int),
        forall|m: Move|
            final(out)@.contains(m) <==> (old(out)@.contains(m) || (jump_target_ok(
                b@,
                color,
                f + df,
                r + dr,
            ) && m == plain_move(from as int, f + df, r + dr))),
        final(out)@.no_duplicates(),
        forall|i: int|
            0 <= i < final(out)@.len() ==> add_if_on(seen, f + df, r + dr).contains(
                final(out)@[i].to as int,
            ),
{
    broadcast use vstd::seq_lib::group_seq_properties;

    let nf = f + df;
    let nr = r + dr;
    if !on_board_xy(nf, nr) {
        return ;
    }
    let to = sq(nf, nr);
    proof {
        lemma_square_coords(nf as int, nr as int);
    }
    let own = match b.squares[to as usize] {
        Some(tp) => tp.color == color,
        None => false,
    };
    if !own {
        let m = Move { from, to, promo: None, flag: Flag::Normal };
        proof {
            assert(!old(out)@.contains(m));
        }
        out.push(m);
    }
}

pub open spec fn jump_moves(p: Position, c: Color, m: Move, knight: bool) -> bool {
    if knight {
        knight_move(p, c, m)
    } else {
        king_move(p, c, m)
    }
}

/// Knight jumps (`knight`) or king steps from `from`.
#[verifier::spinoff_prover]
#[verifier::rlimit(100)]
fn gen_jumps(b: &Board, from: Square, color: Color, knight: bool) -> (res: Vec<Move>)
    requires
        from < 64,
    ensures
        forall|m: Move|
            res@.contains(m) <==> (m.from == from && (m.to as int) < 64 && jump_moves(
                b@,
                color,
                m,
                knight,
            )),
        res@.no_duplicates(),
        res@ == jump_seq(b@, color, from as int, knight),
{
    let f = file_of(from);
    let r = rank_of(from);
    let mut out: Vec<Move> = Vec::new();
    let ghost s0 = Set::<int>::empty();
    let ghost fi = f as int;
    let ghost ri = r as int;
    if knight {
        try_jump(b, from, f, r, 1, 2, color, &mut out, Ghost(s0));
        let ghost s1 = add_if_on(s0, fi + 1, ri + 2);
        try_jump(b, from, f, r, 2, 1, color, &mut out, Ghost(s1));
        let ghost s2 = add_if_on(s1, fi + 2, ri + 1);
        try_jump(b, from, f, r, 2, -1, color, &mut out, Ghost(s2));
        let ghost s3 = add_if_on(s2, fi + 2, ri - 1);
        try_jump(b, from, f, r, 1, -2, color, &mut out, Ghost(s3));
        let ghost s4 = add_if_on(s3, fi + 1, ri - 2);
        try_jump(b, from, f, r, -1, -2, color, &mut out, Ghost(s4));
        let ghost s5 = add_if_on(s4, fi - 1, ri - 2);
        try_jump(b, from, f, r, -2, -1, color, &mut out, Ghost(s5));
        let ghost s6 = add_if_on(s5, fi - 2, ri - 1);
        try_jump(b, from, f, r, -2, 1, color, &mut out, Ghost(s6));
        let ghost s7 = add_if_on(s6, fi - 2, ri + 1);
        try_jump(b, from, f, r, -1, 2, color, &mut out, Ghost(s7));
        assert(out@ =~= jump_seq(b@, color, from as int, knight));
    } else {
        try_jump(b, from, f, r, 1, 0, color, &mut out, Ghost(s0));
        let ghost s1 = add_if_on(s0, fi + 1, ri);
        try_jump(b, from, f, r, 1, 1, color, &mut out, Ghost(s1));
        let ghost s2 = add_if_on(s1, fi + 1, ri + 1);
        try_jump(b, from, f, r, 0, 1, color, &mut out, Ghost(s2));
        let ghost s3 = add_if_on(s2, fi, ri + 1);
        try_jump(b, from, f, r, -1, 1, color, &mut out, Ghost(s3));
        let ghost s4 = add_if_on(s3, fi - 1, ri + 1);
        try_jump(b, from, f, r, -1, 0, color, &mut out, Ghost(s4));
        let ghost s5 = add_if_on(s4, fi - 1, ri);
        try_jump(b, from, f, r, -1, -1, color, &mut out, Ghost(s5));
        let ghost s6 = add_if_on(s5, fi - 1, ri - 1);
        try_jump(b, from, f, r, 0, -1, color, &mut out, Ghost(s6));
        let ghost s7 = add_if_on(s6, fi, ri - 1);
        try_jump(b, from, f, r, 1, -1, color, &mut out, Ghost(s7));
        assert(out@ =~= jump_seq(b@, color, from as int, knight));
    }
    proof {
        assert forall|m: Move|
            m.from == from && (m.to as int) < 64 && jump_moves(b@, color, m, knight) implies out@.contains(m) by {
            lemma_index_coords(m.to as int);
            lemma_index_coords(m.from as int);
        }
        assert forall|m: Move| out@.contains(m) implies m.from == from && (m.to as int) < 64
            && jump_moves(b@, color, m, knight) by {
            lemma_index_coords(m.from as int);
            if jump_target_ok(b@, color, fi + 1, ri + 2) { lemma_square_coords(fi + 1, ri + 2); }
            if jump_target_ok(b@, color, fi + 2, ri + 1) { lemma_square_coords(fi + 2, ri + 1); }
            if jump_target_ok(b@, color, fi + 2, ri - 1) { lemma_square_coords(fi + 2, ri - 1); }
            if jump_target_ok(b@, color, fi + 1, ri - 2) { lemma_square_coords(fi + 1, ri - 2); }
            if jump_target_ok(b@, color, fi - 1, ri - 2) { lemma_square_coords(fi - 1, ri - 2); }
            if jump_target_ok(b@, color, fi - 2, ri - 1) { lemma_square_coords(fi - 2, ri - 1); }
            if jump_target_ok(b@, color, fi - 2, ri + 1) { lemma_square_coords(fi - 2, ri + 1); }
            if jump_target_ok(b@, color, fi - 1, ri + 2) { lemma_square_coords(fi - 1, ri + 2); }
            if jump_target_ok(b@, color, fi + 1, ri) { lemma_square_coords(fi + 1, ri); }
            if jump_target_ok(b@, color, fi + 1, ri + 1) { lemma_square_coords(fi + 1, ri + 1); }
            if jump_target_ok(b@, color, fi, ri + 1) { lemma_square_coords(fi, ri + 1); }
            if jump_target_ok(b@, color, fi - 1, ri + 1) { lemma_square_coords(fi - 1, ri + 1); }
            if jump_target_ok(b@, color, fi - 1, ri) { lemma_square_coords(fi - 1, ri); }
            if jump_target_ok(b@, color, fi - 1, ri - 1) { lemma_square_coords(fi - 1, ri - 1); }
            if jump_target_ok(b@, color, fi, ri - 1) { lemma_square_coords(fi, ri - 1); }
            if jump_target_ok(b@, color, fi + 1, ri - 1) { lemma_square_coords(fi + 1, ri - 1); }
        }
    }
    out
}


pub proof fn lemma_push_contains(s: Seq<Move>, v: Move, x: Move)
    ensures
        s.push(v).contains(x) == (s.contains(x) || x == v),
{
    if x == v {
        assert(s.push(v)[s.len() as int] == v);
    }
    if s.contains(x) {
        let i = choose|i: int| 0 <= i < s.len() && s[i] == x;
        assert(s.push(v)[i] == x);
    }
    if s.push(v).contains(x) {
        let i = choose|i: int| 0 <= i < s.push(v).len() && s.push(v)[i] == x;
        if i < s.len() {
            assert(s[i] == x);
        }
    }
}

pub proof fn lemma_push_nodup(s: Seq<Move>, v: Move)
    requires
        s.no_duplicates(),
        !s.contains(v),
    ensures
        s.push(v).no_duplicates(),
{
    assert forall|i: int, j: int|
        0 <= i < s.push(v).len() && 0 <= j < s.push(v).len() && i != j implies s.push(v)[i] != s.push(v)[j] by {
        if i < s.len() && j < s.len() {
        } else if i < s.len() {
            assert(s[i] == s.push(v)[i]);
        } else if j < s.len() {
            assert(s[j] == s.push(v)[j]);
        }
    }
}

/// (tf, tr) lies k >= 1 steps from (f, r) along (df, dr).
pub open spec fn on_ray(f: int, r: int, df: int, dr: int, tf: int, tr: int) -> bool {
    exists|k: int| 1 <= k && tf == stepn(f, df, k) && tr == stepn(r, dr, k)
}

/// Reached along (df, dr) at a distance below `lim`, over empty squares.
pub open spec fn ray_within(
    p: Position,
    f: int,
    r: int,
    df: int,
    dr: int,
    tf: int,
    tr: int,
    lim: int,
) -> bool {
    exists|k: int|
        1 <= k < lim && tf == stepn(f, df, k) && tr == stepn(r, dr, k) && #[trigger] clear_path(
            p,
            f,
            r,
            df,
            dr,
            k,
        )
}

pub open spec fn slide_dir_move(
    p: Position,
    c: Color,
    f: int,
    r: int,
    m: Move,
    df: int,
    dr: int,
) -> bool {
    quiet(m) && (m.to as int) < 64 && not_own(p, m.to as int, c) && ray_to(
        p,
        f,
        r,
        df,
        dr,
        to_f(m),
        to_r(m),
    )
}

pub open spec fn slide_base(p: Position, c: Color, from: u8, m: Move) -> bool {
    m.from == from && quiet(m) && (m.to as int) < 64 && not_own(p, m.to as int, c)
}

/// Push every plain move from `from` along (df, dr): over empty squares, up
/// to and including the first enemy piece.
#[verifier::spinoff_prover]
#[verifier::rlimit(100)]
fn gen_slide_dir(
    b: &Board,
    from: Square,
    f: i32,
    r: i32,
    df: i32,
    dr: i32,
    color: Color,
    out: &mut Vec<Move>,
)
    requires
        from < 64,
        f == from % 8,
        r == from / 8,
        -1 <= df <= 1,
        -1 <= dr <= 1,
        !(df == 0 && dr == 0),
        old(out)@.no_duplicates(),
        forall|m: Move|
            old(out)@.contains(m) ==> m.from != from || !on_ray(
                f as int,
                r as int,
                df as int,
                dr as int,
                to_f(m),
                to_r(m),
            ),
    ensures
        final(out)@.no_duplicates(),
        forall|m: Move|
            final(out)@.contains(m) <==> (old(out)@.contains(m) || (m.from == from
                && slide_dir_move(b@, color, f as int, r as int, m, df as int, dr as int))),
        final(out)@ == old(out)@ + ray_seq(b@, color, from, f as int, r as int, df as int, dr as int, 1),
{
    broadcast use vstd::seq_lib::group_seq_properties;

    let ghost p = b@;
    let ghost fi = f as int;
    let ghost ri = r as int;
    proof {
        lemma_index_coords(from as int);
    }
    let mut nf = f + df;
    let mut nr = r + dr;
    let ghost mut n: int = 1;
    let ghost start = old(out)@;
    while on_board_xy(nf, nr)
        invariant
            on_board(fi, ri),
            fi == f,
            ri == r,
            -1 <= df <= 1,
            -1 <= dr <= 1,
            !(df == 0 && dr == 0),
            1 <= n <= 8,
            p == b@,
            start == old(out)@,
            from < 64,
            nf == stepn(fi, df as int, n),
            nr == stepn(ri, dr as int, n),
            clear_path(p, fi, ri, df as int, dr as int, n),
            out@.no_duplicates(),
            out@ + ray_seq(p, color, from, fi, ri, df as int, dr as int, n) == start + ray_seq(
                p,
                color,
                from,
                fi,
                ri,
                df as int,
                dr as int,
                1,
            ),
            forall|m: Move|
                start.contains(m) ==> m.from != from || !on_ray(
                    fi,
                    ri,
                    df as int,
                    dr as int,
                    to_f(m),
                    to_r(m),
                ),
            forall|m: Move|
                #![trigger out@.contains(m)]
                out@.contains(m) <==> (start.contains(m) || (slide_base(p, color, from, m) && ray_within(
                    p,
                    fi,
                    ri,
                    df as int,
                    dr as int,
                    to_f(m),
                    to_r(m),
                    n,
                ))),
            forall|m: Move|
                #![trigger out@.contains(m)]
                out@.contains(m) ==> start.contains(m) || (m.from == from && ray_within(
                    p,
                    fi,
                    ri,
                    df as int,
                    dr as int,
                    to_f(m),
                    to_r(m),
                    n,
                )),
        decreases 8 - n,
    {
        let to = sq(nf, nr);
        proof {
            lemma_square_coords(nf as int, nr as int);
        }
        let m = Move { from, to, promo: None, flag: Flag::Normal };
        match b.squares[to as usize] {
            None => {
                proof {
                    assert(ray_seq(p, color, from, fi, ri, df as int, dr as int, n) == seq![m] + ray_seq(p, color, from, fi, ri, df as int, dr as int, n + 1));
                    assert(to_f(m) == stepn(fi, df as int, n) && to_r(m) == stepn(ri, dr as int, n));
                    assert(on_ray(fi, ri, df as int, dr as int, to_f(m), to_r(m)));
                    if ray_within(p, fi, ri, df as int, dr as int, to_f(m), to_r(m), n) {
                        let k = choose|k: int|
                            1 <= k < n && to_f(m) == stepn(fi, df as int, k) && to_r(m) == stepn(
                                ri,
                                dr as int,
                                k,
                            ) && #[trigger] clear_path(p, fi, ri, df as int, dr as int, k);
                        assert(false);
                    }
                    assert(!start.contains(m));
                    assert(!(slide_base(p, color, from, m) && ray_within(p, fi, ri, df as int, dr as int, to_f(m), to_r(m), n)));
                    assert(!out@.contains(m));
                }
                let ghost before = out@;
                out.push(m);
                proof {
                    assert(out@ == before.push(m));
                    assert forall|k: int| 1 <= k < n + 1 implies (#[trigger] piece_at(
                        p,
                        stepn(fi, df as int, k),
                        stepn(ri, dr as int, k),
                    )) is None by {
                        if k < n {
                        } else {
                        }
                    }
                    assert(ray_within(p, fi, ri, df as int, dr as int, to_f(m), to_r(m), n + 1));
                    assert(slide_base(p, color, from, m));
                    assert forall|m2: Move| start.contains(m2) implies out@.contains(m2) by {
                        lemma_push_contains(before, m, m2);
                    }
                    assert forall|m2: Move| (slide_base(p, color, from, m2) && ray_within(p, fi, ri, df as int, dr as int, to_f(m2), to_r(m2), n + 1)) implies out@.contains(m2) by {
                        lemma_push_contains(before, m, m2);
                        lemma_index_coords(m2.to as int);
                        let k = choose|k: int|
                            1 <= k < n + 1 && to_f(m2) == stepn(fi, df as int, k) && to_r(m2)
                                == stepn(ri, dr as int, k) && #[trigger] clear_path(
                                p,
                                fi,
                                ri,
                                df as int,
                                dr as int,
                                k,
                            );
                        if k == n {
                            assert(m2 == m);
                            assert(before.push(m).contains(m2));
                        } else {
                            assert(ray_within(p, fi, ri, df as int, dr as int, to_f(m2), to_r(m2), n));
                            assert(before.contains(m2));
                        }
                    }
                    assert forall|m2: Move| out@.contains(m2) && !start.contains(m2) implies (slide_base(p, color, from, m2) && ray_within(p, fi, ri, df as int, dr as int, to_f(m2), to_r(m2), n + 1)) by {
                        lemma_push_contains(before, m, m2);
                        if m2 != m {
                            assert(before.contains(m2));
                            let k = choose|k: int|
                                1 <= k < n && to_f(m2) == stepn(fi, df as int, k) && to_r(m2)
                                    == stepn(ri, dr as int, k) && #[trigger] clear_path(
                                    p,
                                    fi,
                                    ri,
                                    df as int,
                                    dr as int,
                                    k,
                                );
                            assert(ray_within(p, fi, ri, df as int, dr as int, to_f(m2), to_r(m2), n + 1));
                        }
                    }
                    assert forall|m2: Move|
                        out@.contains(m2) <==> (start.contains(m2) || (slide_base(p, color, from, m2) && ray_within(
                            p,
                            fi,
                            ri,
                            df as int,
                            dr as int,
                            to_f(m2),
                            to_r(m2),
                            n + 1,
                        ))) by {
                        lemma_push_contains(before, m, m2);
                        if (m2.to as int) < 64 {
                            lemma_index_coords(m2.to as int);
                        }
                        if ray_within(p, fi, ri, df as int, dr as int, to_f(m2), to_r(m2), n) {
                            let k = choose|k: int|
                                1 <= k < n && to_f(m2) == stepn(fi, df as int, k) && to_r(m2)
                                    == stepn(ri, dr as int, k) && #[trigger] clear_path(
                                    p,
                                    fi,
                                    ri,
                                    df as int,
                                    dr as int,
                                    k,
                                );
                            assert(ray_within(p, fi, ri, df as int, dr as int, to_f(m2), to_r(m2), n + 1));
                        }
                        if slide_base(p, color, from, m2) && ray_within(p, fi, ri, df as int, dr as int, to_f(m2), to_r(m2), n + 1) {
                            let k = choose|k: int|
                                1 <= k < n + 1 && to_f(m2) == stepn(fi, df as int, k) && to_r(m2)
                                    == stepn(ri, dr as int, k) && #[trigger] clear_path(
                                    p,
                                    fi,
                                    ri,
                                    df as int,
                                    dr as int,
                                    k,
                                );
                            if k == n {
                                assert(m2 == m);
                            } else {
                                assert(ray_within(p, fi, ri, df as int, dr as int, to_f(m2), to_r(m2), n));
                            }
                        }
                    }
                    assert(out@ + ray_seq(p, color, from, fi, ri, df as int, dr as int, n + 1) =~= before + (seq![m] + ray_seq(p, color, from, fi, ri, df as int, dr as int, n + 1)));
                    n = n + 1;
                }
                nf = nf + df;
                nr = nr + dr;
            },
            Some(tp) => {
                let ghost before = out@;
                if tp.color != color {
                    proof {
                        assert(to_f(m) == stepn(fi, df as int, n) && to_r(m) == stepn(ri, dr as int, n));
                        assert(on_ray(fi, ri, df as int, dr as int, to_f(m), to_r(m)));
                        if ray_within(p, fi, ri, df as int, dr as int, to_f(m), to_r(m), n) {
                            let k = choose|k: int|
                                1 <= k < n && to_f(m) == stepn(fi, df as int, k) && to_r(m) == stepn(
                                    ri,
                                    dr as int,
                                    k,
                                ) && #[trigger] clear_path(p, fi, ri, df as int, dr as int, k);
                            assert(false);
                        }
                        assert(!start.contains(m));
                        assert(!out@.contains(m));
                    }
                    out.push(m);
                    proof {
                        assert(ray_to(p, fi, ri, df as int, dr as int, to_f(m), to_r(m)));
                    }
                }
                proof {
                    assert forall|m2: Move|
                        #![trigger out@.contains(m2)]
                        out@.contains(m2) <==> (start.contains(m2) || (m2.from == from
                            && slide_dir_move(p, color, fi, ri, m2, df as int, dr as int))) by {
                        if tp.color != color {
                            lemma_push_contains(before, m, m2);
                        } else {
                            assert(out@ == before);
                        }
                        if (m2.to as int) < 64 {
                            lemma_index_coords(m2.to as int);
                        }
                        if ray_within(p, fi, ri, df as int, dr as int, to_f(m2), to_r(m2), n) {
                            let k = choose|k: int|
                                1 <= k < n && to_f(m2) == stepn(fi, df as int, k) && to_r(m2)
                                    == stepn(ri, dr as int, k) && #[trigger] clear_path(
                                    p,
                                    fi,
                                    ri,
                                    df as int,
                                    dr as int,
                                    k,
                                );
                            assert(ray_to(p, fi, ri, df as int, dr as int, to_f(m2), to_r(m2)));
                        }
                        if m2.from == from && slide_dir_move(p, color, fi, ri, m2, df as int, dr as int) {
                            let k = choose|k: int|
                                1 <= k && to_f(m2) == stepn(fi, df as int, k) && to_r(m2) == stepn(
                                    ri,
                                    dr as int,
                                    k,
                                ) && #[trigger] clear_path(p, fi, ri, df as int, dr as int, k);
                            if k > n {
                                assert(piece_at(p, stepn(fi, df as int, n), stepn(ri, dr as int, n))
                                    is None);
                            }
                            if k == n {
                                assert(m2 == m);
                            } else {
                                assert(ray_within(p, fi, ri, df as int, dr as int, to_f(m2), to_r(m2), n));
                            }
                        }
                    }
                }
                proof {
                    if tp.color != color {
                        assert(ray_seq(p, color, from, fi, ri, df as int, dr as int, n) == seq![m]);
                        assert(out@ =~= before + ray_seq(p, color, from, fi, ri, df as int, dr as int, n));
                    } else {
                        assert(ray_seq(p, color, from, fi, ri, df as int, dr as int, n) == Seq::<Move>::empty());
                        assert(out@ =~= before + ray_seq(p, color, from, fi, ri, df as int, dr as int, n));
                    }
                }
                return ;
            },
        }
    }
    proof {
        assert(ray_seq(p, color, from, fi, ri, df as int, dr as int, n) == Seq::<Move>::empty());
        assert(out@ =~= out@ + ray_seq(p, color, from, fi, ri, df as int, dr as int, n));
    }
    proof {
        assert forall|m2: Move|
            #![trigger out@.contains(m2)]
            out@.contains(m2) <==> (start.contains(m2) || (m2.from == from && slide_dir_move(
                p,
                color,
                fi,
                ri,
                m2,
                df as int,
                dr as int,
            ))) by {
            assert(out@.contains(m2) == (start.contains(m2) || (slide_base(p, color, from, m2)
                && ray_within(p, fi, ri, df as int, dr as int, to_f(m2), to_r(m2), n))));
            if (m2.to as int) < 64 {
                lemma_index_coords(m2.to as int);
            }
            if ray_within(p, fi, ri, df as int, dr as int, to_f(m2), to_r(m2), n) {
                let k = choose|k: int|
                    1 <= k < n && to_f(m2) == stepn(fi, df as int, k) && to_r(m2)
                        == stepn(ri, dr as int, k) && #[trigger] clear_path(
                        p,
                        fi,
                        ri,
                        df as int,
                        dr as int,
                        k,
                    );
                assert(ray_to(p, fi, ri, df as int, dr as int, to_f(m2), to_r(m2)));
            }
            if m2.from == from && slide_dir_move(p, color, fi, ri, m2, df as int, dr as int) {
                let k = choose|k: int|
                    1 <= k && to_f(m2) == stepn(fi, df as int, k) && to_r(m2) == stepn(
                        ri,
                        dr as int,
                        k,
                    ) && #[trigger] clear_path(p, fi, ri, df as int, dr as int, k);
                assert(k < n);
                assert(ray_within(p, fi, ri, df as int, dr as int, to_f(m2), to_r(m2), n));
            }
        }
    }
}


proof fn lemma_rays_disjoint(f: int, r: int, df1: int, dr1: int, df2: int, dr2: int, tf: int, tr: int)
    requires
        -1 <= df1 <= 1,
        -1 <= dr1 <= 1,
        -1 <= df2 <= 1,
        -1 <= dr2 <= 1,
        !(df1 == 0 && dr1 == 0),
        !(df2 == 0 && dr2 == 0),
        !(df1 == df2 && dr1 == dr2),
        diag_dir(df1, dr1) == diag_dir(df2, dr2) || diag_dir(df1, dr1) || diag_dir(df2, dr2),
        on_ray(f, r, df1, dr1, tf, tr),
    ensures
        !on_ray(f, r, df2, dr2, tf, tr),
{
    let k1 = choose|k: int| 1 <= k && tf == stepn(f, df1, k) && tr == stepn(r, dr1, k);
    if on_ray(f, r, df2, dr2, tf, tr) {
        let k2 = choose|k: int| 1 <= k && tf == stepn(f, df2, k) && tr == stepn(r, dr2, k);
        assert(false);
    }
}

pub open spec fn slide_family(df: int, dr: int, diagonal: bool) -> bool {
    if diagonal {
        diag_dir(df, dr)
    } else {
        orth_dir(df, dr)
    }
}

/// Bishop-style (`diagonal`) or rook-style slides from `from`.
fn gen_slides(b: &Board, from: Square, color: Color, diagonal: bool) -> (res: Vec<Move>)
    requires
        from < 64,
    ensures
        forall|m: Move|
            res@.contains(m) <==> (m.from == from && (m.to as int) < 64 && slide_move(
                b@,
                color,
                m,
                diagonal,
            )),
        res@.no_duplicates(),
        res@ == slide_seq(b@, color, from, diagonal),
{
    let f = file_of(from);
    let r = rank_of(from);
    let ghost fi = f as int;
    let ghost ri = r as int;
    let ghost p = b@;
    let mut out: Vec<Move> = Vec::new();
    let (a1, a2, b1, b2, c1, c2, d1, d2) = if diagonal {
        (1i32, 1i32, 1i32, -1i32, -1i32, 1i32, -1i32, -1i32)
    } else {
        (1i32, 0i32, -1i32, 0i32, 0i32, 1i32, 0i32, -1i32)
    };
    proof {
        lemma_index_coords(from as int);
    }
    gen_slide_dir(b, from, f, r, a1, a2, color, &mut out);
    let ghost o1 = out@;
    proof {
        assert forall|m: Move| o1.contains(m) implies m.from != from || !on_ray(fi, ri, b1 as int, b2 as int, to_f(m), to_r(m)) by {
            if m.from == from {
                lemma_rays_disjoint(fi, ri, a1 as int, a2 as int, b1 as int, b2 as int, to_f(m), to_r(m));
            }
        }
    }
    gen_slide_dir(b, from, f, r, b1, b2, color, &mut out);
    let ghost o2 = out@;
    proof {
        assert forall|m: Move| o2.contains(m) implies m.from != from || !on_ray(fi, ri, c1 as int, c2 as int, to_f(m), to_r(m)) by {
            if m.from == from {
                if o1.contains(m) {
                    lemma_rays_disjoint(fi, ri, a1 as int, a2 as int, c1 as int, c2 as int, to_f(m), to_r(m));
                } else {
                    lemma_rays_disjoint(fi, ri, b1 as int, b2 as int, c1 as int, c2 as int, to_f(m), to_r(m));
                }
            }
        }
    }
    gen_slide_dir(b, from, f, r, c1, c2, color, &mut out);
    let ghost o3 = out@;
    proof {
        assert forall|m: Move| o3.contains(m) implies m.from != from || !on_ray(fi, ri, d1 as int, d2 as int, to_f(m), to_r(m)) by {
            if m.from == from {
                if o1.contains(m) {
                    lemma_rays_disjoint(fi, ri, a1 as int, a2 as int, d1 as int, d2 as int, to_f(m), to_r(m));
                } else if o2.contains(m) {
                    lemma_rays_disjoint(fi, ri, b1 as int, b2 as int, d1 as int, d2 as int, to_f(m), to_r(m));
                } else {
                    lemma_rays_disjoint(fi, ri, c1 as int, c2 as int, d1 as int, d2 as int, to_f(m), to_r(m));
                }
            }
        }
    }
    gen_slide_dir(b, from, f, r, d1, d2, color, &mut out);
    proof {
        assert forall|m: Move|
            out@.contains(m) <==> (m.from == from && (m.to as int) < 64 && slide_move(
                p,
                color,
                m,
                diagonal,
            )) by {
            if m.from == from && (m.to as int) < 64 && slide_move(p, color, m, diagonal) {
                let (df, dr) = choose|df: int, dr: int|
                    slide_family(df, dr, diagonal) && #[trigger] ray_to(
                        p,
                        from_f(m),
                        from_r(m),
                        df,
                        dr,
                        to_f(m),
                        to_r(m),
                    );
                assert(slide_dir_move(p, color, fi, ri, m, df, dr));
            }
            if out@.contains(m) {
                if o3.contains(m) {
                    if o2.contains(m) {
                        if o1.contains(m) {
                            assert(slide_dir_move(p, color, fi, ri, m, a1 as int, a2 as int));
                            assert(slide_family(a1 as int, a2 as int, diagonal));
                        } else {
                            assert(slide_dir_move(p, color, fi, ri, m, b1 as int, b2 as int));
                            assert(slide_family(b1 as int, b2 as int, diagonal));
                        }
                    } else {
                        assert(slide_dir_move(p, color, fi, ri, m, c1 as int, c2 as int));
                        assert(slide_family(c1 as int, c2 as int, diagonal));
                    }
                } else {
                    assert(slide_dir_move(p, color, fi, ri, m, d1 as int, d2 as int));
                    assert(slide_family(d1 as int, d2 as int, diagonal));
                }
            }
        }
    }
    proof {
        assert(out@ =~= slide_seq(b@, color, from, diagonal));
    }
    out
}


/// Push a pawn move, expanding to the four promotions when it reaches the
/// last rank.
fn push_pawn_move(from: Square, to: Square, is_promo: bool, flag: Flag, moves: &mut Vec<Move>)
    requires
        old(moves)@.no_duplicates(),
        forall|m: Move| old(moves)@.contains(m) ==> m.from != from || m.to != to,
    ensures
        final(moves)@ == old(moves)@ + pawn_moves_to(from, to, is_promo, flag),
        final(moves)@.no_duplicates(),
        forall|m: Move|
            final(moves)@.contains(m) <==> (old(moves)@.contains(m) || (m.from == from && m.to == to
                && if is_promo {
                m.flag == Flag::Normal && m.promo is Some && promo_kind(m.promo->0)
            } else {
                m.promo is None && m.flag == flag
            })),
{
    let ghost start = moves@;
    if is_promo {
        let mq = Move { from, to, promo: Some(PieceKind::Queen), flag: Flag::Normal };
        let mr = Move { from, to, promo: Some(PieceKind::Rook), flag: Flag::Normal };
        let mb = Move { from, to, promo: Some(PieceKind::Bishop), flag: Flag::Normal };
        let mn = Move { from, to, promo: Some(PieceKind::Knight), flag: Flag::Normal };
        proof {
            lemma_push_nodup(start, mq);
        }
        moves.push(mq);
        proof {
            lemma_push_contains(start, mq, mr);
        }
        let ghost s1 = moves@;
        proof {
            lemma_push_nodup(s1, mr);
        }
        moves.push(mr);
        proof {
            lemma_push_contains(s1, mr, mb);
            lemma_push_contains(start, mq, mb);
        }
        let ghost s2 = moves@;
        proof {
            lemma_push_nodup(s2, mb);
        }
        moves.push(mb);
        proof {
            lemma_push_contains(s2, mb, mn);
            lemma_push_contains(s1, mr, mn);
            lemma_push_contains(start, mq, mn);
        }
        let ghost s3 = moves@;
        proof {
            lemma_push_nodup(s3, mn);
        }
        moves.push(mn);
        proof {
            assert forall|m: Move|
                #![trigger moves@.contains(m)]
                moves@.contains(m) <==> (start.contains(m) || (m.from == from && m.to == to
                    && m.flag == Flag::Normal && m.promo is Some && promo_kind(m.promo->0))) by {
                lemma_push_contains(s3, mn, m);
                lemma_push_contains(s2, mb, m);
                lemma_push_contains(s1, mr, m);
                lemma_push_contains(start, mq, m);
            }
        }
    } else {
        let m0 = Move { from, to, promo: None, flag };
        proof {
            lemma_push_nodup(start, m0);
        }
        moves.push(m0);
        proof {
            assert forall|m: Move|
                #![trigger moves@.contains(m)]
                moves@.contains(m) <==> (start.contains(m) || (m.from == from && m.to == to
                    && m.promo is None && m.flag == flag)) by {
                lemma_push_contains(start, m0, m);
            }
        }
    }
}

/// Forward pawn pushes from `from`: one step, and two from the start rank.
fn gen_pawn_pushes(b: &Board, from: Square, color: Color, moves: &mut Vec<Move>)
    requires
        from < 64,
        old(moves)@.no_duplicates(),
        forall|m: Move| old(moves)@.contains(m) ==> m.from != from,
    ensures
        final(moves)@ == old(moves)@ + push_seq(b@, color, from),
        final(moves)@.no_duplicates(),
        forall|m: Move|
            #![trigger final(moves)@.contains(m)]
            final(moves)@.contains(m) <==> (old(moves)@.contains(m) || (m.from == from
                && (m.to as int) < 64 && pawn_push(b@, color, m))),
        forall|m: Move|
            #![trigger final(moves)@.contains(m)]
            final(moves)@.contains(m) ==> old(moves)@.contains(m) || (m.from == from && to_f(m)
                == from_f(m)),
{
    let ghost p = b@;
    let ghost start = moves@;
    let f = file_of(from);
    let r = rank_of(from);
    proof {
        lemma_index_coords(from as int);
    }
    let dir: i32 = if color == Color::White {
        1
    } else {
        -1
    };
    let start_rank: i32 = if color == Color::White {
        1
    } else {
        6
    };
    let promo_rank: i32 = if color == Color::White {
        7
    } else {
        0
    };
    let r1 = r + dir;
    if on_board_xy(f, r1) && b.squares[sq(f, r1) as usize].is_none() {
        let to1 = sq(f, r1);
        proof {
            lemma_square_coords(f as int, r1 as int);
        }
        push_pawn_move(from, to1, r1 == promo_rank, Flag::Normal, moves);
        let ghost s1 = moves@;
        if r == start_rank {
            let r2 = r + 2 * dir;
            let to2 = sq(f, r2);
            proof {
                lemma_square_coords(f as int, r2 as int);
            }
            if b.squares[to2 as usize].is_none() {
                let md = Move { from, to: to2, promo: None, flag: Flag::DoublePush };
                proof {
                    assert(!s1.contains(md));
                    lemma_push_nodup(s1, md);
                }
                moves.push(md);
                proof {
                    assert forall|m: Move|
                        #![trigger moves@.contains(m)]
                        moves@.contains(m) == (s1.contains(m) || m == md) by {
                        lemma_push_contains(s1, md, m);
                    }
                }
            }
        }
        proof {
            assert forall|m: Move|
                #![trigger moves@.contains(m)]
                moves@.contains(m) <==> (start.contains(m) || (m.from == from && (m.to as int) < 64
                    && pawn_push(p, color, m))) by {
                if (m.to as int) < 64 {
                    lemma_index_coords(m.to as int);
                }
            }
        }
    } else {
        proof {
            assert forall|m: Move|
                #![trigger moves@.contains(m)]
                moves@.contains(m) <==> (start.contains(m) || (m.from == from && (m.to as int) < 64
                    && pawn_push(p, color, m))) by {
                if (m.to as int) < 64 {
                    lemma_index_coords(m.to as int);
                }
            }
        }
    }
}

/// The pawn capture from `from` toward file offset `df` (including en passant).
fn gen_pawn_capture(b: &Board, from: Square, color: Color, df: i32, moves: &mut Vec<Move>)
    requires
        from < 64,
        df == 1 || df == -1,
        old(moves)@.no_duplicates(),
        forall|m: Move| old(moves)@.contains(m) ==> m.from != from || to_f(m) != from_f(m) + df,
    ensures
        final(moves)@ == old(moves)@ + capture_seq(b@, color, from, df as int),
        final(moves)@.no_duplicates(),
        forall|m: Move|
            #![trigger final(moves)@.contains(m)]
            final(moves)@.contains(m) <==> (old(moves)@.contains(m) || (m.from == from
                && (m.to as int) < 64 && pawn_capture(b@, color, m, df as int))),
        forall|m: Move|
            #![trigger final(moves)@.contains(m)]
            final(moves)@.contains(m) ==> old(moves)@.contains(m) || (m.from == from && to_f(m)
                == from_f(m) + df),
{
    let ghost p = b@;
    let ghost start = moves@;
    let f = file_of(from);
    let r = rank_of(from);
    proof {
        lemma_index_coords(from as int);
    }
    let dir: i32 = if color == Color::White {
        1
    } else {
        -1
    };
    let promo_rank: i32 = if color == Color::White {
        7
    } else {
        0
    };
    let cf = f + df;
    let cr = r + dir;
    if on_board_xy(cf, cr) {
        let to = sq(cf, cr);
        proof {
            lemma_square_coords(cf as int, cr as int);
        }
        match b.squares[to as usize] {
            Some(tp) => {
                if tp.color != color {
                    proof {
                        assert forall|m: Move| start.contains(m) implies m.from != from || m.to != to by {
                            if m.from == from && m.to == to {
                                assert(to_f(m) == cf);
                            }
                        }
                    }
                    push_pawn_move(from, to, cr == promo_rank, Flag::Normal, moves);
                }
            },
            None => {
                let is_ep = match b.ep {
                    Some(e) => e == to,
                    None => false,
                };
                if is_ep {
                    let me = Move { from, to, promo: None, flag: Flag::EnPassant };
                    proof {
                        if start.contains(me) {
                            assert(to_f(me) == cf);
                        }
                        lemma_push_nodup(start, me);
                    }
                    moves.push(me);
                    proof {
                        assert forall|m: Move|
                            #![trigger moves@.contains(m)]
                            moves@.contains(m) == (start.contains(m) || m == me) by {
                            lemma_push_contains(start, me, m);
                        }
                    }
                }
            },
        }
    }
    proof {
        assert forall|m: Move|
            #![trigger moves@.contains(m)]
            moves@.contains(m) <==> (start.contains(m) || (m.from == from && (m.to as int) < 64
                && pawn_capture(p, color, m, df as int))) by {
            if (m.to as int) < 64 {
                lemma_index_coords(m.to as int);
            }
        }
    }
}

/// All pawn moves from `from`.
fn gen_pawn(b: &Board, from: Square, color: Color) -> (res: Vec<Move>)
    requires
        from < 64,
    ensures
        forall|m: Move|
            res@.contains(m) <==> (m.from == from && (m.to as int) < 64 && pawn_move(b@, color, m)),
        res@.no_duplicates(),
        res@ == pawn_seq(b@, color, from),
{
    let mut moves: Vec<Move> = Vec::new();
    gen_pawn_pushes(b, from, color, &mut moves);
    let ghost s1 = moves@;
    gen_pawn_capture(b, from, color, -1, &mut moves);
    let ghost s2 = moves@;
    gen_pawn_capture(b, from, color, 1, &mut moves);
    proof {
        assert(moves@ =~= pawn_seq(b@, color, from));
        assert forall|m: Move|
            #![trigger moves@.contains(m)]
            moves@.contains(m) <==> (m.from == from && (m.to as int) < 64 && pawn_move(b@, color, m)) by {
            if s2.contains(m) {
                if s1.contains(m) {
                }
            }
        }
    }
    moves
}


/// Does `color` have a rook on `s`?
fn is_rook(b: &Board, s: Square, color: Color) -> (res: bool)
    requires
        s < 64,
    ensures
        res == (b@.squares[s as int] == Some(Piece { color, kind: PieceKind::Rook })),
{
    match b.squares[s as usize] {
        Some(pc) => pc.color == color && pc.kind == PieceKind::Rook,
        None => false,
    }
}

/// Castling moves. Requires the right, empty squares between, the king not
/// currently in check, and the king not passing through an attacked square.
/// The destination square's safety is enforced by `generate_legal`.
fn gen_castling(b: &Board, from: Square, color: Color) -> (res: Vec<Move>)
    requires
        from < 64,
    ensures
        forall|m: Move|
            res@.contains(m) <==> (m.from == from && (m.to as int) < 64 && castle_move(
                b@,
                color,
                m,
            )),
        res@.no_duplicates(),
        res@ == castle_seq(b@, color, from),
{
    let ghost p = b@;
    let mut moves: Vec<Move> = Vec::new();
    let r: i32 = if color == Color::White {
        0
    } else {
        7
    };
    let home = sq(4, r);
    if from != home {
        proof {
            assert forall|m: Move|
                #![trigger moves@.contains(m)]
                moves@.contains(m) <==> (m.from == from && (m.to as int) < 64 && castle_move(
                    p,
                    color,
                    m,
                )) by {}
        }
        return moves;
    }
    let enemy = color.opp();
    if is_attacked(b, home, enemy) {
        proof {
            assert forall|m: Move|
                #![trigger moves@.contains(m)]
                moves@.contains(m) <==> (m.from == from && (m.to as int) < 64 && castle_move(
                    p,
                    color,
                    m,
                )) by {}
        }
        return moves;  // cannot castle out of check
    }
    let (right_k, right_q) = if color == Color::White {
        (CASTLE_WK, CASTLE_WQ)
    } else {
        (CASTLE_BK, CASTLE_BQ)
    };
    let f5 = sq(5, r);
    let f6 = sq(6, r);
    let f7 = sq(7, r);
    let f3 = sq(3, r);
    let f2 = sq(2, r);
    let f1 = sq(1, r);
    let f0 = sq(0, r);
    let mk = Move { from: home, to: f6, promo: None, flag: Flag::Castle };
    let mq = Move { from: home, to: f2, promo: None, flag: Flag::Castle };
    // Kingside: squares f,g empty; rook on h; king passes through f.
    let king_side = b.castling & right_k != 0 && b.squares[f5 as usize].is_none()
        && b.squares[f6 as usize].is_none() && !is_attacked(b, f5, enemy) && is_rook(b, f7, color);
    if king_side {
        moves.push(mk);
    }
    // Queenside: squares b,c,d empty; rook on a; king passes through d.
    let queen_side = b.castling & right_q != 0 && b.squares[f3 as usize].is_none()
        && b.squares[f2 as usize].is_none() && b.squares[f1 as usize].is_none() && !is_attacked(
        b,
        f3,
        enemy,
    ) && is_rook(b, f0, color);
    let ghost s1 = moves@;
    if queen_side {
        proof {
            lemma_push_contains(Seq::empty(), mk, mq);
            if king_side {
                assert(s1 == Seq::<Move>::empty().push(mk));
            }
            lemma_push_nodup(s1, mq);
        }
        moves.push(mq);
    }
    proof {
        assert forall|m: Move|
            #![trigger moves@.contains(m)]
            moves@.contains(m) <==> (m.from == from && (m.to as int) < 64 && castle_move(
                p,
                color,
                m,
            )) by {
            lemma_push_contains(Seq::empty(), mk, m);
            lemma_push_contains(s1, mq, m);
            if king_side {
                assert(s1 == Seq::<Move>::empty().push(mk));
            }
        }
    }
    proof {
        assert(moves@ =~= castle_seq(p, color, from));
    }
    moves
}

proof fn lemma_concat_nodup(a: Seq<Move>, b: Seq<Move>)
    requires
        a.no_duplicates(),
        b.no_duplicates(),
        forall|m: Move| a.contains(m) ==> !b.contains(m),
    ensures
        (a + b).no_duplicates(),
        forall|m: Move| #![trigger (a + b).contains(m)] (a + b).contains(m) == (a.contains(m) || b.contains(m)),
{
    broadcast use vstd::seq_lib::group_seq_properties;

    assert forall|i: int, j: int|
        0 <= i < (a + b).len() && 0 <= j < (a + b).len() && i != j implies (a + b)[i] != (a
        + b)[j] by {
        if i < a.len() && j >= a.len() {
            assert(a.contains((a + b)[i]));
            assert(b.contains((a + b)[j]));
        } else if j < a.len() && i >= a.len() {
            assert(a.contains((a + b)[j]));
            assert(b.contains((a + b)[i]));
        }
    }
}

/// The moves of the piece `pc` standing on `from`, by its movement rules.
fn gen_piece(b: &Board, from: Square, pc: Piece) -> (res: Vec<Move>)
    requires
        from < 64,
    ensures
        forall|m: Move|
            res@.contains(m) <==> (m.from == from && (m.to as int) < 64 && piece_move(b@, pc, m)),
        res@.no_duplicates(),
        res@ == piece_seq(b@, from, pc),
{
    let ghost p = b@;
    match pc.kind {
        PieceKind::Pawn => gen_pawn(b, from, pc.color),
        PieceKind::Knight => gen_jumps(b, from, pc.color, true),
        PieceKind::Bishop => gen_slides(b, from, pc.color, true),
        PieceKind::Rook => gen_slides(b, from, pc.color, false),
        PieceKind::Queen => {
            let mut a = gen_slides(b, from, pc.color, true);
            let mut c = gen_slides(b, from, pc.color, false);
            let ghost sa = a@;
            let ghost sc = c@;
            proof {
                assert forall|m: Move| sa.contains(m) implies !sc.contains(m) by {
                    if sc.contains(m) {
                        let (df1, dr1) = choose|df: int, dr: int|
                            slide_family(df, dr, true) && #[trigger] ray_to(
                                p,
                                from_f(m),
                                from_r(m),
                                df,
                                dr,
                                to_f(m),
                                to_r(m),
                            );
                        let (df2, dr2) = choose|df: int, dr: int|
                            slide_family(df, dr, false) && #[trigger] ray_to(
                                p,
                                from_f(m),
                                from_r(m),
                                df,
                                dr,
                                to_f(m),
                                to_r(m),
                            );
                        lemma_rays_disjoint(from_f(m), from_r(m), df1, dr1, df2, dr2, to_f(m), to_r(m));
                    }
                }
                lemma_concat_nodup(sa, sc);
            }
            a.append(&mut c);
            a
        },
        PieceKind::King => {
            let mut a = gen_jumps(b, from, pc.color, false);
            let mut c = gen_castling(b, from, pc.color);
            proof {
                lemma_concat_nodup(a@, c@);
            }
            a.append(&mut c);
            a
        },
    }
}

/// All pseudo-legal moves for the side to move (may leave own king in check).
pub fn generate_pseudo(b: &Board) -> (moves: Vec<Move>)
    ensures
        forall|m: Move| moves@.contains(m) <==> pseudo_legal(b@, m),
        moves@.no_duplicates(),
        moves@ == pseudo_seq(b@),
{
    let ghost p = b@;
    let mut moves: Vec<Move> = Vec::new();
    let mut s: u8 = 0;
    while s < 64
        invariant
            s <= 64,
            p == b@,
            moves@.no_duplicates(),
            forall|m: Move|
                #![trigger moves@.contains(m)]
                moves@.contains(m) <==> (pseudo_legal(p, m) && m.from < s),
            moves@ == pseudo_upto(p, s as int),
        decreases 64 - s,
    {
        let ghost before = moves@;
        if let Some(pc) = b.squares[s as usize] {
            if pc.color == b.side {
                let mut v = gen_piece(b, s, pc);
                proof {
                    lemma_concat_nodup(before, v@);
                }
                moves.append(&mut v);
            }
        }
        proof {
            assert(moves@ =~= pseudo_upto(p, s as int + 1));
        }
        s = s + 1;
    }
    moves
}


pub proof fn lemma_first_king_unique(p: Position, c: Color, k1: int, k2: int)
    requires
        first_king(p, c, k1),
        first_king(p, c, k2),
    ensures
        k1 == k2,
{
    if k1 < k2 {
        assert(!is_king_at(p, k1, c));
    } else if k2 < k1 {
        assert(!is_king_at(p, k2, c));
    }
}

/// Every pseudo-legal move can be made, and leaves the mover a king.
pub proof fn lemma_king_survives(p: Position, m: Move)
    requires
        movegen_ready(p),
        pseudo_legal(p, m),
    ensures
        can_make(p, m),
        has_king(spec_make_move(p, m), p.side),
{
    lemma_index_coords(m.from as int);
    lemma_index_coords(m.to as int);
    let k = choose|i: int| 0 <= i < 64 && #[trigger] is_king_at(p, i, p.side);
    let q = spec_make_move(p, m);
    let mover = p.squares[m.from as int]->0;
    if m.from as int == k {
        assert(m.promo is None);
        assert(is_king_at(q, m.to as int, p.side));
    } else {
        if m.flag == Flag::Castle {
            let r = home_rank(p.side);
            lemma_square_coords(7, r);
            lemma_square_coords(5, r);
            lemma_square_coords(0, r);
            lemma_square_coords(3, r);
            lemma_square_coords(4, r);
            lemma_square_coords(6, r);
            lemma_square_coords(2, r);
        }
        assert(m.to as int != k) by {
            if m.to as int == k {
                assert(p.squares[m.to as int] is Some);
                if m.flag == Flag::Castle {
                    let r = home_rank(p.side);
                    lemma_square_coords(6, r);
                    lemma_square_coords(2, r);
                }
            }
        }
        let s1 = if m.flag == Flag::EnPassant {
            p.squares.update(ep_victim(mover.color, m.to as int), None)
        } else {
            p.squares
        };
        assert(s1[k] == p.squares[k]);
        let s2 = if m.flag == Flag::Castle {
            s1.update(castle_rook_to(m), s1[castle_rook_from(m)]).update(castle_rook_from(m), None)
        } else {
            s1
        };
        assert(s2[k] == p.squares[k]);
        assert(q.squares[k] == p.squares[k]);
        assert(is_king_at(q, k, p.side));
    }
}

/// Legal moves: pseudo-legal moves after which the mover's king is not attacked.
pub fn generate_legal(b: &Board) -> (legal_moves: Vec<Move>)
    requires
        movegen_ready(b@),
    ensures
        forall|m: Move| legal_moves@.contains(m) <==> legal(b@, m),
        legal_moves@.no_duplicates(),
        legal_moves@ == legal_seq(b@),
{
    let ghost p = b@;
    let us = b.side;
    let pseudo = generate_pseudo(b);
    let mut legal_moves: Vec<Move> = Vec::new();
    let mut i: usize = 0;
    while i < pseudo.len()
        invariant
            i <= pseudo@.len(),
            p == b@,
            us == p.side,
            movegen_ready(p),
            forall|m: Move| pseudo@.contains(m) <==> pseudo_legal(p, m),
            pseudo@.no_duplicates(),
            legal_moves@.no_duplicates(),
            forall|m: Move|
                #![trigger legal_moves@.contains(m)]
                legal_moves@.contains(m) <==> (pseudo@.subrange(0, i as int).contains(m) && legal(
                    p,
                    m,
                )),
            pseudo@ == pseudo_seq(p),
            legal_moves@ == pseudo@.subrange(0, i as int).filter(|x: Move| legal(p, x)),
        decreases pseudo@.len() - i,
    {
        let m = pseudo[i];
        proof {
            assert(pseudo@.contains(m));
            lemma_king_survives(p, m);
        }
        let mut nb = *b;
        nb.make_move(m);
        let ksq = king_square(&nb, us);
        proof {
            let kc = king_of(nb@, us);
            lemma_first_king_unique(nb@, us, kc, ksq as int);
        }
        let safe = !is_attacked(&nb, ksq, us.opp());
        let ghost before = legal_moves@;
        proof {
            let sub = pseudo@.subrange(0, i + 1);
            assert(sub.drop_last() =~= pseudo@.subrange(0, i as int));
            assert(sub.last() == m);
            reveal(Seq::filter);
            assert(safe == legal(p, m));
        }
        if safe {
            proof {
                if before.contains(m) {
                    let j = choose|j: int| 0 <= j < i && #[trigger] pseudo@.subrange(0, i as int)[j] == m;
                    assert(pseudo@[j] == pseudo@[i as int]);
                }
                lemma_push_nodup(before, m);
            }
            legal_moves.push(m);
        }
        proof {
            assert forall|m2: Move|
                #![trigger legal_moves@.contains(m2)]
                legal_moves@.contains(m2) <==> (pseudo@.subrange(0, i + 1).contains(m2) && legal(
                    p,
                    m2,
                )) by {
                lemma_push_contains(before, m, m2);
                if pseudo@.subrange(0, i + 1).contains(m2) {
                    let j = choose|j: int| 0 <= j < i + 1 && #[trigger] pseudo@.subrange(0, i + 1)[j] == m2;
                    if j < i {
                        assert(pseudo@.subrange(0, i as int)[j] == m2);
                    }
                }
                if pseudo@.subrange(0, i as int).contains(m2) {
                    let j = choose|j: int| 0 <= j < i && #[trigger] pseudo@.subrange(0, i as int)[j] == m2;
                    assert(pseudo@.subrange(0, i + 1)[j] == m2);
                }
                assert(pseudo@.subrange(0, i + 1)[i as int] == m);
            }
        }
        i = i + 1;
    }
    proof {
        assert(pseudo@.subrange(0, i as int) =~= pseudo@);
    }
    legal_moves
}

} // verus!
