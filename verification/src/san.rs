//! Standard Algebraic Notation (SAN) — the human-readable move format
//! (e.g. `Nf3`, `exd5`, `O-O`, `e8=Q`, `Qxh7#`).
use vstd::prelude::*;
use vstd::string::StringExecFns;
use crate::board::{file_of, rank_of, spec_make_move, Board, Color, Flag, Move, Piece, PieceKind, Position, Square};
use crate::fen::{sq_to_algebraic, square_name};
use crate::movegen::{generate_legal, is_attacked, king_square, lemma_first_king_unique, lemma_king_survives};
use crate::rules::{attacked, first_king, has_king, king_of, legal, movegen_ready};
use crate::text::push_char;
use crate::search::no_legal_move;

verus! {

/// The SAN letter of a piece kind.
pub open spec fn kind_letter(k: PieceKind) -> char {
    match k {
        PieceKind::King => 'K',
        PieceKind::Queen => 'Q',
        PieceKind::Rook => 'R',
        PieceKind::Bishop => 'B',
        PieceKind::Knight => 'N',
        PieceKind::Pawn => 'P',
    }
}

/// The letter used for a piece in SAN (pawns have none in normal moves).
pub fn piece_letter(k: PieceKind) -> (c: char)
    ensures
        c == kind_letter(k),
{
    match k {
        PieceKind::King => 'K',
        PieceKind::Queen => 'Q',
        PieceKind::Rook => 'R',
        PieceKind::Bishop => 'B',
        PieceKind::Knight => 'N',
        PieceKind::Pawn => 'P',
    }
}

pub open spec fn file_char(s: u8) -> char {
    ((97 + s % 8) as u8) as char
}

pub open spec fn rank_char(s: u8) -> char {
    ((49 + s / 8) as u8) as char
}

/// "+" when `m` gives check, "#" when it mates, nothing otherwise.
pub open spec fn suffix_text(p: Position, m: Move) -> Seq<char> {
    let q = spec_make_move(p, m);
    if attacked(q, king_of(q, q.side), q.side.spec_opp()) {
        if no_legal_move(q) {
            seq!['#']
        } else {
            seq!['+']
        }
    } else {
        seq![]
    }
}

/// Another legal move of a piece of the same kind to the same square.
pub open spec fn rival(p: Position, m: Move, k: PieceKind, m2: Move) -> bool {
    legal(p, m2) && m2.to == m.to && m2.from != m.from && p.squares[m2.from as int] is Some
        && p.squares[m2.from as int]->0.kind == k
}

/// Disambiguation: nothing without a rival; else the from-file when no rival
/// shares it, else the from-rank when no rival shares that, else both.
pub open spec fn disambiguation(p: Position, m: Move, k: PieceKind) -> Seq<char> {
    if !(exists|m2: Move| #[trigger] rival(p, m, k, m2)) {
        seq![]
    } else if !(exists|m2: Move| #[trigger] rival(p, m, k, m2) && m2.from % 8 == m.from % 8) {
        seq![file_char(m.from)]
    } else if !(exists|m2: Move| #[trigger] rival(p, m, k, m2) && m2.from / 8 == m.from / 8) {
        seq![rank_char(m.from)]
    } else {
        seq![file_char(m.from), rank_char(m.from)]
    }
}

pub open spec fn is_capture_move(p: Position, m: Move) -> bool {
    p.squares[m.to as int] is Some || m.flag == Flag::EnPassant
}

/// The SAN of `m` in `p` before the check suffix.
pub open spec fn san_body(p: Position, m: Move, pc: Piece) -> Seq<char> {
    let x = if is_capture_move(p, m) {
        seq!['x']
    } else {
        seq![]
    };
    if pc.kind == PieceKind::Pawn {
        (if is_capture_move(p, m) {
            seq![file_char(m.from), 'x']
        } else {
            seq![]
        }) + square_name(m.to) + match m.promo {
            Some(k) => seq!['=', kind_letter(k)],
            None => seq![],
        }
    } else {
        seq![kind_letter(pc.kind)] + disambiguation(p, m, pc.kind) + x + square_name(m.to)
    }
}

/// The SAN of `m` in `p`.
pub open spec fn san_text(p: Position, m: Move) -> Seq<char> {
    if m.flag == Flag::Castle {
        (if (m.to as int) % 8 == 6 {
            seq!['O', '-', 'O']
        } else {
            seq!['O', '-', 'O', '-', 'O']
        }) + suffix_text(p, m)
    } else {
        match p.squares[m.from as int] {
            None => seq![],
            Some(pc) => san_body(p, m, pc) + suffix_text(p, m),
        }
    }
}

/// What `san` needs: a legal move in a position the move generator can work
/// on, leading to one it can work on too.
pub open spec fn san_ready(p: Position, m: Move) -> bool {
    movegen_ready(p) && legal(p, m) && movegen_ready(spec_make_move(p, m))
}

/// Appends "+" for check, "#" for checkmate, nothing otherwise.
fn push_check_suffix(s: &mut String, b: &Board, mv: Move)
    requires
        san_ready(b@, mv),
    ensures
        final(s)@ == old(s)@ + suffix_text(b@, mv),
{
    proof {
        lemma_king_survives(b@, mv);
    }
    let mut nb = *b;
    nb.make_move(mv);
    let opp = nb.side;
    let ksq = king_square(&nb, opp);
    proof {
        lemma_first_king_unique(nb@, opp, ksq as int, king_of(nb@, opp));
    }
    if is_attacked(&nb, ksq, opp.opp()) {
        let replies = generate_legal(&nb);
        if replies.len() == 0 {
            push_char(s, '#');
            proof {
                assert forall|m: Move| !legal(nb@, m) by {
                    if legal(nb@, m) {
                        assert(replies@.contains(m));
                    }
                }
            }
        } else {
            push_char(s, '+');
            proof {
                assert(replies@.contains(replies@[0]));
            }
        }
    }
}


/// Whether some move in `ms` starts on the file (or, with `by_file` false,
/// the rank) of `from`.
fn shares_line(ms: &Vec<Move>, from: Square, by_file: bool) -> (r: bool)
    ensures
        r == exists|j: int|
            0 <= j < ms@.len() && (if by_file {
                ms@[j].from % 8 == from % 8
            } else {
                ms@[j].from / 8 == from / 8
            }),
{
    let mut i: usize = 0;
    while i < ms.len()
        invariant
            i <= ms@.len(),
            forall|j: int|
                0 <= j < i ==> !(if by_file {
                    #[trigger] ms@[j].from % 8 == from % 8
                } else {
                    ms@[j].from / 8 == from / 8
                }),
        decreases ms@.len() - i,
    {
        let m = ms[i];
        let hit = if by_file {
            m.from % 8 == from % 8
        } else {
            m.from / 8 == from / 8
        };
        if hit {
            return true;
        }
        i = i + 1;
    }
    false
}

/// Appends the from-file and/or from-rank needed to tell `mv` apart from
/// other pieces of the same kind that can also reach its destination.
fn push_disambiguation(s: &mut String, b: &Board, mv: Move, kind: PieceKind)
    requires
        movegen_ready(b@),
        mv.from < 64,
    ensures
        final(s)@ == old(s)@ + disambiguation(b@, mv, kind),
{
    let legal_moves = generate_legal(b);
    let mut others: Vec<Move> = Vec::new();
    let mut i: usize = 0;
    while i < legal_moves.len()
        invariant
            i <= legal_moves@.len(),
            forall|m: Move| legal_moves@.contains(m) <==> legal(b@, m),
            forall|m2: Move|
                #![trigger others@.contains(m2)]
                others@.contains(m2) <==> (legal_moves@.subrange(0, i as int).contains(m2) && m2.to
                    == mv.to && m2.from != mv.from && b@.squares[m2.from as int] is Some
                    && b@.squares[m2.from as int]->0.kind == kind),
        decreases legal_moves@.len() - i,
    {
        let m = legal_moves[i];
        proof {
            assert(legal_moves@.contains(m));
        }
        let ghost before = others@;
        let same_kind = match b.squares[m.from as usize] {
            Some(p) => p.kind == kind,
            None => false,
        };
        if m.to == mv.to && m.from != mv.from && same_kind {
            others.push(m);
        }
        proof {
            assert(legal_moves@.contains(m));
            assert forall|m2: Move|
                #![trigger others@.contains(m2)]
                others@.contains(m2) <==> (legal_moves@.subrange(0, i + 1).contains(m2) && m2.to
                    == mv.to && m2.from != mv.from && b@.squares[m2.from as int] is Some
                    && b@.squares[m2.from as int]->0.kind == kind) by {
                if others@.contains(m2) && !before.contains(m2) {
                    let j = choose|j: int| 0 <= j < others@.len() && others@[j] == m2;
                    if j < before.len() {
                        assert(before[j] == m2);
                    }
                    assert(legal_moves@.subrange(0, i + 1)[i as int] == m2);
                }
                if before.contains(m2) {
                    let j = choose|j: int| 0 <= j < before.len() && before[j] == m2;
                    assert(others@[j] == m2);
                    let k = choose|k: int| 0 <= k < i && #[trigger] legal_moves@.subrange(0, i as int)[k] == m2;
                    assert(legal_moves@.subrange(0, i + 1)[k] == m2);
                }
                if legal_moves@.subrange(0, i + 1).contains(m2) {
                    let k = choose|k: int| 0 <= k < i + 1 && #[trigger] legal_moves@.subrange(0, i + 1)[k] == m2;
                    if k < i {
                        assert(legal_moves@.subrange(0, i as int)[k] == m2);
                    } else if m2.to == mv.to && m2.from != mv.from && b@.squares[m2.from as int] is Some
                        && b@.squares[m2.from as int]->0.kind == kind {
                        assert(others@[others@.len() - 1] == m2);
                    }
                }
            }
        }
        i = i + 1;
    }
    proof {
        assert(legal_moves@.subrange(0, i as int) =~= legal_moves@);
        assert forall|m2: Move| others@.contains(m2) <==> rival(b@, mv, kind, m2) by {}
    }
    if others.len() > 0 {
        let same_file = shares_line(&others, mv.from, true);
        let same_rank = shares_line(&others, mv.from, false);
        proof {
            assert(others@.contains(others@[0]));
            assert(rival(b@, mv, kind, others@[0]));
            if same_file {
                let j = choose|j: int| 0 <= j < others@.len() && others@[j].from % 8 == mv.from % 8;
                assert(others@.contains(others@[j]));
                assert(rival(b@, mv, kind, others@[j]));
            } else {
                assert forall|m2: Move| !(#[trigger] rival(b@, mv, kind, m2) && m2.from % 8 == mv.from % 8) by {
                    if rival(b@, mv, kind, m2) {
                        assert(others@.contains(m2));
                        let j = choose|j: int| 0 <= j < others@.len() && others@[j] == m2;
                    }
                }
            }
            if same_rank {
                let j = choose|j: int| 0 <= j < others@.len() && others@[j].from / 8 == mv.from / 8;
                assert(others@.contains(others@[j]));
                assert(rival(b@, mv, kind, others@[j]));
            } else {
                assert forall|m2: Move| !(#[trigger] rival(b@, mv, kind, m2) && m2.from / 8 == mv.from / 8) by {
                    if rival(b@, mv, kind, m2) {
                        assert(others@.contains(m2));
                        let j = choose|j: int| 0 <= j < others@.len() && others@[j] == m2;
                    }
                }
            }
        }
        let fc = (97u8 + mv.from % 8) as char;
        let rc = (49u8 + mv.from / 8) as char;
        if !same_file {
            push_char(s, fc);
        } else if !same_rank {
            push_char(s, rc);
        } else {
            push_char(s, fc);
            push_char(s, rc);
        }
    } else {
        proof {
            assert forall|m2: Move| !#[trigger] rival(b@, mv, kind, m2) by {
                if rival(b@, mv, kind, m2) {
                    assert(others@.contains(m2));
                }
            }
        }
    }
    proof {
        assert(final(s)@ =~= old(s)@ + disambiguation(b@, mv, kind));
    }
}

/// Render `mv` (a legal move in `b`) as SAN.
pub fn san(b: &Board, mv: Move) -> (out: String)
    requires
        san_ready(b@, mv),
    ensures
        out@ == san_text(b@, mv),
{
    if mv.flag == Flag::Castle {
        let mut out = String::new();
        push_char(&mut out, 'O');
        push_char(&mut out, '-');
        push_char(&mut out, 'O');
        if file_of(mv.to) != 6 {
            push_char(&mut out, '-');
            push_char(&mut out, 'O');
        }
        let ghost base = out@;
        push_check_suffix(&mut out, b, mv);
        proof {
            if (mv.to as int) % 8 == 6 {
                assert(base =~= seq!['O', '-', 'O']);
            } else {
                assert(base =~= seq!['O', '-', 'O', '-', 'O']);
            }
        }
        return out;
    }
    let piece = match b.squares[mv.from as usize] {
        Some(p) => p,
        None => return String::new(),
    };
    let is_capture = b.squares[mv.to as usize].is_some() || mv.flag == Flag::EnPassant;
    let mut out = String::new();
    if piece.kind == PieceKind::Pawn {
        if is_capture {
            push_char(&mut out, (97u8 + mv.from % 8) as char);
            push_char(&mut out, 'x');
        }
        let name = sq_to_algebraic(mv.to);
        out.append(name.as_str());
        if let Some(k) = mv.promo {
            push_char(&mut out, '=');
            push_char(&mut out, piece_letter(k));
        }
        proof {
            assert(out@ =~= san_body(b@, mv, piece));
        }
    } else {
        push_char(&mut out, piece_letter(piece.kind));
        push_disambiguation(&mut out, b, mv, piece.kind);
        if is_capture {
            push_char(&mut out, 'x');
        }
        let name = sq_to_algebraic(mv.to);
        out.append(name.as_str());
        proof {
            assert(out@ =~= san_body(b@, mv, piece));
        }
    }
    push_check_suffix(&mut out, b, mv);
    out
}


proof fn lemma_char_codes(a: u8, b: u8)
    requires
        a < 64,
        b < 64,
    ensures
        file_char(a) == file_char(b) <==> a % 8 == b % 8,
        rank_char(a) == rank_char(b) <==> a / 8 == b / 8,
        file_char(a) != rank_char(b),
{
    assert((((97 + a % 8) as u8) as char) as u32 == (97 + a % 8) as u32);
    assert((((97 + b % 8) as u8) as char) as u32 == (97 + b % 8) as u32);
    assert((((49 + a / 8) as u8) as char) as u32 == (49 + a / 8) as u32);
    assert((((49 + b / 8) as u8) as char) as u32 == (49 + b / 8) as u32);
}

/// SAN names a piece move unambiguously: when two pieces of the same kind
/// (not pawns) have legal moves to the same square, the two moves are
/// written differently — the from-file tells them apart when the files
/// differ, else the from-rank.
pub proof fn law_san_disambiguates(p: Position, m1: Move, m2: Move)
    requires
        legal(p, m1),
        legal(p, m2),
        m1.to == m2.to,
        m1.from != m2.from,
        m1.flag != Flag::Castle,
        m2.flag != Flag::Castle,
        p.squares[m1.from as int]->0.kind == p.squares[m2.from as int]->0.kind,
        p.squares[m1.from as int]->0.kind != PieceKind::Pawn,
    ensures
        san_text(p, m1) != san_text(p, m2),
        m1.from % 8 == m2.from % 8 ==> san_text(p, m1)[1] == rank_char(m1.from) || san_text(p, m1)[2] == rank_char(
            m1.from,
        ),
{
    let pc1 = p.squares[m1.from as int]->0;
    let pc2 = p.squares[m2.from as int]->0;
    let k = pc1.kind;
    lemma_char_codes(m1.from, m2.from);
    lemma_char_codes(m1.from, m1.from);
    lemma_char_codes(m2.from, m2.from);
    lemma_char_codes(m2.from, m1.from);
    assert(rival(p, m1, k, m2));
    assert(rival(p, m2, k, m1));
    let d1 = disambiguation(p, m1, k);
    let d2 = disambiguation(p, m2, k);
    let t1 = san_text(p, m1);
    let t2 = san_text(p, m2);
    let x1 = if is_capture_move(p, m1) { seq!['x'] } else { seq![] };
    let x2 = if is_capture_move(p, m2) { seq!['x'] } else { seq![] };
    assert(t1 == seq![kind_letter(k)] + d1 + x1 + square_name(m1.to) + suffix_text(p, m1));
    assert(t2 == seq![kind_letter(k)] + d2 + x2 + square_name(m2.to) + suffix_text(p, m2));
    assert(d1.len() >= 1 && d2.len() >= 1);
    assert(t1[1] == d1[0]);
    assert(t2[1] == d2[0]);
    if d1.len() == 2 {
        assert(t1[2] == d1[1]);
    }
    if d2.len() == 2 {
        assert(t2[2] == d2[1]);
    }
    if d1.len() == 2 && d2.len() == 2 && d1[0] == d2[0] {
        assert(m1.from / 8 != m2.from / 8);
        assert(t1[2] != t2[2]);
    } else {
        assert(d1[0] != d2[0]);
        assert(t1[1] != t2[1]);
    }
}
} // verus!
