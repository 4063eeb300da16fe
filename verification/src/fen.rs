//! FEN parsing and formatting.
use vstd::prelude::*;
use vstd::string::StringExecFns;
use vstd::utf8::encode_utf8;
use crate::board::{sq, Board, Color, Piece, PieceKind, Position, Square, CASTLE_BK, CASTLE_BQ, CASTLE_WK, CASTLE_WQ};
use crate::text::{chars_of, decimal, push_char, push_decimal};

verus! {

/// Standard starting position.
pub const STARTPOS_FEN: &'static str = "rnbqkbnr/pppppppp/8/8/8/8/PPPPPPPP/RNBQKBNR w KQkq - 0 1";

// ---------------------------------------------------------------------------
// Characters
// ---------------------------------------------------------------------------

/// `char::is_whitespace`: the characters with the Unicode White_Space property.
pub open spec fn is_ws(c: char) -> bool {
    let u = c as u32;
    (9 <= u <= 13) || u == 32 || u == 0x85 || u == 0xA0 || u == 0x1680 || (0x2000 <= u <= 0x200A)
        || u == 0x2028 || u == 0x2029 || u == 0x202F || u == 0x205F || u == 0x3000
}

pub fn is_whitespace(c: char) -> (b: bool)
    ensures
        b == is_ws(c),
{
    let u = c as u32;
    (9 <= u && u <= 13) || u == 32 || u == 0x85 || u == 0xA0 || u == 0x1680 || (0x2000 <= u && u
        <= 0x200A) || u == 0x2028 || u == 0x2029 || u == 0x202F || u == 0x205F || u == 0x3000
}

pub open spec fn is_digit(c: char) -> bool {
    48 <= (c as u32) <= 57
}

pub open spec fn digit_value(c: char) -> int {
    (c as u32) - 48
}

/// The FEN letter of a piece: upper case for White, lower case for Black.
pub open spec fn fen_char(p: Piece) -> char {
    match p.kind {
        PieceKind::Pawn => if p.color == Color::White { 'P' } else { 'p' },
        PieceKind::Knight => if p.color == Color::White { 'N' } else { 'n' },
        PieceKind::Bishop => if p.color == Color::White { 'B' } else { 'b' },
        PieceKind::Rook => if p.color == Color::White { 'R' } else { 'r' },
        PieceKind::Queen => if p.color == Color::White { 'Q' } else { 'q' },
        PieceKind::King => if p.color == Color::White { 'K' } else { 'k' },
    }
}

/// The piece a FEN letter stands for, if it is one.
pub open spec fn fen_piece(c: char) -> Option<Piece> {
    let w = Color::White;
    let b = Color::Black;
    if c == 'P' {
        Some(Piece { color: w, kind: PieceKind::Pawn })
    } else if c == 'N' {
        Some(Piece { color: w, kind: PieceKind::Knight })
    } else if c == 'B' {
        Some(Piece { color: w, kind: PieceKind::Bishop })
    } else if c == 'R' {
        Some(Piece { color: w, kind: PieceKind::Rook })
    } else if c == 'Q' {
        Some(Piece { color: w, kind: PieceKind::Queen })
    } else if c == 'K' {
        Some(Piece { color: w, kind: PieceKind::King })
    } else if c == 'p' {
        Some(Piece { color: b, kind: PieceKind::Pawn })
    } else if c == 'n' {
        Some(Piece { color: b, kind: PieceKind::Knight })
    } else if c == 'b' {
        Some(Piece { color: b, kind: PieceKind::Bishop })
    } else if c == 'r' {
        Some(Piece { color: b, kind: PieceKind::Rook })
    } else if c == 'q' {
        Some(Piece { color: b, kind: PieceKind::Queen })
    } else if c == 'k' {
        Some(Piece { color: b, kind: PieceKind::King })
    } else {
        None
    }
}

/// The piece for a FEN letter (upper case = White).
pub fn char_to_piece(ch: char) -> (p: Piece)
    requires
        fen_piece(ch) is Some,
    ensures
        p == fen_piece(ch)->0,
{
    let u = ch as u32;
    let color = if 65 <= u && u <= 90 {
        Color::White
    } else {
        Color::Black
    };
    let kind = if ch == 'p' || ch == 'P' {
        PieceKind::Pawn
    } else if ch == 'n' || ch == 'N' {
        PieceKind::Knight
    } else if ch == 'b' || ch == 'B' {
        PieceKind::Bishop
    } else if ch == 'r' || ch == 'R' {
        PieceKind::Rook
    } else if ch == 'q' || ch == 'Q' {
        PieceKind::Queen
    } else {
        PieceKind::King
    };
    Piece { color, kind }
}

/// The FEN letter for a piece.
pub fn piece_to_char(p: Piece) -> (c: char)
    ensures
        c == fen_char(p),
{
    let white = p.color == Color::White;
    match p.kind {
        PieceKind::Pawn => if white { 'P' } else { 'p' },
        PieceKind::Knight => if white { 'N' } else { 'n' },
        PieceKind::Bishop => if white { 'B' } else { 'b' },
        PieceKind::Rook => if white { 'R' } else { 'r' },
        PieceKind::Queen => if white { 'Q' } else { 'q' },
        PieceKind::King => if white { 'K' } else { 'k' },
    }
}

// ---------------------------------------------------------------------------
// Squares in algebraic notation
// ---------------------------------------------------------------------------

/// The name of a square, file letter then rank digit ("e3").
pub open spec fn square_name(s: u8) -> Seq<char> {
    seq![((97 + s % 8) as u8) as char, ((49 + s / 8) as u8) as char]
}

/// The bytes of a square name can be read back without underflow.
pub open spec fn alg_ok(b: Seq<u8>) -> bool {
    b.len() >= 2 && b[0] >= 97 && b[1] >= 49
}

/// The square named by the first two bytes.
pub open spec fn alg_square(b: Seq<u8>) -> u8 {
    ((b[1] - 49) * 8 + (b[0] - 97)) as u8
}

/// Convert e.g. "e3" to a square index.
pub fn algebraic_to_sq(a: &str) -> (s: Square)
    requires
        alg_ok(encode_utf8(a@)),
    ensures
        s == alg_square(encode_utf8(a@)),
{
    let bytes = a.as_bytes();
    let file = (bytes[0] - 97u8) as i32;
    let rank = (bytes[1] - 49u8) as i32;
    sq(file, rank)
}

/// Convert a square index to e.g. "e3".
pub fn sq_to_algebraic(s: Square) -> (name: String)
    ensures
        name@ == square_name(s),
{
    let file = (97u8 + s % 8) as char;
    let rank = (49u8 + s / 8) as char;
    let mut name = String::new();
    push_char(&mut name, file);
    push_char(&mut name, rank);
    proof {
        assert(name@ =~= square_name(s));
    }
    name
}


// ---------------------------------------------------------------------------
// Formatting
// ---------------------------------------------------------------------------

/// The run-length text of rank `r` from file `f` on, with `empty` empty
/// squares already counted before file `f`.
pub open spec fn row_text(sq: Seq<Option<Piece>>, r: int, f: int, empty: nat) -> Seq<char>
    decreases 8 - f,
{
    if f >= 8 {
        if empty > 0 {
            decimal(empty)
        } else {
            seq![]
        }
    } else {
        match sq[r * 8 + f] {
            Some(p) => (if empty > 0 {
                decimal(empty)
            } else {
                seq![]
            }).push(fen_char(p)) + row_text(sq, r, f + 1, 0),
            None => row_text(sq, r, f + 1, empty + 1),
        }
    }
}

/// The piece-placement field for ranks `r` down to 1, separated by '/'.
pub open spec fn board_text(sq: Seq<Option<Piece>>, r: int) -> Seq<char>
    decreases r,
{
    if r <= 0 {
        row_text(sq, 0, 0, 0)
    } else {
        row_text(sq, r, 0, 0).push('/') + board_text(sq, r - 1)
    }
}

/// The castling field: "-" when no right remains, else the held rights in
/// the order K, Q, k, q.
pub open spec fn castle_text(c: u8) -> Seq<char> {
    if c == 0 {
        seq!['-']
    } else {
        (if c & 1 != 0 {
            seq!['K']
        } else {
            seq![]
        }) + (if c & 2 != 0 {
            seq!['Q']
        } else {
            seq![]
        }) + (if c & 4 != 0 {
            seq!['k']
        } else {
            seq![]
        }) + (if c & 8 != 0 {
            seq!['q']
        } else {
            seq![]
        })
    }
}

pub open spec fn ep_text(ep: Option<u8>) -> Seq<char> {
    match ep {
        Some(e) => square_name(e),
        None => seq!['-'],
    }
}

/// The FEN text of a position: the six fields separated by single spaces.
pub open spec fn fen_text(p: Position) -> Seq<char> {
    board_text(p.squares, 7) + seq![' ', if p.side == Color::White { 'w' } else { 'b' }, ' ']
        + castle_text(p.castling) + seq![' '] + ep_text(p.ep) + seq![' '] + decimal(
        p.halfmove as nat,
    ) + seq![' '] + decimal(p.fullmove as nat)
}

/// Appends the run-length text of rank `rank` to `s`.
fn push_row(s: &mut String, b: &Board, rank: i32)
    requires
        0 <= rank < 8,
    ensures
        final(s)@ == old(s)@ + row_text(b@.squares, rank as int, 0, 0),
{
    let ghost target = old(s)@ + row_text(b@.squares, rank as int, 0, 0);
    let mut empty: u32 = 0;
    let mut file: i32 = 0;
    while file < 8
        invariant
            0 <= rank < 8,
            0 <= file <= 8,
            empty <= file,
            s@ + row_text(b@.squares, rank as int, file as int, empty as nat) == target,
        decreases 8 - file,
    {
        let ghost before = s@;
        match b.squares[sq(file, rank) as usize] {
            Some(p) => {
                if empty > 0 {
                    push_decimal(s, empty as u64);
                    empty = 0;
                }
                push_char(s, piece_to_char(p));
            },
            None => {
                empty = empty + 1;
            },
        }
        file = file + 1;
    }
    if empty > 0 {
        push_decimal(s, empty as u64);
    }
    proof {
        assert(s@ =~= target);
    }
}

/// Appends the piece-placement field of `b` to `s`.
fn push_board(s: &mut String, b: &Board)
    ensures
        final(s)@ == old(s)@ + board_text(b@.squares, 7),
{
    let ghost start = old(s)@;
    let mut rank: i32 = 7;
    while rank >= 0
        invariant
            -1 <= rank <= 7,
            s@ + (if rank >= 0 {
                board_text(b@.squares, rank as int)
            } else {
                seq![]
            }) == start + board_text(b@.squares, 7),
        decreases rank + 1,
    {
        let ghost before = s@;
        push_row(s, b, rank);
        if rank > 0 {
            push_char(s, '/');
        }
        proof {
            if rank > 0 {
                assert(s@ + board_text(b@.squares, rank - 1) =~= before + board_text(
                    b@.squares,
                    rank as int,
                ));
            } else {
                assert(s@ =~= before + board_text(b@.squares, rank as int));
            }
        }
        rank = rank - 1;
    }
    proof {
        assert(s@ =~= start + board_text(b@.squares, 7));
    }
}

/// Appends the castling field for rights `c` to `s`.
fn push_castling(s: &mut String, c: u8)
    ensures
        final(s)@ == old(s)@ + castle_text(c),
{
    let ghost start = old(s)@;
    if c == 0 {
        push_char(s, '-');
    } else {
        if c & CASTLE_WK != 0 {
            push_char(s, 'K');
        }
        if c & CASTLE_WQ != 0 {
            push_char(s, 'Q');
        }
        if c & CASTLE_BK != 0 {
            push_char(s, 'k');
        }
        if c & CASTLE_BQ != 0 {
            push_char(s, 'q');
        }
    }
    proof {
        assert(s@ =~= start + castle_text(c));
    }
}

/// Format a `Board` back into a FEN string.
pub fn to_fen(b: &Board) -> (s: String)
    ensures
        s@ == fen_text(b@),
{
    let mut s = String::new();
    push_board(&mut s, b);
    let ghost board_part = s@;
    push_char(&mut s, ' ');
    push_char(&mut s, if b.side == Color::White { 'w' } else { 'b' });
    push_char(&mut s, ' ');
    let ghost side_part = s@;
    push_castling(&mut s, b.castling);
    let ghost castle_part = s@;
    push_char(&mut s, ' ');
    match b.ep {
        Some(e) => {
            let name = sq_to_algebraic(e);
            s.append(name.as_str());
        },
        None => push_char(&mut s, '-'),
    }
    let ghost ep_part = s@;
    push_char(&mut s, ' ');
    push_decimal(&mut s, b.halfmove as u64);
    let ghost half_part = s@;
    push_char(&mut s, ' ');
    push_decimal(&mut s, b.fullmove as u64);
    proof {
        let side_c = if b.side == Color::White { 'w' } else { 'b' };
        assert(side_part =~= board_text(b@.squares, 7) + seq![' ', side_c, ' ']);
        assert(ep_part =~= castle_part + seq![' '] + ep_text(b.ep));
        assert(s@ =~= fen_text(b@));
    }
    s
}

// ---------------------------------------------------------------------------
// Parsing
// ---------------------------------------------------------------------------

/// `str::split_whitespace`: the maximal runs of non-whitespace characters.
pub open spec fn split_ws(s: Seq<char>) -> Seq<Seq<char>>
    decreases s.len(),
{
    if s.len() == 0 {
        seq![]
    } else {
        let rest = split_ws(s.drop_last());
        let c = s.last();
        if is_ws(c) {
            rest
        } else if s.len() >= 2 && !is_ws(s[s.len() - 2]) {
            rest.update(rest.len() - 1, rest.last().push(c))
        } else {
            rest.push(seq![c])
        }
    }
}

/// Reading the placement field: the squares so far, the index of the current
/// '/'-separated row (row 0 is rank 8), and the file within it.
pub struct RowsState {
    pub squares: Seq<Option<Piece>>,
    pub row: int,
    pub file: int,
}

pub open spec fn rows_start() -> RowsState {
    RowsState { squares: Seq::new(64, |i: int| None), row: 0, file: 0 }
}

/// One character of the placement field: '/' starts the next row, a digit
/// skips that many files, a piece letter is placed at (file, 7 - row) and
/// moves one file on. `None` when the character is none of these, when the
/// arithmetic leaves `i32`, or when the index falls outside the board.
pub open spec fn rows_step(st: RowsState, c: char) -> Option<RowsState> {
    if c == '/' {
        Some(RowsState { squares: st.squares, row: st.row + 1, file: 0 })
    } else if is_digit(c) {
        if st.file + digit_value(c) <= i32::MAX {
            Some(RowsState { squares: st.squares, row: st.row, file: st.file + digit_value(c) })
        } else {
            None
        }
    } else {
        match fen_piece(c) {
            None => None,
            Some(pc) => {
                let rank = 7 - st.row;
                let idx = rank * 8 + st.file;
                if i32::MIN <= rank * 8 && i32::MIN <= idx <= i32::MAX && (idx as u8) < 64
                    && st.file + 1 <= i32::MAX {
                    Some(
                        RowsState {
                            squares: st.squares.update((idx as u8) as int, Some(pc)),
                            row: st.row,
                            file: st.file + 1,
                        },
                    )
                } else {
                    None
                }
            },
        }
    }
}

pub open spec fn rows_fold(cs: Seq<char>) -> Option<RowsState>
    decreases cs.len(),
{
    if cs.len() == 0 {
        Some(rows_start())
    } else {
        match rows_fold(cs.drop_last()) {
            Some(st) => rows_step(st, cs.last()),
            None => None,
        }
    }
}

/// The rights named by the castling field; other characters are ignored.
pub open spec fn castle_bits(cs: Seq<char>) -> u8
    decreases cs.len(),
{
    if cs.len() == 0 {
        0
    } else {
        let b = castle_bits(cs.drop_last());
        let c = cs.last();
        if c == 'K' {
            b | 1
        } else if c == 'Q' {
            b | 2
        } else if c == 'k' {
            b | 4
        } else if c == 'q' {
            b | 8
        } else {
            b
        }
    }
}

/// The value of a run of decimal digits, if every character is one.
pub open spec fn digits_value(cs: Seq<char>) -> Option<nat>
    decreases cs.len(),
{
    if cs.len() == 0 {
        Some(0)
    } else {
        match digits_value(cs.drop_last()) {
            Some(v) => if is_digit(cs.last()) {
                Some(v * 10 + digit_value(cs.last()) as nat)
            } else {
                None
            },
            None => None,
        }
    }
}

/// `u16::from_str`: an optional '+', then at least one digit, no overflow.
pub open spec fn parse_u16(cs: Seq<char>) -> Option<u16> {
    let ds = if cs.len() > 0 && cs[0] == '+' {
        cs.drop_first()
    } else {
        cs
    };
    if ds.len() == 0 {
        None
    } else {
        match digits_value(ds) {
            Some(v) => if v <= u16::MAX {
                Some(v as u16)
            } else {
                None
            },
            None => None,
        }
    }
}

/// The inputs `parse_fen` accepts: at least four whitespace-separated fields,
/// a placement field it can read, and an en-passant field that is "-" or
/// starts with a file letter and a rank digit (by bytes).
pub open spec fn fen_ok(s: Seq<char>) -> bool {
    let f = split_ws(s);
    &&& f.len() >= 4
    &&& rows_fold(f[0]) is Some
    &&& f[1] == seq!['w'] || f[1] == seq!['b']
    &&& f[3] != seq!['-'] ==> alg_ok(encode_utf8(f[3]))
}

/// The position a FEN describes. The side is White for "w" and Black for "b"; missing
/// or unreadable clocks read as 0 and 1.
pub open spec fn fen_position(s: Seq<char>) -> Position {
    let f = split_ws(s);
    Position {
        squares: rows_fold(f[0])->0.squares,
        side: if f[1] == seq!['w'] {
            Color::White
        } else {
            Color::Black
        },
        castling: castle_bits(f[2]),
        ep: if f[3] == seq!['-'] {
            None
        } else {
            Some(alg_square(encode_utf8(f[3])))
        },
        halfmove: if f.len() > 4 && parse_u16(f[4]) is Some {
            parse_u16(f[4])->0
        } else {
            0
        },
        fullmove: if f.len() > 5 && parse_u16(f[5]) is Some {
            parse_u16(f[5])->0
        } else {
            1
        },
    }
}

/// The (start, end) ranges of the whitespace-separated fields of `cs`.
fn split_fields(cs: &Vec<char>) -> (r: Vec<(usize, usize)>)
    ensures
        r@.len() == split_ws(cs@).len(),
        forall|k: int|
            #![trigger r@[k]]
            0 <= k < r@.len() ==> r@[k].0 <= r@[k].1 <= cs@.len() && cs@.subrange(
                r@[k].0 as int,
                r@[k].1 as int,
            ) == split_ws(cs@)[k],
{
    let mut r: Vec<(usize, usize)> = Vec::new();
    let mut start: usize = 0;
    let mut in_field = false;
    let mut i: usize = 0;
    while i < cs.len()
        invariant
            i <= cs@.len(),
            in_field <==> (i > 0 && !is_ws(cs@[i - 1])),
            in_field ==> start < i && r@.len() + 1 == split_ws(cs@.subrange(0, i as int)).len()
                && cs@.subrange(start as int, i as int) == split_ws(
                cs@.subrange(0, i as int),
            ).last(),
            !in_field ==> r@.len() == split_ws(cs@.subrange(0, i as int)).len(),
            forall|k: int|
                #![trigger r@[k]]
                0 <= k < r@.len() ==> r@[k].0 <= r@[k].1 <= i && cs@.subrange(
                    r@[k].0 as int,
                    r@[k].1 as int,
                ) == split_ws(cs@.subrange(0, i as int))[k],
        decreases cs@.len() - i,
    {
        let c = cs[i];
        let ghost pre = cs@.subrange(0, i as int);
        let ghost sp = split_ws(pre);
        let ghost r_old = r@;
        let ghost was_in = in_field;
        let ghost old_start = start;
        proof {
            assert(cs@.subrange(0, i + 1).drop_last() =~= pre);
            assert(cs@.subrange(0, i + 1).last() == c);
            if i > 0 {
                assert(cs@.subrange(0, i + 1)[i - 1] == cs@[i - 1]);
            }
        }
        if is_whitespace(c) {
            if in_field {
                r.push((start, i));
                in_field = false;
            }
        } else {
            if !in_field {
                start = i;
                in_field = true;
                proof {
                    assert(cs@.subrange(start as int, i + 1) =~= seq![c]);
                }
            } else {
                proof {
                    assert(cs@.subrange(start as int, i + 1) =~= cs@.subrange(start as int, i as int).push(c));
                }
            }
        }
        i = i + 1;
        proof {
            let sp2 = split_ws(cs@.subrange(0, i as int));
            assert(cs@.subrange(0, i as int) =~= cs@.subrange(0, i - 1 + 1));
            assert forall|k: int| #![trigger r@[k]] 0 <= k < r@.len() implies r@[k].0 <= r@[k].1 <= i
                && cs@.subrange(r@[k].0 as int, r@[k].1 as int) == sp2[k] by {
                if k < r_old.len() {
                    assert(r@[k] == r_old[k]);
                    assert(r_old[k].0 <= r_old[k].1 <= i - 1 && cs@.subrange(r_old[k].0 as int, r_old[k].1 as int) == sp[k]);
                    if is_ws(c) {
                        assert(sp2 == sp);
                    } else if was_in {
                        assert(sp2 == sp.update(sp.len() - 1, sp.last().push(c)));
                        assert(sp2[k] == sp[k]);
                    } else {
                        assert(sp2 == sp.push(seq![c]));
                        assert(sp2[k] == sp[k]);
                    }
                } else {
                    assert(was_in && is_ws(c));
                    assert(r@[k] == (old_start, (i - 1) as usize));
                    assert(sp2 == sp);
                    assert(sp2[k] == sp.last());
                }
            }
        }
    }
    let ghost r_old = r@;
    if in_field {
        r.push((start, i));
    }
    proof {
        assert(cs@.subrange(0, i as int) =~= cs@);
        assert forall|k: int| #![trigger r@[k]] 0 <= k < r@.len() implies r@[k].0 <= r@[k].1 <= cs@.len()
            && cs@.subrange(r@[k].0 as int, r@[k].1 as int) == split_ws(cs@)[k] by {
            if k < r_old.len() {
                assert(r@[k] == r_old[k]);
                assert(r_old[k].0 <= r_old[k].1 <= i && cs@.subrange(r_old[k].0 as int, r_old[k].1 as int) == split_ws(cs@.subrange(0, i as int))[k]);
            } else {
                assert(r@[k] == (start, i));
                assert(split_ws(cs@)[k] == split_ws(cs@).last());
            }
        }
    }
    r
}

proof fn lemma_rows_prefix(cs: Seq<char>, k: int)
    requires
        0 <= k <= cs.len(),
        rows_fold(cs) is Some,
    ensures
        rows_fold(cs.subrange(0, k)) is Some,
    decreases cs.len(),
{
    if k < cs.len() {
        lemma_rows_prefix(cs.drop_last(), k);
        assert(cs.drop_last().subrange(0, k) =~= cs.subrange(0, k));
    } else {
        assert(cs.subrange(0, k) =~= cs);
    }
}

proof fn lemma_digits_prefix(cs: Seq<char>, k: int)
    requires
        0 <= k <= cs.len(),
        digits_value(cs) is Some,
    ensures
        digits_value(cs.subrange(0, k)) is Some,
    decreases cs.len(),
{
    if k < cs.len() {
        lemma_digits_prefix(cs.drop_last(), k);
        assert(cs.drop_last().subrange(0, k) =~= cs.subrange(0, k));
    } else {
        assert(cs.subrange(0, k) =~= cs);
    }
}

/// Reads the placement field `cs[s..e]` into the 64 squares.
fn parse_rows(cs: &Vec<char>, s: usize, e: usize) -> (squares: [Option<Piece>; 64])
    requires
        s <= e <= cs@.len(),
        rows_fold(cs@.subrange(s as int, e as int)) is Some,
    ensures
        squares@ == rows_fold(cs@.subrange(s as int, e as int))->0.squares,
{
    let ghost field = cs@.subrange(s as int, e as int);
    let mut squares: [Option<Piece>; 64] = [None; 64];
    let mut row: usize = 0;
    let mut file: i32 = 0;
    let mut j: usize = s;
    proof {
        assert(cs@.subrange(s as int, s as int) =~= Seq::<char>::empty());
        assert(squares@ =~= rows_start().squares);
    }
    while j < e
        invariant
            s <= j <= e <= cs@.len(),
            field == cs@.subrange(s as int, e as int),
            rows_fold(field) is Some,
            row <= j - s,
            rows_fold(cs@.subrange(s as int, j as int)) == Some(
                RowsState { squares: squares@, row: row as int, file: file as int },
            ),
        decreases e - j,
    {
        let c = cs[j];
        proof {
            lemma_rows_prefix(field, j + 1 - s);
            assert(field.subrange(0, j + 1 - s) =~= cs@.subrange(s as int, j + 1));
            assert(cs@.subrange(s as int, j + 1).drop_last() =~= cs@.subrange(s as int, j as int));
            assert(cs@.subrange(s as int, j + 1).last() == c);
        }
        let u = c as u32;
        if c == '/' {
            row = row + 1;
            file = 0;
        } else if 48 <= u && u <= 57 {
            file = file + ((u - 48) as i32);
        } else {
            let pc = char_to_piece(c);
            let rank: i32 = 7 - (row as i32);
            let idx = sq(file, rank);
            squares[idx as usize] = Some(pc);
            file = file + 1;
        }
        j = j + 1;
    }
    proof {
        assert(cs@.subrange(s as int, j as int) =~= field);
    }
    squares
}

/// Reads the castling field `cs[s..e]`.
fn parse_castling(cs: &Vec<char>, s: usize, e: usize) -> (c: u8)
    requires
        s <= e <= cs@.len(),
    ensures
        c == castle_bits(cs@.subrange(s as int, e as int)),
{
    let mut c: u8 = 0;
    let mut j: usize = s;
    proof {
        assert(cs@.subrange(s as int, s as int) =~= Seq::<char>::empty());
    }
    while j < e
        invariant
            s <= j <= e <= cs@.len(),
            c == castle_bits(cs@.subrange(s as int, j as int)),
        decreases e - j,
    {
        let ch = cs[j];
        proof {
            assert(cs@.subrange(s as int, j + 1).drop_last() =~= cs@.subrange(s as int, j as int));
            assert(cs@.subrange(s as int, j + 1).last() == ch);
        }
        if ch == 'K' {
            c = c | CASTLE_WK;
        } else if ch == 'Q' {
            c = c | CASTLE_WQ;
        } else if ch == 'k' {
            c = c | CASTLE_BK;
        } else if ch == 'q' {
            c = c | CASTLE_BQ;
        }
        j = j + 1;
    }
    c
}

/// Reads a clock field `cs[s..e]` as a `u16`, if it is one.
fn parse_clock(cs: &Vec<char>, s: usize, e: usize) -> (v: Option<u16>)
    requires
        s <= e <= cs@.len(),
    ensures
        v == parse_u16(cs@.subrange(s as int, e as int)),
{
    let ghost field = cs@.subrange(s as int, e as int);
    let mut a: usize = s;
    if a < e && cs[a] == '+' {
        a = a + 1;
    }
    proof {
        if field.len() > 0 && field[0] == '+' {
            assert(field.drop_first() =~= cs@.subrange(a as int, e as int));
        } else {
            assert(field =~= cs@.subrange(a as int, e as int));
        }
    }
    if a == e {
        return None;
    }
    let ghost ds = cs@.subrange(a as int, e as int);
    let mut acc: u32 = 0;
    let ghost mut val: nat = 0;
    let mut j: usize = a;
    proof {
        assert(cs@.subrange(a as int, a as int) =~= Seq::<char>::empty());
    }
    while j < e
        invariant
            a <= j <= e <= cs@.len(),
            ds == cs@.subrange(a as int, e as int),
            parse_u16(cs@.subrange(s as int, e as int)) == (if digits_value(ds) is Some
                && digits_value(ds)->0 <= 65535 {
                Some((digits_value(ds)->0) as u16)
            } else {
                None
            }),
            digits_value(cs@.subrange(a as int, j as int)) == Some(val),
            acc == (if val < 65536 {
                val
            } else {
                65536
            }),
        decreases e - j,
    {
        let ch = cs[j];
        proof {
            assert(cs@.subrange(a as int, j + 1).drop_last() =~= cs@.subrange(a as int, j as int));
            assert(cs@.subrange(a as int, j + 1).last() == ch);
        }
        let u = ch as u32;
        if !(48 <= u && u <= 57) {
            proof {
                assert(digits_value(cs@.subrange(a as int, j + 1)) is None);
                if digits_value(ds) is Some {
                    lemma_digits_prefix(ds, j + 1 - a);
                    assert(ds.subrange(0, j + 1 - a) =~= cs@.subrange(a as int, j + 1));
                }
            }
            return None;
        }
        let d = u - 48;
        proof {
            val = val * 10 + d as nat;
        }
        if acc >= 65536 || acc * 10 + d >= 65536 {
            acc = 65536;
        } else {
            acc = acc * 10 + d;
        }
        j = j + 1;
    }
    proof {
        assert(cs@.subrange(a as int, j as int) =~= ds);
    }
    if acc <= 65535 {
        Some(acc as u16)
    } else {
        None
    }
}

/// Field `cs[s..e]` is exactly the one character `ch`.
fn field_is(cs: &Vec<char>, s: usize, e: usize, ch: char) -> (b: bool)
    requires
        s <= e <= cs@.len(),
    ensures
        b == (cs@.subrange(s as int, e as int) == seq![ch]),
{
    let b = e - s == 1 && cs[s] == ch;
    proof {
        if b {
            assert(cs@.subrange(s as int, e as int) =~= seq![ch]);
        } else if e - s == 1 {
            assert(cs@.subrange(s as int, e as int)[0] != seq![ch][0]);
        } else {
            assert(cs@.subrange(s as int, e as int).len() != seq![ch].len());
        }
    }
    b
}

/// Field `cs[s..e]` as a string.
fn field_string(cs: &Vec<char>, s: usize, e: usize) -> (f: String)
    requires
        s <= e <= cs@.len(),
    ensures
        f@ == cs@.subrange(s as int, e as int),
{
    let mut f = String::new();
    let mut j: usize = s;
    while j < e
        invariant
            s <= j <= e <= cs@.len(),
            f@ == cs@.subrange(s as int, j as int),
        decreases e - j,
    {
        push_char(&mut f, cs[j]);
        proof {
            assert(f@ =~= cs@.subrange(s as int, j + 1));
        }
        j = j + 1;
    }
    f
}

/// Parse a FEN string into a `Board`.
pub fn parse_fen(fen: &str) -> (b: Board)
    requires
        fen_ok(fen@),
    ensures
        b@ == fen_position(fen@),
{
    let cs = chars_of(fen);
    let parts = split_fields(&cs);
    let ghost f = split_ws(fen@);
    assert(parts@[0] == parts@[0]);
    let (s0, e0) = parts[0];
    let (s1, e1) = parts[1];
    let (s2, e2) = parts[2];
    let (s3, e3) = parts[3];
    let squares = parse_rows(&cs, s0, e0);
    let side = if field_is(&cs, s1, e1, 'w') {
        Color::White
    } else {
        Color::Black
    };
    let castling = if field_is(&cs, s2, e2, '-') {
        0
    } else {
        parse_castling(&cs, s2, e2)
    };
    proof {
        let dash = seq!['-'];
        assert(dash.drop_last() =~= Seq::<char>::empty());
        assert(castle_bits(Seq::<char>::empty()) == 0);
        assert(castle_bits(dash) == 0);
    }
    let ep = if field_is(&cs, s3, e3, '-') {
        None
    } else {
        let name = field_string(&cs, s3, e3);
        Some(algebraic_to_sq(name.as_str()))
    };
    let halfmove = if parts.len() > 4 {
        let (s4, e4) = parts[4];
        match parse_clock(&cs, s4, e4) {
            Some(v) => v,
            None => 0,
        }
    } else {
        0
    };
    let fullmove = if parts.len() > 5 {
        let (s5, e5) = parts[5];
        match parse_clock(&cs, s5, e5) {
            Some(v) => v,
            None => 1,
        }
    } else {
        1
    };
    Board { squares, side, castling, ep, halfmove, fullmove }
}

/// The piece that starts on file `f` of the back rank.
pub open spec fn back_rank_kind(f: int) -> PieceKind {
    if f == 0 || f == 7 {
        PieceKind::Rook
    } else if f == 1 || f == 6 {
        PieceKind::Knight
    } else if f == 2 || f == 5 {
        PieceKind::Bishop
    } else if f == 3 {
        PieceKind::Queen
    } else {
        PieceKind::King
    }
}

/// What stands on square `i` at the start of a game.
pub open spec fn start_square(i: int) -> Option<Piece> {
    if 0 <= i < 8 {
        Some(Piece { color: Color::White, kind: back_rank_kind(i) })
    } else if 8 <= i < 16 {
        Some(Piece { color: Color::White, kind: PieceKind::Pawn })
    } else if 48 <= i < 56 {
        Some(Piece { color: Color::Black, kind: PieceKind::Pawn })
    } else if 56 <= i < 64 {
        Some(Piece { color: Color::Black, kind: back_rank_kind(i - 56) })
    } else {
        None
    }
}

/// The standard starting position (the one `STARTPOS_FEN` describes).
pub open spec fn start_position() -> Position {
    Position {
        squares: Seq::new(64, |i: int| start_square(i)),
        side: Color::White,
        castling: 15,
        ep: None,
        halfmove: 0,
        fullmove: 1,
    }
}

fn back_rank_piece(f: usize) -> (k: PieceKind)
    ensures
        k == back_rank_kind(f as int),
{
    if f == 0 || f == 7 {
        PieceKind::Rook
    } else if f == 1 || f == 6 {
        PieceKind::Knight
    } else if f == 2 || f == 5 {
        PieceKind::Bishop
    } else if f == 3 {
        PieceKind::Queen
    } else {
        PieceKind::King
    }
}

impl Board {
    /// The standard starting position.
    pub fn startpos() -> (b: Board)
        ensures
            b@ == start_position(),
    {
        let mut b = Board::empty();
        let mut f: usize = 0;
        while f < 8
            invariant
                f <= 8,
                b.side == Color::White,
                b.castling == 0,
                b.ep is None,
                b.halfmove == 0,
                b.fullmove == 1,
                forall|i: int|
                    0 <= i < 64 ==> b.squares@[i] == (if i % 8 < f {
                        start_square(i)
                    } else {
                        None
                    }),
            decreases 8 - f,
        {
            let k = back_rank_piece(f);
            b.squares[f] = Some(Piece { color: Color::White, kind: k });
            b.squares[8 + f] = Some(Piece { color: Color::White, kind: PieceKind::Pawn });
            b.squares[48 + f] = Some(Piece { color: Color::Black, kind: PieceKind::Pawn });
            b.squares[56 + f] = Some(Piece { color: Color::Black, kind: k });
            f = f + 1;
        }
        b.castling = 15;
        proof {
            assert(b@.squares =~= start_position().squares);
        }
        b
    }
}


/// Whether the placement field `cs[s..e]` can be read.
fn rows_readable(cs: &Vec<char>, s: usize, e: usize) -> (r: bool)
    requires
        s <= e <= cs@.len(),
    ensures
        r == rows_fold(cs@.subrange(s as int, e as int)) is Some,
{
    let ghost field = cs@.subrange(s as int, e as int);
    let mut row: i128 = 0;
    let mut file: i128 = 0;
    let ghost mut squares: Seq<Option<Piece>> = rows_start().squares;
    let mut j: usize = s;
    proof {
        assert(cs@.subrange(s as int, s as int) =~= Seq::<char>::empty());
    }
    while j < e
        invariant
            s <= j <= e <= cs@.len(),
            field == cs@.subrange(s as int, e as int),
            0 <= row <= j - s,
            0 <= file <= i32::MAX,
            rows_fold(cs@.subrange(s as int, j as int)) == Some(
                RowsState { squares, row: row as int, file: file as int },
            ),
        decreases e - j,
    {
        let c = cs[j];
        let ghost prev = cs@.subrange(s as int, j as int);
        proof {
            assert(cs@.subrange(s as int, j + 1).drop_last() =~= prev);
            assert(cs@.subrange(s as int, j + 1).last() == c);
        }
        let u = c as u32;
        if c == '/' {
            row = row + 1;
            file = 0;
        } else if 48 <= u && u <= 57 {
            let nf = file + (u - 48) as i128;
            if nf > i32::MAX as i128 {
                proof {
                    assert(rows_fold(cs@.subrange(s as int, j + 1)) is None);
                    if rows_fold(field) is Some {
                        lemma_rows_prefix(field, j + 1 - s);
                        assert(field.subrange(0, j + 1 - s) =~= cs@.subrange(s as int, j + 1));
                    }
                }
                return false;
            }
            file = nf;
        } else {
            let known = c == 'P' || c == 'N' || c == 'B' || c == 'R' || c == 'Q' || c == 'K' || c == 'p'
                || c == 'n' || c == 'b' || c == 'r' || c == 'q' || c == 'k';
            let rank: i128 = 7 - row;
            let idx: i128 = rank * 8 + file;
            let ok = known && (i32::MIN as i128) <= rank * 8 && (i32::MIN as i128) <= idx && idx <= (
            i32::MAX as i128) && (idx as u8) < 64 && file + 1 <= (i32::MAX as i128);
            if !ok {
                proof {
                    assert(rows_fold(cs@.subrange(s as int, j + 1)) is None);
                    if rows_fold(field) is Some {
                        lemma_rows_prefix(field, j + 1 - s);
                        assert(field.subrange(0, j + 1 - s) =~= cs@.subrange(s as int, j + 1));
                    }
                }
                return false;
            }
            proof {
                squares = squares.update((idx as u8) as int, fen_piece(c));
            }
            file = file + 1;
        }
        j = j + 1;
    }
    proof {
        assert(cs@.subrange(s as int, j as int) =~= field);
    }
    true
}

/// Whether `parse_fen` accepts `fen` (see `fen_ok`).
pub fn fen_valid(fen: &str) -> (r: bool)
    ensures
        r == fen_ok(fen@),
{
    let cs = chars_of(fen);
    let parts = split_fields(&cs);
    if parts.len() < 4 {
        return false;
    }
    let (s0, e0) = parts[0];
    let (s1, e1) = parts[1];
    let (s3, e3) = parts[3];
    if !rows_readable(&cs, s0, e0) {
        return false;
    }
    if !(field_is(&cs, s1, e1, 'w') || field_is(&cs, s1, e1, 'b')) {
        return false;
    }
    if field_is(&cs, s3, e3, '-') {
        return true;
    }
    let name = field_string(&cs, s3, e3);
    let b = name.as_str().as_bytes();
    b.len() >= 2 && b[0] >= 97 && b[1] >= 49
}

} // verus!
