//! Reading back what was written: the FEN text of a position parses to the
//! same position.
use vstd::prelude::*;
use vstd::utf8::encode_utf8;
use crate::board::{Color, Piece, PieceKind, Position};
use crate::fen::{
    alg_ok, alg_square, board_text, castle_bits, castle_text, digit_value, digits_value, ep_text,
    fen_char, fen_ok, fen_piece, fen_position, fen_text, is_digit, is_ws, parse_u16, row_text, rows_fold,
    rows_start, rows_step, split_ws, square_name, RowsState,
};
use crate::text::{decimal, digit_char};
use crate::rules::{kingside_right, queenside_right};

verus! {

/// No character of `s` is whitespace.
pub open spec fn no_ws(s: Seq<char>) -> bool {
    forall|i: int| 0 <= i < s.len() ==> !is_ws(#[trigger] s[i])
}

/// Every character of `s` is a decimal digit.
pub open spec fn all_digits(s: Seq<char>) -> bool {
    forall|i: int| 0 <= i < s.len() ==> is_digit(#[trigger] s[i])
}

proof fn lemma_digit_char(d: int)
    requires
        0 <= d < 10,
    ensures
        is_digit(digit_char(d)),
        digit_value(digit_char(d)) == d,
        !is_ws(digit_char(d)),
        digit_char(d) != '+',
        digit_char(d) != '/',
{
    assert(((d + 48) as u8) as char as u32 == d + 48);
}

proof fn lemma_decimal(n: nat)
    ensures
        decimal(n).len() > 0,
        all_digits(decimal(n)),
        no_ws(decimal(n)),
        decimal(n)[0] != '+',
        digits_value(decimal(n)) == Some(n),
    decreases n,
{
    if n < 10 {
        lemma_digit_char(n as int);
        assert(decimal(n) == seq![digit_char(n as int)]);
        assert(decimal(n).drop_last() =~= Seq::<char>::empty());
        assert(digits_value(Seq::<char>::empty()) == Some(0nat));
        assert(decimal(n).last() == digit_char(n as int));
        assert(digits_value(decimal(n)) == Some(0nat * 10 + digit_value(digit_char(n as int)) as nat));
    } else {
        lemma_decimal(n / 10);
        lemma_digit_char((n % 10) as int);
        let d = decimal(n);
        assert(d == decimal(n / 10).push(digit_char((n % 10) as int)));
        assert(d.drop_last() =~= decimal(n / 10));
        assert(d[0] == decimal(n / 10)[0]);
        assert forall|i: int| 0 <= i < d.len() implies is_digit(#[trigger] d[i]) && !is_ws(d[i]) by {
            if i < d.len() - 1 {
                assert(d[i] == decimal(n / 10)[i]);
            }
        }
        assert(n == (n / 10) * 10 + n % 10);
        assert(d.last() == digit_char((n % 10) as int));
        assert(digits_value(d) == Some((n / 10) * 10 + digit_value(digit_char((n % 10) as int)) as nat));
    }
}

/// A number written in decimal reads back as itself.
proof fn lemma_parse_decimal(n: u16)
    ensures
        parse_u16(decimal(n as nat)) == Some(n),
        decimal(n as nat).len() > 0,
        no_ws(decimal(n as nat)),
{
    lemma_decimal(n as nat);
}

/// The last field after a space is split off as a field of its own.
proof fn lemma_split_field(s: Seq<char>, y: Seq<char>)
    requires
        y.len() > 0,
        no_ws(y),
    ensures
        split_ws(s + seq![' '] + y) == split_ws(s).push(y),
    decreases y.len(),
{
    let t = s + seq![' '] + y;
    assert(is_ws(' '));
    assert((s + seq![' ']).drop_last() =~= s);
    assert(split_ws(s + seq![' ']) == split_ws(s));
    if y.len() == 1 {
        assert(t.drop_last() =~= s + seq![' ']);
        assert(t.last() == y[0]);
        assert(!is_ws(y[0]));
        assert(t[t.len() - 2] == ' ');
        assert(seq![y[0]] =~= y);
    } else {
        let y2 = y.drop_last();
        assert forall|i: int| 0 <= i < y2.len() implies !is_ws(#[trigger] y2[i]) by {
            assert(y2[i] == y[i]);
        }
        lemma_split_field(s, y2);
        assert(t.drop_last() =~= s + seq![' '] + y2);
        assert(t.last() == y.last());
        assert(!is_ws(y[y.len() - 1]));
        assert(t[t.len() - 2] == y[y.len() - 2]);
        assert(!is_ws(y[y.len() - 2]));
        let rest = split_ws(s).push(y2);
        assert(rest.last() == y2);
        assert(y2.push(y.last()) =~= y);
        assert(rest.update(rest.len() - 1, y) =~= split_ws(s).push(y));
    }
}

/// A single field splits to itself.
proof fn lemma_split_one(y: Seq<char>)
    requires
        y.len() > 0,
        no_ws(y),
    ensures
        split_ws(y) == seq![y],
    decreases y.len(),
{
    if y.len() == 1 {
        assert(y.drop_last() =~= Seq::<char>::empty());
        assert(split_ws(Seq::<char>::empty()) == Seq::<Seq<char>>::empty());
        assert(!is_ws(y[0]));
        assert(y.last() == y[0]);
        assert(seq![y[0]] =~= y);
        assert(Seq::<Seq<char>>::empty().push(seq![y[0]]) =~= seq![y]);
    } else {
        let y2 = y.drop_last();
        assert forall|i: int| 0 <= i < y2.len() implies !is_ws(#[trigger] y2[i]) by {
            assert(y2[i] == y[i]);
        }
        lemma_split_one(y2);
        assert(!is_ws(y[y.len() - 1]));
        assert(!is_ws(y[y.len() - 2]));
        assert(y2.push(y.last()) =~= y);
        assert(seq![y2].update(0, y) =~= seq![y]);
    }
}


/// Reading the placement characters `cs` from the state `st`.
pub open spec fn rows_from(st: RowsState, cs: Seq<char>) -> Option<RowsState>
    decreases cs.len(),
{
    if cs.len() == 0 {
        Some(st)
    } else {
        match rows_from(st, cs.drop_last()) {
            Some(x) => rows_step(x, cs.last()),
            None => None,
        }
    }
}

proof fn lemma_rows_fold_from(cs: Seq<char>)
    ensures
        rows_fold(cs) == rows_from(rows_start(), cs),
    decreases cs.len(),
{
    if cs.len() > 0 {
        lemma_rows_fold_from(cs.drop_last());
    }
}

proof fn lemma_rows_concat(st: RowsState, a: Seq<char>, b: Seq<char>)
    ensures
        rows_from(st, a + b) == match rows_from(st, a) {
            Some(x) => rows_from(x, b),
            None => None,
        },
    decreases b.len(),
{
    if b.len() == 0 {
        assert(a + b =~= a);
    } else {
        lemma_rows_concat(st, a, b.drop_last());
        assert((a + b).drop_last() =~= a + b.drop_last());
        assert((a + b).last() == b.last());
    }
}

/// The squares read so far: those above rank `r` and those of rank `r`
/// before file `f` hold what `sq` holds; the rest are empty.
pub open spec fn rows_done(sq: Seq<Option<Piece>>, r: int, f: int, squares: Seq<Option<Piece>>) -> bool {
    &&& squares.len() == 64
    &&& forall|i: int|
        0 <= i < 64 ==> #[trigger] squares[i] == (if i / 8 > r || (i / 8 == r && i % 8 < f) {
            sq[i]
        } else {
            None
        })
}

proof fn lemma_fen_char(p: Piece)
    ensures
        fen_piece(fen_char(p)) == Some(p),
        !is_digit(fen_char(p)),
        !is_ws(fen_char(p)),
        fen_char(p) != '/',
{
}

/// A run of up to eight empty squares is one digit.
proof fn lemma_run(e: nat)
    requires
        0 < e <= 8,
    ensures
        decimal(e) == seq![digit_char(e as int)],
        is_digit(digit_char(e as int)),
        digit_value(digit_char(e as int)) == e,
        digit_char(e as int) != '/',
{
    lemma_digit_char(e as int);
}

/// Reading the text of rank `r` from file `f`, with `e` empty squares
/// pending, completes the rank.
proof fn lemma_row(sq: Seq<Option<Piece>>, r: int, f: int, e: nat, st: RowsState)
    requires
        sq.len() == 64,
        0 <= r < 8,
        e <= f <= 8,
        st.row == 7 - r,
        st.file == f - e,
        rows_done(sq, r, f, st.squares),
    ensures
        rows_from(st, row_text(sq, r, f, e)) matches Some(x) && x.row == st.row && x.file == 8 && rows_done(
            sq,
            r,
            8,
            x.squares,
        ),
    decreases 8 - f,
{
    if f >= 8 {
        if e > 0 {
            lemma_run(e);
            let t = row_text(sq, r, f, e);
            assert(t == seq![digit_char(e as int)]);
            assert(t.drop_last() =~= Seq::<char>::empty());
            assert(t.last() == digit_char(e as int));
            assert(rows_from(st, Seq::<char>::empty()) == Some(st));
        } else {
            assert(row_text(sq, r, f, e) =~= Seq::<char>::empty());
        }
    } else {
        match sq[r * 8 + f] {
            Some(p) => {
                let pre: Seq<char> = if e > 0 {
                    decimal(e)
                } else {
                    seq![]
                };
                let st1 = RowsState { squares: st.squares, row: st.row, file: f };
                assert(rows_from(st, pre) == Some(st1)) by {
                    if e > 0 {
                        lemma_run(e);
                        assert(pre.drop_last() =~= Seq::<char>::empty());
                        assert(pre.last() == digit_char(e as int));
                        assert(rows_from(st, Seq::<char>::empty()) == Some(st));
                    } else {
                        assert(st1 == st);
                    }
                }
                lemma_fen_char(p);
                let idx = r * 8 + f;
                assert(0 <= idx < 64);
                assert((idx as u8) as int == idx);
                let st2 = RowsState { squares: st.squares.update(idx, Some(p)), row: st.row, file: f + 1 };
                assert(rows_step(st1, fen_char(p)) == Some(st2));
                assert(rows_from(st, pre.push(fen_char(p))) == Some(st2)) by {
                    assert(pre.push(fen_char(p)).drop_last() =~= pre);
                }
                assert(rows_done(sq, r, f + 1, st2.squares)) by {
                    assert forall|i: int| 0 <= i < 64 implies #[trigger] st2.squares[i] == (if i / 8 > r || (
                    i / 8 == r && i % 8 < f + 1) {
                        sq[i]
                    } else {
                        None
                    }) by {
                        if i == idx {
                        } else {
                            assert(st2.squares[i] == st.squares[i]);
                            if i / 8 == r && i % 8 == f {
                                assert(i == idx);
                            }
                        }
                    }
                }
                lemma_row(sq, r, f + 1, 0, st2);
                lemma_rows_concat(st, pre.push(fen_char(p)), row_text(sq, r, f + 1, 0));
            },
            None => {
                assert(rows_done(sq, r, f + 1, st.squares)) by {
                    assert forall|i: int| 0 <= i < 64 implies #[trigger] st.squares[i] == (if i / 8 > r || (
                    i / 8 == r && i % 8 < f + 1) {
                        sq[i]
                    } else {
                        None
                    }) by {
                        if i / 8 == r && i % 8 == f {
                            assert(i == r * 8 + f);
                        }
                    }
                }
                lemma_row(sq, r, f + 1, e + 1, st);
            },
        }
    }
}

/// Reading the placement text of ranks `r` down to 1 completes the board.
proof fn lemma_board(sq: Seq<Option<Piece>>, r: int, st: RowsState)
    requires
        sq.len() == 64,
        0 <= r < 8,
        st.row == 7 - r,
        st.file == 0,
        rows_done(sq, r, 0, st.squares),
    ensures
        rows_from(st, board_text(sq, r)) matches Some(x) && x.squares == sq,
    decreases r,
{
    lemma_row(sq, r, 0, 0, st);
    let x1 = rows_from(st, row_text(sq, r, 0, 0))->0;
    if r <= 0 {
        assert(x1.squares =~= sq) by {
            assert forall|i: int| 0 <= i < 64 implies x1.squares[i] == sq[i] by {
                assert(x1.squares[i] == (if i / 8 > r || (i / 8 == r && i % 8 < 8) {
                    sq[i]
                } else {
                    None
                }));
            }
        }
    } else {
        let x2 = RowsState { squares: x1.squares, row: x1.row + 1, file: 0 };
        assert(rows_step(x1, '/') == Some(x2));
        let line = row_text(sq, r, 0, 0).push('/');
        assert(rows_from(st, line) == Some(x2)) by {
            assert(line.drop_last() =~= row_text(sq, r, 0, 0));
        }
        assert(rows_done(sq, r - 1, 0, x2.squares)) by {
            assert forall|i: int| 0 <= i < 64 implies #[trigger] x2.squares[i] == (if i / 8 > r - 1 || (i / 8
                == r - 1 && i % 8 < 0) {
                sq[i]
            } else {
                None
            }) by {
                assert(x1.squares[i] == (if i / 8 > r || (i / 8 == r && i % 8 < 8) {
                    sq[i]
                } else {
                    None
                }));
            }
        }
        lemma_board(sq, r - 1, x2);
        lemma_rows_concat(st, line, board_text(sq, r - 1));
    }
}

/// The placement text of a board reads back to its squares.
proof fn lemma_placement(sq: Seq<Option<Piece>>)
    requires
        sq.len() == 64,
    ensures
        rows_fold(board_text(sq, 7)) matches Some(x) && x.squares == sq,
{
    lemma_rows_fold_from(board_text(sq, 7));
    let st = rows_start();
    assert(rows_done(sq, 7, 0, st.squares)) by {
        assert forall|i: int| 0 <= i < 64 implies #[trigger] st.squares[i] == (if i / 8 > 7 || (i / 8 == 7 && i
            % 8 < 0) {
            sq[i]
        } else {
            None
        }) by {}
    }
    lemma_board(sq, 7, st);
}


proof fn lemma_no_ws_concat(a: Seq<char>, b: Seq<char>)
    requires
        no_ws(a),
        no_ws(b),
    ensures
        no_ws(a + b),
{
    assert forall|i: int| 0 <= i < (a + b).len() implies !is_ws(#[trigger] (a + b)[i]) by {
        if i < a.len() {
            assert((a + b)[i] == a[i]);
        } else {
            assert((a + b)[i] == b[i - a.len()]);
        }
    }
}

proof fn lemma_no_ws_push(a: Seq<char>, c: char)
    requires
        no_ws(a),
        !is_ws(c),
    ensures
        no_ws(a.push(c)),
{
    assert forall|i: int| 0 <= i < a.push(c).len() implies !is_ws(#[trigger] a.push(c)[i]) by {
        if i < a.len() {
            assert(a.push(c)[i] == a[i]);
        }
    }
}

proof fn lemma_row_no_ws(sq: Seq<Option<Piece>>, r: int, f: int, e: nat)
    ensures
        no_ws(row_text(sq, r, f, e)),
    decreases 8 - f,
{
    lemma_decimal(e);
    if f >= 8 {
        if e == 0 {
            assert(row_text(sq, r, f, e) =~= Seq::<char>::empty());
        }
    } else {
        match sq[r * 8 + f] {
            Some(p) => {
                let pre: Seq<char> = if e > 0 {
                    decimal(e)
                } else {
                    seq![]
                };
                lemma_fen_char(p);
                lemma_no_ws_push(pre, fen_char(p));
                lemma_row_no_ws(sq, r, f + 1, 0);
                lemma_no_ws_concat(pre.push(fen_char(p)), row_text(sq, r, f + 1, 0));
            },
            None => {
                lemma_row_no_ws(sq, r, f + 1, e + 1);
            },
        }
    }
}

proof fn lemma_board_no_ws(sq: Seq<Option<Piece>>, r: int)
    ensures
        no_ws(board_text(sq, r)),
        r > 0 ==> board_text(sq, r).len() > 0,
    decreases r,
{
    lemma_row_no_ws(sq, r, 0, 0);
    lemma_row_no_ws(sq, 0, 0, 0);
    if r > 0 {
        assert(!is_ws('/'));
        lemma_no_ws_push(row_text(sq, r, 0, 0), '/');
        lemma_board_no_ws(sq, r - 1);
        lemma_no_ws_concat(row_text(sq, r, 0, 0).push('/'), board_text(sq, r - 1));
    }
}

/// The castling field reads back to the rights it was written from.
proof fn lemma_castling(c: u8)
    requires
        c < 16,
    ensures
        castle_text(c).len() > 0,
        no_ws(castle_text(c)),
        castle_bits(castle_text(c)) == c,
{
    let t = castle_text(c);
    assert(castle_bits(Seq::<char>::empty()) == 0u8);
    if c == 0 {
        assert(t.drop_last() =~= Seq::<char>::empty());
        assert(t.last() == '-');
        assert(!is_ws('-'));
    } else {
        let a: Seq<char> = if c & 1 != 0 {
            seq!['K']
        } else {
            seq![]
        };
        let b: Seq<char> = if c & 2 != 0 {
            seq!['Q']
        } else {
            seq![]
        };
        let k: Seq<char> = if c & 4 != 0 {
            seq!['k']
        } else {
            seq![]
        };
        let q: Seq<char> = if c & 8 != 0 {
            seq!['q']
        } else {
            seq![]
        };
        assert(t == a + b + k + q);
        assert(c & 1 != 0 ==> c & 1 == 1u8) by (bit_vector);
        assert(0u8 | 1u8 == 1u8) by (bit_vector);
        assert(castle_bits(a) == c & 1) by {
            if c & 1 != 0 {
                assert(a.drop_last() =~= Seq::<char>::empty());
                assert(a.last() == 'K');
            } else {
                assert(a =~= Seq::<char>::empty());
            }
        }
        assert(c & 2 != 0 ==> (c & 1) | 2u8 == c & 3) by (bit_vector);
        assert(c & 2 == 0 ==> c & 1 == c & 3) by (bit_vector);
        assert(castle_bits(a + b) == c & 3) by {
            if c & 2 != 0 {
                assert((a + b).drop_last() =~= a);
                assert((a + b).last() == 'Q');
            } else {
                assert(a + b =~= a);
            }
        }
        assert(c & 4 != 0 ==> (c & 3) | 4u8 == c & 7) by (bit_vector);
        assert(c & 4 == 0 ==> c & 3 == c & 7) by (bit_vector);
        assert(castle_bits(a + b + k) == c & 7) by {
            if c & 4 != 0 {
                assert((a + b + k).drop_last() =~= a + b);
                assert((a + b + k).last() == 'k');
            } else {
                assert(a + b + k =~= a + b);
            }
        }
        assert(c & 8 != 0 ==> (c & 7) | 8u8 == c & 15) by (bit_vector);
        assert(c & 8 == 0 ==> c & 7 == c & 15) by (bit_vector);
        assert(c < 16 ==> c & 15 == c) by (bit_vector);
        assert(castle_bits(a + b + k + q) == c & 15) by {
            if c & 8 != 0 {
                assert((a + b + k + q).drop_last() =~= a + b + k);
                assert((a + b + k + q).last() == 'q');
            } else {
                assert(a + b + k + q =~= a + b + k);
            }
        }
        assert(c != 0 && c < 16 ==> (c & 1 != 0 || c & 2 != 0 || c & 4 != 0 || c & 8 != 0)) by (bit_vector);
        assert forall|i: int| 0 <= i < t.len() implies !is_ws(#[trigger] t[i]) by {
            assert(t[i] == 'K' || t[i] == 'Q' || t[i] == 'k' || t[i] == 'q') by {
                if i < a.len() {
                    assert(t[i] == a[i]);
                } else if i < a.len() + b.len() {
                    assert(t[i] == b[i - a.len()]);
                } else if i < a.len() + b.len() + k.len() {
                    assert(t[i] == k[i - a.len() - b.len()]);
                } else {
                    assert(t[i] == q[i - a.len() - b.len() - k.len()]);
                }
            }
        }
    }
}

/// The name of an on-board square reads back as the square.
proof fn lemma_square_name(e: u8)
    requires
        e < 64,
    ensures
        square_name(e).len() == 2,
        no_ws(square_name(e)),
        square_name(e) != seq!['-'],
        alg_ok(encode_utf8(square_name(e))),
        alg_square(encode_utf8(square_name(e))) == e,
{
    let s = square_name(e);
    let x: u32 = (97 + e % 8) as u32;
    let y: u32 = (49 + e / 8) as u32;
    assert(s[0] as u32 == x);
    assert(s[1] as u32 == y);
    assert(x < 128 ==> (x & 0x7F) as u8 == x as u8) by (bit_vector);
    assert(y < 128 ==> (y & 0x7F) as u8 == y as u8) by (bit_vector);
    assert(s.drop_first().drop_first() =~= Seq::<char>::empty());
    assert(encode_utf8(s.drop_first().drop_first()) == Seq::<u8>::empty());
    assert(s.drop_first()[0] == s[1]);
    assert(encode_utf8(s.drop_first()) =~= seq![y as u8]);
    assert(encode_utf8(s) =~= seq![x as u8, y as u8]);
    assert(s[0] != '-');
}

/// A position whose text the parser reads back: 64 squares, castling rights
/// within the four flags, and an en-passant target on the board.
pub open spec fn fen_writable(p: Position) -> bool {
    &&& p.squares.len() == 64
    &&& p.castling < 16
    &&& p.ep matches Some(e) ==> e < 64
}

/// The FEN text of a position is accepted by the parser and reads back as
/// the same position.
pub proof fn law_fen_round_trip(p: Position)
    requires
        fen_writable(p),
    ensures
        fen_ok(fen_text(p)),
        fen_position(fen_text(p)) == p,
{
    let bt = board_text(p.squares, 7);
    let side = seq![if p.side == Color::White { 'w' } else { 'b' }];
    let ct = castle_text(p.castling);
    let et = ep_text(p.ep);
    let h = decimal(p.halfmove as nat);
    let fm = decimal(p.fullmove as nat);
    let sp = seq![' '];
    assert(fen_text(p) =~= bt + sp + side + sp + ct + sp + et + sp + h + sp + fm);
    lemma_board_no_ws(p.squares, 7);
    lemma_castling(p.castling);
    lemma_parse_decimal(p.halfmove);
    lemma_parse_decimal(p.fullmove);
    assert(no_ws(side)) by {
        assert(!is_ws(side[0]));
    }
    match p.ep {
        Some(e) => {
            lemma_square_name(e);
        },
        None => {
            assert(!is_ws('-'));
            assert(no_ws(et));
        },
    }
    lemma_split_one(bt);
    lemma_split_field(bt, side);
    lemma_split_field(bt + sp + side, ct);
    lemma_split_field(bt + sp + side + sp + ct, et);
    lemma_split_field(bt + sp + side + sp + ct + sp + et, h);
    lemma_split_field(bt + sp + side + sp + ct + sp + et + sp + h, fm);
    let f = split_ws(fen_text(p));
    assert(f =~= seq![bt, side, ct, et, h, fm]);
    lemma_placement(p.squares);
    assert(f[1] == seq!['w'] <==> p.side == Color::White) by {
        if p.side != Color::White {
            assert(f[1][0] != seq!['w'][0]);
        }
    }
    assert(et == seq!['-'] <==> p.ep is None);
    let q = fen_position(fen_text(p));
    assert(q.squares == p.squares);
    assert(q.side == p.side);
    assert(q.castling == p.castling);
    assert(q.ep == p.ep);
    assert(q.halfmove == p.halfmove);
    assert(q.fullmove == p.fullmove);
}


proof fn lemma_or_bits(b: u8)
    by (bit_vector)
    ensures
        (b | 1) & 1 != 0,
        (b | 1) & 2 == b & 2,
        (b | 1) & 4 == b & 4,
        (b | 1) & 8 == b & 8,
        (b | 2) & 1 == b & 1,
        (b | 2) & 2 != 0,
        (b | 2) & 4 == b & 4,
        (b | 2) & 8 == b & 8,
        (b | 4) & 1 == b & 1,
        (b | 4) & 2 == b & 2,
        (b | 4) & 4 != 0,
        (b | 4) & 8 == b & 8,
        (b | 8) & 1 == b & 1,
        (b | 8) & 2 == b & 2,
        (b | 8) & 4 == b & 4,
        (b | 8) & 8 != 0,
        0u8 & 1 == 0,
        0u8 & 2 == 0,
        0u8 & 4 == 0,
        0u8 & 8 == 0,
{
}

/// The castling letters of a FEN mean what the rules of castling read: "K"
/// grants White's kingside right, "Q" White's queenside, "k" and "q"
/// Black's, each exactly when the letter is present, whatever else the
/// field holds.
pub proof fn law_castling_letters(cs: Seq<char>)
    ensures
        castle_bits(cs) & kingside_right(Color::White) != 0 <==> cs.contains('K'),
        castle_bits(cs) & queenside_right(Color::White) != 0 <==> cs.contains('Q'),
        castle_bits(cs) & kingside_right(Color::Black) != 0 <==> cs.contains('k'),
        castle_bits(cs) & queenside_right(Color::Black) != 0 <==> cs.contains('q'),
    decreases cs.len(),
{
    if cs.len() == 0 {
        lemma_or_bits(0);
    } else {
        let d = cs.drop_last();
        law_castling_letters(d);
        lemma_or_bits(castle_bits(d));
        assert forall|ch: char| cs.contains(ch) <==> (d.contains(ch) || cs.last() == ch) by {
            if cs.contains(ch) {
                let i = choose|i: int| 0 <= i < cs.len() && cs[i] == ch;
                if i < cs.len() - 1 {
                    assert(d[i] == ch);
                }
            }
            if d.contains(ch) {
                let i = choose|i: int| 0 <= i < d.len() && d[i] == ch;
                assert(cs[i] == ch);
            }
            if cs.last() == ch {
                assert(cs[cs.len() - 1] == ch);
            }
        }
    }
}

/// The castling rights of a FEN position are those its third field grants,
/// letter by letter (see `law_castling_letters`).
pub proof fn law_fen_castling(s: Seq<char>)
    ensures
        fen_position(s).castling & kingside_right(Color::White) != 0 <==> split_ws(s)[2].contains('K'),
        fen_position(s).castling & queenside_right(Color::White) != 0 <==> split_ws(s)[2].contains('Q'),
        fen_position(s).castling & kingside_right(Color::Black) != 0 <==> split_ws(s)[2].contains('k'),
        fen_position(s).castling & queenside_right(Color::Black) != 0 <==> split_ws(s)[2].contains('q'),
{
    law_castling_letters(split_ws(s)[2]);
}
} // verus!
