//! Board representation, pieces, moves, and move-making (copy-make).
use vstd::prelude::*;

verus! {

/// Side to move / piece color.
#[derive(Clone, Copy, PartialEq, Eq, Debug, Structural)]
pub enum Color {
    White,
    Black,
}

impl Color {
    pub open spec fn spec_opp(self) -> Color {
        match self {
            Color::White => Color::Black,
            Color::Black => Color::White,
        }
    }

    /// The other colour.
    #[verifier::when_used_as_spec(spec_opp)]
    pub fn opp(self) -> (c: Color)
        ensures
            c == self.spec_opp(),
    {
        match self {
            Color::White => Color::Black,
            Color::Black => Color::White,
        }
    }
}

/// The six piece types.
#[derive(Clone, Copy, PartialEq, Eq, Debug, Structural)]
pub enum PieceKind {
    Pawn,
    Knight,
    Bishop,
    Rook,
    Queen,
    King,
}

/// A colored piece.
#[derive(Clone, Copy, PartialEq, Eq, Debug, Structural)]
pub struct Piece {
    pub color: Color,
    pub kind: PieceKind,
}

/// A board square index, 0..=63. `a1 = 0`, `h1 = 7`, `a8 = 56`, `h8 = 63`
/// (index = rank * 8 + file, with rank 0 = rank "1", file 0 = file "a").
pub type Square = u8;

/// Build a square index from `file` and `rank` (the truncating cast of
/// `rank * 8 + file`; the exact index when both lie in 0..=7).
pub fn sq(file: i32, rank: i32) -> (s: Square)
    requires
        i32::MIN <= rank * 8 <= i32::MAX,
        i32::MIN <= rank * 8 + file <= i32::MAX,
    ensures
        s == (rank * 8 + file) as u8,
        0 <= file < 8 && 0 <= rank < 8 ==> s == rank * 8 + file,
{
    (rank * 8 + file) as Square
}

/// File (0..=7) of a square.
pub fn file_of(s: Square) -> (f: i32)
    ensures
        f == s % 8,
{
    (s % 8) as i32
}

/// Rank of a square (0..=7 for a square on the board).
pub fn rank_of(s: Square) -> (r: i32)
    ensures
        r == s / 8,
{
    (s / 8) as i32
}

// Castling-rights bit flags.
pub const CASTLE_WK: u8 = 1;  // White kingside

pub const CASTLE_WQ: u8 = 2;  // White queenside

pub const CASTLE_BK: u8 = 4;  // Black kingside

pub const CASTLE_BQ: u8 = 8;  // Black queenside

/// The rights that survive a move touching square `s`: moving a king or rook
/// off its home square, or capturing a rook on it, removes the right.
pub open spec fn spec_castle_mask(s: int) -> u8 {
    if s == 0 {
        13u8
    } else if s == 4 {
        12u8
    } else if s == 7 {
        14u8
    } else if s == 56 {
        7u8
    } else if s == 60 {
        3u8
    } else if s == 63 {
        11u8
    } else {
        15u8
    }
}

/// Per-square mask AND-ed into castling rights whenever a square is a move's
/// `from` or `to`.
pub fn castle_mask(s: Square) -> (m: u8)
    ensures
        m == spec_castle_mask(s as int),
{
    if s == 0 {
        13  // a1: loses White's queenside right
    } else if s == 4 {
        12  // e1: loses both White rights
    } else if s == 7 {
        14  // h1: loses White's kingside right
    } else if s == 56 {
        7  // a8: loses Black's queenside right
    } else if s == 60 {
        3  // e8: loses both Black rights
    } else if s == 63 {
        11  // h8: loses Black's kingside right
    } else {
        15
    }
}

/// Special handling a move needs at make-time.
#[derive(Clone, Copy, PartialEq, Eq, Debug, Structural)]
pub enum Flag {
    Normal,
    DoublePush,
    EnPassant,
    Castle,
}

/// A chess move. Promotions carry `promo = Some(kind)`; the destination being
/// occupied distinguishes a capture.
#[derive(Clone, Copy, PartialEq, Eq, Debug, Structural)]
pub struct Move {
    pub from: Square,
    pub to: Square,
    pub promo: Option<PieceKind>,
    pub flag: Flag,
}

/// A full board position. `Copy` so move-making can use copy-make.
#[derive(Clone, Copy)]
pub struct Board {
    pub squares: [Option<Piece>; 64],
    pub side: Color,
    pub castling: u8,
    pub ep: Option<Square>,  // en-passant target square, if any
    pub halfmove: u16,  // halfmove clock (for the 50-move rule)
    pub fullmove: u16,
}

/// The mathematical model of a position: the 64 squares (a1 first) and the
/// game-state fields.
pub struct Position {
    pub squares: Seq<Option<Piece>>,
    pub side: Color,
    pub castling: u8,
    pub ep: Option<u8>,
    pub halfmove: u16,
    pub fullmove: u16,
}

impl View for Board {
    type V = Position;

    open spec fn view(&self) -> Position {
        Position {
            squares: self.squares@,
            side: self.side,
            castling: self.castling,
            ep: self.ep,
            halfmove: self.halfmove,
            fullmove: self.fullmove,
        }
    }
}

/// The square of the pawn taken en passant by a `color` pawn landing on `to`.
pub open spec fn ep_victim(color: Color, to: int) -> int {
    if color == Color::White {
        to - 8
    } else {
        to + 8
    }
}

/// The piece standing on the destination square after the move.
pub open spec fn placed_piece(mover: Piece, m: Move) -> Piece {
    match m.promo {
        Some(k) => Piece { color: mover.color, kind: k },
        None => mover,
    }
}

/// Rook (from, to) squares of a castling move by a king leaving `from` for `to`.
pub open spec fn castle_rook_from(m: Move) -> int {
    if (m.to as int) % 8 == 6 {
        (m.from as int) / 8 * 8 + 7
    } else {
        (m.from as int) / 8 * 8
    }
}

pub open spec fn castle_rook_to(m: Move) -> int {
    if (m.to as int) % 8 == 6 {
        (m.from as int) / 8 * 8 + 5
    } else {
        (m.from as int) / 8 * 8 + 3
    }
}

/// When `make_move` can apply `m` to `p`: both squares on the board, a piece
/// on the from-square, and clocks that do not overflow.
pub open spec fn can_make(p: Position, m: Move) -> bool {
    &&& p.squares.len() == 64
    &&& (m.from as int) < 64
    &&& (m.to as int) < 64
    &&& p.squares[m.from as int] is Some
    &&& m.flag == Flag::EnPassant ==> 0 <= ep_victim(p.squares[m.from as int]->0.color, m.to as int) < 64
    &&& m.flag == Flag::DoublePush ==> 0 <= ep_victim(p.squares[m.from as int]->0.color.spec_opp(), m.from as int) < 256
    &&& p.halfmove < u16::MAX
    &&& p.fullmove < u16::MAX
}

/// What a move does to a position: the en-passant victim is removed, a
/// castling rook jumps over the king, the mover (or its promotion) lands on
/// the destination, rights shrink by the masks of both squares, the
/// en-passant target is set only by a double push, the halfmove clock resets
/// on captures and pawn moves, and the turn passes.
pub open spec fn spec_make_move(p: Position, m: Move) -> Position {
    let mover = p.squares[m.from as int]->0;
    let is_capture = p.squares[m.to as int] is Some || m.flag == Flag::EnPassant;
    let s1 = if m.flag == Flag::EnPassant {
        p.squares.update(ep_victim(mover.color, m.to as int), None)
    } else {
        p.squares
    };
    let s2 = if m.flag == Flag::Castle {
        s1.update(castle_rook_to(m), s1[castle_rook_from(m)]).update(castle_rook_from(m), None)
    } else {
        s1
    };
    let s3 = s2.update(m.from as int, None).update(m.to as int, Some(placed_piece(mover, m)));
    Position {
        squares: s3,
        side: p.side.spec_opp(),
        castling: p.castling & spec_castle_mask(m.from as int) & spec_castle_mask(m.to as int),
        ep: if m.flag == Flag::DoublePush {
            Some(ep_victim(mover.color.spec_opp(), m.from as int) as u8)
        } else {
            None
        },
        halfmove: if is_capture || mover.kind == PieceKind::Pawn {
            0
        } else {
            (p.halfmove + 1) as u16
        },
        fullmove: if p.side == Color::Black {
            (p.fullmove + 1) as u16
        } else {
            p.fullmove
        },
    }
}

impl Board {
    /// An empty board with White to move and no rights.
    pub fn empty() -> (b: Board)
        ensures
            forall|i: int| 0 <= i < 64 ==> b.squares@[i] is None,
            b.side == Color::White,
            b.castling == 0,
            b.ep is None,
            b.halfmove == 0,
            b.fullmove == 1,
    {
        Board {
            squares: [None; 64],
            side: Color::White,
            castling: 0,
            ep: None,
            halfmove: 0,
            fullmove: 1,
        }
    }

    /// Apply `m` in place (copy-make: callers clone the board first).
    pub fn make_move(&mut self, m: Move)
        requires
            can_make(old(self)@, m),
        ensures
            final(self)@ == spec_make_move(old(self)@, m),
    {
        let ghost p = self@;
        let mover = self.squares[m.from as usize].unwrap();
        let is_capture = self.squares[m.to as usize].is_some() || m.flag == Flag::EnPassant;
        let is_pawn = mover.kind == PieceKind::Pawn;

        // Remove the pawn captured en passant (it sits behind the target square).
        if m.flag == Flag::EnPassant {
            let cap = if mover.color == Color::White {
                m.to - 8
            } else {
                m.to + 8
            };
            self.squares[cap as usize] = None;
        }
        let ghost s1 = self.squares@;
        // Move the rook when castling.
        if m.flag == Flag::Castle {
            let r = rank_of(m.from);
            let (rook_from, rook_to) = if file_of(m.to) == 6 {
                (sq(7, r), sq(5, r))  // kingside: h-file rook to f-file

            } else {
                (sq(0, r), sq(3, r))  // queenside: a-file rook to d-file

            };
            let moved = self.squares[rook_from as usize];
            self.squares[rook_to as usize] = moved;
            self.squares[rook_from as usize] = None;
        }
        // Move the piece (handling promotion).

        self.squares[m.from as usize] = None;
        let placed = match m.promo {
            Some(k) => Piece { color: mover.color, kind: k },
            None => mover,
        };
        self.squares[m.to as usize] = Some(placed);

        // Update castling rights from the squares touched.
        let mask_from = castle_mask(m.from);
        let mask_to = castle_mask(m.to);
        self.castling = self.castling & mask_from & mask_to;

        // Set the en-passant target only on a double pawn push.
        self.ep = if m.flag == Flag::DoublePush {
            Some(
                if mover.color == Color::White {
                    m.from + 8
                } else {
                    m.from - 8
                },
            )
        } else {
            None
        };

        // Clocks and side to move.
        if is_capture || is_pawn {
            self.halfmove = 0;
        } else {
            self.halfmove = self.halfmove + 1;
        }
        if self.side == Color::Black {
            self.fullmove = self.fullmove + 1;
        }
        self.side = self.side.opp();
        assert(self.squares@ =~= spec_make_move(p, m).squares);
    }
}

} // verus!
