//! Engine-validated game room — the pure, testable core of the multiplayer
//! server. The server is the *authority*: every move is checked against the
//! move generator here, so a malicious or buggy client cannot make an illegal
//! move.
use vstd::prelude::*;
use vstd::string::StringExecFns;
use vstd::utf8::{encode_utf8, is_char_boundary};
use crate::board::{sq, spec_make_move, Board, Color, Move, PieceKind, Position, Square};
use crate::fen::{start_position, to_fen, fen_text};
use crate::legality::playable;
use crate::movegen::{generate_legal, lemma_king_survives};
use crate::rules::{legal, movegen_ready};
use crate::search::{in_check, no_legal_move, spec_in_check};
use crate::text::chars_of;

verus! {

/// One transparent assistance record, kept so late joiners see the full history.
#[derive(Clone)]
pub struct GlassEntry {
    pub side: String,
    pub summary: String,
}

/// A single two-player game room.
pub struct Room {
    pub board: Board,
    pub white_taken: bool,
    pub black_taken: bool,
    pub white_elo: i32,
    pub black_elo: i32,
    pub last_uci: Option<String>,
    /// Set when a player resigns — that colour loses.
    pub resigned: Option<Color>,
    /// Full glass-box history for this game (replayed to anyone who joins).
    pub glass: Vec<GlassEntry>,
}

/// Where a game stands.
#[derive(Clone, Copy, PartialEq, Eq, Structural)]
pub enum GameStatus {
    Ongoing,
    Checkmate,
    Stalemate,
    FiftyMove,
}

/// No legal move: mate when in check, else stalemate; otherwise the
/// fifty-move rule ends the game once the halfmove clock reaches 100.
pub open spec fn spec_status(p: Position) -> GameStatus {
    if no_legal_move(p) {
        if spec_in_check(p) {
            GameStatus::Checkmate
        } else {
            GameStatus::Stalemate
        }
    } else if p.halfmove >= 100 {
        GameStatus::FiftyMove
    } else {
        GameStatus::Ongoing
    }
}

pub open spec fn status_text(s: GameStatus) -> Seq<char> {
    match s {
        GameStatus::Ongoing => "ongoing"@,
        GameStatus::Checkmate => "checkmate"@,
        GameStatus::Stalemate => "stalemate"@,
        GameStatus::FiftyMove => "fifty-move"@,
    }
}

/// The game-over report: (over, winner "white"|"black"|"" for a draw, reason).
pub open spec fn spec_outcome(resigned: Option<Color>, p: Position) -> (bool, Seq<char>, Seq<char>) {
    match resigned {
        Some(c) => (true, if c == Color::White {
            "black"@
        } else {
            "white"@
        }, "resignation"@),
        None => match spec_status(p) {
            GameStatus::Checkmate => (true, if p.side == Color::White {
                "black"@
            } else {
                "white"@
            }, "checkmate"@),
            GameStatus::Stalemate => (true, ""@, "stalemate"@),
            GameStatus::FiftyMove => (true, ""@, "fifty-move rule"@),
            GameStatus::Ongoing => (false, ""@, ""@),
        },
    }
}

/// The square named by a file byte and a rank byte ("e", "4"), if on the board.
pub open spec fn byte_square(f: u8, r: u8) -> Option<u8> {
    let file = vstd::wrapping::u8_specs::wrapping_sub(f, 97);
    let rank = vstd::wrapping::u8_specs::wrapping_sub(r, 49);
    if file < 8 && rank < 8 {
        Some((rank * 8 + file) as u8)
    } else {
        None
    }
}

/// The promotion piece a letter asks for (either case).
pub open spec fn promo_letter(c: char) -> Option<PieceKind> {
    if c == 'n' || c == 'N' {
        Some(PieceKind::Knight)
    } else if c == 'b' || c == 'B' {
        Some(PieceKind::Bishop)
    } else if c == 'r' || c == 'R' {
        Some(PieceKind::Rook)
    } else if c == 'q' || c == 'Q' {
        Some(PieceKind::Queen)
    } else {
        None
    }
}

/// The (from, to, promotion) a coordinate move names, if its squares read.
pub open spec fn uci_parts(uci: Seq<char>) -> Option<(u8, u8, Option<PieceKind>)> {
    let b = encode_utf8(uci);
    if b.len() < 4 {
        None
    } else {
        match (byte_square(b[0], b[1]), byte_square(b[2], b[3])) {
            (Some(f), Some(t)) => Some(
                (f, t, if uci.len() > 4 {
                    promo_letter(uci[4])
                } else {
                    None
                }),
            ),
            _ => None,
        }
    }
}

/// `m` is the legal move the coordinate text names.
pub open spec fn names_move(p: Position, uci: Seq<char>, m: Move) -> bool {
    match uci_parts(uci) {
        Some(parts) => legal(p, m) && m.from == parts.0 && m.to == parts.1 && m.promo == parts.2,
        None => false,
    }
}

/// Slicing the first four bytes of the text does not split a character.
pub open spec fn uci_sliceable(uci: Seq<char>) -> bool {
    encode_utf8(uci).len() < 4 || (is_char_boundary(encode_utf8(uci), 2) && is_char_boundary(
        encode_utf8(uci),
        4,
    ))
}

pub fn square_from_bytes(f: u8, r: u8) -> (s: Option<Square>)
    ensures
        s == byte_square(f, r),
{
    let file = f.wrapping_sub(97);
    let rank = r.wrapping_sub(49);
    if file < 8 && rank < 8 {
        Some(sq(file as i32, rank as i32))
    } else {
        None
    }
}

/// The square a two-byte name such as "e4" denotes, if it is one.
pub fn square_of(s: &str) -> (r: Option<Square>)
    ensures
        r == (if encode_utf8(s@).len() == 2 {
            byte_square(encode_utf8(s@)[0], encode_utf8(s@)[1])
        } else {
            None
        }),
{
    let b = s.as_bytes();
    if b.len() != 2 {
        return None;
    }
    square_from_bytes(b[0], b[1])
}

/// Parse a coordinate move (e2e4, e7e8q) into a legal `Move` for `b`, or `None`.
pub fn parse_uci(b: &Board, uci: &str) -> (r: Option<Move>)
    requires
        movegen_ready(b@),
    ensures
        r is Some ==> names_move(b@, uci@, r->0),
        r is None ==> forall|m: Move| !names_move(b@, uci@, m),
{
    let bytes = uci.as_bytes();
    if bytes.len() < 4 {
        return None;
    }
    let from = match square_from_bytes(bytes[0], bytes[1]) {
        Some(s) => s,
        None => return None,
    };
    let to = match square_from_bytes(bytes[2], bytes[3]) {
        Some(s) => s,
        None => return None,
    };
    let cs = chars_of(uci);
    let promo = if cs.len() > 4 {
        let c = cs[4];
        if c == 'n' || c == 'N' {
            Some(PieceKind::Knight)
        } else if c == 'b' || c == 'B' {
            Some(PieceKind::Bishop)
        } else if c == 'r' || c == 'R' {
            Some(PieceKind::Rook)
        } else if c == 'q' || c == 'Q' {
            Some(PieceKind::Queen)
        } else {
            None
        }
    } else {
        None
    };
    let moves = generate_legal(b);
    let mut i: usize = 0;
    while i < moves.len()
        invariant
            i <= moves@.len(),
            forall|m: Move| moves@.contains(m) <==> legal(b@, m),
            uci_parts(uci@) == Some((from, to, promo)),
            forall|k: int|
                0 <= k < i ==> !(#[trigger] moves@[k].from == from && moves@[k].to == to
                    && moves@[k].promo == promo),
        decreases moves@.len() - i,
    {
        let m = moves[i];
        if m.from == from && m.to == to && m.promo == promo {
            proof {
                assert(moves@.contains(m));
            }
            return Some(m);
        }
        i = i + 1;
    }
    proof {
        assert forall|m: Move| !names_move(b@, uci@, m) by {
            if names_move(b@, uci@, m) {
                assert(moves@.contains(m));
                let k = choose|k: int| 0 <= k < moves@.len() && moves@[k] == m;
                assert(moves@[k].from == from);
            }
        }
    }
    None
}

/// Where the board stands.
fn board_status(b: &Board) -> (st: GameStatus)
    requires
        movegen_ready(b@),
    ensures
        st == spec_status(b@),
{
    let moves = generate_legal(b);
    if moves.len() == 0 {
        proof {
            assert forall|m: Move| !legal(b@, m) by {
                if legal(b@, m) {
                    assert(moves@.contains(m));
                }
            }
        }
        if in_check(b) {
            GameStatus::Checkmate
        } else {
            GameStatus::Stalemate
        }
    } else {
        proof {
            assert(moves@.contains(moves@[0]));
        }
        if b.halfmove >= 100 {
            GameStatus::FiftyMove
        } else {
            GameStatus::Ongoing
        }
    }
}

impl Room {
    /// A fresh room: the starting position, both seats free, both ratings
    /// 1500, no history.
    pub fn new() -> (r: Room)
        ensures
            r.board@ == start_position(),
            !r.white_taken,
            !r.black_taken,
            r.white_elo == 1500,
            r.black_elo == 1500,
            r.last_uci is None,
            r.resigned is None,
            r.glass@.len() == 0,
    {
        Room {
            board: Board::startpos(),
            white_taken: false,
            black_taken: false,
            white_elo: 1500,
            black_elo: 1500,
            last_uci: None,
            resigned: None,
            glass: Vec::new(),
        }
    }

    /// Record a piece of assistance shown to `side` (for the glass-box history).
    pub fn push_glass(&mut self, side: &str, summary: &str)
        ensures
            final(self).glass@.len() == old(self).glass@.len() + 1,
            final(self).glass@.subrange(0, old(self).glass@.len() as int) == old(self).glass@,
            final(self).glass@.last().side@ == side@,
            final(self).glass@.last().summary@ == summary@,
            final(self).board == old(self).board,
            final(self).white_taken == old(self).white_taken,
            final(self).black_taken == old(self).black_taken,
            final(self).white_elo == old(self).white_elo,
            final(self).black_elo == old(self).black_elo,
            final(self).last_uci == old(self).last_uci,
            final(self).resigned == old(self).resigned,
    {
        let e = GlassEntry { side: String::from_str(side), summary: String::from_str(summary) };
        self.glass.push(e);
        proof {
            assert(self.glass@.subrange(0, old(self).glass@.len() as int) =~= old(self).glass@);
        }
    }

    /// Seat a joining player: first gets White, second Black, third is
    /// refused. A rating that is not positive counts as 1500.
    pub fn join(&mut self, elo: i32) -> (c: Option<Color>)
        ensures
            ({
                let e = if elo > 0 {
                    elo
                } else {
                    1500
                };
                if !old(self).white_taken {
                    c == Some(Color::White) && final(self).white_taken && final(self).white_elo == e
                        && final(self).black_taken == old(self).black_taken && final(self).black_elo
                        == old(self).black_elo
                } else if !old(self).black_taken {
                    c == Some(Color::Black) && final(self).black_taken && final(self).black_elo == e
                        && final(self).white_taken == old(self).white_taken && final(self).white_elo
                        == old(self).white_elo
                } else {
                    c is None && final(self).white_taken == old(self).white_taken
                        && final(self).black_taken == old(self).black_taken && final(self).white_elo
                        == old(self).white_elo && final(self).black_elo == old(self).black_elo
                }
            }),
            final(self).board == old(self).board,
            final(self).last_uci == old(self).last_uci,
            final(self).resigned == old(self).resigned,
            final(self).glass == old(self).glass,
    {
        let elo = if elo > 0 {
            elo
        } else {
            1500
        };
        if !self.white_taken {
            self.white_taken = true;
            self.white_elo = elo;
            Some(Color::White)
        } else if !self.black_taken {
            self.black_taken = true;
            self.black_elo = elo;
            Some(Color::Black)
        } else {
            None
        }
    }

    /// Free a seat when a player disconnects (so they can rejoin).
    pub fn leave(&mut self, who: Color)
        ensures
            final(self).white_taken == (old(self).white_taken && who != Color::White),
            final(self).black_taken == (old(self).black_taken && who != Color::Black),
            final(self).board == old(self).board,
            final(self).white_elo == old(self).white_elo,
            final(self).black_elo == old(self).black_elo,
            final(self).last_uci == old(self).last_uci,
            final(self).resigned == old(self).resigned,
            final(self).glass == old(self).glass,
    {
        match who {
            Color::White => self.white_taken = false,
            Color::Black => self.black_taken = false,
        }
    }

    /// Back to the starting position; seats and ratings stay.
    pub fn reset(&mut self)
        ensures
            final(self).board@ == start_position(),
            final(self).last_uci is None,
            final(self).resigned is None,
            final(self).glass@.len() == 0,
            final(self).white_taken == old(self).white_taken,
            final(self).black_taken == old(self).black_taken,
            final(self).white_elo == old(self).white_elo,
            final(self).black_elo == old(self).black_elo,
    {
        self.board = Board::startpos();
        self.last_uci = None;
        self.resigned = None;
        self.glass.clear();
    }

    /// `who` resigns — that colour loses. First resignation sticks.
    pub fn resign(&mut self, who: Color)
        ensures
            final(self).resigned == (if old(self).resigned is None {
                Some(who)
            } else {
                old(self).resigned
            }),
            final(self).board == old(self).board,
            final(self).white_taken == old(self).white_taken,
            final(self).black_taken == old(self).black_taken,
            final(self).white_elo == old(self).white_elo,
            final(self).black_elo == old(self).black_elo,
            final(self).last_uci == old(self).last_uci,
            final(self).glass == old(self).glass,
    {
        if self.resigned.is_none() {
            self.resigned = Some(who);
        }
    }

    /// Game outcome: (over, winner "white"|"black"|"" for draw, reason).
    pub fn outcome(&self) -> (r: (bool, &'static str, &'static str))
        requires
            self.resigned is None ==> movegen_ready(self.board@),
        ensures
            (r.0, r.1@, r.2@) == spec_outcome(self.resigned, self.board@),
    {
        if let Some(c) = self.resigned {
            let winner = match c {
                Color::White => "black",
                Color::Black => "white",
            };
            return (true, winner, "resignation");
        }
        match board_status(&self.board) {
            GameStatus::Checkmate => {
                // The side to move is checkmated → the other side wins.
                let winner = match self.board.side {
                    Color::White => "black",
                    Color::Black => "white",
                };
                (true, winner, "checkmate")
            },
            GameStatus::Stalemate => (true, "", "stalemate"),
            GameStatus::FiftyMove => (true, "", "fifty-move rule"),
            GameStatus::Ongoing => (false, "", ""),
        }
    }

    /// Apply `who`'s move given in coordinate notation. Rejects moves once
    /// the game is over, out-of-turn moves and illegal moves — the server
    /// never trusts the client's word for legality.
    pub fn apply_move(&mut self, who: Color, uci: &str) -> (r: Result<(), String>)
        requires
            old(self).resigned is None ==> movegen_ready(old(self).board@),
        ensures
            ({
                let p = old(self).board@;
                if old(self).resigned is Some || spec_status(p) != GameStatus::Ongoing {
                    r matches Err(e) && e@ == "game is over"@ && *final(self) == *old(self)
                } else if p.side != who {
                    r matches Err(e) && e@ == "not your turn"@ && *final(self) == *old(self)
                } else if forall|m: Move| !names_move(p, uci@, m) {
                    r matches Err(e) && e@ == "illegal move"@ && *final(self) == *old(self)
                } else {
                    &&& r is Ok
                    &&& exists|m: Move|
                        names_move(p, uci@, m) && final(self).board@ == spec_make_move(p, m)
                    &&& final(self).white_taken == old(self).white_taken
                    &&& final(self).black_taken == old(self).black_taken
                    &&& final(self).white_elo == old(self).white_elo
                    &&& final(self).black_elo == old(self).black_elo
                    &&& final(self).resigned == old(self).resigned
                    &&& final(self).glass == old(self).glass
                    &&& final(self).last_uci matches Some(u) && u@ == uci@
                }
            }),
    {
        if self.resigned.is_some() || board_status(&self.board) != GameStatus::Ongoing {
            return Err(String::from_str("game is over"));
        }
        if self.board.side != who {
            return Err(String::from_str("not your turn"));
        }
        let mv = match parse_uci(&self.board, uci) {
            Some(m) => m,
            None => return Err(String::from_str("illegal move")),
        };
        proof {
            lemma_king_survives(self.board@, mv);
        }
        self.board.make_move(mv);
        self.last_uci = Some(String::from_str(uci));
        Ok(())
    }

    /// The position as FEN.
    pub fn fen(&self) -> (s: String)
        ensures
            s@ == fen_text(self.board@),
    {
        to_fen(&self.board)
    }

    /// Whose move it is: "white" or "black".
    pub fn turn(&self) -> (s: &'static str)
        ensures
            s@ == (if self.board.side == Color::White {
                "white"@
            } else {
                "black"@
            }),
    {
        match self.board.side {
            Color::White => "white",
            Color::Black => "black",
        }
    }

    /// "ongoing" | "checkmate" | "stalemate" | "fifty-move".
    pub fn status(&self) -> (s: &'static str)
        requires
            movegen_ready(self.board@),
        ensures
            s@ == status_text(spec_status(self.board@)),
    {
        match board_status(&self.board) {
            GameStatus::Checkmate => "checkmate",
            GameStatus::Stalemate => "stalemate",
            GameStatus::FiftyMove => "fifty-move",
            GameStatus::Ongoing => "ongoing",
        }
    }
}

impl Default for Room {
    fn default() -> (r: Room)
        ensures
            r.board@ == start_position(),
            !r.white_taken && !r.black_taken,
            r.white_elo == 1500 && r.black_elo == 1500,
            r.last_uci is None && r.resigned is None && r.glass@.len() == 0,
    {
        Room::new()
    }
}

/// A seated player's identity (for the lobby / registry).
#[derive(Clone)]
pub struct Player {
    pub id: String,
    pub name: String,
    pub rating: i32,
}

/// Identity-based seating for a game: host takes White, guest takes Black.
/// Seats are keyed by player id, so a player keeps their colour across
/// disconnects/reconnects, and a third distinct player is refused.
pub struct Seats {
    pub host: Option<Player>,
    pub guest: Option<Player>,
}

impl Seats {
    /// Seat `p`, returning the assigned colour (or `None` if the game is
    /// full): an empty host seat or the host's own id gets White (the stored
    /// player is replaced), else an empty guest seat or the guest's own id
    /// gets Black.
    pub fn seat(&mut self, p: Player) -> (c: Option<Color>)
        ensures
            (match old(self).host {
                None => true,
                Some(h) => h.id@ == p.id@,
            }) ==> c == Some(Color::White) && final(self).host == Some(p) && final(self).guest
                == old(self).guest,
            !(match old(self).host {
                None => true,
                Some(h) => h.id@ == p.id@,
            }) && (match old(self).guest {
                None => true,
                Some(g) => g.id@ == p.id@,
            }) ==> c == Some(Color::Black) && final(self).guest == Some(p) && final(self).host
                == old(self).host,
            !(match old(self).host {
                None => true,
                Some(h) => h.id@ == p.id@,
            }) && !(match old(self).guest {
                None => true,
                Some(g) => g.id@ == p.id@,
            }) ==> c is None && *final(self) == *old(self),
    {
        let host_free = match &self.host {
            None => true,
            Some(h) => h.id == p.id,
        };
        if host_free {
            self.host = Some(p);
            return Some(Color::White);
        }
        let guest_free = match &self.guest {
            None => true,
            Some(g) => g.id == p.id,
        };
        if guest_free {
            self.guest = Some(p);
            return Some(Color::Black);
        }
        None
    }

    /// "open" (nobody), "waiting" (host only), or "active" (guest seated).
    pub fn status(&self) -> (s: &'static str)
        ensures
            s@ == (if self.guest is Some {
                "active"@
            } else if self.host is Some {
                "waiting"@
            } else {
                "open"@
            }),
    {
        if self.guest.is_some() {
            "active"
        } else if self.host.is_some() {
            "waiting"
        } else {
            "open"
        }
    }
}

impl Default for Seats {
    fn default() -> (s: Seats)
        ensures
            s.host is None,
            s.guest is None,
    {
        Seats { host: None, guest: None }
    }
}


/// Whether the first four bytes of a coordinate move can be sliced.
pub fn uci_ok(uci: &str) -> (r: bool)
    ensures
        r == uci_sliceable(uci@),
{
    uci.as_bytes().len() < 4 || (uci.is_char_boundary(2) && uci.is_char_boundary(4))
}


/// The host seat is free for `p`: empty, or already `p`'s.
pub open spec fn host_free(s: Seats, p: Player) -> bool {
    match s.host {
        None => true,
        Some(h) => h.id@ == p.id@,
    }
}

/// The guest seat is free for `p`: empty, or already `p`'s.
pub open spec fn guest_free(s: Seats, p: Player) -> bool {
    match s.guest {
        None => true,
        Some(g) => g.id@ == p.id@,
    }
}

/// Seats `p` by identity and takes their rating for their colour in the
/// room; `None` (nothing changes) when the game is full.
pub fn seat_player(room: &mut Room, seats: &mut Seats, p: Player) -> (c: Option<Color>)
    ensures
        host_free(*old(seats), p) ==> c == Some(Color::White) && final(seats).host == Some(p)
            && final(seats).guest == old(seats).guest && final(room).white_elo == p.rating
            && final(room).black_elo == old(room).black_elo,
        !host_free(*old(seats), p) && guest_free(*old(seats), p) ==> c == Some(Color::Black)
            && final(seats).guest == Some(p) && final(seats).host == old(seats).host && final(room).black_elo
            == p.rating && final(room).white_elo == old(room).white_elo,
        !host_free(*old(seats), p) && !guest_free(*old(seats), p) ==> c is None && *final(seats) == *old(seats)
            && final(room).white_elo == old(room).white_elo && final(room).black_elo == old(room).black_elo,
        final(room).board == old(room).board,
        final(room).white_taken == old(room).white_taken,
        final(room).black_taken == old(room).black_taken,
        final(room).last_uci == old(room).last_uci,
        final(room).resigned == old(room).resigned,
        final(room).glass == old(room).glass,
{
    let rating = p.rating;
    let c = seats.seat(p);
    match c {
        Some(Color::White) => {
            room.white_elo = rating;
        },
        Some(Color::Black) => {
            room.black_elo = rating;
        },
        None => {},
    }
    c
}


/// The name a colour goes by in an outcome.
pub open spec fn colour_name(c: Color) -> Seq<char> {
    if c == Color::White {
        "white"@
    } else {
        "black"@
    }
}

/// A finished game is never won by the side that lost it: when the side to
/// move is checkmated the winner named is the other colour, never the side
/// to move; when a side resigns, the winner is the other colour, never the
/// side that resigned.
pub proof fn law_winner_is_not_the_loser(p: Position, resigned: Option<Color>)
    ensures
        resigned is None && no_legal_move(p) && spec_in_check(p) ==> spec_outcome(resigned, p) == (
            true,
            colour_name(p.side.spec_opp()),
            "checkmate"@,
        ) && spec_outcome(resigned, p).1 != colour_name(p.side),
        resigned matches Some(c) ==> spec_outcome(resigned, p).1 == colour_name(c.spec_opp())
            && spec_outcome(resigned, p).1 != colour_name(c),
{
    reveal_strlit("white");
    reveal_strlit("black");
    assert("white"@[0] != "black"@[0]);
}
} // verus!
