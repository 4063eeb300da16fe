//! The per-move learning signal the server keeps for each player (did the
//! move leave a piece hanging, did it skip a free capture), read as a move is
//! played in a room, and the checks a new account must pass.
use vstd::prelude::*;
use vstd::utf8::encode_utf8;
use crate::board::{Board, Color, PieceKind, Position, Square};
use crate::movegen::is_attacked;
use crate::rules::attacked;
use crate::room::{byte_square, names_move, spec_status, square_from_bytes, GameStatus, Player, Room};
use crate::board::{spec_make_move, Move};
use crate::rules::movegen_ready;
use crate::text::chars_of;

verus! {

/// The destination square of a coordinate move ("e2e4" → e4), if it reads.
pub fn uci_to_sq(uci: &str) -> (r: Option<u8>)
    ensures
        r == (if encode_utf8(uci@).len() < 4 {
            None
        } else {
            byte_square(encode_utf8(uci@)[2], encode_utf8(uci@)[3])
        }),
{
    let b = uci.as_bytes();
    if b.len() < 4 {
        return None;
    }
    square_from_bytes(b[2], b[3])
}

/// A piece of `mover` (not a pawn or the king) that the enemy attacks and
/// nobody defends.
pub open spec fn left_hanging_at(p: Position, mover: Color, s: int) -> bool {
    &&& p.squares[s] is Some
    &&& p.squares[s]->0.color == mover
    &&& p.squares[s]->0.kind != PieceKind::Pawn
    &&& p.squares[s]->0.kind != PieceKind::King
    &&& attacked(p, s, mover.spec_opp())
    &&& !attacked(p, s, mover)
}

/// Did `mover` leave a (non-pawn) piece hanging after their move?
pub fn left_piece_hanging(b: &Board, mover: Color) -> (r: bool)
    ensures
        r == exists|s: int| 0 <= s < 64 && #[trigger] left_hanging_at(b@, mover, s),
{
    let opp = mover.opp();
    let mut s: u8 = 0;
    while s < 64
        invariant
            s <= 64,
            opp == mover.spec_opp(),
            forall|t: int| 0 <= t < s ==> !#[trigger] left_hanging_at(b@, mover, t),
        decreases 64 - s,
    {
        if let Some(p) = b.squares[s as usize] {
            if p.color == mover && p.kind != PieceKind::Pawn && p.kind != PieceKind::King && is_attacked(
                b,
                s,
                opp,
            ) && !is_attacked(b, s, mover) {
                proof {
                    assert(left_hanging_at(b@, mover, s as int));
                }
                return true;
            }
        }
        s = s + 1;
    }
    false
}

/// An enemy piece (not a pawn or the king), off `played_to`, that `mover`
/// attacks and the enemy leaves undefended.
pub open spec fn skipped_at(p: Position, mover: Color, played_to: u8, s: int) -> bool {
    &&& p.squares[s] is Some
    &&& p.squares[s]->0.color == mover.spec_opp()
    &&& p.squares[s]->0.kind != PieceKind::Pawn
    &&& p.squares[s]->0.kind != PieceKind::King
    &&& s != played_to
    &&& attacked(p, s, mover)
    &&& !attacked(p, s, mover.spec_opp())
}

/// Was a free (non-pawn) enemy piece available before the move that `mover`
/// skipped by playing to `played_to`?
pub fn missed_free_capture(before: &Board, mover: Color, played_to: u8) -> (r: bool)
    ensures
        r == exists|s: int| 0 <= s < 64 && #[trigger] skipped_at(before@, mover, played_to, s),
{
    let opp = mover.opp();
    let mut s: u8 = 0;
    while s < 64
        invariant
            s <= 64,
            opp == mover.spec_opp(),
            forall|t: int| 0 <= t < s ==> !#[trigger] skipped_at(before@, mover, played_to, t),
        decreases 64 - s,
    {
        if let Some(p) = before.squares[s as usize] {
            if p.color == opp && p.kind != PieceKind::Pawn && p.kind != PieceKind::King && s != played_to
                && is_attacked(before, s, mover) && !is_attacked(before, s, opp) {
                proof {
                    assert(skipped_at(before@, mover, played_to, s as int));
                }
                return true;
            }
        }
        s = s + 1;
    }
    false
}

/// Why an account request is refused.
#[derive(Clone, Copy, Debug, PartialEq, Eq, Structural)]
pub enum AccountProblem {
    /// The name is empty or longer than 24 characters.
    BadName,
    /// The PIN is not exactly four digits.
    BadPin,
}

pub open spec fn problem_text(p: AccountProblem) -> Seq<char> {
    match p {
        AccountProblem::BadName => "Enter a name (1–24 characters)."@,
        AccountProblem::BadPin => "PIN must be exactly 4 digits."@,
    }
}

impl AccountProblem {
    /// What the player is told.
    pub fn message(self) -> (s: &'static str)
        ensures
            s@ == problem_text(self),
    {
        match self {
            AccountProblem::BadName => "Enter a name (1–24 characters).",
            AccountProblem::BadPin => "PIN must be exactly 4 digits.",
        }
    }
}

pub open spec fn is_ascii_digit(c: char) -> bool {
    '0' <= c <= '9'
}

/// A name of 1 to 24 characters.
pub open spec fn name_ok(name: Seq<char>) -> bool {
    0 < name.len() <= 24
}

/// Exactly four digits.
pub open spec fn pin_ok(pin: Seq<char>) -> bool {
    pin.len() == 4 && forall|i: int| 0 <= i < 4 ==> is_ascii_digit(#[trigger] pin[i])
}

/// The rating an account starts with: the one asked for within 100..=3200,
/// else 1200.
pub open spec fn start_rating(rating: int) -> int {
    if 100 <= rating <= 3200 {
        rating
    } else {
        1200
    }
}

/// Checks a (trimmed) name and PIN for a new account; gives the rating it
/// starts with, or why it is refused (the name is checked first).
pub fn account_check(name: &str, pin: &str, rating: i32) -> (r: Result<i32, AccountProblem>)
    ensures
        !name_ok(name@) ==> r == Err::<i32, AccountProblem>(AccountProblem::BadName),
        name_ok(name@) && !pin_ok(pin@) ==> r == Err::<i32, AccountProblem>(AccountProblem::BadPin),
        name_ok(name@) && pin_ok(pin@) ==> r == Ok::<i32, AccountProblem>(start_rating(rating as int) as i32),
{
    let n = chars_of(name);
    if n.len() == 0 || n.len() > 24 {
        return Err(AccountProblem::BadName);
    }
    let p = chars_of(pin);
    if p.len() != 4 {
        return Err(AccountProblem::BadPin);
    }
    let mut i: usize = 0;
    while i < 4
        invariant
            i <= 4,
            p@ == pin@,
            p@.len() == 4,
            name_ok(name@),
            forall|j: int| 0 <= j < i ==> is_ascii_digit(#[trigger] p@[j]),
        decreases 4 - i,
    {
        let c = p[i];
        if !('0' <= c && c <= '9') {
            return Err(AccountProblem::BadPin);
        }
        i = i + 1;
    }
    if 100 <= rating && rating <= 3200 {
        Ok(rating)
    } else {
        Ok(1200)
    }
}


/// The destination a coordinate move's text names, if it reads.
pub open spec fn named_destination(uci: Seq<char>) -> Option<u8> {
    if encode_utf8(uci).len() < 4 {
        None
    } else {
        byte_square(encode_utf8(uci)[2], encode_utf8(uci)[3])
    }
}

/// The learning signal of a move that led from `before` to `after`: did it
/// leave a piece hanging, did it skip a free capture.
pub open spec fn move_signal(before: Position, after: Position, who: Color, uci: Seq<char>) -> (bool, bool) {
    (
        exists|s: int| 0 <= s < 64 && #[trigger] left_hanging_at(after, who, s),
        match named_destination(uci) {
            Some(t) => exists|s: int| 0 <= s < 64 && #[trigger] skipped_at(before, who, t, s),
            None => false,
        },
    )
}

/// The room takes `who`'s move: the game goes on, it is their turn, and the
/// text names a legal move.
pub open spec fn move_accepted(room: Room, who: Color, uci: Seq<char>) -> bool {
    &&& room.resigned is None
    &&& spec_status(room.board@) == GameStatus::Ongoing
    &&& room.board@.side == who
    &&& exists|m: Move| names_move(room.board@, uci, m)
}

/// Plays `who`'s coordinate move in the room and, when the room takes it,
/// reads the learning signal; `None`, with the room unchanged, when it does
/// not.
pub fn play_and_read(room: &mut Room, who: Color, uci: &str) -> (r: Option<(bool, bool)>)
    requires
        old(room).resigned is None ==> movegen_ready(old(room).board@),
    ensures
        r is Some <==> move_accepted(*old(room), who, uci@),
        r is None ==> *final(room) == *old(room),
        r matches Some(sig) ==> {
            &&& exists|m: Move|
                names_move(old(room).board@, uci@, m) && final(room).board@ == spec_make_move(old(room).board@, m)
            &&& sig == move_signal(old(room).board@, final(room).board@, who, uci@)
            &&& final(room).last_uci matches Some(u) && u@ == uci@
            &&& final(room).white_taken == old(room).white_taken
            &&& final(room).black_taken == old(room).black_taken
            &&& final(room).white_elo == old(room).white_elo
            &&& final(room).black_elo == old(room).black_elo
            &&& final(room).resigned == old(room).resigned
            &&& final(room).glass == old(room).glass
        },
{
    let before = room.board;
    let played_to = uci_to_sq(uci);
    match room.apply_move(who, uci) {
        Ok(()) => {
            let after = room.board;
            let hung = left_piece_hanging(&after, who);
            let missed = match played_to {
                Some(t) => missed_free_capture(&before, who, t),
                None => false,
            };
            Some((hung, missed))
        },
        Err(_) => None,
    }
}


/// `c` is white space in Rust's sense (the Unicode `White_Space` property).
pub open spec fn is_space(c: char) -> bool {
    ('\u{9}' <= c <= '\u{d}') || c == ' ' || c == '\u{85}' || c == '\u{a0}' || c == '\u{1680}' || (
    '\u{2000}' <= c <= '\u{200a}') || c == '\u{2028}' || c == '\u{2029}' || c == '\u{202f}' || c
        == '\u{205f}' || c == '\u{3000}'
}

/// Nothing but white space (or nothing at all).
pub open spec fn blank(s: Seq<char>) -> bool {
    forall|i: int| 0 <= i < s.len() ==> is_space(#[trigger] s[i])
}

fn char_is_space(c: char) -> (r: bool)
    ensures
        r == is_space(c),
{
    ('\u{9}' <= c && c <= '\u{d}') || c == ' ' || c == '\u{85}' || c == '\u{a0}' || c == '\u{1680}' || (
    '\u{2000}' <= c && c <= '\u{200a}') || c == '\u{2028}' || c == '\u{2029}' || c == '\u{202f}' || c
        == '\u{205f}' || c == '\u{3000}'
}

/// Whether `s` is blank.
pub fn is_blank(s: &str) -> (r: bool)
    ensures
        r == blank(s@),
{
    let cs = chars_of(s);
    let mut i: usize = 0;
    while i < cs.len()
        invariant
            cs@ == s@,
            i <= cs@.len(),
            forall|k: int| 0 <= k < i ==> is_space(#[trigger] cs@[k]),
        decreases cs@.len() - i,
    {
        if !char_is_space(cs[i]) {
            return false;
        }
        i = i + 1;
    }
    true
}

/// The player a join request seats: the client's id, or `anon_id` when it
/// sent none; its name, or "Player" when the name is blank; its rating, at
/// least 1.
pub fn join_player(pid: String, name: String, elo: i32, anon_id: String) -> (p: Player)
    ensures
        p.id@ == (if pid@.len() == 0 {
            anon_id@
        } else {
            pid@
        }),
        p.name@ == (if blank(name@) {
            "Player"@
        } else {
            name@
        }),
        p.rating == (if elo >= 1 {
            elo as int
        } else {
            1
        }),
{
    let id = if pid.as_str().unicode_len() == 0 {
        anon_id
    } else {
        pid
    };
    let name = if is_blank(name.as_str()) {
        String::from_str("Player")
    } else {
        name
    };
    let rating = if elo >= 1 {
        elo
    } else {
        1
    };
    Player { id, name, rating }
}

/// A stored account: its id, display name, PIN and rating.
pub struct AccountRecord {
    pub id: String,
    pub name: String,
    pub pin: String,
    pub rating: i32,
}

/// The answer to a claim-or-sign-in: back in to an existing account, a new
/// account to store, or a wrong PIN.
pub enum SignIn {
    Returning(AccountRecord),
    Created(AccountRecord),
    WrongPin,
}

/// Claims the name with the PIN, or signs back in with the same pair:
/// `existing` is the account already stored under the name's key, if any,
/// and `new_id` the id a new account gets.
pub fn sign_in(existing: Option<AccountRecord>, new_id: String, name: String, pin: String, rating: i32) -> (r: SignIn)
    ensures
        match existing {
            Some(acc) => if acc.pin@ == pin@ {
                r matches SignIn::Returning(a) && a.id@ == acc.id@ && a.name@ == acc.name@ && a.pin@ == acc.pin@
                    && a.rating == acc.rating
            } else {
                r is WrongPin
            },
            None => r matches SignIn::Created(a) && a.id@ == new_id@ && a.name@ == name@ && a.pin@ == pin@
                && a.rating == rating,
        },
{
    match existing {
        Some(acc) => {
            if text_eq(acc.pin.as_str(), pin.as_str()) {
                SignIn::Returning(acc)
            } else {
                SignIn::WrongPin
            }
        },
        None => SignIn::Created(AccountRecord { id: new_id, name, pin, rating }),
    }
}

/// Whether two texts are equal.
fn text_eq(a: &str, b: &str) -> (r: bool)
    ensures
        r == (a@ == b@),
{
    let x = chars_of(a);
    let y = chars_of(b);
    if x.len() != y.len() {
        return false;
    }
    let mut i: usize = 0;
    while i < x.len()
        invariant
            x@ == a@,
            y@ == b@,
            x@.len() == y@.len(),
            i <= x@.len(),
            forall|k: int| 0 <= k < i ==> x@[k] == y@[k],
        decreases x@.len() - i,
    {
        if x[i] != y[i] {
            return false;
        }
        i = i + 1;
    }
    proof {
        assert(x@ =~= y@);
    }
    true
}

/// The side that resigned, as a stored game records it: "white" or "black",
/// anything else meaning nobody did.
pub fn resigned_from_text(s: &str) -> (r: Option<Color>)
    ensures
        r == (if s@ == "white"@ {
            Some(Color::White)
        } else if s@ == "black"@ {
            Some(Color::Black)
        } else {
            None
        }),
{
    if text_eq(s, "white") {
        Some(Color::White)
    } else if text_eq(s, "black") {
        Some(Color::Black)
    } else {
        None
    }
}

/// A seated player as a stored game records one: none without an id; a
/// missing name reads as empty and a missing rating as 1500.
pub fn stored_player(id: Option<String>, name: Option<String>, rating: Option<i32>) -> (r: Option<Player>)
    ensures
        id is None ==> r is None,
        id matches Some(i) ==> (r matches Some(pl) && pl.id@ == i@ && pl.name@ == (match name {
            Some(n) => n@,
            None => Seq::<char>::empty(),
        }) && pl.rating == (match rating {
            Some(x) => x,
            None => 1500,
        })),
{
    match id {
        None => None,
        Some(i) => {
            let name = match name {
                Some(n) => n,
                None => String::new(),
            };
            let rating = match rating {
                Some(x) => x,
                None => 1500,
            };
            Some(Player { id: i, name, rating })
        },
    }
}
} // verus!
