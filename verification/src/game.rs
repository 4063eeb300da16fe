//! The game object the web shell drives: a board, its glass-box, the two
//! ratings that fix the assistance rung, and the small JSON texts the shell
//! reads. All rules, search and assistance stay in the library; this layer
//! only sequences them.
use vstd::prelude::*;
use vstd::string::StringExecFns;
use crate::assist::{
    analysis_at, analysis_is, analyze, level_for_gap, level_rank, rating_gap, recommended_level, summary_text, to_uci,
    uci_text, event_is, AssistEvent, AssistLevel, Assistance, Candidate, GlassBox, Threat,
};
use crate::board::{spec_make_move, Board, Color, Move, PieceKind, Position};
use crate::console::{board_chars, board_string};
use crate::fen::{fen_ok, fen_position, fen_text, parse_fen, start_position, to_fen};
use crate::legality::{lemma_playable_next, playable};
use crate::movegen::{generate_legal, lemma_king_survives};
use crate::rules::{has_king, legal, movegen_ready};
use crate::search::{
    in_check, no_legal_move, rank_moves, search, search_ready, search_value, spec_in_check, INF, SCORE_SAFE_DEPTH, ranked_by_score, unsorted_ranking,
};
use crate::strategy::{arrow_tag, PlanArrow, PlanStep, Strategy, StrategyRead};
use crate::text::{chars_of, decimal, push_char, push_decimal};

verus! {

// ---------------------------------------------------------------------------
// Names
// ---------------------------------------------------------------------------

/// "white" or "black".
pub open spec fn color_text(c: Color) -> Seq<char> {
    match c {
        Color::White => "white"@,
        Color::Black => "black"@,
    }
}

pub fn color_name(c: Color) -> (s: &'static str)
    ensures
        s@ == color_text(c),
{
    match c {
        Color::White => "white",
        Color::Black => "black",
    }
}

/// The rung's lower-case name.
pub open spec fn level_text(l: AssistLevel) -> Seq<char> {
    match l {
        AssistLevel::Off => "off"@,
        AssistLevel::Awareness => "awareness"@,
        AssistLevel::Coaching => "coaching"@,
        AssistLevel::Suggestion => "suggestion"@,
        AssistLevel::Guided => "guided"@,
        AssistLevel::Autopilot => "autopilot"@,
    }
}

pub fn level_name(l: AssistLevel) -> (s: &'static str)
    ensures
        s@ == level_text(l),
{
    match l {
        AssistLevel::Off => "off",
        AssistLevel::Awareness => "awareness",
        AssistLevel::Coaching => "coaching",
        AssistLevel::Suggestion => "suggestion",
        AssistLevel::Guided => "guided",
        AssistLevel::Autopilot => "autopilot",
    }
}

/// `char::to_ascii_lowercase`.
pub open spec fn ascii_lower(c: char) -> char {
    if 'A' <= c <= 'Z' {
        ((c as u32) + 32) as char
    } else {
        c
    }
}

pub open spec fn lower_text(s: Seq<char>) -> Seq<char> {
    Seq::new(s.len(), |i: int| ascii_lower(s[i]))
}

fn to_lower(c: char) -> (r: char)
    ensures
        r == ascii_lower(c),
{
    if 'A' <= c && c <= 'Z' {
        (((c as u32) + 32) as u8) as char
    } else {
        c
    }
}

/// The characters of `s`, lower-cased.
fn lowered(s: &str) -> (v: Vec<char>)
    ensures
        v@ == lower_text(s@),
{
    let cs = chars_of(s);
    let mut v: Vec<char> = Vec::new();
    let mut i: usize = 0;
    while i < cs.len()
        invariant
            i <= cs@.len(),
            cs@ == s@,
            v@ == lower_text(s@).subrange(0, i as int),
        decreases cs@.len() - i,
    {
        v.push(to_lower(cs[i]));
        proof {
            assert(v@ =~= lower_text(s@).subrange(0, i + 1));
        }
        i = i + 1;
    }
    proof {
        assert(lower_text(s@).subrange(0, cs@.len() as int) =~= lower_text(s@));
    }
    v
}

fn same_chars(a: &Vec<char>, word: &str) -> (r: bool)
    ensures
        r == (a@ == word@),
{
    let w = chars_of(word);
    if a.len() != w.len() {
        return false;
    }
    let mut i: usize = 0;
    while i < a.len()
        invariant
            i <= a@.len(),
            a@.len() == w@.len(),
            w@ == word@,
            forall|j: int| 0 <= j < i ==> a@[j] == w@[j],
        decreases a@.len() - i,
    {
        if a[i] != w[i] {
            return false;
        }
        i = i + 1;
    }
    proof {
        assert(a@ =~= w@);
    }
    true
}

/// The rung a name asks for, in any case ("strategy" is a name for
/// suggestion); `None` for anything else.
pub open spec fn level_named(s: Seq<char>) -> Option<AssistLevel> {
    let l = lower_text(s);
    if l == "off"@ {
        Some(AssistLevel::Off)
    } else if l == "awareness"@ {
        Some(AssistLevel::Awareness)
    } else if l == "coaching"@ {
        Some(AssistLevel::Coaching)
    } else if l == "suggestion"@ || l == "strategy"@ {
        Some(AssistLevel::Suggestion)
    } else if l == "guided"@ {
        Some(AssistLevel::Guided)
    } else if l == "autopilot"@ {
        Some(AssistLevel::Autopilot)
    } else {
        None
    }
}

pub fn level_from_name(s: &str) -> (r: Option<AssistLevel>)
    ensures
        r == level_named(s@),
{
    let l = lowered(s);
    if same_chars(&l, "off") {
        Some(AssistLevel::Off)
    } else if same_chars(&l, "awareness") {
        Some(AssistLevel::Awareness)
    } else if same_chars(&l, "coaching") {
        Some(AssistLevel::Coaching)
    } else if same_chars(&l, "suggestion") || same_chars(&l, "strategy") {
        Some(AssistLevel::Suggestion)
    } else if same_chars(&l, "guided") {
        Some(AssistLevel::Guided)
    } else if same_chars(&l, "autopilot") {
        Some(AssistLevel::Autopilot)
    } else {
        None
    }
}

/// The promotion piece a text asks for by its first letter, in any case.
pub open spec fn promo_named(s: Seq<char>) -> Option<PieceKind> {
    if s.len() == 0 {
        None
    } else {
        let c = ascii_lower(s[0]);
        if c == 'q' {
            Some(PieceKind::Queen)
        } else if c == 'r' {
            Some(PieceKind::Rook)
        } else if c == 'b' {
            Some(PieceKind::Bishop)
        } else if c == 'n' {
            Some(PieceKind::Knight)
        } else {
            None
        }
    }
}

pub fn parse_promo(s: &str) -> (r: Option<PieceKind>)
    ensures
        r == promo_named(s@),
{
    let cs = chars_of(s);
    if cs.len() == 0 {
        return None;
    }
    let c = to_lower(cs[0]);
    if c == 'q' {
        Some(PieceKind::Queen)
    } else if c == 'r' {
        Some(PieceKind::Rook)
    } else if c == 'b' {
        Some(PieceKind::Bishop)
    } else if c == 'n' {
        Some(PieceKind::Knight)
    } else {
        None
    }
}

/// The lower-case letter of a piece kind.
pub open spec fn kind_letter(k: PieceKind) -> char {
    match k {
        PieceKind::Pawn => 'p',
        PieceKind::Knight => 'n',
        PieceKind::Bishop => 'b',
        PieceKind::Rook => 'r',
        PieceKind::Queen => 'q',
        PieceKind::King => 'k',
    }
}

pub fn piece_kind_letter(k: PieceKind) -> (c: char)
    ensures
        c == kind_letter(k),
{
    match k {
        PieceKind::Pawn => 'p',
        PieceKind::Knight => 'n',
        PieceKind::Bishop => 'b',
        PieceKind::Rook => 'r',
        PieceKind::Queen => 'q',
        PieceKind::King => 'k',
    }
}

/// A rating's opponent strength: (search depth, move-variety spread in
/// centipawns) — deeper and tighter as the rating rises.
pub open spec fn strength(elo: int) -> (u32, i32) {
    if elo <= 700 {
        (1, 250)
    } else if elo <= 1100 {
        (2, 140)
    } else if elo <= 1500 {
        (2, 60)
    } else if elo <= 1900 {
        (3, 30)
    } else if elo <= 2300 {
        (3, 10)
    } else {
        (4, 0)
    }
}

pub fn strength_for_elo(elo: i32) -> (r: (u32, i32))
    ensures
        r == strength(elo as int),
{
    if elo <= 700 {
        (1, 250)
    } else if elo <= 1100 {
        (2, 140)
    } else if elo <= 1500 {
        (2, 60)
    } else if elo <= 1900 {
        (3, 30)
    } else if elo <= 2300 {
        (3, 10)
    } else {
        (4, 0)
    }
}

// ---------------------------------------------------------------------------
// JSON text
// ---------------------------------------------------------------------------

pub open spec fn escape_char(c: char) -> Seq<char> {
    if c == '"' {
        seq!['\\', '"']
    } else if c == '\\' {
        seq!['\\', '\\']
    } else if c == '\n' {
        seq!['\\', 'n']
    } else {
        seq![c]
    }
}

pub open spec fn json_escape(s: Seq<char>) -> Seq<char>
    decreases s.len(),
{
    if s.len() == 0 {
        seq![]
    } else {
        json_escape(s.drop_last()) + escape_char(s.last())
    }
}

/// A JSON string literal for `s` (quote, backslash and newline escaped).
pub open spec fn json_text(s: Seq<char>) -> Seq<char> {
    seq!['"'] + json_escape(s) + seq!['"']
}

/// Appends the JSON string literal for `s`.
fn push_json(out: &mut String, s: &str)
    ensures
        final(out)@ == old(out)@ + json_text(s@),
{
    let cs = chars_of(s);
    let ghost start = out@;
    push_char(out, '"');
    let mut i: usize = 0;
    while i < cs.len()
        invariant
            i <= cs@.len(),
            cs@ == s@,
            out@ == start + seq!['"'] + json_escape(s@.subrange(0, i as int)),
        decreases cs@.len() - i,
    {
        let c = cs[i];
        proof {
            assert(s@.subrange(0, i + 1).drop_last() =~= s@.subrange(0, i as int));
            assert(s@.subrange(0, i + 1).last() == c);
        }
        if c == '"' {
            push_char(out, '\\');
            push_char(out, '"');
        } else if c == '\\' {
            push_char(out, '\\');
            push_char(out, '\\');
        } else if c == '\n' {
            push_char(out, '\\');
            push_char(out, 'n');
        } else {
            push_char(out, c);
        }
        proof {
            assert(out@ =~= start + seq!['"'] + json_escape(s@.subrange(0, i + 1)));
        }
        i = i + 1;
    }
    push_char(out, '"');
    proof {
        assert(s@.subrange(0, cs@.len() as int) =~= s@);
        assert(out@ =~= start + json_text(s@));
    }
}

/// The JSON string literal for `s`.
pub fn json_str(s: &str) -> (r: String)
    ensures
        r@ == json_text(s@),
{
    let mut out = String::new();
    push_json(&mut out, s);
    proof {
        assert(out@ =~= json_text(s@));
    }
    out
}

/// An integer in decimal, with a leading '-' when negative.
pub open spec fn int_text(v: int) -> Seq<char> {
    if v < 0 {
        seq!['-'] + decimal((-v) as nat)
    } else {
        decimal(v as nat)
    }
}

fn push_int(out: &mut String, v: i64)
    requires
        v > i64::MIN,
    ensures
        final(out)@ == old(out)@ + int_text(v as int),
{
    if v < 0 {
        push_char(out, '-');
        push_decimal(out, (-v) as u64);
        proof {
            assert(old(out)@.push('-') + decimal((-v) as nat) =~= old(out)@ + int_text(v as int));
        }
    } else {
        push_decimal(out, v as u64);
    }
}

pub open spec fn bool_text(b: bool) -> Seq<char> {
    if b {
        "true"@
    } else {
        "false"@
    }
}

fn push_bool(out: &mut String, b: bool)
    ensures
        final(out)@ == old(out)@ + bool_text(b),
{
    if b {
        out.append("true");
    } else {
        out.append("false");
    }
}

/// The items separated by commas.
pub open spec fn join(items: Seq<Seq<char>>) -> Seq<char>
    decreases items.len(),
{
    if items.len() == 0 {
        seq![]
    } else if items.len() == 1 {
        items[0]
    } else {
        join(items.drop_last()) + seq![','] + items.last()
    }
}

proof fn lemma_join_step(items: Seq<Seq<char>>, i: int)
    requires
        0 <= i < items.len(),
    ensures
        join(items.subrange(0, i + 1)) == if i == 0 {
            items[0]
        } else {
            join(items.subrange(0, i)) + seq![','] + items[i]
        },
{
    assert(items.subrange(0, i + 1).drop_last() =~= items.subrange(0, i));
    if i == 0 {
        assert(items.subrange(0, 1)[0] == items[0]);
    }
}


// ---------------------------------------------------------------------------
// The assistance as JSON
// ---------------------------------------------------------------------------

pub open spec fn square_json(s: u8) -> Seq<char> {
    decimal(s as nat)
}

fn push_square(out: &mut String, s: &u8)
    ensures
        final(out)@ == old(out)@ + square_json(*s),
{
    push_decimal(out, *s as u64);
}

pub open spec fn threat_json(t: Threat) -> Seq<char> {
    "{\"sq\":"@ + decimal(t.square as nat) + ",\"kind\":"@ + json_text(seq![kind_letter(t.kind)]) + ",\"loss\":"@
        + int_text(t.loss as int) + "}"@
}

fn push_threat(out: &mut String, t: &Threat)
    ensures
        final(out)@ == old(out)@ + threat_json(*t),
{
    let ghost start = out@;
    out.append("{\"sq\":");
    push_decimal(out, t.square as u64);
    out.append(",\"kind\":");
    let c = piece_kind_letter(t.kind);
    push_char(out, '"');
    push_char(out, c);
    push_char(out, '"');
    proof {
        assert(seq![c].drop_last() =~= Seq::<char>::empty());
        assert(seq![c].last() == c);
        assert(json_escape(Seq::<char>::empty()) == Seq::<char>::empty());
        assert(c != '"' && c != '\\' && c != '\n');
        assert(json_escape(seq![c]) =~= seq![c]);
    }
    out.append(",\"loss\":");
    push_int(out, t.loss as i64);
    out.append("}");
    proof {
        assert(out@ =~= start + threat_json(*t));
    }
}

pub open spec fn message_json(m: String) -> Seq<char> {
    json_text(m@)
}

fn push_message(out: &mut String, m: &String)
    ensures
        final(out)@ == old(out)@ + message_json(*m),
{
    push_json(out, m.as_str());
}

pub open spec fn candidate_json(c: Candidate) -> Seq<char> {
    "{\"from\":"@ + decimal(c.mv.from as nat) + ",\"to\":"@ + decimal(c.mv.to as nat) + ",\"uci\":"@ + json_text(
        c.uci@,
    ) + ",\"san\":"@ + json_text(c.san@) + ",\"score\":"@ + int_text(c.score as int) + ",\"note\":"@
        + json_text(c.note@) + "}"@
}

fn push_candidate(out: &mut String, c: &Candidate)
    ensures
        final(out)@ == old(out)@ + candidate_json(*c),
{
    let ghost start = out@;
    out.append("{\"from\":");
    push_decimal(out, c.mv.from as u64);
    out.append(",\"to\":");
    push_decimal(out, c.mv.to as u64);
    out.append(",\"uci\":");
    push_json(out, c.uci.as_str());
    out.append(",\"san\":");
    push_json(out, c.san.as_str());
    out.append(",\"score\":");
    push_int(out, c.score as i64);
    out.append(",\"note\":");
    push_json(out, c.note.as_str());
    out.append("}");
    proof {
        assert(out@ =~= start + candidate_json(*c));
    }
}

pub open spec fn arrow_json(a: PlanArrow) -> Seq<char> {
    "{\"from\":"@ + decimal(a.from as nat) + ",\"to\":"@ + decimal(a.to as nat) + ",\"kind\":"@ + json_text(
        arrow_tag(a.kind),
    ) + "}"@
}

fn push_arrow(out: &mut String, a: &PlanArrow)
    ensures
        final(out)@ == old(out)@ + arrow_json(*a),
{
    let ghost start = out@;
    out.append("{\"from\":");
    push_decimal(out, a.from as u64);
    out.append(",\"to\":");
    push_decimal(out, a.to as u64);
    out.append(",\"kind\":");
    push_json(out, a.kind.tag());
    out.append("}");
    proof {
        assert(out@ =~= start + arrow_json(*a));
    }
}

pub open spec fn step_json(st: PlanStep) -> Seq<char> {
    "{\"text\":"@ + json_text(st.text@) + ",\"done\":"@ + bool_text(st.done) + "}"@
}

fn push_step(out: &mut String, st: &PlanStep)
    ensures
        final(out)@ == old(out)@ + step_json(*st),
{
    let ghost start = out@;
    out.append("{\"text\":");
    push_json(out, st.text.as_str());
    out.append(",\"done\":");
    push_bool(out, st.done);
    out.append("}");
    proof {
        assert(out@ =~= start + step_json(*st));
    }
}

fn push_square_list(out: &mut String, v: &Vec<u8>)
    ensures
        final(out)@ == old(out)@ + join(Seq::new(v@.len(), |i: int| square_json(v@[i]))),
{
    let ghost items = Seq::new(v@.len(), |i: int| square_json(v@[i]));
    let ghost start = out@;
    let mut i: usize = 0;
    proof {
        assert(items.subrange(0, 0) =~= Seq::<Seq<char>>::empty());
    }
    while i < v.len()
        invariant
            i <= v@.len(),
            items == Seq::new(v@.len(), |i: int| square_json(v@[i])),
            out@ == start + join(items.subrange(0, i as int)),
        decreases v@.len() - i,
    {
        proof {
            lemma_join_step(items, i as int);
        }
        if i > 0 {
            push_char(out, ',');
        }
        push_square(out, &v[i]);
        proof {
            assert(out@ =~= start + join(items.subrange(0, i + 1)));
        }
        i = i + 1;
    }
    proof {
        assert(items.subrange(0, v@.len() as int) =~= items);
    }
}

fn push_threat_list(out: &mut String, v: &Vec<Threat>)
    ensures
        final(out)@ == old(out)@ + join(Seq::new(v@.len(), |i: int| threat_json(v@[i]))),
{
    let ghost items = Seq::new(v@.len(), |i: int| threat_json(v@[i]));
    let ghost start = out@;
    let mut i: usize = 0;
    proof {
        assert(items.subrange(0, 0) =~= Seq::<Seq<char>>::empty());
    }
    while i < v.len()
        invariant
            i <= v@.len(),
            items == Seq::new(v@.len(), |i: int| threat_json(v@[i])),
            out@ == start + join(items.subrange(0, i as int)),
        decreases v@.len() - i,
    {
        proof {
            lemma_join_step(items, i as int);
        }
        if i > 0 {
            push_char(out, ',');
        }
        push_threat(out, &v[i]);
        proof {
            assert(out@ =~= start + join(items.subrange(0, i + 1)));
        }
        i = i + 1;
    }
    proof {
        assert(items.subrange(0, v@.len() as int) =~= items);
    }
}

fn push_message_list(out: &mut String, v: &Vec<String>)
    ensures
        final(out)@ == old(out)@ + join(Seq::new(v@.len(), |i: int| message_json(v@[i]))),
{
    let ghost items = Seq::new(v@.len(), |i: int| message_json(v@[i]));
    let ghost start = out@;
    let mut i: usize = 0;
    proof {
        assert(items.subrange(0, 0) =~= Seq::<Seq<char>>::empty());
    }
    while i < v.len()
        invariant
            i <= v@.len(),
            items == Seq::new(v@.len(), |i: int| message_json(v@[i])),
            out@ == start + join(items.subrange(0, i as int)),
        decreases v@.len() - i,
    {
        proof {
            lemma_join_step(items, i as int);
        }
        if i > 0 {
            push_char(out, ',');
        }
        push_message(out, &v[i]);
        proof {
            assert(out@ =~= start + join(items.subrange(0, i + 1)));
        }
        i = i + 1;
    }
    proof {
        assert(items.subrange(0, v@.len() as int) =~= items);
    }
}

fn push_candidate_list(out: &mut String, v: &Vec<Candidate>)
    ensures
        final(out)@ == old(out)@ + join(Seq::new(v@.len(), |i: int| candidate_json(v@[i]))),
{
    let ghost items = Seq::new(v@.len(), |i: int| candidate_json(v@[i]));
    let ghost start = out@;
    let mut i: usize = 0;
    proof {
        assert(items.subrange(0, 0) =~= Seq::<Seq<char>>::empty());
    }
    while i < v.len()
        invariant
            i <= v@.len(),
            items == Seq::new(v@.len(), |i: int| candidate_json(v@[i])),
            out@ == start + join(items.subrange(0, i as int)),
        decreases v@.len() - i,
    {
        proof {
            lemma_join_step(items, i as int);
        }
        if i > 0 {
            push_char(out, ',');
        }
        push_candidate(out, &v[i]);
        proof {
            assert(out@ =~= start + join(items.subrange(0, i + 1)));
        }
        i = i + 1;
    }
    proof {
        assert(items.subrange(0, v@.len() as int) =~= items);
    }
}

fn push_arrow_list(out: &mut String, v: &Vec<PlanArrow>)
    ensures
        final(out)@ == old(out)@ + join(Seq::new(v@.len(), |i: int| arrow_json(v@[i]))),
{
    let ghost items = Seq::new(v@.len(), |i: int| arrow_json(v@[i]));
    let ghost start = out@;
    let mut i: usize = 0;
    proof {
        assert(items.subrange(0, 0) =~= Seq::<Seq<char>>::empty());
    }
    while i < v.len()
        invariant
            i <= v@.len(),
            items == Seq::new(v@.len(), |i: int| arrow_json(v@[i])),
            out@ == start + join(items.subrange(0, i as int)),
        decreases v@.len() - i,
    {
        proof {
            lemma_join_step(items, i as int);
        }
        if i > 0 {
            push_char(out, ',');
        }
        push_arrow(out, &v[i]);
        proof {
            assert(out@ =~= start + join(items.subrange(0, i + 1)));
        }
        i = i + 1;
    }
    proof {
        assert(items.subrange(0, v@.len() as int) =~= items);
    }
}

fn push_step_list(out: &mut String, v: &Vec<PlanStep>)
    ensures
        final(out)@ == old(out)@ + join(Seq::new(v@.len(), |i: int| step_json(v@[i]))),
{
    let ghost items = Seq::new(v@.len(), |i: int| step_json(v@[i]));
    let ghost start = out@;
    let mut i: usize = 0;
    proof {
        assert(items.subrange(0, 0) =~= Seq::<Seq<char>>::empty());
    }
    while i < v.len()
        invariant
            i <= v@.len(),
            items == Seq::new(v@.len(), |i: int| step_json(v@[i])),
            out@ == start + join(items.subrange(0, i as int)),
        decreases v@.len() - i,
    {
        proof {
            lemma_join_step(items, i as int);
        }
        if i > 0 {
            push_char(out, ',');
        }
        push_step(out, &v[i]);
        proof {
            assert(out@ =~= start + join(items.subrange(0, i + 1)));
        }
        i = i + 1;
    }
    proof {
        assert(items.subrange(0, v@.len() as int) =~= items);
    }
}

#[verifier::opaque]
pub open spec fn strategy_json(s: Strategy) -> Seq<char> {
    "{\"id\":"@ + json_text(s.id@) + ",\"name\":"@ + json_text(s.name@) + ",\"idea\":"@ + json_text(s.idea@)
        + ",\"fit\":"@ + int_text(s.fit as int) + ",\"arrows\":["@ + join(
        Seq::new(s.arrows@.len(), |i: int| arrow_json(s.arrows@[i])),
    ) + "],\"rings\":["@ + join(Seq::new(s.rings@.len(), |i: int| square_json(s.rings@[i]))) + "],\"steps\":["@
        + join(Seq::new(s.steps@.len(), |i: int| step_json(s.steps@[i]))) + "],\"moveUci\":"@ + json_text(
        s.move_uci@,
    ) + ",\"moveSan\":"@ + json_text(s.move_san@) + ",\"moveNote\":"@ + json_text(s.move_note@) + "}"@
}

fn push_strategy(out: &mut String, s: &Strategy)
    ensures
        final(out)@ == old(out)@ + strategy_json(*s),
{
    let ghost start = out@;
    out.append("{\"id\":");
    push_json(out, s.id);
    out.append(",\"name\":");
    push_json(out, s.name.as_str());
    out.append(",\"idea\":");
    push_json(out, s.idea.as_str());
    out.append(",\"fit\":");
    push_int(out, s.fit as i64);
    out.append(",\"arrows\":[");
    push_arrow_list(out, &s.arrows);
    out.append("],\"rings\":[");
    push_square_list(out, &s.rings);
    out.append("],\"steps\":[");
    push_step_list(out, &s.steps);
    out.append("],\"moveUci\":");
    push_json(out, s.move_uci.as_str());
    out.append(",\"moveSan\":");
    push_json(out, s.move_san.as_str());
    out.append(",\"moveNote\":");
    push_json(out, s.move_note.as_str());
    out.append("}");
    proof {
        reveal(strategy_json);
        assert(out@ =~= start + strategy_json(*s));
    }
}

fn push_strategy_list(out: &mut String, v: &Vec<Strategy>)
    ensures
        final(out)@ == old(out)@ + join(Seq::new(v@.len(), |i: int| strategy_json(v@[i]))),
{
    let ghost items = Seq::new(v@.len(), |i: int| strategy_json(v@[i]));
    let ghost start = out@;
    let mut i: usize = 0;
    proof {
        assert(items.subrange(0, 0) =~= Seq::<Seq<char>>::empty());
    }
    while i < v.len()
        invariant
            i <= v@.len(),
            items == Seq::new(v@.len(), |i: int| strategy_json(v@[i])),
            out@ == start + join(items.subrange(0, i as int)),
        decreases v@.len() - i,
    {
        proof {
            lemma_join_step(items, i as int);
        }
        if i > 0 {
            push_char(out, ',');
        }
        push_strategy(out, &v[i]);
        proof {
            assert(out@ =~= start + join(items.subrange(0, i + 1)));
        }
        i = i + 1;
    }
    proof {
        assert(items.subrange(0, v@.len() as int) =~= items);
    }
}

pub open spec fn read_json(r: StrategyRead) -> Seq<char> {
    "{\"phase\":"@ + json_text(r.phase@) + ",\"opponent\":"@ + (match r.opponent {
        Some(o) => json_text(o@),
        None => "null"@,
    }) + ",\"strategies\":["@ + join(Seq::new(r.strategies@.len(), |i: int| strategy_json(r.strategies@[i])))
        + "]}"@
}

fn push_read(out: &mut String, r: &StrategyRead)
    ensures
        final(out)@ == old(out)@ + read_json(*r),
{
    let ghost start = out@;
    out.append("{\"phase\":");
    push_json(out, r.phase);
    out.append(",\"opponent\":");
    match &r.opponent {
        Some(o) => push_json(out, o.as_str()),
        None => out.append("null"),
    }
    out.append(",\"strategies\":[");
    push_strategy_list(out, &r.strategies);
    out.append("]}");
    proof {
        assert(out@ =~= start + read_json(*r));
    }
}

/// The assistance as the web shell reads it.
pub open spec fn assist_json(a: Assistance) -> Seq<char> {
    "{\"level\":"@ + json_text(level_text(a.level)) + ",\"inCheck\":"@ + bool_text(a.in_check) + ",\"hanging\":["@
        + join(Seq::new(a.hanging@.len(), |i: int| square_json(a.hanging@[i]))) + "],\"threats\":["@ + join(
        Seq::new(a.threats@.len(), |i: int| threat_json(a.threats@[i])),
    ) + "],\"freeCaptures\":["@ + join(Seq::new(a.free_captures@.len(), |i: int| square_json(a.free_captures@[i])))
        + "],\"messages\":["@ + join(Seq::new(a.messages@.len(), |i: int| message_json(a.messages@[i])))
        + "],\"candidates\":["@ + join(Seq::new(a.candidates@.len(), |i: int| candidate_json(a.candidates@[i])))
        + "],\"recommended\":"@ + (match a.best {
        Some(c) => json_text(c.uci@),
        None => "null"@,
    }) + ",\"strategy\":"@ + (match a.strategy {
        Some(r) => read_json(r),
        None => "null"@,
    }) + "}"@
}

/// The assistance as a JSON object: level, check, hanging pieces, threats,
/// free captures, messages, candidates, the recommended move and the plans.
pub fn assistance_json(a: &Assistance) -> (s: String)
    ensures
        s@ == assist_json(*a),
{
    let mut out = String::new();
    out.append("{\"level\":");
    push_json(&mut out, level_name(a.level));
    out.append(",\"inCheck\":");
    push_bool(&mut out, a.in_check);
    out.append(",\"hanging\":[");
    push_square_list(&mut out, &a.hanging);
    out.append("],\"threats\":[");
    push_threat_list(&mut out, &a.threats);
    out.append("],\"freeCaptures\":[");
    push_square_list(&mut out, &a.free_captures);
    out.append("],\"messages\":[");
    push_message_list(&mut out, &a.messages);
    out.append("],\"candidates\":[");
    push_candidate_list(&mut out, &a.candidates);
    out.append("],\"recommended\":");
    match &a.best {
        Some(c) => push_json(&mut out, c.uci.as_str()),
        None => out.append("null"),
    }
    out.append(",\"strategy\":");
    match &a.strategy {
        Some(r) => push_read(&mut out, r),
        None => out.append("null"),
    }
    out.append("}");
    proof {
        assert(out@ =~= assist_json(*a));
    }
    out
}


// ---------------------------------------------------------------------------
// The game
// ---------------------------------------------------------------------------

/// A game as the web shell plays it.
pub struct Game {
    board: Board,
    glass: GlassBox,
    human_elo: i32,
    engine_elo: i32,
    ply: u32,
    /// Forces a rung regardless of the ratings (`None`: use the ratings).
    assist_override: Option<AssistLevel>,
}

/// A game as a mathematical value.
pub struct GameView {
    pub position: Position,
    pub events: Seq<AssistEvent>,
    pub human_elo: i32,
    pub engine_elo: i32,
    pub ply: u32,
    pub assist_override: Option<AssistLevel>,
}

impl View for Game {
    type V = GameView;

    closed spec fn view(&self) -> GameView {
        GameView {
            position: self.board@,
            events: self.glass@,
            human_elo: self.human_elo,
            engine_elo: self.engine_elo,
            ply: self.ply,
            assist_override: self.assist_override,
        }
    }
}

/// The rung in force: the override, else the handicap for the rating gap.
pub open spec fn effective(g: GameView) -> AssistLevel {
    match g.assist_override {
        Some(l) => l,
        None => level_for_gap(rating_gap(g.engine_elo as int, g.human_elo as int)),
    }
}

/// The ratings can be compared without leaving `i32`.
pub open spec fn gap_fits(g: GameView) -> bool {
    i32::MIN <= g.engine_elo - g.human_elo <= i32::MAX
}

/// How a game stands: "checkmate", "stalemate", "fifty-move" or "ongoing".
pub open spec fn game_status(p: Position) -> Seq<char> {
    if no_legal_move(p) {
        if spec_in_check(p) {
            "checkmate"@
        } else {
            "stalemate"@
        }
    } else if p.halfmove >= 100 {
        "fifty-move"@
    } else {
        "ongoing"@
    }
}

/// The move a `from`→`to` request plays, given the promotion asked for: that
/// promotion when one is asked for; else the plain move, else the queen
/// promotion, else any move between the squares.
pub open spec fn picked(p: Position, from: u8, to: u8, want: Option<PieceKind>, m: Move) -> bool {
    &&& legal(p, m)
    &&& m.from == from
    &&& m.to == to
    &&& (want is Some ==> m.promo == want)
    &&& (want is None && (exists|n: Move| legal(p, n) && n.from == from && n.to == to && n.promo is None)
        ==> m.promo is None)
    &&& (want is None && !(exists|n: Move| legal(p, n) && n.from == from && n.to == to && n.promo is None)
        && (exists|n: Move|
        legal(p, n) && n.from == from && n.to == to && n.promo == Some(PieceKind::Queen))) ==> m.promo == Some(
        PieceKind::Queen,
    )
}

/// The moves a rating plays from: those ranked within the spread of the
/// best (35 more in the first six moves).
pub open spec fn pool_of(rk: Seq<(Move, i32)>, spread: int) -> Seq<Move>
    decreases rk.len(),
{
    if rk.len() == 0 {
        seq![]
    } else {
        let rest = pool_of(rk.drop_last(), spread);
        if rk[0].1 - rk.last().1 <= spread {
            rest.push(rk.last().0)
        } else {
            rest
        }
    }
}

pub open spec fn glass_event_json(e: AssistEvent) -> Seq<char> {
    "{\"ply\":"@ + decimal(e.ply as nat) + ",\"side\":"@ + json_text(color_text(e.for_side)) + ",\"level\":"@
        + json_text(level_text(e.level)) + ",\"summary\":"@ + json_text(e.summary@) + "}"@
}

/// The glass-box log as a JSON array.
pub open spec fn glass_json(events: Seq<AssistEvent>) -> Seq<char> {
    "["@ + join(Seq::new(events.len(), |i: int| glass_event_json(events[i]))) + "]"@
}

impl Game {
    /// A new game at the standard starting position.
    pub fn new() -> (g: Game)
        ensures
            g@.position == start_position(),
            g@.events.len() == 0,
            g@.human_elo == 1200,
            g@.engine_elo == 1700,
            g@.ply == 0,
            g@.assist_override is None,
    {
        Game {
            board: Board::startpos(),
            glass: GlassBox::new(),
            human_elo: 1200,
            engine_elo: 1700,
            ply: 0,
            assist_override: None,
        }
    }

    /// A game from a FEN string.
    pub fn from_fen(fen: &str) -> (g: Game)
        requires
            fen_ok(fen@),
        ensures
            g@.position == fen_position(fen@),
            g@.events.len() == 0,
            g@.human_elo == 1200,
            g@.engine_elo == 1700,
            g@.ply == 0,
            g@.assist_override is None,
    {
        Game {
            board: parse_fen(fen),
            glass: GlassBox::new(),
            human_elo: 1200,
            engine_elo: 1700,
            ply: 0,
            assist_override: None,
        }
    }

    /// The current position as FEN.
    pub fn fen(&self) -> (s: String)
        ensures
            s@ == fen_text(self@.position),
    {
        to_fen(&self.board)
    }

    /// The board as 64 characters (index 0 = a1 .. 63 = h8).
    pub fn board_string(&self) -> (s: String)
        ensures
            s@ == board_chars(self@.position),
    {
        board_string(&self.board)
    }

    /// "white" or "black".
    pub fn side_to_move(&self) -> (s: String)
        ensures
            s@ == color_text(self@.position.side),
    {
        String::from_str(color_name(self.board.side))
    }

    /// Is the side to move in check?
    pub fn in_check(&self) -> (r: bool)
        requires
            has_king(self@.position, self@.position.side),
        ensures
            r == spec_in_check(self@.position),
    {
        in_check(&self.board)
    }

    /// The destinations of the legal moves from `from` (for highlighting).
    pub fn legal_to(&self, from: u8) -> (r: Vec<u8>)
        requires
            movegen_ready(self@.position),
        ensures
            forall|t: u8| r@.contains(t) <==> exists|m: Move| legal(self@.position, m) && m.from == from && m.to == t,
    {
        let moves = generate_legal(&self.board);
        let mut r: Vec<u8> = Vec::new();
        let mut i: usize = 0;
        while i < moves.len()
            invariant
                i <= moves@.len(),
                forall|m: Move| moves@.contains(m) <==> legal(self@.position, m),
                forall|t: u8|
                    r@.contains(t) <==> exists|k: int| 0 <= k < i && moves@[k].from == from && moves@[k].to == t,
            decreases moves@.len() - i,
        {
            let m = moves[i];
            let ghost before = r@;
            if m.from == from {
                r.push(m.to);
            }
            proof {
                assert forall|t: u8|
                    r@.contains(t) <==> exists|k: int| 0 <= k < i + 1 && moves@[k].from == from && moves@[k].to == t by {
                    if r@.contains(t) {
                        let j = choose|j: int| 0 <= j < r@.len() && r@[j] == t;
                        if j < before.len() {
                            assert(before[j] == t);
                            assert(before.contains(t));
                        } else {
                            assert(moves@[i as int].from == from && moves@[i as int].to == t);
                        }
                    }
                    if exists|k: int| 0 <= k < i + 1 && moves@[k].from == from && moves@[k].to == t {
                        let k = choose|k: int| 0 <= k < i + 1 && moves@[k].from == from && moves@[k].to == t;
                        if k < i {
                            assert(before.contains(t));
                            let j = choose|j: int| 0 <= j < before.len() && before[j] == t;
                            assert(r@[j] == t);
                        } else {
                            assert(r@[r@.len() - 1] == t);
                        }
                    }
                }
            }
            i = i + 1;
        }
        proof {
            assert forall|t: u8|
                r@.contains(t) <== exists|m: Move| legal(self@.position, m) && m.from == from && m.to == t by {
                if exists|m: Move| legal(self@.position, m) && m.from == from && m.to == t {
                    let m = choose|m: Move| legal(self@.position, m) && m.from == from && m.to == t;
                    assert(moves@.contains(m));
                    let k = choose|k: int| 0 <= k < moves@.len() && moves@[k] == m;
                    assert(moves@[k].from == from && moves@[k].to == t);
                }
            }
            assert forall|t: u8|
                r@.contains(t) ==> exists|m: Move| legal(self@.position, m) && m.from == from && m.to == t by {
                if r@.contains(t) {
                    let k = choose|k: int| 0 <= k < moves@.len() && moves@[k].from == from && moves@[k].to == t;
                    assert(moves@.contains(moves@[k]));
                }
            }
        }
        r
    }
    /// Would a `from`→`to` move be a promotion?
    pub fn is_promotion(&self, from: u8, to: u8) -> (r: bool)
        requires
            movegen_ready(self@.position),
        ensures
            r == exists|m: Move| legal(self@.position, m) && m.from == from && m.to == to && m.promo is Some,
    {
        let moves = generate_legal(&self.board);
        let mut i: usize = 0;
        while i < moves.len()
            invariant
                i <= moves@.len(),
                forall|m: Move| moves@.contains(m) <==> legal(self@.position, m),
                forall|k: int|
                    0 <= k < i ==> !(#[trigger] moves@[k].from == from && moves@[k].to == to && moves@[k].promo is Some),
            decreases moves@.len() - i,
        {
            let m = moves[i];
            if m.from == from && m.to == to && m.promo.is_some() {
                proof {
                    assert(moves@.contains(m));
                }
                return true;
            }
            i = i + 1;
        }
        proof {
            if exists|m: Move| legal(self@.position, m) && m.from == from && m.to == to && m.promo is Some {
                let m = choose|m: Move| legal(self@.position, m) && m.from == from && m.to == to && m.promo is Some;
                assert(moves@.contains(m));
                let k = choose|k: int| 0 <= k < moves@.len() && moves@[k] == m;
                assert(moves@[k].from == from);
            }
        }
        false
    }

    /// Plays `from`→`to`; `promo` names the promotion piece by its first
    /// letter (the queen when none is named). Whether it was legal and
    /// played.
    pub fn make_move(&mut self, from: u8, to: u8, promo: Option<String>) -> (r: bool)
        requires
            movegen_ready(old(self)@.position),
            old(self)@.ply < u32::MAX,
        ensures
            ({
                let want = match promo {
                    Some(t) => promo_named(t@),
                    None => None,
                };
                &&& r == exists|m: Move|
                    legal(old(self)@.position, m) && m.from == from && m.to == to && (want is Some ==> m.promo == want)
                &&& r ==> exists|m: Move|
                    picked(old(self)@.position, from, to, want, m) && final(self)@.position == spec_make_move(
                        old(self)@.position,
                        m,
                    )
                &&& r ==> final(self)@.ply == old(self)@.ply + 1
                &&& !r ==> final(self)@.position == old(self)@.position && final(self)@.ply == old(self)@.ply
            }),
            final(self)@.events == old(self)@.events,
            final(self)@.human_elo == old(self)@.human_elo,
            final(self)@.engine_elo == old(self)@.engine_elo,
            final(self)@.assist_override == old(self)@.assist_override,
    {
        let ghost p = self@.position;
        let want = match &promo {
            Some(t) => parse_promo(t.as_str()),
            None => None,
        };
        let moves = generate_legal(&self.board);
        let mut plain: Option<Move> = None;
        let mut queen: Option<Move> = None;
        let mut asked: Option<Move> = None;
        let mut any: Option<Move> = None;
        let mut i: usize = 0;
        while i < moves.len()
            invariant
                i <= moves@.len(),
                forall|m: Move| moves@.contains(m) <==> legal(p, m),
                plain matches Some(m) ==> legal(p, m) && m.from == from && m.to == to && m.promo is None,
                queen matches Some(m) ==> legal(p, m) && m.from == from && m.to == to && m.promo == Some(
                    PieceKind::Queen,
                ),
                asked matches Some(m) ==> legal(p, m) && m.from == from && m.to == to && want is Some && m.promo
                    == want,
                any matches Some(m) ==> legal(p, m) && m.from == from && m.to == to,
                plain is None ==> forall|k: int|
                    0 <= k < i ==> !(#[trigger] moves@[k].from == from && moves@[k].to == to && moves@[k].promo is None),
                queen is None ==> forall|k: int|
                    0 <= k < i ==> !(#[trigger] moves@[k].from == from && moves@[k].to == to && moves@[k].promo
                        == Some(PieceKind::Queen)),
                asked is None ==> forall|k: int|
                    0 <= k < i ==> !(#[trigger] moves@[k].from == from && moves@[k].to == to && want is Some
                        && moves@[k].promo == want),
                any is None ==> forall|k: int| 0 <= k < i ==> !(#[trigger] moves@[k].from == from && moves@[k].to == to),
            decreases moves@.len() - i,
        {
            let m = moves[i];
            proof {
                assert(moves@.contains(m));
            }
            if m.from == from && m.to == to {
                if any.is_none() {
                    any = Some(m);
                }
                if plain.is_none() && m.promo.is_none() {
                    plain = Some(m);
                }
                if queen.is_none() && m.promo == Some(PieceKind::Queen) {
                    queen = Some(m);
                }
                if asked.is_none() && want.is_some() && m.promo == want {
                    asked = Some(m);
                }
            }
            i = i + 1;
        }
        let chosen = if want.is_some() {
            asked
        } else if plain.is_some() {
            plain
        } else if queen.is_some() {
            queen
        } else {
            any
        };
        proof {
            assert forall|m: Move| legal(p, m) && m.from == from && m.to == to implies any is Some by {
                assert(moves@.contains(m));
                let k = choose|k: int| 0 <= k < moves@.len() && moves@[k] == m;
                assert(moves@[k].from == from && moves@[k].to == to);
            }
            if want is Some {
                assert forall|m: Move|
                    legal(p, m) && m.from == from && m.to == to && m.promo == want implies asked is Some by {
                    assert(moves@.contains(m));
                    let k = choose|k: int| 0 <= k < moves@.len() && moves@[k] == m;
                    assert(moves@[k].from == from && moves@[k].to == to && want is Some && moves@[k].promo == want);
                }
            } else {
                assert forall|m: Move|
                    legal(p, m) && m.from == from && m.to == to && m.promo is None implies plain is Some by {
                    assert(moves@.contains(m));
                    let k = choose|k: int| 0 <= k < moves@.len() && moves@[k] == m;
                    assert(moves@[k].from == from && moves@[k].to == to && moves@[k].promo is None);
                }
                assert forall|m: Move|
                    legal(p, m) && m.from == from && m.to == to && m.promo == Some(
                        PieceKind::Queen,
                    ) implies queen is Some by {
                    assert(moves@.contains(m));
                    let k = choose|k: int| 0 <= k < moves@.len() && moves@[k] == m;
                    assert(moves@[k].from == from && moves@[k].to == to && moves@[k].promo == Some(
                        PieceKind::Queen,
                    ));
                }
            }
        }
        match chosen {
            Some(m) => {
                proof {
                    lemma_king_survives(p, m);
                    assert(picked(p, from, to, want, m));
                }
                self.board.make_move(m);
                self.ply = self.ply + 1;
                true
            },
            None => false,
        }
    }

    /// Lets the engine choose and play a move at `depth`; the move in
    /// coordinates, or "" when it plays none (the game is over).
    pub fn engine_move(&mut self, depth: u32) -> (r: String)
        requires
            search_ready(old(self)@.position, depth as nat),
            old(self)@.ply < u32::MAX,
        ensures
            no_legal_move(old(self)@.position) ==> r@ == Seq::<char>::empty(),
            1 <= depth <= SCORE_SAFE_DEPTH && !no_legal_move(old(self)@.position) ==> r@ != Seq::<
                char,
            >::empty(),
            1 <= depth <= SCORE_SAFE_DEPTH && !no_legal_move(old(self)@.position) ==> (search_value(
                old(self)@.position,
                depth as int,
            ).0 matches Some(m) && r@ == uci_text(m) && final(self)@.position == spec_make_move(old(self)@.position, m)),
            r@ == Seq::<char>::empty() ==> final(self)@ == old(self)@,
            r@ != Seq::<char>::empty() ==> exists|m: Move|
                legal(old(self)@.position, m) && r@ == uci_text(m) && final(self)@.position == spec_make_move(
                    old(self)@.position,
                    m,
                ) && final(self)@.ply == old(self)@.ply + 1 && final(self)@.events == old(self)@.events
                    && final(self)@.human_elo == old(self)@.human_elo && final(self)@.engine_elo
                    == old(self)@.engine_elo && final(self)@.assist_override == old(self)@.assist_override,
    {
        let moves = generate_legal(&self.board);
        if moves.len() == 0 {
            return String::new();
        }
        proof {
            assert(moves@.contains(moves@[0]));
        }
        match search(&self.board, depth).best {
            Some(m) => {
                let u = to_uci(m);
                proof {
                    lemma_king_survives(self@.position, m);
                    assert(uci_text(m).len() >= 4);
                }
                self.board.make_move(m);
                self.ply = self.ply + 1;
                u
            },
            None => String::new(),
        }
    }

    /// The search score of the position at `depth` (centipawns, side to move):
    /// the value of its best move; on a finished board, a mate or a draw.
    pub fn best_score(&self, depth: u32) -> (r: i32)
        requires
            search_ready(self@.position, depth as nat),
        ensures
            no_legal_move(self@.position) ==> r == (if spec_in_check(self@.position) {
                -30000
            } else {
                0
            }),
            depth == 0 && !no_legal_move(self@.position) ==> r == 0,
            1 <= depth <= SCORE_SAFE_DEPTH && !no_legal_move(self@.position) ==> -INF < r < INF,
            depth <= SCORE_SAFE_DEPTH && !no_legal_move(self@.position) ==> r == search_value(self@.position, depth as int).1,
    {
        let moves = generate_legal(&self.board);
        if moves.len() == 0 {
            proof {
                assert forall|m: Move| !legal(self@.position, m) by {
                    if legal(self@.position, m) {
                        assert(moves@.contains(m));
                    }
                }
            }
            return if in_check(&self.board) {
                -30000
            } else {
                0
            };
        }
        proof {
            assert(moves@.contains(moves@[0]));
        }
        search(&self.board, depth).score
    }

    /// The search score of the move `from`→`to` for the side making it, or
    /// -2000000 when no legal move goes there. Its gap to the best score is
    /// how far from best the move was.
    pub fn score_move(&self, from: u8, to: u8, depth: u32) -> (r: i32)
        requires
            search_ready(self@.position, depth as nat + 1),
        ensures
            !(exists|m: Move| legal(self@.position, m) && m.from == from && m.to == to) ==> r == -2_000_000,
            (exists|m: Move| legal(self@.position, m) && m.from == from && m.to == to) ==> exists|m: Move|
                legal(self@.position, m) && m.from == from && m.to == to && (depth <= 1 ==> r == 0) && (
                depth >= 2 && no_legal_move(#[trigger] spec_make_move(self@.position, m)) ==> r == (if spec_in_check(
                    spec_make_move(self@.position, m),
                ) {
                    30000int
                } else {
                    0int
                })) && (depth <= SCORE_SAFE_DEPTH + 1 ==> -INF < r < INF) && (depth <= SCORE_SAFE_DEPTH + 1
                ==> r == -search_value(
                #[trigger] spec_make_move(self@.position, m),
                if depth >= 1 {
                    depth - 1
                } else {
                    0
                },
            ).1),
    {
        let moves = generate_legal(&self.board);
        let mut i: usize = 0;
        while i < moves.len()
            invariant
                i <= moves@.len(),
                forall|m: Move| moves@.contains(m) <==> legal(self@.position, m),
                forall|k: int| 0 <= k < i ==> !(#[trigger] moves@[k].from == from && moves@[k].to == to),
                search_ready(self@.position, depth as nat + 1),
            decreases moves@.len() - i,
        {
            let m = moves[i];
            if m.from == from && m.to == to {
                proof {
                    assert(moves@.contains(m));
                    lemma_king_survives(self@.position, m);
                    lemma_playable_next(self@.position, m);
                }
                let mut nb = self.board;
                nb.make_move(m);
                let d = if depth > 0 {
                    depth - 1
                } else {
                    0
                };
                let sc = search(&nb, d).score;
                return if sc == i32::MIN {
                    i32::MAX
                } else {
                    -sc
                };
            }
            i = i + 1;
        }
        proof {
            if exists|m: Move| legal(self@.position, m) && m.from == from && m.to == to {
                let m = choose|m: Move| legal(self@.position, m) && m.from == from && m.to == to;
                assert(moves@.contains(m));
                let k = choose|k: int| 0 <= k < moves@.len() && moves@[k] == m;
                assert(moves@[k].from == from);
            }
        }
        -2_000_000
    }

    /// The moves a player of rating `elo` picks from: the ranked moves within
    /// the rating's spread of the best (35 more in the first six moves).
    pub fn elo_pool(&self, elo: i32) -> (pool: Vec<Move>)
        requires
            search_ready(self@.position, strength(elo as int).0 as nat),
        ensures
            exists|rk: Seq<(Move, i32)>|
                crate::assist::ranking_of(self@.position, rk) && pool@ == pool_of(
                    rk,
                    strength(elo as int).1 + (if self@.position.fullmove <= 6 {
                        35int
                    } else {
                        0int
                    }),
                ),
            strength(elo as int).0 <= SCORE_SAFE_DEPTH ==> pool@ == pool_of(
                ranked_by_score(unsorted_ranking(self@.position, strength(elo as int).0 as int)),
                strength(elo as int).1 + (if self@.position.fullmove <= 6 {
                    35int
                } else {
                    0int
                }),
            ),
    {
        let (depth, spread) = strength_for_elo(elo);
        let ranked = rank_moves(&self.board, depth);
        proof {
            assert(crate::assist::ranking_of(self@.position, ranked@));
        }
        let spread: i64 = if self.board.fullmove <= 6 {
            spread as i64 + 35
        } else {
            spread as i64
        };
        let mut pool: Vec<Move> = Vec::new();
        if ranked.len() == 0 {
            proof {
                assert(pool@ == pool_of(ranked@, spread as int));
            }
            return pool;
        }
        let top = ranked[0].1;
        let mut i: usize = 0;
        proof {
            assert(ranked@.subrange(0, 0) =~= Seq::<(Move, i32)>::empty());
        }
        while i < ranked.len()
            invariant
                i <= ranked@.len(),
                ranked@.len() > 0,
                top == ranked@[0].1,
                pool@ == pool_of(ranked@.subrange(0, i as int), spread as int),
            decreases ranked@.len() - i,
        {
            let (m, sc) = ranked[i];
            proof {
                let sub = ranked@.subrange(0, i + 1);
                assert(sub.drop_last() =~= ranked@.subrange(0, i as int));
                assert(sub[0] == ranked@[0]);
                assert(sub.last() == ranked@[i as int]);
            }
            if top as i64 - sc as i64 <= spread {
                pool.push(m);
            }
            i = i + 1;
        }
        proof {
            assert(ranked@.subrange(0, ranked@.len() as int) =~= ranked@);
        }
        pool
    }

    /// Plays the legal move `m`; the move in coordinates.
    pub fn play_move(&mut self, m: Move) -> (r: String)
        requires
            movegen_ready(old(self)@.position),
            legal(old(self)@.position, m),
            old(self)@.ply < u32::MAX,
        ensures
            r@ == uci_text(m),
            final(self)@.position == spec_make_move(old(self)@.position, m),
            final(self)@.ply == old(self)@.ply + 1,
            final(self)@.events == old(self)@.events,
            final(self)@.human_elo == old(self)@.human_elo,
            final(self)@.engine_elo == old(self)@.engine_elo,
            final(self)@.assist_override == old(self)@.assist_override,
    {
        proof {
            lemma_king_survives(self@.position, m);
        }
        let u = to_uci(m);
        self.board.make_move(m);
        self.ply = self.ply + 1;
        u
    }

    /// The search depth to give the assistance against an opponent of rating
    /// `elo`: a notch deeper than the opponent, between 3 and 4.
    pub fn assist_depth_for(elo: i32) -> (d: u32)
        ensures
            d == (if strength(elo as int).0 + 1 > 4 {
                4
            } else if strength(elo as int).0 + 1 < 3 {
                3
            } else {
                strength(elo as int).0 + 1
            }),
    {
        let d = strength_for_elo(elo).0 + 1;
        let d = if d > 4 {
            4
        } else {
            d
        };
        if d < 3 {
            3
        } else {
            d
        }
    }

    /// "ongoing", "checkmate", "stalemate" or "fifty-move".
    pub fn status(&self) -> (s: String)
        requires
            movegen_ready(self@.position),
        ensures
            s@ == game_status(self@.position),
    {
        let moves = generate_legal(&self.board);
        if moves.len() == 0 {
            proof {
                assert forall|m: Move| !legal(self@.position, m) by {
                    if legal(self@.position, m) {
                        assert(moves@.contains(m));
                    }
                }
            }
            if in_check(&self.board) {
                String::from_str("checkmate")
            } else {
                String::from_str("stalemate")
            }
        } else {
            proof {
                assert(moves@.contains(moves@[0]));
            }
            if self.board.halfmove >= 100 {
                String::from_str("fifty-move")
            } else {
                String::from_str("ongoing")
            }
        }
    }

    /// Sets both ratings; the assistance rung follows from them.
    pub fn set_ratings(&mut self, human_elo: i32, engine_elo: i32)
        ensures
            final(self)@ == (GameView { human_elo, engine_elo, ..old(self)@ }),
    {
        self.human_elo = human_elo;
        self.engine_elo = engine_elo;
    }

    /// Forces the rung by name ("awareness" .. "autopilot", "strategy" for
    /// suggestion); "" or an unknown name goes back to the ratings.
    pub fn set_assist_override(&mut self, level: &str)
        ensures
            final(self)@ == (GameView { assist_override: level_named(level@), ..old(self)@ }),
    {
        self.assist_override = level_from_name(level);
    }

    /// The rung in force.
    pub fn effective_level(&self) -> (l: AssistLevel)
        requires
            self@.assist_override is Some || gap_fits(self@),
        ensures
            l == effective(self@),
    {
        match self.assist_override {
            Some(l) => l,
            None => recommended_level(self.engine_elo, self.human_elo),
        }
    }

    /// The name of the rung in force.
    pub fn assist_level(&self) -> (s: String)
        requires
            self@.assist_override is Some || gap_fits(self@),
        ensures
            s@ == level_text(effective(self@)),
    {
        String::from_str(level_name(self.effective_level()))
    }

    /// Computes the help for the side to move at the rung in force, records
    /// it in the glass-box (unless the rung is Off), and returns it as JSON.
    pub fn assist(&mut self, depth: u32) -> (r: String)
        requires
            old(self)@.assist_override is Some || gap_fits(old(self)@),
            movegen_ready(old(self)@.position),
            level_rank(effective(old(self)@)) >= 3 ==> search_ready(old(self)@.position, depth as nat),
        ensures
            exists|a: Assistance|
                {
                    &&& analysis_is(a, old(self)@.position, effective(old(self)@))
                    &&& analysis_at(a, old(self)@.position, effective(old(self)@), depth as int)
                    &&& r@ == assist_json(a)
                    &&& effective(old(self)@) != AssistLevel::Off ==> {
                        &&& final(self)@.events.len() == old(self)@.events.len() + 1
                        &&& final(self)@.events.drop_last() == old(self)@.events
                        &&& event_is(
                            final(self)@.events.last(),
                            old(self)@.ply,
                            old(self)@.position.side,
                            a,
                            old(self)@.position,
                        )
                    }
                    &&& effective(old(self)@) == AssistLevel::Off ==> final(self)@.events == old(self)@.events
                },
            final(self)@.position == old(self)@.position,
            final(self)@.ply == old(self)@.ply,
            final(self)@.human_elo == old(self)@.human_elo,
            final(self)@.engine_elo == old(self)@.engine_elo,
            final(self)@.assist_override == old(self)@.assist_override,
    {
        let level = self.effective_level();
        let a = analyze(&self.board, level, depth);
        if level != AssistLevel::Off {
            self.glass.record(self.ply, self.board.side, &a, &self.board);
        }
        assistance_json(&a)
    }

    /// The glass-box log as JSON: `[{ply,side,level,summary}]`.
    pub fn glassbox(&self) -> (s: String)
        ensures
            s@ == glass_json(self@.events),
    {
        let evs = self.glass.events();
        let ghost items = Seq::new(evs@.len(), |i: int| glass_event_json(evs@[i]));
        let mut out = String::from_str("[");
        let mut i: usize = 0;
        proof {
            assert(items.subrange(0, 0) =~= Seq::<Seq<char>>::empty());
        }
        while i < evs.len()
            invariant
                i <= evs@.len(),
                evs@ == self@.events,
                items == Seq::new(evs@.len(), |i: int| glass_event_json(evs@[i])),
                out@ == "["@ + join(items.subrange(0, i as int)),
            decreases evs@.len() - i,
        {
            proof {
                lemma_join_step(items, i as int);
            }
            if i > 0 {
                push_char(&mut out, ',');
            }
            let e = &evs[i];
            let ghost before = out@;
            out.append("{\"ply\":");
            push_decimal(&mut out, e.ply as u64);
            out.append(",\"side\":");
            push_json(&mut out, color_name(e.for_side));
            out.append(",\"level\":");
            push_json(&mut out, level_name(e.level));
            out.append(",\"summary\":");
            push_json(&mut out, e.summary.as_str());
            out.append("}");
            proof {
                assert(out@ =~= before + glass_event_json(evs@[i as int]));
                assert(out@ =~= "["@ + join(items.subrange(0, i + 1)));
            }
            i = i + 1;
        }
        out.append("]");
        proof {
            assert(items.subrange(0, evs@.len() as int) =~= items);
            assert(out@ =~= glass_json(self@.events));
        }
        out
    }

    /// The board in play.
    pub fn board(&self) -> (b: &Board)
        ensures
            b@ == self@.position,
    {
        &self.board
    }

    /// How many moves have been played in this game.
    pub fn ply(&self) -> (n: u32)
        ensures
            n == self@.ply,
    {
        self.ply
    }

    /// The ratings: (assisted player, opponent).
    pub fn ratings(&self) -> (r: (i32, i32))
        ensures
            r == (self@.human_elo, self@.engine_elo),
    {
        (self.human_elo, self.engine_elo)
    }

    /// The forced rung, if any.
    pub fn assist_override(&self) -> (r: Option<AssistLevel>)
        ensures
            r == self@.assist_override,
    {
        self.assist_override
    }

}

impl Default for Game {
    fn default() -> (g: Game)
        ensures
            g@.position == start_position(),
            g@.events.len() == 0,
            g@.human_elo == 1200,
            g@.engine_elo == 1700,
            g@.ply == 0,
            g@.assist_override is None,
    {
        Game::new()
    }
}

} // verus!
