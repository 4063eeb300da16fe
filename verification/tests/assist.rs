//! The assistance layer must interpret the position correctly, the handicap
//! model must be sane and monotonic, and the glass-box must record every bit
//! of help.

use glassboard::assist::{
    analyze, free_captures, hanging_pieces, recommended_level, summarize, threatened_pieces, AssistLevel,
    GlassBox,
};
use glassboard::board::{Board, Color, PieceKind};
use glassboard::fen::{algebraic_to_sq, parse_fen, sq_to_algebraic};

/// Awareness flags an attacked, undefended piece. Here the white queen on d4
/// is attacked by the knight on b5 and defended by nothing.
#[test]
fn awareness_flags_hanging_queen() {
    let b = parse_fen("4k3/8/8/1n6/3Q4/8/8/4K3 w - - 0 1");
    let a = analyze(&b, AssistLevel::Awareness, 1);
    assert!(
        a.hanging.contains(&algebraic_to_sq("d4")),
        "the hanging queen on d4 should be flagged, got {:?}",
        a.hanging
    );
}

/// Coaching explains a check in words.
#[test]
fn coaching_explains_check() {
    let b = parse_fen("4k3/8/8/8/7b/8/8/4K3 w - - 0 1");
    let a = analyze(&b, AssistLevel::Coaching, 1);
    assert!(a.in_check, "white is in check");
    assert!(
        a.messages.iter().any(|m| m.to_lowercase().contains("check")),
        "coaching should mention the check, got {:?}",
        a.messages
    );
}

/// Suggestion offers the winning capture first: the black queen on d4 hangs
/// to Rd1xd4.
#[test]
fn suggestion_ranks_the_winning_capture_first() {
    let b = parse_fen("4k3/8/8/8/3q4/8/8/3RK3 w - - 0 1");
    let a = analyze(&b, AssistLevel::Suggestion, 4);
    let top = a.candidates.first().expect("candidates exist");
    assert_eq!(
        top.mv.to,
        algebraic_to_sq("d4"),
        "top candidate should capture the queen on d4, got {}",
        top.uci
    );
}

/// Autopilot yields a concrete move to play.
#[test]
fn autopilot_provides_a_move() {
    let a = analyze(&Board::startpos(), AssistLevel::Autopilot, 2);
    assert!(a.autoplay.is_some(), "autopilot must produce a move");
}

/// The handicap model equalizes: equal ratings → no help; wider gaps → more,
/// never less.
#[test]
fn handicap_is_zero_at_parity_and_monotonic() {
    assert_eq!(recommended_level(1500, 1500), AssistLevel::Off);

    let mut prev = AssistLevel::Off;
    for gap in (0..2000).step_by(50) {
        let lvl = recommended_level(1000 + gap, 1000);
        assert!(
            lvl >= prev,
            "assistance must not decrease as the gap grows (gap {gap}: {lvl:?} < {prev:?})"
        );
        prev = lvl;
    }
    assert_eq!(recommended_level(2200, 1200), AssistLevel::Guided);
}

/// Every bit of help is recorded transparently for both sides to see.
#[test]
fn glass_box_records_help() {
    let b = Board::startpos();
    let a = analyze(&b, AssistLevel::Guided, 3);

    let mut glass = GlassBox::new();
    assert!(glass.is_empty());
    glass.record(0, Color::White, &a, &b);

    assert_eq!(glass.len(), 1);
    let ev = &glass.events()[0];
    assert_eq!(ev.level, AssistLevel::Guided);
    assert_eq!(ev.for_side, Color::White);
    assert!(
        ev.summary.contains("Guided"),
        "opponent-visible summary should describe the help, got {:?}",
        ev.summary
    );
}

/// A queen defended by a pawn but attacked by a knight is not hanging, yet
/// ignoring it loses 900 for 320: the value-aware threat test must fire.
#[test]
fn defended_queen_attacked_by_knight_is_a_threat() {
    let b = parse_fen("6k1/8/8/5n2/3Q4/2P5/8/6K1 w - - 0 1");
    assert!(hanging_pieces(&b, b.side).is_empty(), "queen is defended, not hanging");
    let threats = threatened_pieces(&b, b.side);
    assert_eq!(threats.len(), 1, "the queen should be flagged");
    assert_eq!(sq_to_algebraic(threats[0].square), "d4");
    assert_eq!(threats[0].kind, PieceKind::Queen);
    assert_eq!(threats[0].loss, 900 - 320, "lose queen, regain a knight");
}

/// A defended piece attacked only by something at least as valuable is safe.
#[test]
fn defended_knight_attacked_by_rook_is_not_a_threat() {
    let b = parse_fen("3r2k1/8/8/8/3N4/2P5/8/6K1 w - - 0 1");
    assert!(threatened_pieces(&b, b.side).is_empty());
}

/// Below awareness nothing is read; awareness reads but says nothing.
#[test]
fn off_gives_no_help() {
    let b = parse_fen("4k3/8/8/1n6/3Q4/8/8/4K3 w - - 0 1");
    let a = analyze(&b, AssistLevel::Off, 1);
    assert!(a.hanging.is_empty() && a.threats.is_empty() && a.free_captures.is_empty());
    assert!(a.messages.is_empty() && a.candidates.is_empty());
    assert!(a.best.is_none() && a.autoplay.is_none() && a.strategy.is_none());
    assert_eq!(summarize(&a), "No assistance used.");
    let a = analyze(&b, AssistLevel::Awareness, 1);
    assert!(a.messages.is_empty());
    assert_eq!(summarize(&a), "Hint: 1 hanging piece(s) highlighted.");
}

/// Coaching words a big threat as urgent and names the free capture.
#[test]
fn coaching_messages_name_threats_and_free_pieces() {
    let b = parse_fen("4k3/8/8/1n6/3Q4/8/8/4K3 w - - 0 1");
    let a = analyze(&b, AssistLevel::Coaching, 1);
    assert_eq!(
        a.messages,
        vec!["Urgent — your queen on d4 is under attack. Save it before anything else.".to_string()]
    );
    assert_eq!(summarize(&a), "Coach: 1 message(s) shown.");
    let b = parse_fen("4k3/8/8/1n6/8/8/8/1R2K3 w - - 0 1");
    let a = analyze(&b, AssistLevel::Coaching, 1);
    assert_eq!(a.messages, vec!["You can win the knight on b5 — it's free.".to_string()]);
    let quiet = analyze(&Board::startpos(), AssistLevel::Coaching, 1);
    assert_eq!(quiet.messages, vec!["No immediate threats — a good moment to improve a piece.".to_string()]);
    let b = parse_fen("4k3/8/8/8/8/3p4/4N3/4K3 w - - 0 1");
    let a = analyze(&b, AssistLevel::Coaching, 1);
    assert!(a.messages.contains(&"Your knight on e2 is under attack — defend it or move it to safety.".to_string()));
}

/// Free captures list undefended enemy pieces, not pawns or the king.
#[test]
fn free_captures_list_undefended_pieces() {
    let b = parse_fen("4k3/8/8/1n6/8/8/8/1R2K3 w - - 0 1");
    assert_eq!(free_captures(&b, Color::White), vec![algebraic_to_sq("b5")]);
    assert!(free_captures(&b, Color::Black).is_empty());
}

/// Guided recommends the top candidate and autopilot plays it; the summary
/// names the move.
#[test]
fn guided_and_autopilot_follow_the_top_candidate() {
    let b = parse_fen("4k3/8/8/8/3q4/8/8/3RK3 w - - 0 1");
    let a = analyze(&b, AssistLevel::Autopilot, 3);
    let best = a.best.clone().expect("a recommendation");
    assert_eq!(best.uci, a.candidates[0].uci);
    assert_eq!(a.autoplay, Some(best.mv));
    assert_eq!(best.uci, "d1d4");
    assert_eq!(summarize(&a), "Autopilot: played d1d4.");
    let g = analyze(&b, AssistLevel::Guided, 3);
    assert_eq!(summarize(&g), "Guided: recommended d1d4.");
    let s = analyze(&b, AssistLevel::Suggestion, 3);
    assert!(s.candidates.len() <= 3);
    assert_eq!(summarize(&s), format!("Guide: {} candidate move(s) shown.", s.candidates.len()));
    assert!(s.strategy.is_some());
}

/// With no legal move there is nothing to suggest or play.
#[test]
fn mated_side_gets_no_move() {
    let b = parse_fen("R5k1/5ppp/8/8/8/8/8/6K1 b - - 0 1");
    let a = analyze(&b, AssistLevel::Autopilot, 2);
    assert!(a.candidates.is_empty() && a.best.is_none() && a.autoplay.is_none() && a.strategy.is_none());
    assert_eq!(summarize(&a), "Autopilot: played -.");
}

/// The log only grows, in order, and keeps every earlier event.
#[test]
fn glass_box_is_append_only() {
    let b = Board::startpos();
    let mut glass = GlassBox::default();
    assert_eq!(glass.len(), 0);
    let a = analyze(&b, AssistLevel::Off, 1);
    glass.record(0, Color::White, &a, &b);
    let c = analyze(&b, AssistLevel::Coaching, 1);
    glass.record(1, Color::Black, &c, &b);
    assert_eq!(glass.len(), 2);
    let evs = glass.events();
    assert_eq!(evs[0].ply, 0);
    assert_eq!(evs[0].summary, "No assistance used.");
    assert_eq!(evs[0].fen, "rnbqkbnr/pppppppp/8/8/8/8/PPPPPPPP/RNBQKBNR w KQkq - 0 1");
    assert_eq!(evs[1].ply, 1);
    assert_eq!(evs[1].for_side, Color::Black);
    assert_eq!(evs[1].level, AssistLevel::Coaching);
}

/// The handicap seed at each band's edges.
#[test]
fn handicap_bands() {
    assert_eq!(recommended_level(1000, 1200), AssistLevel::Off);
    assert_eq!(recommended_level(1099, 1000), AssistLevel::Off);
    assert_eq!(recommended_level(1100, 1000), AssistLevel::Awareness);
    assert_eq!(recommended_level(1300, 1000), AssistLevel::Coaching);
    assert_eq!(recommended_level(1500, 1000), AssistLevel::Suggestion);
    assert_eq!(recommended_level(1800, 1000), AssistLevel::Guided);
    assert_eq!(recommended_level(2199, 1000), AssistLevel::Guided);
    assert_eq!(recommended_level(2200, 1000), AssistLevel::Autopilot);
}

/// A higher rung gives at least what a lower one does.
#[test]
fn higher_rungs_give_more() {
    let b = parse_fen("4k3/8/8/1n6/3Q4/8/8/4K3 w - - 0 1");
    let low = analyze(&b, AssistLevel::Awareness, 2);
    let high = analyze(&b, AssistLevel::Autopilot, 2);
    assert_eq!(low.hanging, high.hanging);
    assert_eq!(low.free_captures, high.free_captures);
    assert_eq!(low.threats.len(), high.threats.len());
    assert_eq!(low.in_check, high.in_check);
    let s = analyze(&b, AssistLevel::Suggestion, 2);
    assert_eq!(s.candidates.len(), high.candidates.len());
    assert!(high.best.is_some() && high.autoplay.is_some());
}

#[test]
fn threats_need_only_the_opponents_king() {
    // No white king on the board: the black knight still threatens the queen.
    let b = parse_fen("4k3/8/8/8/3Q4/8/4n3/8 w - - 0 1");
    let threats = threatened_pieces(&b, Color::White);
    assert_eq!(threats.len(), 1);
    assert_eq!(threats[0].square, algebraic_to_sq("d4"));
    assert_eq!(threats[0].kind, PieceKind::Queen);
}
