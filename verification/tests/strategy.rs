//! Plans: the phase, development in the opening, pawn breaks, the blunder
//! guard, structural targets, and the read of the opponent.

use glassboard::assist::to_uci;
use glassboard::board::{Board, Color, Flag, Move};
use glassboard::fen::parse_fen;
use glassboard::search::rank_moves;
use glassboard::strategy::{opponent_read, pawn_break, phase, strategize, ArrowKind};

fn ranked(b: &Board) -> Vec<(Move, i32)> {
    rank_moves(b, 3)
}

#[test]
fn opening_offers_development() {
    // 1.e4 e5 2.Nf3 Nc6 3.Bc4 Nf6, White to move.
    let b = parse_fen("r1bqkb1r/pppp1ppp/2n2n2/4p3/2B1P3/5N2/PPPP1PPP/RNBQK2R w KQkq - 4 4");
    let s = strategize(&b, &ranked(&b));
    assert_eq!(s.phase, "opening");
    assert!(s.strategies.iter().any(|x| x.id == "develop" || x.id == "center"));
    assert!(s.strategies.iter().all(|x| !x.move_san.is_empty()));
}

#[test]
fn pawn_push_that_hits_a_pawn_is_a_break() {
    // White Pc2, Black Pd5. c2-c4 lands attacking d5 → a break; c2-c3 doesn't.
    let b = parse_fen("4k3/8/8/3p4/8/8/2P5/4K3 w - - 0 1");
    let c4 = Move { from: 10, to: 26, promo: None, flag: Flag::DoublePush };
    assert!(pawn_break(&b, &c4, Color::White));
    let c3 = Move { from: 10, to: 18, promo: None, flag: Flag::Normal };
    assert!(!pawn_break(&b, &c3, Color::White));
}

#[test]
fn plans_never_recommend_a_blunder() {
    for fen in [
        "4k3/8/8/3q4/8/8/8/3RK3 w - - 0 1",
        "r1bqkb1r/pppp1ppp/2n2n2/4p3/2B1P3/5N2/PPPP1PPP/RNBQK2R w KQkq - 4 4",
    ] {
        let b = parse_fen(fen);
        let ranked = ranked(&b);
        let top = ranked[0].1;
        let s = strategize(&b, &ranked);
        for st in &s.strategies {
            let sc = ranked
                .iter()
                .find(|(m, _)| to_uci(*m) == st.move_uci)
                .map(|(_, sc)| *sc)
                .unwrap_or(top);
            assert!(sc + 130 >= top, "plan '{}' recommended {} ({} vs best {})", st.id, st.move_san, sc, top);
        }
    }
}

#[test]
fn isolated_pawn_is_targeted() {
    // Black has an isolated d5 pawn, defended by its king. White to move.
    let b = parse_fen("8/8/4k3/3p4/8/8/3RK3/8 w - - 0 1");
    let s = strategize(&b, &ranked(&b));
    assert!(s.strategies.iter().any(|x| x.id == "iso_attack"));
}

#[test]
fn opponent_king_attack_is_read() {
    // Black pawns storming White's castled king on g1 → warn of the attack.
    let b = parse_fen("6k1/8/8/8/6pp/8/8/6K1 w - - 0 1");
    let s = strategize(&b, &ranked(&b));
    assert!(
        s.opponent.as_deref().map(|t| t.contains("attack on your king")).unwrap_or(false),
        "expected a king-attack read, got {:?}",
        s.opponent
    );
}

#[test]
fn free_piece_is_top_plan() {
    // White rook on d1, Black queen undefended on d5 → win the loose piece.
    let b = parse_fen("4k3/8/8/3q4/8/8/8/3RK3 w - - 0 1");
    let s = strategize(&b, &ranked(&b));
    assert_eq!(s.strategies.first().map(|x| x.id), Some("win_material"));
}

/// The free queen plan in full: its move, target ring, steps and note.
#[test]
fn win_material_plan_details() {
    let b = parse_fen("4k3/8/8/3q4/8/8/8/3RK3 w - - 0 1");
    let s = strategize(&b, &ranked(&b));
    let st = &s.strategies[0];
    assert_eq!(st.fit, 90);
    assert_eq!(st.move_uci, "d1d5");
    assert_eq!(st.move_san, "Rxd5");
    assert_eq!(st.rings, vec![35]);
    assert_eq!(st.arrows.len(), 1);
    assert_eq!(st.arrows[0].kind.tag(), ArrowKind::Attack.tag());
    assert_eq!(st.move_note, "Captures the undefended queen — free material.");
    assert_eq!(st.steps.len(), 3);
    assert!(st.steps.iter().all(|x| !x.done));
}

/// The plans come best first, at most five of them.
#[test]
fn plans_are_sorted_by_fit() {
    for fen in [
        "r1bqkb1r/pppp1ppp/2n2n2/4p3/2B1P3/5N2/PPPP1PPP/RNBQK2R w KQkq - 4 4",
        "rnbqkbnr/pppppppp/8/8/8/8/PPPPPPPP/RNBQKBNR w KQkq - 0 1",
        "8/8/4k3/3p4/8/8/3RK3/8 w - - 0 1",
    ] {
        let b = parse_fen(fen);
        let s = strategize(&b, &ranked(&b));
        assert!(s.strategies.len() <= 5);
        for w in s.strategies.windows(2) {
            assert!(w[0].fit >= w[1].fit);
        }
    }
}

/// With no moves to rank there is only the phase.
#[test]
fn no_ranked_moves_no_plans() {
    let b = Board::startpos();
    let s = strategize(&b, &Vec::new());
    assert_eq!(s.phase, "opening");
    assert!(s.strategies.is_empty());
    assert!(s.opponent.is_none());
}

/// The phase of a bare endgame and of the start position.
#[test]
fn phases() {
    assert_eq!(phase(&Board::startpos()), "opening");
    assert_eq!(phase(&parse_fen("8/8/4k3/3p4/8/8/3RK3/8 w - - 0 1")), "endgame");
    assert_eq!(
        phase(&parse_fen("r1bqk2r/pppp1ppp/2n2n2/2b1p3/2B1P3/2NP1N2/PPP2PPP/R1BQK2R w KQkq - 0 12")),
        "middlegame"
    );
}

/// A hanging piece of ours is the first thing read of the opponent.
#[test]
fn opponent_threat_is_read_first() {
    let b = parse_fen("4k3/8/8/1n6/3Q4/8/8/4K3 w - - 0 1");
    assert_eq!(
        opponent_read(&b, Color::White),
        Some("Your opponent is threatening your queen on d4 — defend it or move it.".to_string())
    );
    let b = parse_fen("4k3/8/8/8/8/8/8/4K3 w - - 0 1");
    assert_eq!(opponent_read(&b, Color::White), None);
    let b = parse_fen("3rk3/8/8/8/8/8/8/6K1 w - - 0 1");
    assert_eq!(
        opponent_read(&b, Color::White),
        Some("Your opponent has a rook on the open d-file — contest it before they invade.".to_string())
    );
}

#[test]
fn every_plan_stays_within_the_slack() {
    for fen in [
        "4k3/8/8/3q4/8/8/8/3RK3 w - - 0 1",
        "r1bqkb1r/pppp1ppp/2n2n2/4p3/2B1P3/5N2/PPPP1PPP/RNBQK2R w KQkq - 4 4",
        "r4rk1/ppp2ppp/2n5/3q4/8/2N5/PPP2PPP/R2Q1RK1 w - - 0 12",
    ] {
        let b = parse_fen(fen);
        let ranked = rank_moves(&b, 2);
        let top = ranked[0].1;
        let s = strategize(&b, &ranked);
        for st in &s.strategies {
            let sc = ranked
                .iter()
                .find(|(m, _)| to_uci(*m) == st.move_uci)
                .map(|(_, sc)| *sc)
                .expect("a plan's move is a ranked move");
            assert!(sc + 40 >= top, "plan '{}' plays {} ({} vs best {})", st.id, st.move_uci, sc, top);
        }
    }
}
