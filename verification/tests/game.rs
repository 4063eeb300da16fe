//! The game object the web shell drives: square indexing, move application,
//! the engine reply, status, and the assistance and glass-box JSON.

use glassboard::game::{
    json_str, level_from_name, parse_promo, strength_for_elo, Game,
};
use glassboard::assist::AssistLevel;
use glassboard::board::PieceKind;

#[test]
fn startpos_board_string_is_correct() {
    let g = Game::new();
    let s = g.board_string();
    let b = s.as_bytes();
    assert_eq!(s.len(), 64);
    assert_eq!(b[0], b'R', "a1 is a white rook");
    assert_eq!(b[4], b'K', "e1 is the white king");
    assert_eq!(b[56], b'r', "a8 is a black rook");
    assert_eq!(b[60], b'k', "e8 is the black king");
    assert_eq!(g.side_to_move(), "white");
    assert_eq!(g.status(), "ongoing");
}

#[test]
fn knight_targets_from_b1() {
    let g = Game::new();
    let mut tos = g.legal_to(1);
    tos.sort();
    assert_eq!(tos, vec![16, 18], "Nb1 can reach a3 (16) and c3 (18)");
}

#[test]
fn play_move_then_engine_replies() {
    let mut g = Game::new();
    assert!(g.make_move(12, 28, None), "e2-e4 is legal");
    assert_eq!(g.side_to_move(), "black");

    let reply = g.engine_move(3);
    assert!(reply.len() >= 4, "engine returns a coordinate move, got {reply:?}");
    assert_eq!(g.side_to_move(), "white");
    assert_eq!(g.status(), "ongoing");
}

#[test]
fn rejects_illegal_move() {
    let mut g = Game::new();
    assert!(!g.make_move(0, 24, None));
    assert_eq!(g.side_to_move(), "white", "illegal move does not change turn");
}

#[test]
fn assist_and_glassbox_expose_help() {
    let mut g = Game::new();
    g.set_ratings(1000, 2000);
    assert_eq!(g.assist_level(), "guided");

    let json = g.assist(3);
    assert!(json.contains("\"level\":\"guided\""), "assist JSON: {json}");
    assert!(json.contains("\"candidates\""), "assist JSON: {json}");
    assert!(json.contains("\"recommended\""), "assist JSON: {json}");

    let glass = g.glassbox();
    assert!(glass.starts_with('['), "glassbox is a JSON array: {glass}");
    assert!(glass.contains("Guided"), "glassbox records the help: {glass}");
}

/// Promotion: the named piece, else the queen.
#[test]
fn promotion_picks_the_named_piece() {
    let mut g = Game::from_fen("8/P6k/8/8/8/8/8/K7 w - - 0 1");
    assert!(g.is_promotion(48, 56));
    assert!(g.make_move(48, 56, Some("N".to_string())));
    assert_eq!(g.fen(), "N7/7k/8/8/8/8/8/K7 b - - 0 1");
    let mut g = Game::from_fen("8/P6k/8/8/8/8/8/K7 w - - 0 1");
    assert!(g.make_move(48, 56, None));
    assert_eq!(g.fen(), "Q7/7k/8/8/8/8/8/K7 b - - 0 1");
    let mut g = Game::from_fen("8/P6k/8/8/8/8/8/K7 w - - 0 1");
    assert!(g.make_move(48, 56, Some("x".to_string())), "an unknown letter asks for no piece: the queen");
    assert_eq!(g.fen(), "Q7/7k/8/8/8/8/8/K7 b - - 0 1");
    assert!(!g.is_promotion(0, 1));
}

/// The finished positions are named.
#[test]
fn game_status_names() {
    assert_eq!(Game::from_fen("R5k1/5ppp/8/8/8/8/8/6K1 b - - 0 1").status(), "checkmate");
    assert_eq!(Game::from_fen("7k/5Q2/6K1/8/8/8/8/8 b - - 0 1").status(), "stalemate");
    assert_eq!(Game::from_fen("7k/8/6K1/8/8/8/8/8 w - - 100 80").status(), "fifty-move");
    let mut mated = Game::from_fen("R5k1/5ppp/8/8/8/8/8/6K1 b - - 0 1");
    assert_eq!(mated.engine_move(2), "");
    assert_eq!(mated.best_score(2), -30000);
    assert_eq!(Game::from_fen("7k/5Q2/6K1/8/8/8/8/8 b - - 0 1").best_score(2), 0);
}

/// Scores of moves, and the sentinel for a move that is not legal.
#[test]
fn score_move_sentinel() {
    let g = Game::from_fen("4k3/8/8/8/3q4/8/8/3RK3 w - - 0 1");
    assert_eq!(g.score_move(0, 63, 2), -2_000_000);
    let take = g.score_move(3, 27, 2);
    assert!(take > 300, "taking the queen wins material, got {take}");
}

/// The rung can be forced by name and falls back to the ratings.
#[test]
fn assist_override_by_name() {
    let mut g = Game::new();
    assert_eq!(g.assist_level(), "suggestion");
    g.set_assist_override("Strategy");
    assert_eq!(g.assist_level(), "suggestion");
    g.set_assist_override("AUTOPILOT");
    assert_eq!(g.assist_level(), "autopilot");
    g.set_assist_override("");
    assert_eq!(g.assist_level(), "suggestion");
    g.set_ratings(1200, 1300);
    assert_eq!(g.assist_level(), "awareness");
    g.set_assist_override("off");
    let json = g.assist(1);
    assert!(json.starts_with("{\"level\":\"off\",\"inCheck\":false,\"hanging\":[]"), "{json}");
    assert_eq!(g.glassbox(), "[]", "Off is not recorded");
    assert_eq!(level_from_name("coaching"), Some(AssistLevel::Coaching));
    assert_eq!(level_from_name("nonsense"), None);
}

/// The engine at a rating plays from its pool.
#[test]
fn elo_pool_and_depths() {
    let g = Game::new();
    let pool = g.elo_pool(2000);
    assert!(!pool.is_empty() && pool.len() <= 20);
    assert_eq!(strength_for_elo(600), (1, 250));
    assert_eq!(strength_for_elo(1500), (2, 60));
    assert_eq!(strength_for_elo(2500), (4, 0));
    assert_eq!(Game::assist_depth_for(600), 3);
    assert_eq!(Game::assist_depth_for(2000), 4);
    assert_eq!(Game::assist_depth_for(3000), 4);
    let mut g = Game::new();
    let m = g.elo_pool(1000)[0];
    let u = g.play_move(m);
    assert_eq!(u.len(), 4);
    assert_eq!(g.side_to_move(), "black");
}

/// JSON string literals escape quotes, backslashes and newlines.
#[test]
fn json_strings_are_escaped() {
    assert_eq!(json_str("a\"b\\c\nd"), "\"a\\\"b\\\\c\\nd\"");
    assert_eq!(json_str(""), "\"\"");
    assert_eq!(parse_promo("q"), Some(PieceKind::Queen));
    assert_eq!(parse_promo("Rook"), Some(PieceKind::Rook));
    assert_eq!(parse_promo(""), None);
}

/// The glass-box JSON lists each recorded event.
#[test]
fn glassbox_json_lists_events() {
    let mut g = Game::new();
    g.set_assist_override("coaching");
    g.assist(1);
    assert_eq!(
        g.glassbox(),
        "[{\"ply\":0,\"side\":\"white\",\"level\":\"coaching\",\"summary\":\"Coach: 1 message(s) shown.\"}]"
    );
}
