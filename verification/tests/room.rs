//! The game room: seating, turn order, legality, status and the glass log.

use glassboard::board::Color;
use glassboard::room::{seat_player, Player, Room, Seats};
use glassboard::signals::play_and_read;

fn p(id: &str, rating: i32) -> Player {
    Player { id: id.into(), name: id.to_uppercase(), rating }
}

#[test]
fn seats_two_then_refuses() {
    let mut r = Room::new();
    assert_eq!(r.join(1200), Some(Color::White));
    assert_eq!(r.join(1600), Some(Color::Black));
    assert_eq!(r.join(1500), None, "third player is refused");
    assert_eq!(r.white_elo, 1200);
    assert_eq!(r.black_elo, 1600);
}

#[test]
fn enforces_turn_order_and_legality() {
    let mut r = Room::new();
    assert!(r.apply_move(Color::White, "e2e4").is_ok());
    assert!(r.apply_move(Color::White, "d2d4").is_err(), "White cannot move twice in a row");
    assert!(r.apply_move(Color::Black, "e7e9").is_err(), "illegal move rejected");
    assert!(r.apply_move(Color::Black, "e7e5").is_ok());
    assert_eq!(r.turn(), "white");
    assert_eq!(r.last_uci.as_deref(), Some("e7e5"));
}

#[test]
fn starts_ongoing() {
    assert_eq!(Room::new().status(), "ongoing");
}

#[test]
fn seating_is_identity_based() {
    let mut s = Seats::default();
    assert_eq!(s.status(), "open");
    assert_eq!(s.seat(p("a", 1800)), Some(Color::White));
    assert_eq!(s.status(), "waiting");
    assert_eq!(s.seat(p("a", 1810)), Some(Color::White));
    assert_eq!(s.seat(p("b", 1200)), Some(Color::Black));
    assert_eq!(s.status(), "active");
    assert_eq!(s.seat(p("b", 1205)), Some(Color::Black));
    assert_eq!(s.host.as_ref().unwrap().rating, 1810);
    assert_eq!(s.guest.as_ref().unwrap().rating, 1205);
    assert_eq!(s.seat(p("c", 1500)), None);
}

#[test]
fn glass_log_accumulates_and_resets() {
    let mut r = Room::new();
    assert!(r.glass.is_empty());
    r.push_glass("white", "Suggestion: 3 candidate move(s) shown.");
    r.push_glass("black", "Guided: recommended e2e4.");
    assert_eq!(r.glass.len(), 2);
    assert_eq!(r.glass[0].side, "white");
    r.reset();
    assert!(r.glass.is_empty(), "reset clears the glass log");
}

/// Seating takes the player's rating for their colour; the third is refused.
#[test]
fn seating_sets_the_ratings() {
    let mut r = Room::new();
    let mut s = Seats::default();
    assert_eq!(seat_player(&mut r, &mut s, p("a", 1800)), Some(Color::White));
    assert_eq!(seat_player(&mut r, &mut s, p("b", 1200)), Some(Color::Black));
    assert_eq!((r.white_elo, r.black_elo), (1800, 1200));
    assert_eq!(seat_player(&mut r, &mut s, p("a", 1850)), Some(Color::White), "the host comes back");
    assert_eq!(r.white_elo, 1850);
    assert_eq!(seat_player(&mut r, &mut s, p("c", 2000)), None);
    assert_eq!((r.white_elo, r.black_elo), (1850, 1200));
}

/// A played move yields the learning signal; a refused one changes nothing.
#[test]
fn moves_yield_the_learning_signal() {
    let mut r = Room::new();
    assert_eq!(play_and_read(&mut r, Color::White, "e2e4"), Some((false, false)));
    assert_eq!(play_and_read(&mut r, Color::White, "d2d4"), None, "not White's turn");
    assert_eq!(play_and_read(&mut r, Color::Black, "e7e9"), None, "illegal");
    assert_eq!(r.last_uci.as_deref(), Some("e2e4"));
    assert_eq!(play_and_read(&mut r, Color::Black, "e7e5"), Some((false, false)));
    assert_eq!(play_and_read(&mut r, Color::White, "g1f3"), Some((false, false)));
    // The queen lands where the knight hits it, undefended.
    assert_eq!(play_and_read(&mut r, Color::Black, "d8h4"), Some((true, false)));
    // White ignores the free queen.
    assert_eq!(play_and_read(&mut r, Color::White, "a2a3"), Some((false, true)));
}

#[test]
fn odd_move_text_is_refused_not_fatal() {
    let mut r = Room::new();
    assert_eq!(r.apply_move(Color::White, "e2é4"), Err("illegal move".to_string()));
    assert_eq!(r.apply_move(Color::White, "é"), Err("illegal move".to_string()));
    assert_eq!(r.apply_move(Color::Black, "e2é4"), Err("not your turn".to_string()));
    r.resign(Color::Black);
    assert_eq!(r.apply_move(Color::White, "e2e4"), Err("game is over".to_string()));
    assert_eq!(r.outcome(), (true, "white", "resignation"));
}
