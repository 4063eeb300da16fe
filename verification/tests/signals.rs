//! The per-move learning signal and the account checks.

use glassboard::board::Color;
use glassboard::fen::parse_fen;
use glassboard::signals::{
    account_check, is_blank, join_player, left_piece_hanging, missed_free_capture, resigned_from_text, sign_in,
    stored_player, uci_to_sq, AccountProblem, AccountRecord, SignIn,
};

#[test]
fn destination_of_a_coordinate_move() {
    assert_eq!(uci_to_sq("e2e4"), Some(28));
    assert_eq!(uci_to_sq("a7a8q"), Some(56));
    assert_eq!(uci_to_sq("e2e"), None);
    assert_eq!(uci_to_sq("e2e9"), None);
    assert_eq!(uci_to_sq("e2z4"), None);
}

#[test]
fn hanging_after_a_move() {
    // White's knight on e5 is attacked by the d6 pawn and undefended.
    let b = parse_fen("4k3/8/3p4/4N3/8/8/8/4K3 b - - 0 1");
    assert!(left_piece_hanging(&b, Color::White));
    // A hanging pawn does not count.
    let b = parse_fen("4k3/8/3p4/4P3/8/8/8/4K3 b - - 0 1");
    assert!(!left_piece_hanging(&b, Color::White));
}

#[test]
fn skipped_free_capture() {
    // White could take the undefended knight on b5 with the rook.
    let before = parse_fen("4k3/8/8/1n6/8/8/8/1R2K3 w - - 0 1");
    assert!(missed_free_capture(&before, Color::White, 4 * 8 + 7));
    assert!(!missed_free_capture(&before, Color::White, 4 * 8 + 1), "taking it is no miss");
}

#[test]
fn account_rules() {
    assert_eq!(account_check("alice", "1234", 1500), Ok(1500));
    assert_eq!(account_check("alice", "1234", 50), Ok(1200));
    assert_eq!(account_check("alice", "1234", 3201), Ok(1200));
    assert_eq!(account_check("", "1234", 1500), Err(AccountProblem::BadName));
    assert_eq!(account_check(&"x".repeat(25), "1234", 1500), Err(AccountProblem::BadName));
    assert_eq!(account_check(&"é".repeat(24), "1234", 1500), Ok(1500));
    assert_eq!(account_check("bob", "12a4", 1500), Err(AccountProblem::BadPin));
    assert_eq!(account_check("bob", "12345", 1500), Err(AccountProblem::BadPin));
    assert_eq!(account_check("", "x", 1500), Err(AccountProblem::BadName), "the name is checked first");
    assert_eq!(AccountProblem::BadPin.message(), "PIN must be exactly 4 digits.");
    assert_eq!(AccountProblem::BadName.message(), "Enter a name (1–24 characters).");
}

#[test]
fn joining_fills_in_identity() {
    let p = join_player(String::new(), "   ".to_string(), 0, "anon7".to_string());
    assert_eq!(p.id, "anon7");
    assert_eq!(p.name, "Player");
    assert_eq!(p.rating, 1);
    let p = join_player("u_ann".to_string(), "Ann".to_string(), 1500, "anon8".to_string());
    assert_eq!(p.id, "u_ann");
    assert_eq!(p.name, "Ann");
    assert_eq!(p.rating, 1500);
    assert!(is_blank("\t \u{3000}"));
    assert!(!is_blank(" a "));
}

#[test]
fn claiming_or_signing_in() {
    let fresh = sign_in(None, "u_ann".to_string(), "Ann".to_string(), "1234".to_string(), 1300);
    assert!(matches!(fresh, SignIn::Created(ref a) if a.id == "u_ann" && a.name == "Ann" && a.rating == 1300));
    let stored = || AccountRecord {
        id: "u_ann".to_string(),
        name: "Ann".to_string(),
        pin: "1234".to_string(),
        rating: 1450,
    };
    let back = sign_in(Some(stored()), "u_ann".to_string(), "ann".to_string(), "1234".to_string(), 1200);
    assert!(matches!(back, SignIn::Returning(ref a) if a.name == "Ann" && a.rating == 1450));
    let wrong = sign_in(Some(stored()), "u_ann".to_string(), "Ann".to_string(), "9999".to_string(), 1200);
    assert!(matches!(wrong, SignIn::WrongPin));
}

#[test]
fn stored_games_read_back() {
    assert_eq!(resigned_from_text("white"), Some(Color::White));
    assert_eq!(resigned_from_text("black"), Some(Color::Black));
    assert_eq!(resigned_from_text(""), None);
    assert!(stored_player(None, Some("Ann".to_string()), Some(1300)).is_none());
    let p = stored_player(Some("u_ann".to_string()), None, None).expect("a player");
    assert_eq!(p.id, "u_ann");
    assert_eq!(p.name, "");
    assert_eq!(p.rating, 1500);
}
