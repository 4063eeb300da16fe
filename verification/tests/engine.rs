//! The engine's acceptance checks: perft against the reference counts, FEN
//! round trips, SAN, and the search finding known tactics and recognising
//! terminal positions.

use glassboard::board::{Board, Move};
use glassboard::eval::eval;
use glassboard::fen::{algebraic_to_sq, parse_fen, to_fen, STARTPOS_FEN};
use glassboard::movegen::generate_legal;
use glassboard::perft::{perft, perft_divide};
use glassboard::san::san;
use glassboard::search::{best_move, in_check, search, MATE_THRESHOLD};

const STARTPOS: &str = STARTPOS_FEN;
const KIWIPETE: &str = "r3k2r/p1ppqpb1/bn2pnp1/3PN3/1p2P3/2N2Q1p/PPPBBPPP/R3K2R w KQkq - 0 1";
const POS3: &str = "8/2p5/3p4/KP5r/1R3p1k/8/4P1P1/8 w - - 0 1";
const POS4: &str = "r3k2r/Pppp1ppp/1b3nbN/nP6/BBP1P3/q4N2/Pp1P2PP/R2Q1RK1 w kq - 0 1";
const POS5: &str = "rnbq1k1r/pp1Pbppp/2p5/8/2B5/8/PPP1NnPP/RNBQK2R w KQ - 1 8";
const POS6: &str = "r4rk1/1pp1qppp/p1np1n2/2b1p1B1/2B1P1b1/P1NP1N2/1PP1QPPP/R4RK1 w - - 0 10";

fn check(fen: &str, depth: u32, expected: u64) {
    let b = parse_fen(fen);
    let got = perft(&b, depth);
    assert_eq!(got, expected, "perft({depth}) mismatch for {fen:?}: got {got}, expected {expected}");
}

fn find(b: &Board, from: &str, to: &str) -> Move {
    let f = algebraic_to_sq(from);
    let t = algebraic_to_sq(to);
    generate_legal(b)
        .into_iter()
        .find(|m| m.from == f && m.to == t)
        .expect("legal move")
}

#[test]
fn fen_round_trips() {
    for fen in [STARTPOS, KIWIPETE, POS3, POS4, POS5, POS6] {
        assert_eq!(to_fen(&parse_fen(fen)), fen, "FEN round-trip failed");
    }
}

#[test]
fn perft_startpos() {
    check(STARTPOS, 1, 20);
    check(STARTPOS, 2, 400);
    check(STARTPOS, 3, 8_902);
    check(STARTPOS, 4, 197_281);
}

#[test]
fn perft_kiwipete() {
    check(KIWIPETE, 1, 48);
    check(KIWIPETE, 2, 2_039);
    check(KIWIPETE, 3, 97_862);
}

#[test]
fn perft_pos3() {
    check(POS3, 1, 14);
    check(POS3, 2, 191);
    check(POS3, 3, 2_812);
    check(POS3, 4, 43_238);
}

#[test]
fn perft_pos4() {
    check(POS4, 1, 6);
    check(POS4, 2, 264);
    check(POS4, 3, 9_467);
}

#[test]
fn perft_pos5() {
    check(POS5, 1, 44);
    check(POS5, 2, 1_486);
    check(POS5, 3, 62_379);
}

#[test]
fn perft_pos6() {
    check(POS6, 1, 46);
    check(POS6, 2, 2_079);
    check(POS6, 3, 89_890);
}

#[test]
fn basic_san() {
    let b = Board::startpos();
    assert_eq!(san(&b, find(&b, "g1", "f3")), "Nf3");
    assert_eq!(san(&b, find(&b, "e2", "e4")), "e4");
    assert_eq!(san(&b, find(&b, "b1", "c3")), "Nc3");
}

#[test]
fn capture_and_mate() {
    let b = parse_fen("6k1/5ppp/8/8/8/8/8/R6K w - - 0 1");
    assert_eq!(san(&b, find(&b, "a1", "a8")), "Ra8#");
    let c = parse_fen("4k3/8/8/3p4/4P3/8/8/4K3 w - - 0 1");
    assert_eq!(san(&c, find(&c, "e4", "d5")), "exd5");
}

#[test]
fn finds_mate_in_one() {
    let b = parse_fen("6k1/5ppp/8/8/8/8/8/R6K w - - 0 1");
    let m = best_move(&b, 4).expect("a move exists");
    assert_eq!(m.from, algebraic_to_sq("a1"), "should move the a1 rook");
    assert_eq!(m.to, algebraic_to_sq("a8"), "…to a8 for mate");

    let r = search(&b, 4);
    assert!(r.score >= MATE_THRESHOLD, "should report a forced mate, got score {}", r.score);
}

#[test]
fn wins_the_hanging_queen() {
    let b = parse_fen("4k3/8/8/8/3q4/8/8/3RK3 w - - 0 1");
    let m = best_move(&b, 4).expect("a move exists");
    assert_eq!(m.to, algebraic_to_sq("d4"), "should capture the undefended queen on d4");
}

#[test]
fn detects_checkmate() {
    let b = parse_fen("R5k1/5ppp/8/8/8/8/8/6K1 b - - 0 1");
    assert!(generate_legal(&b).is_empty(), "mated side has no legal moves");
    assert!(in_check(&b), "mated side is in check");

    let r = search(&b, 3);
    assert!(r.best.is_none(), "no move to return when mated");
    assert!(r.score <= -MATE_THRESHOLD, "mated side scores near -MATE, got {}", r.score);
}

#[test]
fn detects_stalemate() {
    let b = parse_fen("7k/5Q2/6K1/8/8/8/8/8 b - - 0 1");
    assert!(generate_legal(&b).is_empty(), "stalemated side has no moves");
    assert!(!in_check(&b), "stalemated side is NOT in check");

    let r = search(&b, 3);
    assert!(r.best.is_none());
    assert_eq!(r.score, 0, "stalemate is a draw (score 0)");
}

#[test]
fn plays_a_legal_opening_move() {
    let b = Board::startpos();
    let m = best_move(&b, 4).expect("engine returns a move");
    let legal = generate_legal(&b);
    assert!(legal.contains(&m), "returned move must be legal");
}

/// The per-move counts add up to the whole count.
#[test]
fn perft_divide_sums_to_perft() {
    let b = parse_fen(KIWIPETE);
    let parts = perft_divide(&b, 2);
    assert_eq!(parts.len(), 48);
    assert_eq!(parts.iter().map(|(_, n)| n).sum::<u64>(), 2039);
    let one = perft_divide(&b, 1);
    assert!(one.iter().all(|(_, n)| *n == 1));
}

/// The engine's search to depth 0 plays nothing; a mated side has no move.
#[test]
fn search_edges() {
    let r = search(&Board::startpos(), 0);
    assert!(r.best.is_none());
    assert_eq!(r.score, 0);
    assert!(best_move(&parse_fen("R5k1/5ppp/8/8/8/8/8/6K1 b - - 0 1"), 2).is_none());
}

#[test]
fn shallow_search_always_offers_a_move() {
    let b = parse_fen(STARTPOS_FEN);
    assert!(best_move(&b, 0).is_none());
    let m = best_move(&b, 1).expect("a legal move exists");
    assert!(generate_legal(&b).contains(&m));
    // A quiet position with only captures on offer still yields a move.
    let b = parse_fen("4k3/8/8/3p4/4P3/8/8/4K3 w - - 0 1");
    let m = best_move(&b, 1).expect("a legal move exists");
    assert!(generate_legal(&b).contains(&m));
}

#[test]
fn divide_counts_sum_to_perft() {
    let b = parse_fen(STARTPOS_FEN);
    let d = perft_divide(&b, 3);
    assert_eq!(d.len(), 20);
    assert_eq!(d.iter().map(|(_, n)| *n).sum::<u64>(), perft(&b, 3));
    assert_eq!(perft(&b, 3), 8902);
}

#[test]
fn deeper_searches_still_offer_a_move() {
    let b = parse_fen("4k3/8/8/3p4/4P3/8/8/4K3 w - - 0 1");
    for depth in 2..=4 {
        let m = best_move(&b, depth).expect("a legal move exists");
        assert!(generate_legal(&b).contains(&m));
    }
}

#[test]
fn evaluation_is_colour_blind() {
    let b = parse_fen("r1bqkbnr/pppp1ppp/2n5/4p3/4P3/5N2/PPPP1PPP/RNBQKB1R w KQkq - 2 3");
    let m = parse_fen("rnbqkb1r/pppp1ppp/5n2/4p3/4P3/2N5/PPPP1PPP/R1BQKBNR b KQkq - 2 3");
    assert_eq!(eval(&b), eval(&m));
    let b = parse_fen("4k3/2p5/8/3P4/8/8/5PPP/4K2R b K - 0 1");
    let m = parse_fen("4k2r/5ppp/8/8/3p4/8/2P5/4K3 w k - 0 1");
    assert_eq!(eval(&b), eval(&m));
}

#[test]
fn one_ply_search_takes_the_free_queen() {
    let b = parse_fen("4k3/8/8/8/3q4/8/8/3RK3 w - - 0 1");
    let m = best_move(&b, 1).expect("a legal move exists");
    assert_eq!(m.to, algebraic_to_sq("d4"));
}

#[test]
fn divide_follows_generation_order() {
    let b = parse_fen(STARTPOS_FEN);
    let order: Vec<Move> = generate_legal(&b);
    let d = perft_divide(&b, 2);
    assert_eq!(d.iter().map(|(m, _)| *m).collect::<Vec<Move>>(), order);
    // Squares are scanned a1..h8, so the b1 knight's moves come before the
    // rank-2 pawn moves.
    assert_eq!(order[0].from, 1);
}
