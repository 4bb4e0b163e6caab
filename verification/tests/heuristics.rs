use std::collections::HashSet;

use chess_engine::heuristics::{
    score_did_castle, score_knight_approaching_f6, score_knight_bishop_trade, score_knight_eyeing_bishop,
    score_knight_fork, score_ladder_mate, score_material, score_seen, try_score_knight_bishop_trade,
};
use chess_engine::position::Position;

fn fen(text: &str) -> Position {
    Position::from_fen(text).expect("valid FEN")
}

#[test]
fn ladder_mate_counts_half_points_per_rook() {
    // Rook on the seventh rank, not attacking the king: one point.
    assert_eq!(score_ladder_mate(&fen("4k3/R7/8/8/8/8/8/4K3 b - - 0 1"), true), 2);
    // Rook on the eighth rank attacking the king: one and a half more.
    assert_eq!(score_ladder_mate(&fen("R3k3/8/8/8/8/8/8/4K3 b - - 0 1"), true), 5);
    // A blocked rook on a low rank scores nothing.
    assert_eq!(score_ladder_mate(&fen("4k3/8/8/8/4p3/8/8/K3R3 b - - 0 1"), true), 0);
    // Black has no rooks.
    assert_eq!(score_ladder_mate(&fen("R3k3/8/8/8/8/8/8/4K3 b - - 0 1"), false), 0);
}

#[test]
fn knight_fork_counts_high_value_targets() {
    let before = fen("r3k3/8/8/3N4/8/8/8/4K3 w - - 0 1");
    let m = before.to_move("d5c7").unwrap();
    assert_eq!(score_knight_fork(&before, &m, &before.play(&m)), 2);

    let before = fen("r3k3/8/q7/3N4/8/8/8/4K3 w - - 0 1");
    let m = before.to_move("d5c7").unwrap();
    assert_eq!(score_knight_fork(&before, &m, &before.play(&m)), 3);

    let m = before.to_move("e1d2").unwrap();
    assert_eq!(score_knight_fork(&before, &m, &before.play(&m)), 0);
}

#[test]
fn knight_eyeing_bishop_counts_attacking_knights() {
    assert_eq!(score_knight_eyeing_bishop(&fen("4k3/8/8/3b4/8/4N3/8/4K3 b - - 0 1")), 1);
    assert_eq!(score_knight_eyeing_bishop(&fen("4k3/8/8/3b4/8/4N3/8/4K3 w - - 0 1")), 0);
    assert_eq!(score_knight_eyeing_bishop(&fen("4k3/8/8/3b4/1N6/4N3/8/4K3 b - - 0 1")), 2);
}

#[test]
fn knight_approaching_f6_counts_knights_one_hop_away() {
    // White's targets f6; its g1 knight is one hop from f3 only.
    assert_eq!(score_knight_approaching_f6(&fen("4k3/8/8/8/8/8/8/4K1N1 b - - 0 1")), 0);
    assert_eq!(score_knight_approaching_f6(&fen("4k3/8/8/8/6N1/8/8/4K1N1 b - - 0 1")), 1);
    assert_eq!(score_knight_approaching_f6(&fen("4k3/8/8/8/8/8/8/N3K3 b - - 0 1")), 0);
    // After 1.e4 neither white knight reaches f6.
    let start = Position::start();
    assert_eq!(score_knight_approaching_f6(&start.play(&start.to_move("e2e4").unwrap())), 0);
    // Black targets f3: a knight on g5 reaches it, one on g8 reaches only f6.
    assert_eq!(score_knight_approaching_f6(&fen("4k3/8/8/6n1/8/8/8/4K3 w - - 0 1")), 1);
    assert_eq!(score_knight_approaching_f6(&fen("4k1n1/8/8/8/8/8/8/4K3 w - - 0 1")), 0);
}

#[test]
fn material_counts_pieces_of_one_colour() {
    let start = Position::start();
    assert_eq!(score_material(&start, true), 16);
    assert_eq!(score_material(&start, false), 16);
    assert_eq!(score_material(&fen("4k3/8/8/3b4/1N6/4N3/8/4K3 b - - 0 1"), true), 3);
}

#[test]
fn castling_and_seen_positions_are_flags() {
    let p = fen("r3k2r/8/8/8/8/8/8/R3K2R w KQkq - 0 1");
    assert!(score_did_castle(&p.to_move("e1g1").unwrap()));
    assert!(!score_did_castle(&p.to_move("e1f1").unwrap()));

    let start = Position::start();
    let seen: HashSet<u64> = HashSet::from([start.zobrist()]);
    assert!(score_seen(&start, &seen));
    assert!(!score_seen(&start.play(&start.to_move("e2e4").unwrap()), &seen));
}

#[test]
fn knight_for_bishop_needs_both_losses() {
    let start = Position::start();
    let after = start.play(&start.to_move("e2e4").unwrap());
    assert!(!score_knight_bishop_trade(&start, &after));
    assert_eq!(try_score_knight_bishop_trade(&start, &after), Some(false));

    // A knight promotion adds a knight: the count of lost knights would go negative.
    let before = fen("8/P3k3/8/8/8/8/8/4K3 w - - 0 1");
    let after = before.play(&before.to_move("a7a8n").unwrap());
    assert_eq!(try_score_knight_bishop_trade(&before, &after), None);

    // Measured across two positions, a white knight lost and a black bishop lost count.
    let before = fen("4k3/8/8/3b4/8/4N3/8/4K3 w - - 0 1");
    let after = fen("4k3/8/8/8/8/8/8/4K3 b - - 0 1");
    assert_eq!(try_score_knight_bishop_trade(&before, &after), Some(true));
}
