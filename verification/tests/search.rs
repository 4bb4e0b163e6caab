use chess_engine::engine::replay_moves;
use chess_engine::engine::search::{classify_node, is_major_capture, major_captures_first, NodeKind};
use chess_engine::position::Position;

#[test]
fn checkmate_ends_the_branch() {
    let mated = replay_moves("f2f3,e7e5,g2g4,d8h4");
    let (kind, moves) = classify_node(&mated, false, 1, 2, 5);
    assert_eq!(kind, NodeKind::Checkmate { delivered: true });
    assert!(moves.is_empty());
    assert_eq!(classify_node(&mated, true, 1, 2, 5).0, NodeKind::Checkmate { delivered: false });
}

#[test]
fn stalemate_is_drawn() {
    let stalemate = Position::from_fen("7k/5Q2/6K1/8/8/8/8/8 b - - 0 1").unwrap();
    assert_eq!(classify_node(&stalemate, true, 3, 2, 5).0, NodeKind::Drawn);
}

#[test]
fn depth_limits_decide_between_leaf_and_expand() {
    let start = Position::start();
    let (kind, moves) = classify_node(&start, true, 1, 2, 5);
    assert_eq!(kind, NodeKind::Expand);
    assert_eq!(moves.len(), 20);
    assert_eq!(classify_node(&start, true, 2, 2, 5).0, NodeKind::Leaf);
    assert_eq!(classify_node(&start, true, 5, 2, 5).0, NodeKind::Leaf);

    // A queen capture keeps the search going past the minimum depth.
    let capture = Position::from_fen("4k3/8/8/3q4/4P3/8/8/4K3 w - - 0 1").unwrap();
    assert_eq!(classify_node(&capture, true, 3, 2, 5).0, NodeKind::Expand);
    assert_eq!(classify_node(&capture, true, 5, 2, 5).0, NodeKind::Leaf);
}

#[test]
fn major_captures_come_first_up_to_the_limit() {
    let p = Position::from_fen("4k3/8/8/2nqb3/3P4/8/8/4K3 w - - 0 1").unwrap();
    let legals = p.legal_moves();
    let all: Vec<String> = major_captures_first(&legals, 5).iter().map(|m| m.to_uci().to_uci_string()).collect();
    let mut sorted = all.clone();
    sorted.sort();
    assert_eq!(sorted, vec!["d4c5".to_string(), "d4e5".to_string()]);
    assert_eq!(major_captures_first(&legals, 1).len(), 1);
    assert!(major_captures_first(&legals, 0).is_empty());
    assert!(major_captures_first(&Position::start().legal_moves(), 5).is_empty());
    assert!(all.iter().all(|t| is_major_capture(&p.to_move(t).unwrap())));
}
