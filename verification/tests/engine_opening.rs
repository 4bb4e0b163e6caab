use std::collections::HashMap;

use chess_engine::engine::opening::OpeningNode;
use chess_engine::uci::{parse_uci, UciMove};

/// Parse one UCI move, panicking on bad input.
fn uci(s: &str) -> UciMove {
    parse_uci(s).expect("valid UCI move")
}

/// Parse a comma-separated UCI line into a move list.
fn line(s: &str) -> Vec<UciMove> {
    s.split(',').map(|t| uci(t.trim())).collect()
}

/// The continuations after a history, keyed by move.
fn lookup(tree: &OpeningNode, history: &[UciMove]) -> Option<HashMap<UciMove, u32>> {
    tree.lookup(history).map(|v| v.into_iter().collect())
}

#[test]
fn empty_tree_has_no_book_move() {
    let tree = OpeningNode::new();
    assert_eq!(lookup(&tree, &[]), None);
    assert_eq!(lookup(&tree, &[uci("e2e4")]), None);
}

#[test]
fn walks_tree_to_recorded_continuations() {
    let mut tree = OpeningNode::new();
    tree.insert(&line("e2e4,e7e5,g1f3"));
    tree.insert(&line("e2e4,e7e5,g1f3"));
    tree.insert(&line("e2e4,c7c5"));

    assert_eq!(lookup(&tree, &[]), Some(HashMap::from([(uci("e2e4"), 3)])));
    assert_eq!(
        lookup(&tree, &[uci("e2e4")]),
        Some(HashMap::from([(uci("e7e5"), 2), (uci("c7c5"), 1)]))
    );
    assert_eq!(
        lookup(&tree, &[uci("e2e4"), uci("e7e5")]),
        Some(HashMap::from([(uci("g1f3"), 2)]))
    );
}

#[test]
fn out_of_book_history_returns_none() {
    let mut tree = OpeningNode::new();
    tree.insert(&line("e2e4,e7e5"));

    assert_eq!(lookup(&tree, &[uci("d2d4")]), None);
    assert_eq!(lookup(&tree, &[uci("e2e4"), uci("c7c5")]), None);
}

#[test]
fn leaf_node_has_no_continuation() {
    let mut tree = OpeningNode::new();
    tree.insert(&line("e2e4,e7e5"));

    assert_eq!(lookup(&tree, &[uci("e2e4"), uci("e7e5")]), None);
}

#[test]
fn count_sums_continuations_from_node() {
    let mut tree = OpeningNode::new();
    tree.insert(&line("e2e4,e7e5,g1f3"));
    tree.insert(&line("e2e4,e7e5,g1f3"));
    tree.insert(&line("e2e4,c7c5"));

    assert_eq!(tree.count(&[]), 3);
    assert_eq!(tree.count(&[uci("e2e4")]), 3);
    assert_eq!(tree.count(&[uci("e2e4"), uci("e7e5")]), 2);
    assert_eq!(tree.count(&[uci("d2d4")]), 0);
}

#[test]
fn count_is_the_total_of_the_listed_continuations() {
    let mut tree = OpeningNode::new();
    tree.insert(&line("e2e4,e7e5,g1f3"));
    tree.insert(&line("e2e4,c7c5"));
    tree.insert(&line("d2d4,d7d5"));
    tree.insert(&line("e2e4"));
    for history in [vec![], vec![uci("e2e4")], vec![uci("d2d4")], vec![uci("e2e4"), uci("e7e5")]] {
        let listed: u32 = tree.lookup(&history).map(|v| v.iter().map(|p| p.1).sum()).unwrap_or(0);
        assert_eq!(tree.count(&history), listed);
    }
    // One of the three e4 games stops after 1.e4, so two go on.
    assert_eq!(tree.count(&[uci("e2e4")]), 2);
}

#[test]
fn inserting_a_game_raises_each_count_along_it_by_one() {
    let mut tree = OpeningNode::new();
    tree.insert(&line("e2e4,e7e5"));
    tree.insert(&line("d2d4"));
    let before_root = lookup(&tree, &[]).unwrap();
    let before_e4 = lookup(&tree, &[uci("e2e4")]).unwrap();
    tree.insert(&line("e2e4,c7c5"));
    let after_root = lookup(&tree, &[]).unwrap();
    let after_e4 = lookup(&tree, &[uci("e2e4")]).unwrap();
    assert_eq!(after_root[&uci("e2e4")], before_root[&uci("e2e4")] + 1);
    assert_eq!(after_root[&uci("d2d4")], before_root[&uci("d2d4")]);
    assert_eq!(after_e4[&uci("c7c5")], 1);
    assert_eq!(after_e4[&uci("e7e5")], before_e4[&uci("e7e5")]);
}

#[test]
fn empty_game_changes_no_count() {
    let mut tree = OpeningNode::default();
    tree.insert(&[]);
    assert_eq!(tree.count(&[]), 0);
    assert_eq!(lookup(&tree, &[]), None);
}
