use chess_engine::opening::OpeningNode;

/// A history as owned move texts.
fn h(moves: &[&str]) -> Vec<String> {
    moves.iter().map(|m| m.to_string()).collect()
}

#[test]
fn opening_empty_tree_has_no_book_move() {
    let tree = OpeningNode::new();
    assert_eq!(tree.most_played(&h(&[])), None);
    assert_eq!(tree.most_played(&h(&["e2e4"])), None);
}

#[test]
fn walks_tree_to_most_played_continuation() {
    let mut tree = OpeningNode::new();
    tree.insert("e2e4,e7e5,g1f3");
    tree.insert("e2e4,e7e5,g1f3");
    tree.insert("e2e4,c7c5");

    assert_eq!(tree.most_played(&h(&[])), Some("e2e4".to_string()));
    assert_eq!(tree.most_played(&h(&["e2e4"])), Some("e7e5".to_string()));
    assert_eq!(tree.most_played(&h(&["e2e4", "e7e5"])), Some("g1f3".to_string()));
}

#[test]
fn opening_out_of_book_history_returns_none() {
    let mut tree = OpeningNode::new();
    tree.insert("e2e4,e7e5");

    assert_eq!(tree.most_played(&h(&["d2d4"])), None);
    assert_eq!(tree.most_played(&h(&["e2e4", "c7c5"])), None);
}

#[test]
fn opening_leaf_node_has_no_continuation() {
    let mut tree = OpeningNode::new();
    tree.insert("e2e4,e7e5");

    assert_eq!(tree.most_played(&h(&["e2e4", "e7e5"])), None);
}

#[test]
fn insert_ignores_blank_segments() {
    let mut tree = OpeningNode::new();
    tree.insert(" e2e4 , , e7e5 ,");

    assert_eq!(tree.most_played(&h(&[])), Some("e2e4".to_string()));
    assert_eq!(tree.most_played(&h(&["e2e4"])), Some("e7e5".to_string()));
}

#[test]
fn continuations_list_every_recorded_move_with_its_count() {
    let mut tree = OpeningNode::new();
    tree.insert("e2e4,e7e5");
    tree.insert("e2e4,c7c5");
    tree.insert("d2d4,d7d5");
    let mut root = tree.continuations(&h(&[])).unwrap();
    root.sort();
    assert_eq!(root, vec![("d2d4".to_string(), 1), ("e2e4".to_string(), 2)]);
    let mut after_e4 = tree.continuations(&h(&["e2e4"])).unwrap();
    after_e4.sort();
    assert_eq!(after_e4, vec![("c7c5".to_string(), 1), ("e7e5".to_string(), 1)]);
    assert_eq!(tree.continuations(&h(&["e2e4", "e7e5"])), None);
    assert_eq!(tree.continuations(&h(&["a2a3"])), None);
}

#[test]
fn root_count_totals_the_games_that_have_moves() {
    let mut tree = OpeningNode::default();
    tree.insert("e2e4,e7e5");
    tree.insert(" , ");
    tree.insert("d2d4");
    tree.insert("e2e4,c7c5");
    assert_eq!(tree.count(&h(&[])), 3);
    assert_eq!(tree.count(&h(&["e2e4"])), 2);
    assert_eq!(tree.count(&h(&["d2d4"])), 0);
    assert_eq!(tree.count(&h(&["c2c4"])), 0);
}

#[test]
fn most_played_prefers_the_higher_count() {
    let mut tree = OpeningNode::new();
    tree.insert("d2d4");
    tree.insert("e2e4");
    tree.insert("e2e4");
    tree.insert("e2e4");
    assert_eq!(tree.most_played(&h(&[])), Some("e2e4".to_string()));
}

#[test]
fn checked_count_agrees_with_count() {
    let mut tree = OpeningNode::new();
    tree.insert("e2e4,e7e5");
    tree.insert("e2e4,c7c5");
    assert_eq!(tree.count_checked(&h(&[])), Some(2));
    assert_eq!(tree.count_checked(&h(&["e2e4"])), Some(tree.count(&h(&["e2e4"]))));
    assert_eq!(tree.count_checked(&h(&["d2d4"])), Some(0));
}
