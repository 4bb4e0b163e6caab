use std::collections::HashSet;

use chess_engine::engine::{parse_uci_history, replay_moves, ChessBot};
use chess_engine::position::{ChessMove, Position};

/// The UCI texts of book moves, for order-independent checks.
fn uci_set(moves: &[(ChessMove, u32)]) -> HashSet<String> {
    moves.iter().map(|(m, _)| m.to_uci().to_uci_string()).collect()
}

#[test]
fn book_moves_are_returned_from_history() {
    let mut bot = ChessBot::default();
    bot.load_games("e2e4,e7e5,g1f3\ne2e4,e7e5,g1f3\ne2e4,c7c5");

    let (_, root) = bot.book_moves("");
    assert_eq!(uci_set(&root), HashSet::from(["e2e4".to_string()]));
    assert!(root.iter().all(|(_, prevalence)| *prevalence > 0));

    assert_eq!(
        uci_set(&bot.book_moves("e2e4").1),
        HashSet::from(["e7e5".to_string(), "c7c5".to_string()])
    );

    assert_eq!(uci_set(&bot.book_moves("e2e4,e7e5").1), HashSet::from(["g1f3".to_string()]));
}

#[test]
fn out_of_book_returns_legal_moves() {
    let bot = ChessBot::default();
    let (pos, book) = bot.book_moves("");
    assert!(book.is_empty());
    let legals = pos.legal_moves();
    assert!(!legals.is_empty());
    for m in &legals {
        let uci = m.to_uci().to_uci_string();
        assert!(Position::start().to_move(&uci).is_some());
    }
}

#[test]
fn terminal_position_returns_no_moves() {
    let bot = ChessBot::default();
    let (pos, book) = bot.book_moves("f2f3,e7e5,g2g4,d8h4");
    assert!(book.is_empty());
    assert!(pos.legal_moves().is_empty());
    assert!(pos.is_checkmate());
}

#[test]
fn book_counts_are_the_times_each_move_was_played() {
    let mut bot = ChessBot::new();
    bot.load_games("e2e4,e7e5\n\ne2e4,c7c5\n  e2e4,e7e5  \n");
    let mut after_e4: Vec<(String, u32)> =
        bot.book_moves("e2e4").1.iter().map(|(m, n)| (m.to_uci().to_uci_string(), *n)).collect();
    after_e4.sort();
    assert_eq!(after_e4, vec![("c7c5".to_string(), 1), ("e7e5".to_string(), 2)]);
    assert_eq!(bot.how_many_times_game_seen(""), 3);
    assert_eq!(bot.how_many_times_game_seen("e2e4"), 3);
    assert_eq!(bot.how_many_times_game_seen("e2e4,e7e5"), 0);
    assert_eq!(bot.how_many_times_game_seen("d2d4"), 0);
}

#[test]
fn loaded_games_mark_their_positions_as_seen() {
    let mut bot = ChessBot::new();
    let start = Position::start();
    assert!(!bot.has_seen(start.zobrist()));
    bot.load_games("e2e4,e7e5");
    assert!(bot.has_seen(start.zobrist()));
    assert!(bot.has_seen(replay_moves("e2e4").zobrist()));
    assert!(bot.has_seen(replay_moves("e2e4,e7e5").zobrist()));
    assert!(!bot.has_seen(replay_moves("d2d4").zobrist()));
}

#[test]
fn illegal_move_stops_the_replay_and_the_seen_positions() {
    let mut bot = ChessBot::new();
    bot.load_games("e2e4,e2e4,d2d4");
    assert!(bot.has_seen(replay_moves("e2e4").zobrist()));
    assert!(!bot.has_seen(replay_moves("d2d4").zobrist()));
    assert_eq!(replay_moves("e2e4,e2e4,d2d4").fen(), replay_moves("e2e4").fen());
}

#[test]
fn history_parse_skips_blanks_and_stops_at_bad_tokens() {
    let moves: Vec<String> =
        parse_uci_history(" e2e4 , , e7e5 ,zz,g1f3").iter().map(|m| m.to_uci_string()).collect();
    assert_eq!(moves, vec!["e2e4".to_string(), "e7e5".to_string()]);
    assert!(parse_uci_history("").is_empty());
}

#[test]
fn replay_follows_legal_moves() {
    let pos = replay_moves("e2e4, e7e5 ,g1f3");
    assert_eq!(pos.fen(), "rnbqkbnr/pppp1ppp/8/4p3/4P3/5N2/PPPP1PPP/RNBQKB1R b KQkq - 1 2");
    assert_eq!(replay_moves("").fen(), Position::start().fen());
}

#[test]
fn loading_two_texts_equals_loading_them_joined() {
    let a = "e2e4,e7e5\n\n d2d4 ";
    let b = "e2e4,c7c5\ne2e4,e7e5,g1f3";
    let mut one = ChessBot::new();
    one.load_games(a);
    one.load_games(b);
    let mut two = ChessBot::new();
    two.load_games(&format!("{a}\n{b}"));
    for h in ["", "e2e4", "e2e4,e7e5", "d2d4", "c2c4"] {
        assert_eq!(one.how_many_times_game_seen(h), two.how_many_times_game_seen(h));
        assert_eq!(one.try_how_many_times_game_seen(h), Some(two.how_many_times_game_seen(h)));
        let mut x: Vec<(String, u32)> =
            one.book_moves(h).1.iter().map(|(m, n)| (m.to_uci().to_uci_string(), *n)).collect();
        let mut y: Vec<(String, u32)> =
            two.book_moves(h).1.iter().map(|(m, n)| (m.to_uci().to_uci_string(), *n)).collect();
        x.sort();
        y.sort();
        assert_eq!(x, y);
    }
    assert!(one.has_seen(replay_moves("e2e4,e7e5,g1f3").zobrist()));
    assert!(two.has_seen(replay_moves("e2e4,e7e5,g1f3").zobrist()));
}

#[test]
fn plan_answers_from_the_book_alone_unless_told_otherwise() {
    let mut bot = ChessBot::new();
    bot.load_games("e2e4,e7e5");
    let (_, book, to_score) = bot.plan_moves("", false);
    assert_eq!(book.len(), 1);
    assert!(to_score.is_empty());
    let (_, book, to_score) = bot.plan_moves("", true);
    assert_eq!(book.len(), 1);
    assert_eq!(to_score.len(), 20);
    let (_, book, to_score) = bot.plan_moves("d2d4", false);
    assert!(book.is_empty());
    assert_eq!(to_score.len(), 20);
    let (_, book, to_score) = bot.plan_moves("f2f3,e7e5,g2g4,d8h4", true);
    assert!(book.is_empty() && to_score.is_empty());
}
