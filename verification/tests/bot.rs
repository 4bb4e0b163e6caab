use chess_engine::bot::{book_history, ChessBot};
use chess_engine::engine::replay_moves;
use chess_engine::position::Position;

#[test]
fn book_move_is_returned_from_history() {
    let mut bot = ChessBot::default();
    bot.load_games("e2e4,e7e5,g1f3\ne2e4,e7e5,g1f3\ne2e4,c7c5");
    let book = bot.opening_tree();

    assert_eq!(book.most_played(&book_history("")), Some("e2e4".to_string()));
    assert_eq!(book.most_played(&book_history("e2e4")), Some("e7e5".to_string()));
    assert_eq!(book.most_played(&book_history("e2e4,e7e5")), Some("g1f3".to_string()));
}

#[test]
fn out_of_book_returns_a_legal_move() {
    let bot = ChessBot::default();
    assert_eq!(bot.opening_tree().most_played(&book_history("")), None);
    let legals = replay_moves("").legal_moves();
    assert!(!legals.is_empty());
    for m in &legals {
        let text = m.to_uci().to_uci_string();
        assert!(Position::start().to_move(&text).is_some(), "returned a valid UCI move");
    }
}

#[test]
fn terminal_position_returns_empty_string() {
    let bot = ChessBot::default();
    let moves = "f2f3,e7e5,g2g4,d8h4";
    assert_eq!(bot.opening_tree().most_played(&book_history(moves)), None);
    assert!(replay_moves(moves).legal_moves().is_empty());
}

#[test]
fn book_history_trims_every_piece_and_keeps_blanks() {
    assert_eq!(book_history(""), Vec::<String>::new());
    assert_eq!(book_history(" e2e4 , ,e7e5"), vec!["e2e4".to_string(), "".to_string(), "e7e5".to_string()]);
}

#[test]
fn classic_bot_counts_games_and_seen_positions() {
    let mut bot = ChessBot::new();
    bot.load_games("e2e4,e7e5\n\n d2d4 , d7d5 \ne2e4,c7c5");
    assert_eq!(bot.how_many_times_game_seen(""), 3);
    assert_eq!(bot.how_many_times_game_seen("e2e4"), 2);
    assert_eq!(bot.how_many_times_game_seen("d2d4"), 1);
    assert_eq!(bot.how_many_times_game_seen("e2e4, ,e7e5"), 0);
    let seen = bot.seen_positions();
    assert!(seen.contains(&Position::start().zobrist()));
    assert!(seen.contains(&replay_moves("d2d4,d7d5").zobrist()));
    assert!(!seen.contains(&replay_moves("g1f3").zobrist()));
}
