use std::io;
use std::ops::ControlFlow;

use chess_engine::engine::pgn::{push_game_line, GameOutput, GameState, TagState};
use pgn_reader::{RawTag, Reader, SanPlus, Visitor};

/// Drives the library's game replay from the PGN reader's events.
struct Collector;

impl Visitor for Collector {
    type Tags = TagState;
    type Movetext = GameState;
    type Output = Option<GameOutput>;

    fn begin_tags(&mut self) -> ControlFlow<Self::Output, Self::Tags> {
        ControlFlow::Continue(TagState::new())
    }

    fn tag(&mut self, tags: &mut TagState, name: &[u8], value: RawTag<'_>) -> ControlFlow<Self::Output> {
        tags.tag(name, value.decode_utf8_lossy().into_owned());
        ControlFlow::Continue(())
    }

    fn begin_movetext(&mut self, tags: TagState) -> ControlFlow<Self::Output, GameState> {
        ControlFlow::Continue(GameState::begin_movetext(tags))
    }

    fn san(&mut self, state: &mut GameState, san_plus: SanPlus) -> ControlFlow<Self::Output> {
        if state.san(&san_plus.san.to_string()) {
            ControlFlow::Continue(())
        } else {
            let done = std::mem::replace(state, GameState::begin_movetext(TagState::new()));
            ControlFlow::Break(Some(done.finish()))
        }
    }

    fn end_game(&mut self, state: GameState) -> Self::Output {
        Some(state.finish())
    }
}

/// PGN text to one `white|black|moves` line per game with moves.
fn pgn_to_uci_lines(pgn: &str) -> io::Result<Vec<String>> {
    let mut reader = Reader::new(io::Cursor::new(pgn.as_bytes()));
    let mut lines = Vec::new();
    while let Some(game) = reader.read_game(&mut Collector)? {
        push_game_line(&mut lines, game);
    }
    Ok(lines)
}

#[test]
fn converts_simple_game_to_uci() {
    let pgn = "[White \"Alice\"]\n[Black \"Bob\"]\n\n1. e4 e5 2. Nf3 Nc6 *";
    let lines = pgn_to_uci_lines(pgn).unwrap();
    assert_eq!(lines, vec!["Alice|Bob|e2e4,e7e5,g1f3,b8c6".to_string()]);
}

#[test]
fn handles_multiple_games_and_castling() {
    let pgn = "1. e4 e5 *\n\n1. e4 e5 2. Bc4 Bc5 3. Nf3 Nf6 4. O-O O-O *";
    let lines = pgn_to_uci_lines(pgn).unwrap();
    assert_eq!(lines.len(), 2);
    assert_eq!(lines[0], "||e2e4,e7e5");
    assert!(lines[1].starts_with("||"));
    assert!(lines[1].contains("e1g1"));
    assert!(lines[1].contains("e8g8"));
}

#[test]
fn skips_games_with_no_moves() {
    let pgn = "[Event \"empty\"]\n\n*";
    let lines = pgn_to_uci_lines(pgn).unwrap();
    assert!(lines.is_empty());
}

#[test]
fn illegal_move_ends_the_game_keeping_earlier_moves() {
    let pgn = "[White \"A\"]\n[Black \"B\"]\n\n1. e4 e5 2. Ke3 Nc6 *";
    let lines = pgn_to_uci_lines(pgn).unwrap();
    assert_eq!(lines, vec!["A|B|e2e4,e7e5".to_string()]);
}

#[test]
fn bars_are_stripped_from_names() {
    let game = GameOutput {
        white: "Al|ice".to_string(),
        black: "|Bob|".to_string(),
        moves: vec!["e2e4".to_string(), "e7e5".to_string()],
    };
    let line = game.to_line();
    assert_eq!(line, "Alice|Bob|e2e4,e7e5");
    assert_eq!(line.split('|').count(), 3);
}

#[test]
fn game_line_is_added_only_when_it_has_moves() {
    let mut lines = vec!["x".to_string()];
    push_game_line(&mut lines, None);
    push_game_line(
        &mut lines,
        Some(GameOutput { white: "W".to_string(), black: "B".to_string(), moves: vec![] }),
    );
    assert_eq!(lines, vec!["x".to_string()]);
    push_game_line(
        &mut lines,
        Some(GameOutput { white: String::new(), black: String::new(), moves: vec!["d2d4".to_string()] }),
    );
    assert_eq!(lines, vec!["x".to_string(), "||d2d4".to_string()]);
}

#[test]
fn only_white_and_black_tags_are_kept() {
    let mut tags = TagState::new();
    tags.tag(b"Event", "Club".to_string());
    tags.tag(b"White", "Ann".to_string());
    tags.tag(b"Black", "Ben".to_string());
    tags.tag(b"white", "ignored".to_string());
    assert_eq!(tags.white, "Ann");
    assert_eq!(tags.black, "Ben");
}

#[test]
fn san_moves_are_recorded_in_uci() {
    let mut game = GameState::begin_movetext(TagState::new());
    assert!(game.san("e4"));
    assert!(game.san("e5"));
    assert!(game.san("Nf3"));
    assert!(!game.san("Nf3"));
    assert!(!game.san("xyz"));
    let out = game.finish();
    assert_eq!(out.moves, vec!["e2e4".to_string(), "e7e5".to_string(), "g1f3".to_string()]);
}

#[test]
fn line_fields_give_back_names_and_moves() {
    let game = GameOutput {
        white: "W|x".to_string(),
        black: "B".to_string(),
        moves: vec!["e2e4".to_string(), "c7c5".to_string(), "g1f3".to_string()],
    };
    let line = game.to_line();
    let fields: Vec<&str> = line.split('|').collect();
    assert_eq!(fields, vec!["Wx", "B", "e2e4,c7c5,g1f3"]);
    let moves: Vec<String> = fields[2].split(',').map(|m| m.to_string()).collect();
    assert_eq!(moves, game.moves);
}
