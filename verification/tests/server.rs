use chess_engine::position::Position;
use chess_engine::server::{greeting, infinite_info, Control, EngineState, Reply, Request};
use chess_engine::uci::{parse_uci, UciMove};

fn text_of(r: &Reply) -> String {
    match r {
        Reply::Text { text } => text.clone(),
        _ => panic!("not a text reply"),
    }
}

fn moves(texts: &[&str]) -> Vec<UciMove> {
    texts.iter().map(|t| parse_uci(t).unwrap()).collect()
}

#[test]
fn uci_is_answered_with_id_and_uciok() {
    let mut engine = EngineState::new();
    let (replies, control) = engine.handle(Request::Uci);
    assert_eq!(control, Control::Continue);
    assert_eq!(replies.len(), 2);
    match &replies[0] {
        Reply::Id { name, author } => {
            assert_eq!(name, "simpleton");
            assert_eq!(author, "tigerros");
        }
        _ => panic!("expected an id"),
    }
    assert!(matches!(replies[1], Reply::UciOk));
}

#[test]
fn go_plays_the_first_legal_move() {
    let mut engine = EngineState::new();
    let first = Position::start().legal_moves()[0].to_uci();
    let (replies, control) = engine.handle(Request::Go { infinite: false });
    assert_eq!(control, Control::Continue);
    assert_eq!(replies.len(), 2);
    match &replies[0] {
        Reply::Info { depth, pv, string } => {
            assert_eq!(*depth, 1);
            assert_eq!(*pv, Some(first));
            assert!(string.is_none());
        }
        _ => panic!("expected info"),
    }
    match &replies[1] {
        Reply::BestMove { best } => assert_eq!(*best, first),
        _ => panic!("expected bestmove"),
    }
    let (_, control) = engine.handle(Request::Go { infinite: true });
    assert_eq!(control, Control::Infinite { next_depth: 2 });
}

#[test]
fn position_messages_set_the_position() {
    let mut engine = EngineState::new();
    let (replies, control) = engine.handle(Request::StartPos { moves: moves(&["e2e4"]) });
    assert_eq!(control, Control::Continue);
    assert_eq!(text_of(&replies[0]), "position set");
    assert_eq!(engine.position().fen(), "rnbqkbnr/pppppppp/8/8/4P3/8/PPPP1PPP/RNBQKBNR b KQkq - 0 1");

    let (replies, _) =
        engine.handle(Request::Fen { fen: "4k3/8/8/8/8/8/8/4K3 w - - 0 1".to_string(), moves: vec![] });
    assert_eq!(text_of(&replies[0]), "position set");
    assert_eq!(engine.position().fen(), "4k3/8/8/8/8/8/8/4K3 w - - 0 1");
}

#[test]
fn moves_are_read_in_the_current_position() {
    let mut engine = EngineState::new();
    // From the start, e2e4 then e7e5 is read against the start position, where
    // e7e5 is not a legal white move.
    let (replies, _) = engine.handle(Request::StartPos { moves: moves(&["e2e4", "e7e5"]) });
    assert_eq!(text_of(&replies[0]), "error converting UCI move to valid move: illegal uci");
    assert_eq!(engine.position().fen(), Position::start().fen());
}

#[test]
fn bad_fen_is_reported_and_the_position_kept() {
    let mut engine = EngineState::new();
    let (replies, control) = engine.handle(Request::Fen { fen: "nonsense".to_string(), moves: vec![] });
    assert_eq!(control, Control::Continue);
    assert!(text_of(&replies[0]).starts_with("error parsing FEN: "));
    assert_eq!(engine.position().fen(), Position::start().fen());
}

#[test]
fn checkmated_position_answers_the_null_move() {
    let mut engine = EngineState::new();
    engine.handle(Request::Fen {
        fen: "rnb1kbnr/pppp1ppp/8/4p3/6Pq/5P2/PPPPP2P/RNBQKBNR w KQkq - 1 3".to_string(),
        moves: vec![],
    });
    let (replies, _) = engine.handle(Request::Go { infinite: false });
    assert_eq!(replies.len(), 1);
    match &replies[0] {
        Reply::BestMove { best } => assert_eq!(*best, UciMove::Null),
        _ => panic!("expected bestmove"),
    }
}

#[test]
fn quit_other_messages_and_read_errors() {
    let mut engine = EngineState::new();
    let (replies, control) = engine.handle(Request::Quit);
    assert!(replies.is_empty());
    assert_eq!(control, Control::Quit);
    let (replies, _) = engine.handle(Request::Unsupported);
    assert_eq!(text_of(&replies[0]), "unsupported message");
    let (replies, _) = engine.handle(Request::ReadError { message: "bad line".to_string() });
    assert_eq!(text_of(&replies[0]), "bad line");
}

#[test]
fn greeting_and_infinite_info() {
    assert_eq!(text_of(&greeting()), "engine started");
    match infinite_info(7) {
        Reply::Info { depth, pv, string } => {
            assert_eq!(depth, 7);
            assert!(pv.is_none());
            assert_eq!(string.as_deref(), Some("pretend that I'm doing something..."));
        }
        _ => panic!("expected info"),
    }
}

#[test]
fn moves_not_legal_in_the_new_position_fail_the_message() {
    let mut engine = EngineState::new();
    // b1c3 is legal from the start, where it is read, but there is no knight
    // on b1 in the position being built.
    let (replies, _) = engine.handle(Request::Fen {
        fen: "8/8/8/8/8/2k5/8/K7 w - - 0 1".to_string(),
        moves: moves(&["b1c3"]),
    });
    assert_eq!(text_of(&replies[0]), "error converting UCI move to valid move: illegal uci");
    assert_eq!(engine.position().fen(), Position::start().fen());
    let (replies, _) = engine.handle(Request::Go { infinite: false });
    assert_eq!(replies.len(), 2);
}
