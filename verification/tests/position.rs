use chess_engine::position::{MoveKind, Position};
use chess_engine::uci::{KING, KNIGHT, PAWN};

const START: &str = "rnbqkbnr/pppppppp/8/8/8/8/PPPPPPPP/RNBQKBNR w KQkq - 0 1";

#[test]
fn start_position_has_twenty_moves() {
    let start = Position::start();
    assert_eq!(start.fen(), START);
    assert_eq!(start.legal_moves().len(), 20);
    assert!(start.white_to_move());
    assert!(!start.is_checkmate());
}

#[test]
fn fen_round_trips_and_bad_fen_is_an_error() {
    let p = Position::from_fen("4k3/8/8/8/8/8/8/4K3 w - - 0 1").unwrap();
    assert_eq!(p.fen(), "4k3/8/8/8/8/8/8/4K3 w - - 0 1");
    assert!(Position::from_fen("not a fen").is_err());
    assert!(Position::from_fen("8/8/8/8/8/8/8/8 w - - 0 1").is_err());
}

#[test]
fn moves_are_read_in_the_position() {
    let start = Position::start();
    let m = start.to_move("e2e4").unwrap();
    assert_eq!(m.role(), PAWN);
    assert_eq!(m.to(), 28);
    assert_eq!(m.capture(), None);
    assert!(!m.is_castle());
    assert!(start.to_move("e2e5").is_none());
    assert!(start.to_move("junk").is_none());
    let n = start.san_to_move("Nf3").unwrap();
    assert_eq!(n.role(), KNIGHT);
    assert_eq!(n.to_uci().to_uci_string(), "g1f3");
    assert!(start.san_to_move("Nf4").is_none());
}

#[test]
fn playing_a_move_gives_the_next_position() {
    let start = Position::start();
    let after = start.play(&start.to_move("e2e4").unwrap());
    assert_eq!(after.fen(), "rnbqkbnr/pppppppp/8/8/4P3/8/PPPP1PPP/RNBQKBNR b KQkq - 0 1");
    assert!(!after.white_to_move());
    assert_ne!(after.zobrist(), start.zobrist());
    assert_eq!(start.fen(), START);
}

#[test]
fn castling_is_read_as_king_takes_rook_and_written_as_king_move() {
    let p = Position::from_fen("r3k2r/8/8/8/8/8/8/R3K2R w KQkq - 0 1").unwrap();
    let m = p.to_move("e1g1").unwrap();
    assert!(m.is_castle());
    assert_eq!(m.role(), KING);
    assert_eq!(m.kind(), MoveKind::Castle { king: 4, rook: 7 });
    assert_eq!(m.to_uci().to_uci_string(), "e1g1");
    assert_eq!(p.play(&m).fen(), "r3k2r/8/8/8/8/8/8/R4RK1 b kq - 1 1");
}

#[test]
fn board_has_one_bit_per_piece() {
    let b = Position::start().board();
    assert_eq!(b.occupied.count_ones(), 32);
    assert_eq!(b.white, 0xffff);
    assert_eq!(b.pawns & b.white, 0xff00);
    assert_eq!(b.kings & b.black, 1u64 << 60);
}

#[test]
fn uci_text_names_the_move_it_reads_to() {
    let p = Position::from_fen("r3k2r/8/8/8/8/8/8/R3K2R w KQkq - 0 1").unwrap();
    // The king onto its own rook is castling too.
    assert_eq!(p.to_move("e1h1").unwrap().kind(), MoveKind::Castle { king: 4, rook: 7 });
    assert_eq!(p.to_move("e1c1").unwrap().kind(), MoveKind::Castle { king: 4, rook: 0 });
    let q = Position::from_fen("4k3/8/8/3pP3/8/8/8/4K3 w - d6 0 1").unwrap();
    assert_eq!(q.to_move("e5d6").unwrap().kind(), MoveKind::EnPassant { from: 36, to: 43 });
    assert!(p.to_move("0000").is_none());
    assert!(p.to_move("a1a9").is_none());
}
