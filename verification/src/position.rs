//! Chess positions and moves as plain values.
//!
//! Move generation, making moves and hashing are done by `shakmaty`. A
//! [`Position`] is seen through its FEN text (with an en passant square only
//! where a capture there is legal), which determines everything the position
//! does; a [`ChessMove`] is seen through its [`MoveKind`]. What `shakmaty` computes
//! from a position is named by a function of that text.

use vstd::prelude::*;
use crate::uci::{UciMove, spec_parse_uci};
use shakmaty::Move as SMove;

verus! {

#[verifier::external_type_specification]
#[verifier::external_body]
pub struct ExChess(shakmaty::Chess);

#[verifier::external_type_specification]
#[verifier::external_body]
pub struct ExMove(shakmaty::Move);

/// What a move does: squares `0..64`, piece types `1..=6`.
#[derive(Clone, Copy, PartialEq, Eq, Structural, Debug)]
pub enum MoveKind {
    Normal { role: u8, from: u8, capture: Option<u8>, to: u8, promotion: Option<u8> },
    EnPassant { from: u8, to: u8 },
    Castle { king: u8, rook: u8 },
    Put { role: u8, to: u8 },
}

impl MoveKind {
    /// Squares lie on the board and piece types are known.
    pub open spec fn wf(self) -> bool {
        match self {
            MoveKind::Normal { role, from, capture, to, promotion } => 1 <= role <= 6 && from < 64 && to < 64
                && (capture matches Some(c) ==> 1 <= c <= 6) && (promotion matches Some(p) ==> 1 <= p <= 6),
            MoveKind::EnPassant { from, to } => from < 64 && to < 64,
            MoveKind::Castle { king, rook } => king < 64 && rook < 64,
            MoveKind::Put { role, to } => 1 <= role <= 6 && to < 64,
        }
    }

    /// The type of the piece that moves.
    pub open spec fn role(self) -> u8 {
        match self {
            MoveKind::Normal { role, .. } => role,
            MoveKind::EnPassant { .. } => 1,
            MoveKind::Castle { .. } => 6,
            MoveKind::Put { role, .. } => role,
        }
    }

    /// The square the move goes to; for castling, the rook's square.
    pub open spec fn to(self) -> u8 {
        match self {
            MoveKind::Normal { to, .. } => to,
            MoveKind::EnPassant { to, .. } => to,
            MoveKind::Castle { rook, .. } => rook,
            MoveKind::Put { to, .. } => to,
        }
    }

    /// The type of the captured piece, if any.
    pub open spec fn capture(self) -> Option<u8> {
        match self {
            MoveKind::Normal { capture, .. } => capture,
            MoveKind::EnPassant { .. } => Some(1u8),
            _ => None,
        }
    }

    /// Whether the move castles.
    pub open spec fn is_castle(self) -> bool {
        self is Castle
    }

    /// The move in UCI notation with standard castling (the king moves two
    /// squares).
    pub open spec fn uci(self) -> UciMove {
        match self {
            MoveKind::Normal { from, to, promotion, .. } => UciMove::Normal { from, to, promotion },
            MoveKind::EnPassant { from, to } => UciMove::Normal { from, to, promotion: None },
            MoveKind::Castle { king, rook } => UciMove::Normal {
                from: king,
                to: (if king < rook { 6 + 8 * (king / 8) } else { 2 + 8 * (king / 8) }) as u8,
                promotion: None,
            },
            MoveKind::Put { role, to } => UciMove::Put { role, to },
        }
    }
}

/// The move `k` is what the UCI move `u` names: the same squares, piece and
/// promotion; a castling move is named by the king's square and either the
/// rook's square or the square the king goes to; the null move names no move.
pub open spec fn names_move(k: MoveKind, u: UciMove) -> bool {
    match (k, u) {
        (MoveKind::Normal { from, to, promotion, .. }, UciMove::Normal { from: f, to: t, promotion: p }) =>
            from == f && to == t && promotion == p,
        (MoveKind::EnPassant { from, to }, UciMove::Normal { from: f, to: t, .. }) => from == f && to == t,
        (MoveKind::Castle { king, rook }, UciMove::Normal { from: f, to: t, promotion: p }) =>
            king == f && p is None && (t == rook || u == k.uci()),
        (MoveKind::Put { role, to }, UciMove::Put { role: r, to: t }) => role == r && to == t,
        _ => false,
    }
}

/// The move `k` is what the text `uci` names in UCI notation.
pub open spec fn names_text(k: MoveKind, uci: Seq<char>) -> bool {
    match spec_parse_uci(uci) {
        Some(u) => names_move(k, u),
        None => false,
    }
}

/// Standard castling is written as the king's move of two files toward its
/// rook: from e1, `e1g1` toward the h-rook and `e1c1` toward the a-rook (the
/// same on the eighth rank).
pub proof fn law_castle_uci(k: MoveKind)
    requires
        k is Castle,
        k.wf(),
        k->king % 8 == 4,
        k->rook / 8 == k->king / 8,
        k->rook != k->king,
    ensures
        (k.uci() matches UciMove::Normal { from, to, promotion } && from == k->king && promotion is None && (k->king
            < k->rook ==> to == k->king + 2) && (k->rook < k->king ==> to == k->king - 2)),
{
    assert(k->king == 4 + 8 * (k->king / 8));
}

/// The UCI notation of a well-formed move is well formed.
pub proof fn lemma_uci_wf(k: MoveKind)
    requires
        k.wf(),
    ensures
        k.uci().wf(),
{
}

/// A move of a position, as `shakmaty` made it.
#[derive(Clone, Copy)]
pub struct ChessMove {
    kind: MoveKind,
    raw: shakmaty::Move,
}

impl View for ChessMove {
    type V = MoveKind;

    closed spec fn view(&self) -> MoveKind {
        self.kind
    }
}

impl ChessMove {
    /// What the move does.
    pub fn kind(&self) -> (k: MoveKind)
        ensures
            k == self@,
    {
        self.kind
    }

    /// The type of the piece that moves.
    pub fn role(&self) -> (r: u8)
        ensures
            r == self@.role(),
    {
        match self.kind {
            MoveKind::Normal { role, .. } => role,
            MoveKind::EnPassant { .. } => 1,
            MoveKind::Castle { .. } => 6,
            MoveKind::Put { role, .. } => role,
        }
    }

    /// The square the move goes to; for castling, the rook's square.
    pub fn to(&self) -> (t: u8)
        ensures
            t == self@.to(),
    {
        match self.kind {
            MoveKind::Normal { to, .. } => to,
            MoveKind::EnPassant { to, .. } => to,
            MoveKind::Castle { rook, .. } => rook,
            MoveKind::Put { to, .. } => to,
        }
    }

    /// The type of the captured piece, if any.
    pub fn capture(&self) -> (c: Option<u8>)
        ensures
            c == self@.capture(),
    {
        match self.kind {
            MoveKind::Normal { capture, .. } => capture,
            MoveKind::EnPassant { .. } => Some(1),
            _ => None,
        }
    }

    /// Whether the move castles.
    pub fn is_castle(&self) -> (b: bool)
        ensures
            b == self@.is_castle(),
    {
        match self.kind {
            MoveKind::Castle { .. } => true,
            _ => false,
        }
    }

    /// The move in UCI notation with standard castling (`e1g1` for white's
    /// short castle).
    pub fn to_uci(&self) -> (u: UciMove)
        ensures
            u == self@.uci(),
    {
        match self.kind {
            MoveKind::Normal { from, to, promotion, .. } => UciMove::Normal { from, to, promotion },
            MoveKind::EnPassant { from, to } => UciMove::Normal { from, to, promotion: None },
            MoveKind::Castle { king, rook } => {
                let rank_start = king - king % 8;
                let to = if king < rook { 6 + rank_start } else { 2 + rank_start };
                proof {
                    assert(king % 8 + 8 * (king / 8) == king);
                }
                UciMove::Normal { from: king, to, promotion: None }
            },
            MoveKind::Put { role, to } => UciMove::Put { role, to },
        }
    }
}


/// The pieces on the board, one bit per square (bit `i` is square `i`).
#[derive(Clone, Copy, PartialEq, Eq, Structural, Debug)]
pub struct Board {
    pub pawns: u64,
    pub knights: u64,
    pub bishops: u64,
    pub rooks: u64,
    pub queens: u64,
    pub kings: u64,
    pub white: u64,
    pub black: u64,
    pub occupied: u64,
}

/// What a list of moves does.
pub open spec fn move_views(v: Seq<ChessMove>) -> Seq<MoveKind> {
    v.map_values(|m: ChessMove| m@)
}

/// The FEN text of the starting position.
pub open spec fn start_fen() -> Seq<char> {
    "rnbqkbnr/pppppppp/8/8/8/8/PPPPPPPP/RNBQKBNR w KQkq - 0 1"@
}

/// The legal moves of the position with FEN `fen`, in `shakmaty`'s order.
pub uninterp spec fn spec_legal_moves(fen: Seq<char>) -> Seq<MoveKind>;

/// The legal move that a UCI text names in the position with FEN `fen`.
pub uninterp spec fn spec_to_move(fen: Seq<char>, uci: Seq<char>) -> Option<MoveKind>;

/// The legal move that a SAN text names in the position with FEN `fen`.
pub uninterp spec fn spec_san_move(fen: Seq<char>, san: Seq<char>) -> Option<MoveKind>;

/// The FEN of the position reached by playing `m` from the position `fen`.
pub uninterp spec fn spec_play(fen: Seq<char>, m: MoveKind) -> Seq<char>;

/// The 64-bit Zobrist hash of the position `fen`.
pub uninterp spec fn spec_zobrist(fen: Seq<char>) -> u64;

/// Whether the side to move in the position `fen` is checkmated.
pub uninterp spec fn spec_is_checkmate(fen: Seq<char>) -> bool;

/// The pieces of the position `fen`.
pub uninterp spec fn spec_board(fen: Seq<char>) -> Board;

/// Whether white is to move in the position `fen`.
pub uninterp spec fn spec_white_to_move(fen: Seq<char>) -> bool;

/// The position that a FEN text describes, as the FEN `shakmaty` writes for
/// it, if the text is a valid standard chess position; otherwise the text of
/// the error.
pub uninterp spec fn spec_read_fen(text: Seq<char>) -> Result<Seq<char>, Seq<char>>;

/// The FEN of a position, or the text of an error.
pub open spec fn result_view(p: Result<Position, String>) -> Result<Seq<char>, Seq<char>> {
    match p {
        Ok(q) => Ok(q@),
        Err(e) => Err(e@),
    }
}

/// A standard chess position. Every value is the starting position, a
/// position that `shakmaty` accepted from a FEN, or one reached from those by
/// legal moves, so both kings are on the board.
pub struct Position {
    chess: shakmaty::Chess,
    fen: String,
}

impl View for Position {
    type V = Seq<char>;

    /// The FEN text of the position.
    closed spec fn view(&self) -> Seq<char> {
        self.fen@
    }
}

/// `shakmaty::Chess::default`: the starting position.
#[verifier::external_body]
fn chess_start() -> (p: Position)
    ensures
        p@ == start_fen(),
{
    let chess = shakmaty::Chess::default();
    let fen = shakmaty::fen::Fen::from_position(&chess, shakmaty::EnPassantMode::Legal).to_string();
    Position { chess, fen }
}

/// `shakmaty::fen::Fen::from_ascii` followed by `into_position` in standard
/// castling mode: the position a FEN text describes, or the text of the
/// error.
#[verifier::external_body]
fn chess_from_fen(text: &str) -> (p: Result<Position, String>)
    ensures
        spec_read_fen(text@) == result_view(p),
{
    let fen = shakmaty::fen::Fen::from_ascii(text.as_bytes()).map_err(|e| e.to_string())?;
    let chess: shakmaty::Chess = fen.into_position(shakmaty::CastlingMode::Standard).map_err(|e| e.to_string())?;
    let fen = shakmaty::fen::Fen::from_position(&chess, shakmaty::EnPassantMode::Legal).to_string();
    Ok(Position { chess, fen })
}

/// `shakmaty::Position::legal_moves`: every legal move of the position.
#[verifier::external_body]
fn chess_legal_moves(p: &Position) -> (v: Vec<ChessMove>)
    ensures
        move_views(v@) == spec_legal_moves(p@),
        forall|i: int| 0 <= i < v@.len() ==> (#[trigger] v@[i])@.wf(),
{
    shakmaty::Position::legal_moves(&p.chess).into_iter().map(|m| ChessMove { kind: match m {
        SMove::Normal { role, from, capture, to, promotion } => MoveKind::Normal { role: role as u8, from: from as u8, capture: capture.map(u8::from), to: to as u8, promotion: promotion.map(u8::from) },
        SMove::EnPassant { from, to } => MoveKind::EnPassant { from: from as u8, to: to as u8 },
        SMove::Castle { king, rook } => MoveKind::Castle { king: king as u8, rook: rook as u8 },
        SMove::Put { role, to } => MoveKind::Put { role: role as u8, to: to as u8 },
    }, raw: m }).collect()
}

/// `shakmaty::uci::UciMove::from_ascii` followed by `to_move`: the legal move
/// that a UCI text names in the position, if any. Text that does not read as
/// UCI gives nothing. The source of `to_move` builds the candidate from the
/// parsed squares and promotion (a king move onto its own rook, or two files
/// from its home square, as castling; a pawn's diagonal move to an empty
/// square as en passant; the null move as an error) and returns it only when
/// it passes `is_legal`, so the move is among the legal moves.
#[verifier::external_body]
fn chess_to_move(p: &Position, uci: &str) -> (r: Option<ChessMove>)
    ensures
        r matches Some(m) ==> spec_to_move(p@, uci@) == Some(m@) && spec_legal_moves(p@).contains(m@)
            && m@.wf() && names_text(m@, uci@),
        r is None ==> spec_to_move(p@, uci@) is None,
        spec_parse_uci(uci@) is None ==> r is None,
{
    let m = shakmaty::uci::UciMove::from_ascii(uci.as_bytes()).ok()?.to_move(&p.chess).ok()?;
    Some(ChessMove { kind: match m {
        SMove::Normal { role, from, capture, to, promotion } => MoveKind::Normal { role: role as u8, from: from as u8, capture: capture.map(u8::from), to: to as u8, promotion: promotion.map(u8::from) },
        SMove::EnPassant { from, to } => MoveKind::EnPassant { from: from as u8, to: to as u8 },
        SMove::Castle { king, rook } => MoveKind::Castle { king: king as u8, rook: rook as u8 },
        SMove::Put { role, to } => MoveKind::Put { role: role as u8, to: to as u8 },
    }, raw: m })
}

/// `shakmaty::san::San::from_ascii` followed by `to_move`: the legal move
/// that a SAN text names in the position, if any. The source of `to_move`
/// picks among the legal candidates, so the move is among the legal moves.
#[verifier::external_body]
fn chess_san_to_move(p: &Position, san: &str) -> (r: Option<ChessMove>)
    ensures
        r matches Some(m) ==> spec_san_move(p@, san@) == Some(m@) && spec_legal_moves(p@).contains(m@)
            && m@.wf(),
        r is None ==> spec_san_move(p@, san@) is None,
{
    let m = shakmaty::san::San::from_ascii(san.as_bytes()).ok()?.to_move(&p.chess).ok()?;
    Some(ChessMove { kind: match m {
        SMove::Normal { role, from, capture, to, promotion } => MoveKind::Normal { role: role as u8, from: from as u8, capture: capture.map(u8::from), to: to as u8, promotion: promotion.map(u8::from) },
        SMove::EnPassant { from, to } => MoveKind::EnPassant { from: from as u8, to: to as u8 },
        SMove::Castle { king, rook } => MoveKind::Castle { king: king as u8, rook: rook as u8 },
        SMove::Put { role, to } => MoveKind::Put { role: role as u8, to: to as u8 },
    }, raw: m })
}

/// `shakmaty::Position::play_unchecked` on a copy: the position after a
/// legal move. A legal move keeps both kings on the board, so every later
/// call on the result (legal moves, FEN) finds a valid position.
#[verifier::external_body]
fn chess_play(p: &Position, m: &ChessMove) -> (q: Position)
    requires
        spec_legal_moves(p@).contains(m@),
    ensures
        q@ == spec_play(p@, m@),
{
    let mut chess = p.chess.clone();
    shakmaty::Position::play_unchecked(&mut chess, m.raw);
    let fen = shakmaty::fen::Fen::from_position(&chess, shakmaty::EnPassantMode::Legal).to_string();
    Position { chess, fen }
}

/// `shakmaty::zobrist::ZobristHash::zobrist_hash` with 64 bits, counting an
/// en passant square only where the capture is legal.
#[verifier::external_body]
fn chess_zobrist(p: &Position) -> (h: u64)
    ensures
        h == spec_zobrist(p@),
{
    shakmaty::zobrist::ZobristHash::zobrist_hash::<shakmaty::zobrist::Zobrist64>(&p.chess, shakmaty::EnPassantMode::Legal).0
}

/// `shakmaty::Position::is_checkmate`.
#[verifier::external_body]
fn chess_is_checkmate(p: &Position) -> (b: bool)
    ensures
        b == spec_is_checkmate(p@),
{
    shakmaty::Position::is_checkmate(&p.chess)
}

/// `shakmaty::Position::board`, as one bitboard per piece type and colour.
#[verifier::external_body]
fn chess_board(p: &Position) -> (b: Board)
    ensures
        b == spec_board(p@),
{
    let b = shakmaty::Position::board(&p.chess);
    Board {
        pawns: b.pawns().0, knights: b.knights().0, bishops: b.bishops().0, rooks: b.rooks().0,
        queens: b.queens().0, kings: b.kings().0, white: b.white().0, black: b.black().0,
        occupied: b.occupied().0,
    }
}

/// `shakmaty::Position::turn`: whether white is to move.
#[verifier::external_body]
fn chess_white_to_move(p: &Position) -> (b: bool)
    ensures
        b == spec_white_to_move(p@),
{
    shakmaty::Position::turn(&p.chess).is_white()
}

impl Position {
    /// The starting position.
    pub fn start() -> (p: Position)
        ensures
            p@ == start_fen(),
    {
        chess_start()
    }

    /// The position a FEN text describes, in standard castling mode, or the
    /// text of the error.
    pub fn from_fen(text: &str) -> (p: Result<Position, String>)
        ensures
            spec_read_fen(text@) == result_view(p),
    {
        chess_from_fen(text)
    }

    /// The FEN text of the position.
    pub fn fen(&self) -> (f: String)
        ensures
            f@ == self@,
    {
        self.fen.clone()
    }

    /// Every legal move of the position.
    pub fn legal_moves(&self) -> (v: Vec<ChessMove>)
        ensures
            move_views(v@) == spec_legal_moves(self@),
            forall|i: int| 0 <= i < v@.len() ==> (#[trigger] v@[i])@.wf(),
    {
        chess_legal_moves(self)
    }

    /// The legal move that a UCI text names here, if any.
    pub fn to_move(&self, uci: &str) -> (r: Option<ChessMove>)
        ensures
            r matches Some(m) ==> spec_to_move(self@, uci@) == Some(m@) && spec_legal_moves(self@).contains(m@)
                && m@.wf() && names_text(m@, uci@),
            r is None ==> spec_to_move(self@, uci@) is None,
            spec_parse_uci(uci@) is None ==> r is None,
    {
        chess_to_move(self, uci)
    }

    /// The legal move that a SAN text names here, if any.
    pub fn san_to_move(&self, san: &str) -> (r: Option<ChessMove>)
        ensures
            r matches Some(m) ==> spec_san_move(self@, san@) == Some(m@) && spec_legal_moves(self@).contains(m@)
                && m@.wf(),
            r is None ==> spec_san_move(self@, san@) is None,
    {
        chess_san_to_move(self, san)
    }

    /// The position after a legal move.
    pub fn play(&self, m: &ChessMove) -> (p: Position)
        requires
            spec_legal_moves(self@).contains(m@),
        ensures
            p@ == spec_play(self@, m@),
    {
        chess_play(self, m)
    }

    /// The 64-bit Zobrist hash of the position.
    pub fn zobrist(&self) -> (h: u64)
        ensures
            h == spec_zobrist(self@),
    {
        chess_zobrist(self)
    }

    /// Whether the side to move is checkmated.
    pub fn is_checkmate(&self) -> (b: bool)
        ensures
            b == spec_is_checkmate(self@),
    {
        chess_is_checkmate(self)
    }

    /// The pieces on the board.
    pub fn board(&self) -> (b: Board)
        ensures
            b == spec_board(self@),
    {
        chess_board(self)
    }

    /// Whether white is to move.
    pub fn white_to_move(&self) -> (b: bool)
        ensures
            b == spec_white_to_move(self@),
    {
        chess_white_to_move(self)
    }
}

} // verus!
