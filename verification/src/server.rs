//! The decisions of a minimal UCI engine: what it answers to each message of
//! the GUI. Reading and writing the messages, and waiting, are left to the
//! caller.

use vstd::prelude::*;
use vstd::string::StringExecFns;
use crate::position::{Position, start_fen, spec_legal_moves, spec_play, spec_read_fen, spec_to_move};
use crate::uci::UciMove;

verus! {

/// A message from the GUI.
pub enum Request {
    /// `quit`.
    Quit,
    /// `position startpos moves ...`.
    StartPos { moves: Vec<UciMove> },
    /// `position fen ... moves ...`.
    Fen { fen: String, moves: Vec<UciMove> },
    /// `go`, possibly `go infinite`.
    Go { infinite: bool },
    /// `uci`.
    Uci,
    /// Any other message.
    Unsupported,
    /// A line that could not be read as a message, with the reader's error.
    ReadError { message: String },
}

/// A message to the GUI.
pub enum Reply {
    /// A free-text `info string`.
    Text { text: String },
    /// `info depth ... [pv ...] [string ...]`.
    Info { depth: u32, pv: Option<UciMove>, string: Option<String> },
    /// `bestmove ...`.
    BestMove { best: UciMove },
    /// `id name ...` and `id author ...`.
    Id { name: String, author: String },
    /// `uciok`.
    UciOk,
}

/// What the caller does after sending the replies.
#[derive(Clone, Copy, PartialEq, Eq, Structural, Debug)]
pub enum Control {
    /// Read the next message.
    Continue,
    /// Stop the engine.
    Quit,
    /// Keep sending `infinite_info(depth)` for `depth` from `next_depth` on,
    /// forever.
    Infinite { next_depth: u32 },
}

/// Replaying the moves of a `position` message: each move is read in the
/// engine's current position `current` and played onto the position being
/// built; a move that is not legal in the current position, or not legal in
/// the position being built, fails the message.
pub open spec fn fold_moves(current: Seq<char>, from: Seq<char>, moves: Seq<UciMove>) -> Option<Seq<char>>
    decreases moves.len(),
{
    if moves.len() == 0 {
        Some(from)
    } else {
        match fold_moves(current, from, moves.drop_last()) {
            None => None,
            Some(acc) => match spec_to_move(current, moves.last().text()) {
                None => None,
                Some(k) => if spec_legal_moves(acc).contains(k) {
                    Some(spec_play(acc, k))
                } else {
                    None
                },
            },
        }
    }
}

/// The reply is the free text `t`.
pub open spec fn is_text(r: Reply, t: Seq<char>) -> bool {
    match r {
        Reply::Text { text } => text@ == t,
        _ => false,
    }
}

/// The reply is an `info` at `depth` with the principal variation `pv` and
/// the text `string`.
pub open spec fn is_info(r: Reply, depth: u32, pv: Option<UciMove>, string: Option<Seq<char>>) -> bool {
    match r {
        Reply::Info { depth: d, pv: p, string: s } => d == depth && p == pv && match (s, string) {
            (Some(a), Some(b)) => a@ == b,
            (None, None) => true,
            _ => false,
        },
        _ => false,
    }
}

/// The reply is `bestmove m`.
pub open spec fn is_best(r: Reply, m: UciMove) -> bool {
    match r {
        Reply::BestMove { best } => best == m,
        _ => false,
    }
}

/// The reply names the engine and its author.
pub open spec fn is_id(r: Reply, name: Seq<char>, author: Seq<char>) -> bool {
    match r {
        Reply::Id { name: n, author: a } => n@ == name && a@ == author,
        _ => false,
    }
}

/// The text reply of a `position` message whose moves could not be played.
pub open spec fn move_error_text() -> Seq<char> {
    "error converting UCI move to valid move: illegal uci"@
}

/// The engine's state: the position set by the GUI.
pub struct EngineState {
    position: Position,
}

impl EngineState {
    /// The FEN of the engine's position.
    pub closed spec fn fen(&self) -> Seq<char> {
        self.position@
    }

    /// An engine in the starting position.
    pub fn new() -> (s: EngineState)
        ensures
            s.fen() == start_fen(),
    {
        EngineState { position: Position::start() }
    }

    /// The engine's position.
    pub fn position(&self) -> (p: &Position)
        ensures
            p@ == self.fen(),
    {
        &self.position
    }

    /// Plays the moves of a `position` message from `from`, reading each one
    /// in the current position.
    fn replay(&self, from: Position, moves: &Vec<UciMove>) -> (r: Option<Position>)
        requires
            forall|i: int| 0 <= i < moves@.len() ==> (#[trigger] moves@[i]).wf(),
        ensures
            match r {
                Some(p) => fold_moves(self.fen(), from@, moves@) == Some(p@),
                None => fold_moves(self.fen(), from@, moves@) is None,
            },
    {
        let mut acc = from;
        let ghost start = from@;
        let mut i: usize = 0;
        assert(moves@.take(0) == Seq::<UciMove>::empty());
        while i < moves.len()
            invariant
                0 <= i <= moves@.len(),
                forall|k: int| 0 <= k < moves@.len() ==> (#[trigger] moves@[k]).wf(),
                start == from@,
                fold_moves(self.fen(), start, moves@.take(i as int)) == Some(acc@),
            decreases moves@.len() - i,
        {
            proof {
                assert(moves@.take(i + 1).drop_last() == moves@.take(i as int));
                assert(moves@.take(i + 1).last() == moves@[i as int]);
            }
            let text = moves[i].to_uci_string();
            let m = match self.position.to_move(text.as_str()) {
                Some(m) => m,
                None => {
                    proof {
                        assert(text@ == moves@[i as int].text());
                        assert(fold_moves(self.fen(), start, moves@.take(i + 1)) is None);
                        lemma_fold_none(self.fen(), start, moves@, i as int + 1);
                    }
                    return None;
                },
            };
            let playable = contains_move(&acc.legal_moves(), &m);
            if !playable {
                proof {
                    assert(text@ == moves@[i as int].text());
                    assert(fold_moves(self.fen(), start, moves@.take(i + 1)) is None);
                    lemma_fold_none(self.fen(), start, moves@, i as int + 1);
                }
                return None;
            }
            acc = acc.play(&m);
            i += 1;
        }
        assert(moves@.take(moves@.len() as int) == moves@);
        Some(acc)
    }

    /// Handles one message of the GUI: the replies to send, in order, and
    /// what to do next.
    pub fn handle(&mut self, request: Request) -> (r: (Vec<Reply>, Control))
        requires
            request matches Request::StartPos { moves } ==> forall|i: int|
                0 <= i < moves@.len() ==> (#[trigger] moves@[i]).wf(),
            request matches Request::Fen { moves, .. } ==> forall|i: int|
                0 <= i < moves@.len() ==> (#[trigger] moves@[i]).wf(),
        ensures
            match request {
                Request::Quit => r.0@.len() == 0 && r.1 == Control::Quit && final(self).fen() == old(self).fen(),
                Request::StartPos { moves } => r.1 == Control::Continue && r.0@.len() == 1 && match fold_moves(
                    old(self).fen(),
                    start_fen(),
                    moves@,
                ) {
                    Some(p) => final(self).fen() == p && is_text(r.0@[0], "position set"@),
                    None => final(self).fen() == old(self).fen() && is_text(r.0@[0], move_error_text()),
                },
                Request::Fen { fen, moves } => r.1 == Control::Continue && r.0@.len() == 1 && match spec_read_fen(
                    fen@,
                ) {
                    Err(e) => final(self).fen() == old(self).fen() && is_text(r.0@[0], "error parsing FEN: "@ + e),
                    Ok(from) => match fold_moves(old(self).fen(), from, moves@) {
                        Some(p) => final(self).fen() == p && is_text(r.0@[0], "position set"@),
                        None => final(self).fen() == old(self).fen() && is_text(r.0@[0], move_error_text()),
                    },
                },
                Request::Go { infinite } => final(self).fen() == old(self).fen() && r.1 == (if infinite {
                    Control::Infinite { next_depth: 2 }
                } else {
                    Control::Continue
                }) && if spec_legal_moves(old(self).fen()).len() > 0 {
                    let best = spec_legal_moves(old(self).fen())[0].uci();
                    r.0@.len() == 2 && is_info(r.0@[0], 1, Some(best), None) && is_best(r.0@[1], best)
                } else {
                    r.0@.len() == 1 && is_best(r.0@[0], UciMove::Null)
                },
                Request::Uci => final(self).fen() == old(self).fen() && r.1 == Control::Continue && r.0@.len() == 2
                    && is_id(r.0@[0], "simpleton"@, "tigerros"@) && r.0@[1] is UciOk,
                Request::Unsupported => final(self).fen() == old(self).fen() && r.1 == Control::Continue
                    && r.0@.len() == 1 && is_text(r.0@[0], "unsupported message"@),
                Request::ReadError { message } => final(self).fen() == old(self).fen() && r.1 == Control::Continue
                    && r.0@.len() == 1 && is_text(r.0@[0], message@),
            },
    {
        let mut replies: Vec<Reply> = Vec::new();
        match request {
            Request::Quit => (replies, Control::Quit),
            Request::StartPos { moves } => {
                let from = Position::start();
                match self.replay(from, &moves) {
                    Some(p) => {
                        self.position = p;
                        replies.push(Reply::Text { text: String::from_str("position set") });
                    },
                    None => {
                        replies.push(Reply::Text { text: String::from_str("error converting UCI move to valid move: illegal uci") });
                    },
                }
                (replies, Control::Continue)
            },
            Request::Fen { fen, moves } => {
                match Position::from_fen(fen.as_str()) {
                    Err(e) => {
                        let mut text = String::from_str("error parsing FEN: ");
                        text.append(e.as_str());
                        replies.push(Reply::Text { text });
                    },
                    Ok(from) => match self.replay(from, &moves) {
                        Some(p) => {
                            self.position = p;
                            replies.push(Reply::Text { text: String::from_str("position set") });
                        },
                        None => {
                            replies.push(Reply::Text { text: String::from_str("error converting UCI move to valid move: illegal uci") });
                        },
                    },
                }
                (replies, Control::Continue)
            },
            Request::Go { infinite } => {
                let legals = self.position.legal_moves();
                if legals.len() > 0 {
                    let best = legals[0].to_uci();
                    proof {
                        assert(crate::position::move_views(legals@)[0] == legals@[0]@);
                    }
                    replies.push(Reply::Info { depth: 1, pv: Some(best), string: None });
                    replies.push(Reply::BestMove { best });
                } else {
                    replies.push(Reply::BestMove { best: UciMove::Null });
                }
                let depth: u32 = 2;
                if infinite {
                    (replies, Control::Infinite { next_depth: depth })
                } else {
                    (replies, Control::Continue)
                }
            },
            Request::Uci => {
                replies.push(Reply::Id { name: String::from_str("simpleton"), author: String::from_str("tigerros") });
                replies.push(Reply::UciOk);
                (replies, Control::Continue)
            },
            Request::Unsupported => {
                replies.push(Reply::Text { text: String::from_str("unsupported message") });
                (replies, Control::Continue)
            },
            Request::ReadError { message } => {
                replies.push(Reply::Text { text: message });
                (replies, Control::Continue)
            },
        }
    }
}

/// The first message of the engine.
pub fn greeting() -> (r: Reply)
    ensures
        is_text(r, "engine started"@),
{
    Reply::Text { text: String::from_str("engine started") }
}

/// What the engine sends at each step of an infinite search.
pub fn infinite_info(depth: u32) -> (r: Reply)
    ensures
        is_info(r, depth, None, Some("pretend that I'm doing something..."@)),
{
    Reply::Info { depth, pv: None, string: Some(String::from_str("pretend that I'm doing something...")) }
}

/// Once a move fails, the whole list fails.
proof fn lemma_fold_none(current: Seq<char>, from: Seq<char>, moves: Seq<UciMove>, i: int)
    requires
        0 <= i <= moves.len(),
        fold_moves(current, from, moves.take(i)) is None,
    ensures
        fold_moves(current, from, moves) is None,
    decreases moves.len() - i,
{
    if i < moves.len() {
        assert(moves.take(i + 1).drop_last() == moves.take(i));
        lemma_fold_none(current, from, moves, i + 1);
    } else {
        assert(moves.take(i) == moves);
    }
}

/// Whether the list holds a move that does the same as `m`.
fn contains_move(moves: &Vec<crate::position::ChessMove>, m: &crate::position::ChessMove) -> (r: bool)
    ensures
        r == crate::position::move_views(moves@).contains(m@),
{
    let ghost vs = crate::position::move_views(moves@);
    for i in 0..moves.len()
        invariant
            vs == crate::position::move_views(moves@),
            forall|k: int| 0 <= k < i ==> vs[k] != m@,
    {
        if moves[i].kind() == m.kind() {
            assert(vs[i as int] == m@);
            return true;
        }
    }
    false
}

} // verus!
