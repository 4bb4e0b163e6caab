//! The decisions of the tree search that do not depend on scores: when a
//! node is final, and which moves are searched first.

use vstd::prelude::*;
use crate::uci::{BISHOP, KNIGHT, QUEEN, ROOK};
use crate::position::{
    ChessMove, MoveKind, Position, move_views, spec_is_checkmate, spec_legal_moves, spec_white_to_move,
};

verus! {

/// The move captures a knight, bishop, rook or queen.
pub open spec fn spec_major_capture(m: MoveKind) -> bool {
    m.capture() matches Some(c) && 2 <= c <= 5
}

/// Does this move capture a major piece (knight, bishop, rook, or queen)?
///
/// Capturing one of these extends the tree search beyond `min_depth`.
pub fn is_major_capture(m: &ChessMove) -> (b: bool)
    ensures
        b == spec_major_capture(m@),
{
    match m.capture() {
        Some(c) => 2 <= c && c <= 5,
        None => false,
    }
}

/// A major capture takes a knight, a bishop, a rook or a queen, and nothing
/// else counts: not a pawn, not a king, not a quiet move.
pub proof fn law_major_capture(m: MoveKind)
    ensures
        spec_major_capture(m) <==> (m.capture() == Some(KNIGHT) || m.capture() == Some(BISHOP)
            || m.capture() == Some(ROOK) || m.capture() == Some(QUEEN)),
{
}

/// Some move of the list captures a major piece.
pub open spec fn any_major(moves: Seq<MoveKind>) -> bool {
    exists|i: int| 0 <= i < moves.len() && spec_major_capture(moves[i])
}

/// What the search does at a node.
#[derive(Clone, Copy, PartialEq, Eq, Structural, Debug)]
pub enum NodeKind {
    /// The side to move is checkmated; `delivered` when that side is not the
    /// maximizing one.
    Checkmate { delivered: bool },
    /// No legal move and no checkmate: a drawn end.
    Drawn,
    /// The search stops here and evaluates the position.
    Leaf,
    /// The search goes on into the node's moves.
    Expand,
}

/// What the search does at a node at `depth`: a checkmate or a position
/// without legal moves ends it; past `max_depth`, or past `min_depth` with no
/// major-piece capture available, it evaluates the position; otherwise it
/// searches on.
pub open spec fn spec_node_kind(
    fen: Seq<char>,
    maximizing_white: bool,
    depth: u32,
    min_depth: u32,
    max_depth: u32,
) -> NodeKind {
    if spec_is_checkmate(fen) {
        NodeKind::Checkmate { delivered: spec_white_to_move(fen) != maximizing_white }
    } else if spec_legal_moves(fen).len() == 0 {
        NodeKind::Drawn
    } else if depth >= max_depth || (depth >= min_depth && !any_major(spec_legal_moves(fen))) {
        NodeKind::Leaf
    } else {
        NodeKind::Expand
    }
}

/// Every branch that has not ended searches on until `min_depth`, and no
/// branch searches past `max_depth`.
pub proof fn law_search_depth(fen: Seq<char>, maximizing_white: bool, depth: u32, min_depth: u32, max_depth: u32)
    requires
        !spec_is_checkmate(fen),
        spec_legal_moves(fen).len() > 0,
    ensures
        depth < min_depth && depth < max_depth ==> spec_node_kind(fen, maximizing_white, depth, min_depth, max_depth)
            == NodeKind::Expand,
        depth >= max_depth ==> spec_node_kind(fen, maximizing_white, depth, min_depth, max_depth) == NodeKind::Leaf,
{
}

/// Classifies a search node and hands back its legal moves (none when the
/// side to move is checkmated).
pub fn classify_node(
    pos: &Position,
    maximizing_white: bool,
    depth: u32,
    min_depth: u32,
    max_depth: u32,
) -> (r: (NodeKind, Vec<ChessMove>))
    ensures
        r.0 == spec_node_kind(pos@, maximizing_white, depth, min_depth, max_depth),
        !spec_is_checkmate(pos@) ==> move_views(r.1@) == spec_legal_moves(pos@),
        forall|i: int| 0 <= i < r.1@.len() ==> spec_legal_moves(pos@).contains((#[trigger] r.1@[i])@),
{
    if pos.is_checkmate() {
        let delivered = pos.white_to_move() != maximizing_white;
        return (NodeKind::Checkmate { delivered }, Vec::new());
    }
    let legals = pos.legal_moves();
    proof {
        assert forall|i: int| 0 <= i < legals@.len() implies spec_legal_moves(pos@).contains((#[trigger] legals@[i])@) by {
            assert(move_views(legals@)[i] == legals@[i]@);
        }
    }
    if legals.len() == 0 {
        return (NodeKind::Drawn, legals);
    }
    let mut has_major_capture = false;
    for i in 0..legals.len()
        invariant
            move_views(legals@) == spec_legal_moves(pos@),
            has_major_capture == exists|k: int| 0 <= k < i && spec_major_capture(#[trigger] legals@[k]@),
    {
        if is_major_capture(&legals[i]) {
            has_major_capture = true;
        }
    }
    proof {
        let ms = spec_legal_moves(pos@);
        if has_major_capture {
            let k = choose|k: int| 0 <= k < legals@.len() && spec_major_capture(#[trigger] legals@[k]@);
            assert(ms[k] == legals@[k]@);
        }
        if any_major(ms) {
            let k = choose|k: int| 0 <= k < ms.len() && spec_major_capture(ms[k]);
            assert(ms[k] == legals@[k]@);
        }
    }
    let reached_min = depth >= min_depth;
    let reached_max = depth >= max_depth;
    if reached_max || (reached_min && !has_major_capture) {
        (NodeKind::Leaf, legals)
    } else {
        (NodeKind::Expand, legals)
    }
}

/// The major-piece captures among `moves`, in order, at most `max` of them.
pub open spec fn first_captures(moves: Seq<MoveKind>, max: nat) -> Seq<MoveKind>
    decreases moves.len(),
{
    if moves.len() == 0 {
        Seq::empty()
    } else {
        let init = first_captures(moves.drop_last(), max);
        if spec_major_capture(moves.last()) && init.len() < max {
            init.push(moves.last())
        } else {
            init
        }
    }
}

/// The first part of picking the moves to search at one tree node:
/// major-piece captures are taken first, in order, up to
/// `max_moves_to_consider_in_tree`.
pub fn major_captures_first(legals: &[ChessMove], max_captures: u32) -> (chosen: Vec<ChessMove>)
    ensures
        move_views(chosen@) == first_captures(move_views(legals@), max_captures as nat),
        forall|i: int| 0 <= i < chosen@.len() ==> exists|j: int| 0 <= j < legals@.len() && #[trigger] chosen@[i]@ == legals@[j]@,
{
    let mut chosen: Vec<ChessMove> = Vec::new();
    let ghost all = move_views(legals@);
    for i in 0..legals.len()
        invariant
            all == move_views(legals@),
            move_views(chosen@) == first_captures(all.take(i as int), max_captures as nat),
            chosen@.len() <= max_captures,
            forall|k: int| 0 <= k < chosen@.len() ==> exists|j: int| 0 <= j < legals@.len() && #[trigger] chosen@[k]@ == legals@[j]@,
    {
        proof {
            assert(all.take(i + 1).drop_last() == all.take(i as int));
            assert(all.take(i + 1).last() == legals@[i as int]@);
        }
        if is_major_capture(&legals[i]) && (chosen.len() as u64) < (max_captures as u64) {
            chosen.push(legals[i]);
            proof {
                assert(move_views(chosen@) == first_captures(all.take(i as int), max_captures as nat).push(legals@[i as int]@));
            }
        }
    }
    assert(all.take(legals@.len() as int) == all);
    chosen
}

} // verus!
