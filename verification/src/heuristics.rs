//! Personality heuristics for the bot, as exact counts on the board.
//!
//! Every feature looks only at the position before the move, the move
//! itself, and the resulting position. Scores that the bot rewards with one
//! and a half points are counted here in half points; the tunable weights
//! that multiply these features are applied by the caller.

use vstd::prelude::*;
use std::collections::HashSet;
use crate::position::{Board, ChessMove, Position, spec_board, spec_white_to_move, spec_zobrist};
use crate::uci::{BISHOP, KING, KNIGHT, QUEEN, ROOK};

verus! {

broadcast use vstd::std_specs::hash::group_hash_axioms;

/// Whether square `sq` is set in the bitboard `bb`.
pub open spec fn has(bb: u64, sq: int) -> bool {
    (bb >> (sq as u64)) & 1u64 == 1u64
}

/// The file of a square, `0` for the a-file.
pub open spec fn file(s: int) -> int {
    s % 8
}

/// The rank of a square, `0` for the first rank.
pub open spec fn rank(s: int) -> int {
    s / 8
}

/// The distance between two numbers.
pub open spec fn dist(a: int, b: int) -> int {
    if a < b { b - a } else { a - b }
}

/// A knight on `s` attacks `t`.
pub open spec fn knight_reach(s: int, t: int) -> bool {
    (dist(file(s), file(t)) == 1 && dist(rank(s), rank(t)) == 2) || (dist(file(s), file(t)) == 2
        && dist(rank(s), rank(t)) == 1)
}

/// A rook on `s` attacks `t` when the squares `occ` are occupied: `t` is
/// another square on the same rank or file, and no square strictly between
/// them on that line is occupied.
pub open spec fn rook_reach(s: int, t: int, occ: u64) -> bool {
    &&& t != s
    &&& rank(s) == rank(t) || file(s) == file(t)
    &&& forall|u: int|
        0 <= u < 64 && (if s < t { s < u < t } else { t < u < s }) && ((rank(u) == rank(s) && rank(s)
            == rank(t)) || (file(u) == file(s) && file(s) == file(t))) ==> !#[trigger] has(occ, u)
}

/// `shakmaty::attacks::knight_attacks`: the squares a knight on `sq` attacks.
#[verifier::external_body]
fn knight_attacks(sq: u64) -> (bb: u64)
    requires
        sq < 64,
    ensures
        forall|t: int| 0 <= t < 64 ==> (has(bb, t) <==> knight_reach(sq as int, t)),
{
    shakmaty::attacks::knight_attacks(shakmaty::Square::new(sq as u32)).0
}

/// `shakmaty::attacks::rook_attacks`: the squares a rook on `sq` attacks
/// when the squares `occupied` are occupied.
#[verifier::external_body]
fn rook_attacks(sq: u64, occupied: u64) -> (bb: u64)
    requires
        sq < 64,
    ensures
        forall|t: int| 0 <= t < 64 ==> (has(bb, t) <==> rook_reach(sq as int, t, occupied)),
{
    shakmaty::attacks::rook_attacks(shakmaty::Square::new(sq as u32), shakmaty::Bitboard(occupied)).0
}

/// Whether square `sq` is set in `bb`.
fn bit(bb: u64, sq: u64) -> (b: bool)
    requires
        sq < 64,
    ensures
        b == has(bb, sq as int),
{
    (bb >> sq) & 1 == 1
}

/// The pieces of one colour.
pub open spec fn side(b: Board, white: bool) -> u64 {
    if white { b.white } else { b.black }
}

/// How many of the squares below `n` are set in both `a` and `c`.
pub open spec fn count_both(a: u64, c: u64, n: int) -> nat
    decreases n,
{
    if n <= 0 {
        0
    } else {
        count_both(a, c, n - 1) + if has(a, n - 1) && has(c, n - 1) {
            1nat
        } else {
            0nat
        }
    }
}

/// How many squares are set in both `a` and `c`.
fn count_common(a: u64, c: u64) -> (n: u32)
    ensures
        n == count_both(a, c, 64),
{
    let mut n: u32 = 0;
    for s in 0..64u64
        invariant
            n == count_both(a, c, s as int),
            n <= s,
    {
        if bit(a, s) && bit(c, s) {
            n += 1;
        }
    }
    n
}

/// The square of the king of one colour, if it has exactly one king.
pub open spec fn king_square(b: Board, white: bool) -> Option<int> {
    if count_both(b.kings, side(b, white), 64) == 1 {
        Some(lowest(b.kings, side(b, white), 64))
    } else {
        None
    }
}

/// The lowest square below `n` set in both `a` and `c`, or `n`.
pub open spec fn lowest(a: u64, c: u64, n: int) -> int
    decreases n,
{
    if n <= 0 {
        0
    } else if lowest(a, c, n - 1) < n - 1 {
        lowest(a, c, n - 1)
    } else if has(a, n - 1) && has(c, n - 1) {
        n - 1
    } else {
        n
    }
}

fn king_of(b: &Board, white: bool) -> (r: Option<u64>)
    ensures
        match r {
            Some(k) => k < 64 && king_square(*b, white) == Some(k as int),
            None => king_square(*b, white) is None,
        },
{
    let col = if white { b.white } else { b.black };
    if count_common(b.kings, col) != 1 {
        return None;
    }
    let mut s: u64 = 0;
    while s < 64 && !(bit(b.kings, s) && bit(col, s))
        invariant
            0 <= s <= 64,
            col == side(*b, white),
            lowest(b.kings, col, s as int) == s,
        decreases 64 - s,
    {
        s += 1;
    }
    proof {
        lemma_lowest_rest(b.kings, col, s as int, 64);
        if s == 64 {
            lemma_count_none(b.kings, col, 64);
        }
    }
    Some(s)
}

proof fn lemma_lowest_rest(a: u64, c: u64, s: int, n: int)
    requires
        0 <= s <= n,
        lowest(a, c, s) == s,
        s < n ==> has(a, s) && has(c, s),
    ensures
        lowest(a, c, n) == s,
    decreases n - s,
{
    if s < n {
        if s + 1 < n {
            assert(lowest(a, c, s + 1) == s);
            lemma_lowest_below(a, c, s + 1, n);
        } else {
            assert(lowest(a, c, s + 1) == s);
        }
    }
}

proof fn lemma_lowest_below(a: u64, c: u64, m: int, n: int)
    requires
        0 <= m <= n,
        lowest(a, c, m) < m,
    ensures
        lowest(a, c, n) == lowest(a, c, m),
    decreases n - m,
{
    if m < n {
        lemma_lowest_below(a, c, m + 1, n);
    }
}

proof fn lemma_count_none(a: u64, c: u64, n: int)
    requires
        0 <= n,
        lowest(a, c, n) == n,
    ensures
        count_both(a, c, n) == 0,
    decreases n,
{
    if n > 0 {
        if lowest(a, c, n - 1) < n - 1 {
            lemma_lowest_below(a, c, n - 1, n);
        }
        lemma_count_none(a, c, n - 1);
    }
}

/// Half points of the ladder-mate pattern for one rook square.
pub open spec fn ladder_points(b: Board, white: bool, king: int, s: int) -> nat {
    if has(b.rooks, s) && has(side(b, white), s) {
        (if rank(s) == 6 || rank(s) == 7 { 2nat } else { 0nat }) + if rook_reach(s, king, b.occupied) {
            3nat
        } else {
            0nat
        }
    } else {
        0
    }
}

/// Half points of the ladder-mate pattern over the squares below `n`.
pub open spec fn ladder_below(b: Board, white: bool, king: int, n: int) -> nat
    decreases n,
{
    if n <= 0 {
        0
    } else {
        ladder_below(b, white, king, n - 1) + ladder_points(b, white, king, n - 1)
    }
}

/// The ladder-mate score of a board for the side `white`, in half points.
pub open spec fn spec_ladder_mate(b: Board, white: bool) -> nat {
    match king_square(b, !white) {
        Some(k) => ladder_below(b, white, k, 64),
        None => 0,
    }
}

/// Reward rooks on the 7th/8th rank or cutting off the enemy king, in half
/// points: two for each rook of `side_white`'s colour on the seventh or
/// eighth rank, three for each one that attacks the enemy king; nothing
/// without a single enemy king.
pub fn score_ladder_mate(after: &Position, side_white: bool) -> (score: u32)
    ensures
        score == spec_ladder_mate(spec_board(after@), side_white),
{
    let b = after.board();
    let our = if side_white { b.white } else { b.black };
    let enemy_king = match king_of(&b, !side_white) {
        Some(sq) => sq,
        None => {
            return 0;
        },
    };
    let mut score: u32 = 0;
    for s in 0..64u64
        invariant
            b == spec_board(after@),
            our == side(b, side_white),
            king_square(b, !side_white) == Some(enemy_king as int),
            enemy_king < 64,
            score == ladder_below(b, side_white, enemy_king as int, s as int),
            score <= 5 * s,
    {
        if bit(b.rooks, s) && bit(our, s) {
            if s / 8 == 6 || s / 8 == 7 {
                score += 2;
            }
            let att = rook_attacks(s, b.occupied);
            if bit(att, enemy_king) {
                score += 3;
            }
        }
    }
    score
}

/// Whether the side that moved gave up a knight and took a bishop.
pub open spec fn spec_knight_bishop_trade(before: Board, after: Board, white: bool) -> bool {
    count_both(before.knights, side(before, white), 64) - count_both(after.knights, side(after, white), 64) > 0
        && count_both(before.bishops, side(before, !white), 64) - count_both(after.bishops, side(after, !white), 64) > 0
}

/// The trade is flagged exactly when the side that moved has fewer knights
/// after the move and the other side has fewer bishops; either loss alone
/// does not count.
pub proof fn law_knight_bishop_trade(before: Board, after: Board, white: bool)
    ensures
        spec_knight_bishop_trade(before, after, white) <==> (count_both(after.knights, side(after, white), 64)
            < count_both(before.knights, side(before, white), 64) && count_both(after.bishops, side(after, !white), 64)
            < count_both(before.bishops, side(before, !white), 64)),
{
}

/// Reward giving up a knight to win a bishop on the same move: whether the
/// side to move before lost a knight and the other side lost a bishop.
pub fn score_knight_bishop_trade(before: &Position, after: &Position) -> (traded: bool)
    requires
        count_both(spec_board(after@).knights, side(spec_board(after@), spec_white_to_move(before@)), 64)
            <= count_both(spec_board(before@).knights, side(spec_board(before@), spec_white_to_move(before@)), 64),
        count_both(spec_board(after@).bishops, side(spec_board(after@), !spec_white_to_move(before@)), 64)
            <= count_both(spec_board(before@).bishops, side(spec_board(before@), !spec_white_to_move(before@)), 64),
    ensures
        traded == spec_knight_bishop_trade(spec_board(before@), spec_board(after@), spec_white_to_move(before@)),
{
    let white = before.white_to_move();
    let b = before.board();
    let a = after.board();
    let (us_b, us_a, them_b, them_a) = if white {
        (b.white, a.white, b.black, a.black)
    } else {
        (b.black, a.black, b.white, a.white)
    };
    let our_knights_lost = count_common(b.knights, us_b) - count_common(a.knights, us_a);
    let their_bishops_lost = count_common(b.bishops, them_b) - count_common(a.bishops, them_a);
    our_knights_lost > 0 && their_bishops_lost > 0
}

/// The knight-for-bishop reward where it is defined: `None` when the side to
/// move has more knights after the move than before (a pawn promoted to a
/// knight) or the other side has more bishops, where counting the losses
/// would go below zero.
pub fn try_score_knight_bishop_trade(before: &Position, after: &Position) -> (r: Option<bool>)
    ensures
        ({
            let white = spec_white_to_move(before@);
            let (b, a) = (spec_board(before@), spec_board(after@));
            if count_both(a.knights, side(a, white), 64) <= count_both(b.knights, side(b, white), 64)
                && count_both(a.bishops, side(a, !white), 64) <= count_both(b.bishops, side(b, !white), 64) {
                r == Some(spec_knight_bishop_trade(b, a, white))
            } else {
                r is None
            }
        }),
{
    let white = before.white_to_move();
    let b = before.board();
    let a = after.board();
    let (us_b, us_a, them_b, them_a) = if white {
        (b.white, a.white, b.black, a.black)
    } else {
        (b.black, a.black, b.white, a.white)
    };
    if count_common(a.knights, us_a) <= count_common(b.knights, us_b)
        && count_common(a.bishops, them_a) <= count_common(b.bishops, them_b) {
        Some(score_knight_bishop_trade(before, after))
    } else {
        None
    }
}

/// Whether some square is set in both `a` and `c`.
pub open spec fn meets(a: u64, c: u64) -> bool {
    exists|t: int| 0 <= t < 64 && has(a, t) && has(c, t)
}

fn intersects(a: u64, c: u64) -> (r: bool)
    ensures
        r == meets(a, c),
{
    for t in 0..64u64
        invariant
            forall|u: int| 0 <= u < t ==> !(has(a, u) && has(c, u)),
    {
        if bit(a, t) && bit(c, t) {
            return true;
        }
    }
    false
}

/// A knight of `ours` on `s` attacks a piece of `targets`.
pub open spec fn knight_eyes(ours: u64, targets: u64, s: int) -> bool {
    has(ours, s) && exists|t: int| 0 <= t < 64 && knight_reach(s, t) && has(targets, t)
}

/// How many knights of `ours` below `n` attack a piece of `targets`.
pub open spec fn eyeing_below(ours: u64, targets: u64, n: int) -> nat
    decreases n,
{
    if n <= 0 {
        0
    } else {
        eyeing_below(ours, targets, n - 1) + if knight_eyes(ours, targets, n - 1) {
            1nat
        } else {
            0nat
        }
    }
}

/// The knights of the side that just moved, and the opponent's bishops.
pub open spec fn spec_knight_eyeing_bishop(b: Board, white_to_move: bool) -> nat {
    eyeing_below(b.knights & side(b, !white_to_move), b.bishops & side(b, white_to_move), 64)
}

/// The score looks only at the knights of the side that just moved and the
/// bishops of the side to move: two boards that agree on those give the same
/// score, whatever else (the mover's own bishops among it) differs.
pub proof fn law_eyeing_reads_only_enemy_bishops(b1: Board, b2: Board, white_to_move: bool)
    requires
        b1.knights & side(b1, !white_to_move) == b2.knights & side(b2, !white_to_move),
        b1.bishops & side(b1, white_to_move) == b2.bishops & side(b2, white_to_move),
    ensures
        spec_knight_eyeing_bishop(b1, white_to_move) == spec_knight_eyeing_bishop(b2, white_to_move),
{
}

/// Reward one of our knights attacking an enemy bishop in the resulting
/// position: the number of knights of the side that just moved that attack a
/// bishop of the side to move.
pub fn score_knight_eyeing_bishop(after: &Position) -> (score: u32)
    ensures
        score == spec_knight_eyeing_bishop(spec_board(after@), spec_white_to_move(after@)),
{
    let white_to_move = after.white_to_move();
    let b = after.board();
    let (ours, theirs) = if white_to_move { (b.black, b.white) } else { (b.white, b.black) };
    let our_knights = b.knights & ours;
    let their_bishops = b.bishops & theirs;
    let mut score: u32 = 0;
    for s in 0..64u64
        invariant
            score == eyeing_below(our_knights, their_bishops, s as int),
            score <= s,
    {
        if bit(our_knights, s) {
            let att = knight_attacks(s);
            if intersects(att, their_bishops) {
                score += 1;
            }
        }
    }
    score
}

/// The high-value pieces of the opponent that a knight landing on `dest`
/// attacks.
pub open spec fn fork_targets(b: Board, white: bool, dest: int, n: int) -> nat
    decreases n,
{
    if n <= 0 {
        0
    } else {
        fork_targets(b, white, dest, n - 1) + if knight_reach(dest, n - 1) && has(side(b, !white), n - 1) && (
        has(b.queens, n - 1) || has(b.rooks, n - 1) || has(b.kings, n - 1)) {
            1nat
        } else {
            0nat
        }
    }
}

/// The fork score in half points for a number of attacked high-value pieces.
pub open spec fn fork_points(n: nat) -> nat {
    if n == 2 { 2 } else if n >= 3 { 3 } else { 0 }
}

/// Reward a knight move that lands on a square forking high-value pieces, in
/// half points: two for a fork of two queens, rooks or kings of the opponent,
/// three for three or more, nothing for a move of another piece.
pub fn score_knight_fork(before: &Position, m: &ChessMove, after: &Position) -> (score: u32)
    requires
        m@.to() < 64,
    ensures
        score == if m@.role() != KNIGHT {
            0
        } else {
            fork_points(fork_targets(spec_board(after@), spec_white_to_move(before@), m@.to() as int, 64))
        },
{
    if m.role() != KNIGHT {
        return 0;
    }
    let white = before.white_to_move();
    let b = after.board();
    let opp = if white { b.black } else { b.white };
    let dest = m.to() as u64;
    let attacks = knight_attacks(dest);
    let mut n: u32 = 0;
    for t in 0..64u64
        invariant
            dest < 64,
            opp == side(b, !white),
            forall|u: int| 0 <= u < 64 ==> (has(attacks, u) <==> knight_reach(dest as int, u)),
            n == fork_targets(b, white, dest as int, t as int),
            n <= t,
    {
        if bit(attacks, t) && bit(opp, t) && (bit(b.queens, t) || bit(b.rooks, t) || bit(b.kings, t)) {
            n += 1;
        }
    }
    if n == 2 {
        2
    } else if n >= 3 {
        3
    } else {
        0
    }
}

/// The square a knight of one colour is rewarded for approaching: f6
/// (square 45) for White, f3 (square 21) for Black.
pub open spec fn approach_target(white: bool) -> int {
    if white { 45 } else { 21 }
}

/// A knight of `ours` on `s` is one hop from `target`.
pub open spec fn near_target(ours: u64, s: int, target: int) -> bool {
    has(ours, s) && knight_reach(s, target)
}

/// How many knights of `ours` below `n` are one hop from `target`.
pub open spec fn approaching_below(ours: u64, target: int, n: int) -> nat
    decreases n,
{
    if n <= 0 {
        0
    } else {
        approaching_below(ours, target, n - 1) + if near_target(ours, n - 1, target) {
            1nat
        } else {
            0nat
        }
    }
}

/// Reward knights that are a single hop from f6 (White) or f3 (Black): the
/// number of knights of the side that just moved that attack its target
/// square.
pub fn score_knight_approaching_f6(after: &Position) -> (score: u32)
    ensures
        score == approaching_below(
            spec_board(after@).knights & side(spec_board(after@), !spec_white_to_move(after@)),
            approach_target(!spec_white_to_move(after@)),
            64,
        ),
{
    let white_to_move = after.white_to_move();
    let b = after.board();
    let ours = if white_to_move { b.black } else { b.white };
    let target: u64 = if white_to_move { 21 } else { 45 };
    let our_knights = b.knights & ours;
    let mut score: u32 = 0;
    for s in 0..64u64
        invariant
            target == approach_target(!white_to_move),
            score == approaching_below(our_knights, target as int, s as int),
            score <= s,
    {
        if bit(our_knights, s) {
            let one_hop = knight_attacks(s);
            if bit(one_hop, target) {
                score += 1;
            }
        }
    }
    score
}

/// Reward reaching a position seen in game history: whether its Zobrist
/// hash is in `seen`.
pub fn score_seen(after: &Position, seen: &HashSet<u64>) -> (b: bool)
    ensures
        b == seen@.contains(spec_zobrist(after@)),
{
    seen.contains(&after.zobrist())
}

/// Reward a move that castles.
pub fn score_did_castle(m: &ChessMove) -> (b: bool)
    ensures
        b == m@.is_castle(),
{
    m.is_castle()
}

/// The number of pieces of one colour, counted piece type by piece type.
pub open spec fn spec_material(b: Board, white: bool) -> nat {
    count_both(b.pawns, side(b, white), 64) + count_both(b.knights, side(b, white), 64) + count_both(
        b.bishops,
        side(b, white),
        64,
    ) + count_both(b.rooks, side(b, white), 64) + count_both(b.queens, side(b, white), 64) + count_both(
        b.kings,
        side(b, white),
        64,
    )
}

proof fn lemma_count_bound(a: u64, c: u64, n: int)
    requires
        0 <= n,
    ensures
        count_both(a, c, n) <= n,
    decreases n,
{
    if n > 0 {
        lemma_count_bound(a, c, n - 1);
    }
}

/// The material of the side `white`: how many pieces it has.
pub fn score_material(after: &Position, white: bool) -> (n: u32)
    ensures
        n == spec_material(spec_board(after@), white),
{
    let b = after.board();
    let col = if white { b.white } else { b.black };
    proof {
        lemma_count_bound(b.pawns, col, 64);
        lemma_count_bound(b.knights, col, 64);
        lemma_count_bound(b.bishops, col, 64);
        lemma_count_bound(b.rooks, col, 64);
        lemma_count_bound(b.queens, col, 64);
        lemma_count_bound(b.kings, col, 64);
    }
    count_common(b.pawns, col) + count_common(b.knights, col) + count_common(b.bishops, col)
        + count_common(b.rooks, col) + count_common(b.queens, col) + count_common(b.kings, col)
}

} // verus!
