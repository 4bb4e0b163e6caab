//! The bot's memory of past games: an opening book over the moves played and
//! the set of positions that were reached.

pub mod opening;
pub mod pgn;
pub mod search;

use vstd::prelude::*;
use vstd::string::StrSliceExecFns;
use std::collections::HashSet;
use crate::engine::opening::{OpeningNode, continuing, games_after};
use crate::position::{
    ChessMove, Position, start_fen, spec_play, spec_to_move, spec_zobrist, spec_legal_moves, move_views,
};
use crate::text::{chars_of, split_bounds, trim_bounds, spec_split, spec_trim};
use crate::uci::{UciMove, parse_uci, spec_parse_uci, lemma_parse_wf};

verus! {

broadcast use vstd::std_specs::hash::group_hash_axioms;

/// Reading a move history token by token: the moves so far, and whether a
/// token that is not a move has stopped the reading.
pub open spec fn history_step(acc: (Seq<UciMove>, bool), token: Seq<char>) -> (Seq<UciMove>, bool) {
    if acc.1 || token.len() == 0 {
        acc
    } else {
        match spec_parse_uci(token) {
            Some(m) => (acc.0.push(m), false),
            None => (acc.0, true),
        }
    }
}

/// Reading the comma-separated pieces of a history: blank pieces are
/// skipped, the first piece that is not a UCI move stops the reading.
pub open spec fn history_fold(pieces: Seq<Seq<char>>) -> (Seq<UciMove>, bool)
    decreases pieces.len(),
{
    if pieces.len() == 0 {
        (Seq::empty(), false)
    } else {
        history_step(history_fold(pieces.drop_last()), spec_trim(pieces.last()))
    }
}

/// The moves of a comma-separated UCI history such as `"e2e4,e7e5,g1f3"`.
pub open spec fn spec_history(s: Seq<char>) -> Seq<UciMove> {
    history_fold(spec_split(s, ',')).0
}

/// Replaying a history token by token from a position: the position
/// reached, whether replaying has stopped, and the Zobrist hashes of the
/// positions passed through.
pub open spec fn replay_step(acc: (Seq<char>, bool, Set<u64>), token: Seq<char>) -> (Seq<char>, bool, Set<u64>) {
    if acc.1 || token.len() == 0 {
        acc
    } else {
        match spec_to_move(acc.0, token) {
            Some(k) => {
                let next = spec_play(acc.0, k);
                (next, false, acc.2.insert(spec_zobrist(next)))
            },
            None => (acc.0, true, acc.2),
        }
    }
}

/// Replaying the comma-separated pieces of a history from the starting
/// position: blank pieces are skipped, the first piece that is not a legal
/// UCI move stops the replay.
pub open spec fn replay_fold(pieces: Seq<Seq<char>>) -> (Seq<char>, bool, Set<u64>)
    decreases pieces.len(),
{
    if pieces.len() == 0 {
        (start_fen(), false, set![spec_zobrist(start_fen())])
    } else {
        replay_step(replay_fold(pieces.drop_last()), spec_trim(pieces.last()))
    }
}

proof fn lemma_fold_keeps_start(pieces: Seq<Seq<char>>)
    ensures
        replay_fold(pieces).2.contains(spec_zobrist(start_fen())),
    decreases pieces.len(),
{
    if pieces.len() > 0 {
        lemma_fold_keeps_start(pieces.drop_last());
    }
}

/// Every game line records the starting position as seen, whatever its
/// moves.
pub proof fn law_start_seen(line: Seq<char>)
    ensures
        spec_seen_along(line).contains(spec_zobrist(start_fen())),
{
    lemma_fold_keeps_start(spec_split(line, ','));
}

/// The position that a comma-separated UCI history leads to.
pub open spec fn spec_replay(s: Seq<char>) -> Seq<char> {
    replay_fold(spec_split(s, ',')).0
}

/// The Zobrist hashes of the positions along a comma-separated UCI history,
/// the starting position included.
pub open spec fn spec_seen_along(s: Seq<char>) -> Set<u64> {
    replay_fold(spec_split(s, ',')).2
}

/// The non-blank pieces, each trimmed. For the lines of a text (its pieces
/// between line feeds) this is what `str::lines` followed by `str::trim`
/// yields once blank lines are skipped.
pub open spec fn nonblank(pieces: Seq<Seq<char>>) -> Seq<Seq<char>>
    decreases pieces.len(),
{
    if pieces.len() == 0 {
        Seq::empty()
    } else {
        let init = nonblank(pieces.drop_last());
        let t = spec_trim(pieces.last());
        if t.len() == 0 {
            init
        } else {
            init.push(t)
        }
    }
}

/// The games of a text with one game per line.
pub open spec fn spec_games(data: Seq<char>) -> Seq<Seq<char>> {
    nonblank(spec_split(data, '\n'))
}

/// The histories that loading the lines `lines` adds to the book.
pub open spec fn histories(lines: Seq<Seq<char>>) -> Seq<Seq<UciMove>>
    decreases lines.len(),
{
    if lines.len() == 0 {
        Seq::empty()
    } else {
        histories(lines.drop_last()).push(spec_history(lines.last()))
    }
}

/// The positions that loading the lines `lines` records as seen.
pub open spec fn seen_along(lines: Seq<Seq<char>>) -> Set<u64>
    decreases lines.len(),
{
    if lines.len() == 0 {
        Set::empty()
    } else {
        seen_along(lines.drop_last()).union(spec_seen_along(lines.last()))
    }
}

/// Dropping the blank pieces of two joined lists of pieces joins what each
/// keeps.
pub proof fn lemma_nonblank_concat(x: Seq<Seq<char>>, y: Seq<Seq<char>>)
    ensures
        nonblank(x + y) == nonblank(x) + nonblank(y),
    decreases y.len(),
{
    if y.len() > 0 {
        lemma_nonblank_concat(x, y.drop_last());
        assert((x + y).drop_last() == x + y.drop_last());
        assert((x + y).last() == y.last());
        let t = spec_trim(y.last());
        if t.len() > 0 {
            assert((nonblank(x) + nonblank(y.drop_last())).push(t) == nonblank(x) + nonblank(y.drop_last()).push(t));
        }
    } else {
        assert(x + y == x);
        assert(nonblank(x) + nonblank(y) == nonblank(x));
    }
}

proof fn lemma_loaded_concat(x: Seq<Seq<char>>, y: Seq<Seq<char>>)
    ensures
        histories(x + y) == histories(x) + histories(y),
        seen_along(x + y) == seen_along(x).union(seen_along(y)),
    decreases y.len(),
{
    if y.len() > 0 {
        lemma_loaded_concat(x, y.drop_last());
        assert((x + y).drop_last() == x + y.drop_last());
        assert((x + y).last() == y.last());
        assert((histories(x) + histories(y.drop_last())).push(spec_history(y.last())) == histories(x)
            + histories(y.drop_last()).push(spec_history(y.last())));
        assert(seen_along(x).union(seen_along(y.drop_last())).union(spec_seen_along(y.last())) == seen_along(
            x,
        ).union(seen_along(y.drop_last()).union(spec_seen_along(y.last()))));
    } else {
        assert(x + y == x);
        assert(histories(x) + histories(y) == histories(x));
        assert(seen_along(x).union(seen_along(y)) == seen_along(x));
    }
}

/// Loading the text `a` and then the text `b` adds what loading them joined
/// by a line feed adds: the same games in the same order, and the same seen
/// positions.
pub proof fn law_load_concat(a: Seq<char>, b: Seq<char>)
    ensures
        spec_games(a.push('\n') + b) == spec_games(a) + spec_games(b),
        histories(spec_games(a.push('\n') + b)) == histories(spec_games(a)) + histories(spec_games(b)),
        seen_along(spec_games(a.push('\n') + b)) == seen_along(spec_games(a)).union(seen_along(spec_games(b))),
{
    crate::text::lemma_split_append(a, b, '\n');
    lemma_nonblank_concat(spec_split(a, '\n'), spec_split(b, '\n'));
    lemma_loaded_concat(spec_games(a), spec_games(b));
}

pub proof fn lemma_nonblank_prefix(pieces: Seq<Seq<char>>, i: int)
    requires
        0 <= i < pieces.len(),
    ensures
        nonblank(pieces.take(i)).len() <= nonblank(pieces.take(i + 1)).len() <= nonblank(pieces).len(),
    decreases pieces.len() - i,
{
    assert(pieces.take(i + 1).drop_last() == pieces.take(i));
    if i + 1 < pieces.len() {
        lemma_nonblank_prefix(pieces, i + 1);
    } else {
        assert(pieces.take(i + 1) == pieces);
    }
}

proof fn lemma_history_wf(pieces: Seq<Seq<char>>)
    ensures
        forall|i: int| 0 <= i < history_fold(pieces).0.len() ==> (#[trigger] history_fold(pieces).0[i]).wf(),
    decreases pieces.len(),
{
    if pieces.len() > 0 {
        let prev = history_fold(pieces.drop_last()).0;
        lemma_history_wf(pieces.drop_last());
        lemma_parse_wf(spec_trim(pieces.last()));
        let cur = history_fold(pieces).0;
        assert forall|i: int| 0 <= i < cur.len() implies (#[trigger] cur[i]).wf() by {
            if i < prev.len() {
                assert(cur[i] == prev[i]);
            }
        }
    }
}

/// The tokens of `s` split at commas, each trimmed, as bounds into `chars`.
pub(crate) fn tokens(chars: &Vec<char>, sep: char) -> (r: Vec<(usize, usize)>)
    ensures
        r@.len() == spec_split(chars@, sep).len(),
        forall|i: int| 0 <= i < r@.len() ==> {
            &&& (#[trigger] r@[i]).0 <= r@[i].1 <= chars@.len()
            &&& chars@.subrange(r@[i].0 as int, r@[i].1 as int) == spec_trim(spec_split(chars@, sep)[i])
        },
{
    let pieces = split_bounds(chars.as_slice(), sep);
    let mut r: Vec<(usize, usize)> = Vec::new();
    for i in 0..pieces.len()
        invariant
            pieces@.len() == spec_split(chars@, sep).len(),
            forall|k: int| 0 <= k < pieces@.len() ==> {
                &&& (#[trigger] pieces@[k]).0 <= pieces@[k].1 <= chars@.len()
                &&& chars@.subrange(pieces@[k].0 as int, pieces@[k].1 as int) == spec_split(chars@, sep)[k]
            },
            r@.len() == i,
            forall|k: int| 0 <= k < i ==> {
                &&& (#[trigger] r@[k]).0 <= r@[k].1 <= chars@.len()
                &&& chars@.subrange(r@[k].0 as int, r@[k].1 as int) == spec_trim(spec_split(chars@, sep)[k])
            },
    {
        let (a, b) = pieces[i];
        let t = trim_bounds(chars.as_slice(), a, b);
        r.push(t);
    }
    r
}

/// Parse a comma-separated UCI history (e.g. `"e2e4,e7e5,g1f3"`) into moves.
///
/// UCI parsing is position-independent, so this needs no board context.
/// Unparseable tokens stop the parse early, mirroring `replay_moves`.
pub fn parse_uci_history(moves_played: &str) -> (history: Vec<UciMove>)
    ensures
        history@ == spec_history(moves_played@),
        forall|i: int| 0 <= i < history@.len() ==> (#[trigger] history@[i]).wf(),
{
    let chars = chars_of(moves_played);
    let toks = tokens(&chars, ',');
    let ghost pieces = spec_split(chars@, ',');
    let mut history: Vec<UciMove> = Vec::new();
    let mut i: usize = 0;
    while i < toks.len()
        invariant
            chars@ == moves_played@,
            pieces == spec_split(chars@, ','),
            toks@.len() == pieces.len(),
            forall|k: int| 0 <= k < toks@.len() ==> {
                &&& (#[trigger] toks@[k]).0 <= toks@[k].1 <= chars@.len()
                &&& chars@.subrange(toks@[k].0 as int, toks@[k].1 as int) == spec_trim(pieces[k])
            },
            0 <= i <= toks@.len(),
            history_fold(pieces.take(i as int)) == (history@, false),
        decreases toks@.len() - i,
    {
        let (a, b) = toks[i];
        proof {
            assert(pieces.take(i + 1).drop_last() == pieces.take(i as int));
            assert(pieces.take(i + 1).last() == pieces[i as int]);
        }
        if a < b {
            let token = moves_played.substring_char(a, b);
            match parse_uci(token) {
                Some(m) => {
                    history.push(m);
                },
                None => {
                    proof {
                        assert(token@ == spec_trim(pieces[i as int]));
                        assert(history_fold(pieces.take(i + 1)) == (history@, true));
                        lemma_fold_stopped(pieces, i as int + 1);
                        lemma_history_wf(pieces);
                        assert(history@ == history_fold(pieces).0);
                    }
                    return history;
                },
            }
        }
        i += 1;
    }
    proof {
        assert(pieces.take(toks@.len() as int) == pieces);
        lemma_history_wf(pieces);
        assert(history@ == history_fold(pieces).0);
    }
    history
}

/// Once stopped, reading further pieces changes nothing.
proof fn lemma_fold_stopped(pieces: Seq<Seq<char>>, i: int)
    requires
        0 <= i <= pieces.len(),
        history_fold(pieces.take(i)).1,
    ensures
        history_fold(pieces) == history_fold(pieces.take(i)),
    decreases pieces.len() - i,
{
    if i < pieces.len() {
        assert(pieces.take(i + 1).drop_last() == pieces.take(i));
        lemma_fold_stopped(pieces, i + 1);
    } else {
        assert(pieces.take(i) == pieces);
    }
}


/// Once stopped, replaying further pieces changes nothing.
proof fn lemma_replay_stopped(pieces: Seq<Seq<char>>, i: int)
    requires
        0 <= i <= pieces.len(),
        replay_fold(pieces.take(i)).1,
    ensures
        replay_fold(pieces) == replay_fold(pieces.take(i)),
    decreases pieces.len() - i,
{
    if i < pieces.len() {
        assert(pieces.take(i + 1).drop_last() == pieces.take(i));
        lemma_replay_stopped(pieces, i + 1);
    } else {
        assert(pieces.take(i) == pieces);
    }
}

/// Replay a comma-separated UCI move history into a position.
///
/// Illegal/unparseable moves stop the replay early and return the position
/// reached so far, so a bad history never panics the bot at runtime.
pub fn replay_moves(move_history: &str) -> (pos: Position)
    ensures
        pos@ == spec_replay(move_history@),
{
    let chars = chars_of(move_history);
    let toks = tokens(&chars, ',');
    let ghost pieces = spec_split(chars@, ',');
    let mut pos = Position::start();
    let mut i: usize = 0;
    assert(pieces.take(0) == Seq::<Seq<char>>::empty());
    while i < toks.len()
        invariant
            chars@ == move_history@,
            pieces == spec_split(chars@, ','),
            toks@.len() == pieces.len(),
            forall|k: int| 0 <= k < toks@.len() ==> {
                &&& (#[trigger] toks@[k]).0 <= toks@[k].1 <= chars@.len()
                &&& chars@.subrange(toks@[k].0 as int, toks@[k].1 as int) == spec_trim(pieces[k])
            },
            0 <= i <= toks@.len(),
            replay_fold(pieces.take(i as int)).0 == pos@,
            !replay_fold(pieces.take(i as int)).1,
        decreases toks@.len() - i,
    {
        let (a, b) = toks[i];
        proof {
            assert(pieces.take(i + 1).drop_last() == pieces.take(i as int));
            assert(pieces.take(i + 1).last() == pieces[i as int]);
        }
        if a < b {
            let token = move_history.substring_char(a, b);
            assert(token@ == spec_trim(pieces[i as int]));
            match pos.to_move(token) {
                Some(m) => {
                    pos = pos.play(&m);
                },
                None => {
                    proof {
                        lemma_replay_stopped(pieces, i as int + 1);
                        assert(pieces.take(toks@.len() as int) == pieces);
                    }
                    return pos;
                },
            }
        }
        i += 1;
    }
    assert(pieces.take(toks@.len() as int) == pieces);
    pos
}

/// The moves of the book that are legal in a position, with their counts, in
/// the order of `book`.
pub open spec fn legal_book(fen: Seq<char>, book: Seq<(UciMove, u32)>) -> Seq<(crate::position::MoveKind, u32)>
    decreases book.len(),
{
    if book.len() == 0 {
        Seq::empty()
    } else {
        let init = legal_book(fen, book.drop_last());
        match spec_to_move(fen, book.last().0.text()) {
            Some(k) => init.push((k, book.last().1)),
            None => init,
        }
    }
}

/// Record the Zobrist hash of every position along a UCI move line.
pub(crate) fn record_seen(seen: &mut HashSet<u64>, line: &str)
    ensures
        final(seen)@ == old(seen)@.union(spec_seen_along(line@)),
{
    let ghost old_seen = seen@;
    
    let mut pos = Position::start();
    seen.insert(pos.zobrist());
    let chars = chars_of(line);
    let toks = tokens(&chars, ',');
    let ghost pieces = spec_split(chars@, ',');
    let mut i: usize = 0;
    assert(pieces.take(0) == Seq::<Seq<char>>::empty());
    while i < toks.len()
        invariant
            chars@ == line@,
            pieces == spec_split(chars@, ','),
            toks@.len() == pieces.len(),
            forall|k: int| 0 <= k < toks@.len() ==> {
                &&& (#[trigger] toks@[k]).0 <= toks@[k].1 <= chars@.len()
                &&& chars@.subrange(toks@[k].0 as int, toks@[k].1 as int) == spec_trim(pieces[k])
            },
            0 <= i <= toks@.len(),
            replay_fold(pieces.take(i as int)).0 == pos@,
            !replay_fold(pieces.take(i as int)).1,
            old_seen == old(seen)@,
            seen@ == old_seen.union(replay_fold(pieces.take(i as int)).2),
        decreases toks@.len() - i,
    {
        let (a, b) = toks[i];
        proof {
            assert(pieces.take(i + 1).drop_last() == pieces.take(i as int));
            assert(pieces.take(i + 1).last() == pieces[i as int]);
        }
        if a < b {
            let token = line.substring_char(a, b);
            assert(token@ == spec_trim(pieces[i as int]));
            match pos.to_move(token) {
                Some(m) => {
                    pos = pos.play(&m);
                    seen.insert(pos.zobrist());
                },
                None => {
                    proof {
                        let before = replay_fold(pieces.take(i as int));
                        assert(replay_fold(pieces.take(i + 1)) == (before.0, true, before.2));
                        lemma_replay_stopped(pieces, i as int + 1);
                        assert(pieces.take(toks@.len() as int) == pieces);
                        assert(spec_seen_along(line@) == replay_fold(pieces).2);
                        assert(seen@ == old_seen.union(before.2));
                        
                    }
                    return;
                },
            }
        }
        i += 1;
    }
    assert(pieces.take(toks@.len() as int) == pieces);
}


/// What a list of book moves with counts does.
pub open spec fn book_view(v: Seq<(ChessMove, u32)>) -> Seq<(crate::position::MoveKind, u32)> {
    v.map_values(|p: (ChessMove, u32)| (p.0@, p.1))
}

/// The bot's memory: the opening book and the positions seen in past games.
pub struct ChessBot {
    opening_tree: OpeningNode,
    seen_positions: HashSet<u64>,
}

impl ChessBot {
    /// The games loaded so far, as move sequences.
    pub closed spec fn games(&self) -> Seq<Seq<UciMove>> {
        self.opening_tree@
    }

    /// The Zobrist hashes of the positions reached in the games loaded so far.
    pub closed spec fn seen(&self) -> Set<u64> {
        self.seen_positions@
    }

    /// The book agrees with the games loaded.
    pub closed spec fn wf(&self) -> bool {
        self.opening_tree.wf()
    }

    /// A bot that has seen no games.
    pub fn new() -> (bot: ChessBot)
        ensures
            bot.wf(),
            bot.games() == Seq::<Seq<UciMove>>::empty(),
            bot.seen() == Set::<u64>::empty(),
    {
        ChessBot { opening_tree: OpeningNode::new(), seen_positions: HashSet::new() }
    }

    /// The opening book.
    pub fn opening_tree(&self) -> (t: &OpeningNode)
        ensures
            t@ == self.games(),
            self.wf() ==> t.wf(),
    {
        &self.opening_tree
    }

    /// Whether a position with this Zobrist hash was reached in a loaded game.
    pub fn has_seen(&self, hash: u64) -> (b: bool)
        ensures
            b == self.seen().contains(hash),
    {
        self.seen_positions.contains(&hash)
    }

    /// Load game histories: one game per line, each a comma-separated UCI move
    /// string (e.g. `"e2e4,e7e5,g1f3"`). Feeds both the opening book and the
    /// seen-position set.
    pub fn load_games(&mut self, data: &str)
        requires
            old(self).wf(),
            crate::engine::opening::counts_fit(old(self).games() + histories(spec_games(data@))),
        ensures
            final(self).wf(),
            final(self).games() == old(self).games() + histories(spec_games(data@)),
            final(self).seen() == old(self).seen().union(seen_along(spec_games(data@))),
    {
        let chars = chars_of(data);
        let lines = tokens(&chars, '\n');
        let ghost pieces = spec_split(chars@, '\n');
        let ghost old_games = self.games();
        let ghost old_seen = self.seen();
        let mut i: usize = 0;
        assert(pieces.take(0) == Seq::<Seq<char>>::empty());
        while i < lines.len()
            invariant
                chars@ == data@,
                pieces == spec_split(chars@, '\n'),
                lines@.len() == pieces.len(),
                forall|k: int| 0 <= k < lines@.len() ==> {
                    &&& (#[trigger] lines@[k]).0 <= lines@[k].1 <= chars@.len()
                    &&& chars@.subrange(lines@[k].0 as int, lines@[k].1 as int) == spec_trim(pieces[k])
                },
                0 <= i <= lines@.len(),
                self.wf(),
                crate::engine::opening::counts_fit(old_games + histories(nonblank(pieces))),
                self.games() == old_games + histories(nonblank(pieces.take(i as int))),
                self.seen() == old_seen.union(seen_along(nonblank(pieces.take(i as int)))),
            decreases lines@.len() - i,
        {
            let (a, b) = lines[i];
            let ghost done = nonblank(pieces.take(i as int));
            proof {
                assert(pieces.take(i + 1).drop_last() == pieces.take(i as int));
                assert(pieces.take(i + 1).last() == pieces[i as int]);
                lemma_nonblank_prefix(pieces, i as int);
            }
            if a < b {
                let line = data.substring_char(a, b);
                let history = parse_uci_history(line);
                proof {
                    assert(done.push(line@).drop_last() == done);
                    assert(nonblank(pieces.take(i + 1)) == done.push(line@));
                    let rest = histories(nonblank(pieces.skip(i + 1)));
                    assert(pieces == pieces.take(i + 1) + pieces.skip(i + 1));
                    lemma_nonblank_concat(pieces.take(i + 1), pieces.skip(i + 1));
                    lemma_loaded_concat(done.push(line@), nonblank(pieces.skip(i + 1)));
                    assert(histories(done.push(line@)) == histories(done).push(history@));
                    assert(old_games + histories(nonblank(pieces)) == (old_games + histories(done)).push(history@) + rest);
                    crate::engine::opening::lemma_fits_along(old_games + histories(done), history@, rest);
                }
                self.opening_tree.insert(history.as_slice());
                self.record_seen_positions(line);
                proof {
                    assert(self.games() == old_games + histories(done.push(line@)));
                    assert(old_seen.union(seen_along(done)).union(spec_seen_along(line@))
                        == old_seen.union(seen_along(done.push(line@))));
                }
            }
            i += 1;
        }
        assert(pieces.take(lines@.len() as int) == pieces);
    }

    /// How many loaded games go on after `moves_played`; the number must fit
    /// in `u32`.
    pub fn how_many_times_game_seen(&self, moves_played: &str) -> (n: u32)
        requires
            self.wf(),
            continuing(games_after(self.games(), spec_history(moves_played@))) <= u32::MAX,
        ensures
            n == continuing(games_after(self.games(), spec_history(moves_played@))),
    {
        self.opening_tree.count(parse_uci_history(moves_played).as_slice())
    }

    /// How many loaded games go on after `moves_played`, or `None` when the
    /// number does not fit in `u32`.
    pub fn try_how_many_times_game_seen(&self, moves_played: &str) -> (r: Option<u32>)
        requires
            self.wf(),
        ensures
            r == if continuing(games_after(self.games(), spec_history(moves_played@))) <= u32::MAX {
                Some(continuing(games_after(self.games(), spec_history(moves_played@))) as u32)
            } else {
                None::<u32>
            },
    {
        self.opening_tree.count_checked(parse_uci_history(moves_played).as_slice())
    }

    /// Record the Zobrist hash of every position along a UCI move line.
    fn record_seen_positions(&mut self, line: &str)
        ensures
            final(self).opening_tree == old(self).opening_tree,
            final(self).seen() == old(self).seen().union(spec_seen_along(line@)),
    {
        record_seen(&mut self.seen_positions, line);
    }

    /// The opening-book moves for a history that are legal in the position
    /// it leads to, with how often each was played, together with that
    /// position. The book lists its continuations in no particular order.
    pub fn book_moves(&self, moves_played: &str) -> (r: (Position, Vec<(ChessMove, u32)>))
        requires
            self.wf(),
        ensures
            r.0@ == spec_replay(moves_played@),
            continuing(games_after(self.games(), spec_history(moves_played@))) == 0 ==> r.1@.len() == 0,
            continuing(games_after(self.games(), spec_history(moves_played@))) > 0 ==> exists|book: Seq<(UciMove, u32)>|
                crate::engine::opening::lists_counts(book, games_after(self.games(), spec_history(moves_played@)))
                && #[trigger] legal_book(r.0@, book) == book_view(r.1@),
    {
        let history = parse_uci_history(moves_played);
        let pos = replay_moves(moves_played);
        let mut out: Vec<(ChessMove, u32)> = Vec::new();
        let ghost mut witness: Seq<(UciMove, u32)> = Seq::empty();
        match self.opening_tree.lookup(history.as_slice()) {
            None => {},
            Some(book) => {
                let mut i: usize = 0;
                while i < book.len()
                    invariant
                        0 <= i <= book@.len(),
                        forall|k: int| 0 <= k < book@.len() ==> (#[trigger] book@[k]).0.wf(),
                        legal_book(pos@, book@.take(i as int)) == book_view(out@),
                        crate::engine::opening::lists_counts(book@, games_after(self.games(), spec_history(moves_played@))),
                    decreases book@.len() - i,
                {
                    let (u, count) = book[i];
                    let text = u.to_uci_string();
                    proof {
                        assert(book@.take(i + 1).drop_last() == book@.take(i as int));
                        assert(book@.take(i + 1).last() == book@[i as int]);
                    }
                    match pos.to_move(text.as_str()) {
                        Some(m) => {
                            out.push((m, count));
                        },
                        None => {},
                    }
                    proof {
                        assert(book_view(out@) == legal_book(pos@, book@.take(i + 1)));
                    }
                    i += 1;
                }
                assert(book@.take(book@.len() as int) == book@);
                assert(legal_book(pos@, book@) == book_view(out@));
                proof {
                    witness = book@;
                }
            },
        }
        proof {
            let after = games_after(self.games(), spec_history(moves_played@));
            if continuing(after) > 0 {
                assert(crate::engine::opening::lists_counts(witness, after));
                assert(legal_book(pos@, witness) == book_view(out@));
                assert(exists|book: Seq<(UciMove, u32)>|
                    crate::engine::opening::lists_counts(book, after)
                    && #[trigger] legal_book(pos@, book) == book_view(out@));
            }
        }
        let r = (pos, out);
        assert(r.0@ == spec_replay(moves_played@));
        assert(continuing(games_after(self.games(), spec_history(moves_played@))) > 0 ==> exists|book: Seq<(UciMove, u32)>|
                crate::engine::opening::lists_counts(book, games_after(self.games(), spec_history(moves_played@)))
                && #[trigger] legal_book(r.0@, book) == book_view(r.1@));
        r
    }

    /// The first decisions of choosing a move: the position, its legal book
    /// moves with their counts, and the moves left to score. When the book
    /// has a legal move and play outside the book is off, the book answers
    /// alone and no move is left to score; otherwise every legal move is
    /// (none when the game is over).
    pub fn plan_moves(&self, moves_played: &str, play_outside_of_book: bool) -> (r: (
        Position,
        Vec<(ChessMove, u32)>,
        Vec<ChessMove>,
    ))
        requires
            self.wf(),
        ensures
            r.0@ == spec_replay(moves_played@),
            continuing(games_after(self.games(), spec_history(moves_played@))) == 0 ==> r.1@.len() == 0,
            continuing(games_after(self.games(), spec_history(moves_played@))) > 0 ==> exists|book: Seq<(UciMove, u32)>|
                crate::engine::opening::lists_counts(book, games_after(self.games(), spec_history(moves_played@)))
                && #[trigger] legal_book(r.0@, book) == book_view(r.1@),
            r.1@.len() > 0 && !play_outside_of_book ==> r.2@.len() == 0,
            !(r.1@.len() > 0 && !play_outside_of_book) ==> move_views(r.2@) == spec_legal_moves(r.0@),
            forall|i: int| 0 <= i < r.2@.len() ==> (#[trigger] r.2@[i])@.wf(),
    {
        let (pos, book) = self.book_moves(moves_played);
        proof {
            let after = games_after(self.games(), spec_history(moves_played@));
            if continuing(after) > 0 {
                let w = choose|w: Seq<(UciMove, u32)>|
                    crate::engine::opening::lists_counts(w, after) && #[trigger] legal_book(pos@, w) == book_view(book@);
                assert(crate::engine::opening::lists_counts(w, after) && legal_book(pos@, w) == book_view(book@));
            }
        }
        if book.len() > 0 && !play_outside_of_book {
            (pos, book, Vec::new())
        } else {
            let legals = pos.legal_moves();
            (pos, book, legals)
        }
    }
}

impl Default for ChessBot {
    /// A bot that has seen no games.
    fn default() -> (bot: ChessBot)
        ensures
            bot.wf(),
            bot.games() == Seq::<Seq<UciMove>>::empty(),
            bot.seen() == Set::<u64>::empty(),
    {
        ChessBot::new()
    }
}

} // verus!
