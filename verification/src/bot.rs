//! The bot's memory in its first form: an opening book over move texts and
//! the set of positions reached in past games.

use vstd::prelude::*;
use vstd::string::StrSliceExecFns;
use std::collections::HashSet;
use crate::engine::{law_load_concat, nonblank, record_seen, seen_along, spec_games, spec_seen_along, tokens};
use crate::engine::opening::{continuing, counts_fit, games_after, lemma_fits_along};
use crate::opening::{OpeningNode, game_moves, views};
use crate::text::{chars_of, spec_split, spec_trim};

verus! {

/// The games that loading the lines `lines` adds to the book.
pub open spec fn line_games(lines: Seq<Seq<char>>) -> Seq<Seq<Seq<char>>>
    decreases lines.len(),
{
    if lines.len() == 0 {
        Seq::empty()
    } else {
        line_games(lines.drop_last()).push(game_moves(lines.last()))
    }
}

proof fn lemma_line_games_concat(x: Seq<Seq<char>>, y: Seq<Seq<char>>)
    ensures
        line_games(x + y) == line_games(x) + line_games(y),
    decreases y.len(),
{
    if y.len() > 0 {
        lemma_line_games_concat(x, y.drop_last());
        assert((x + y).drop_last() == x + y.drop_last());
        assert((x + y).last() == y.last());
        assert((line_games(x) + line_games(y.drop_last())).push(game_moves(y.last())) == line_games(x)
            + line_games(y.drop_last()).push(game_moves(y.last())));
    } else {
        assert(x + y == x);
        assert(line_games(x) + line_games(y) == line_games(x));
    }
}

/// Loading the text `a` and then the text `b` adds what loading them joined
/// by a line feed adds: the same games in the same order, and the same seen
/// positions.
pub proof fn law_classic_load_concat(a: Seq<char>, b: Seq<char>)
    ensures
        line_games(spec_games(a.push('\n') + b)) == line_games(spec_games(a)) + line_games(spec_games(b)),
        seen_along(spec_games(a.push('\n') + b)) == seen_along(spec_games(a)).union(seen_along(spec_games(b))),
{
    law_load_concat(a, b);
    lemma_line_games_concat(spec_games(a), spec_games(b));
}

/// The move texts of a comma-separated history as the bot looks them up:
/// every piece trimmed, blank pieces kept; nothing for an empty history.
pub open spec fn spec_book_history(s: Seq<char>) -> Seq<Seq<char>> {
    if s.len() == 0 {
        Seq::empty()
    } else {
        spec_split(s, ',').map_values(|p: Seq<char>| spec_trim(p))
    }
}

/// The move texts of a comma-separated history: every piece trimmed, blank
/// pieces kept; nothing for an empty history.
pub fn book_history(moves_played: &str) -> (h: Vec<String>)
    ensures
        views(h@) == spec_book_history(moves_played@),
{
    let mut h: Vec<String> = Vec::new();
    if moves_played.is_empty() {
        assert(views(h@) == Seq::<Seq<char>>::empty());
        return h;
    }
    let chars = chars_of(moves_played);
    let toks = tokens(&chars, ',');
    let ghost pieces = spec_split(chars@, ',');
    for i in 0..toks.len()
        invariant
            chars@ == moves_played@,
            moves_played@.len() > 0,
            pieces == spec_split(chars@, ','),
            toks@.len() == pieces.len(),
            forall|k: int| 0 <= k < toks@.len() ==> {
                &&& (#[trigger] toks@[k]).0 <= toks@[k].1 <= chars@.len()
                &&& chars@.subrange(toks@[k].0 as int, toks@[k].1 as int) == spec_trim(pieces[k])
            },
            h@.len() == i,
            forall|k: int| 0 <= k < i ==> (#[trigger] h@[k])@ == spec_trim(pieces[k]),
    {
        let (a, b) = toks[i];
        h.push(moves_played.substring_char(a, b).to_owned());
    }
    assert(views(h@) == spec_book_history(moves_played@));
    h
}

/// The bot's memory: the opening book and the positions seen in past games.
pub struct ChessBot {
    opening_tree: OpeningNode,
    seen_positions: HashSet<u64>,
}

impl ChessBot {
    /// The games loaded so far, as move texts.
    pub closed spec fn games(&self) -> Seq<Seq<Seq<char>>> {
        self.opening_tree@
    }

    /// The Zobrist hashes of the positions reached in the games loaded so far.
    pub closed spec fn seen(&self) -> Set<u64> {
        self.seen_positions@
    }

    /// The book agrees with the games loaded.
    pub closed spec fn wf(&self) -> bool {
        self.opening_tree.wf()
    }

    /// A bot that has seen no games.
    pub fn new() -> (bot: ChessBot)
        ensures
            bot.wf(),
            bot.games() == Seq::<Seq<Seq<char>>>::empty(),
            bot.seen() == Set::<u64>::empty(),
    {
        ChessBot { opening_tree: OpeningNode::new(), seen_positions: HashSet::new() }
    }

    /// The opening book.
    pub fn opening_tree(&self) -> (t: &OpeningNode)
        ensures
            t@ == self.games(),
            self.wf() ==> t.wf(),
    {
        &self.opening_tree
    }

    /// The positions reached in the games loaded so far, by Zobrist hash.
    pub fn seen_positions(&self) -> (s: &HashSet<u64>)
        ensures
            s@ == self.seen(),
    {
        &self.seen_positions
    }

    /// Load game histories: one game per line, each a comma-separated UCI move
    /// string (e.g. `"e2e4,e7e5,g1f3"`). Feeds both the opening book and the
    /// seen-position set.
    pub fn load_games(&mut self, data: &str)
        requires
            old(self).wf(),
            counts_fit(old(self).games() + line_games(spec_games(data@))),
        ensures
            final(self).wf(),
            final(self).games() == old(self).games() + line_games(crate::engine::spec_games(data@)),
            final(self).seen() == old(self).seen().union(seen_along(crate::engine::spec_games(data@))),
    {
        let chars = chars_of(data);
        let lines = tokens(&chars, '\n');
        let ghost pieces = spec_split(chars@, '\n');
        let ghost old_games = self.games();
        let ghost old_seen = self.seen();
        let mut i: usize = 0;
        assert(pieces.take(0) == Seq::<Seq<char>>::empty());
        while i < lines.len()
            invariant
                chars@ == data@,
                pieces == spec_split(chars@, '\n'),
                lines@.len() == pieces.len(),
                forall|k: int| 0 <= k < lines@.len() ==> {
                    &&& (#[trigger] lines@[k]).0 <= lines@[k].1 <= chars@.len()
                    &&& chars@.subrange(lines@[k].0 as int, lines@[k].1 as int) == spec_trim(pieces[k])
                },
                0 <= i <= lines@.len(),
                self.wf(),
                counts_fit(old_games + line_games(nonblank(pieces))),
                self.games() == old_games + line_games(nonblank(pieces.take(i as int))),
                self.seen() == old_seen.union(seen_along(nonblank(pieces.take(i as int)))),
            decreases lines@.len() - i,
        {
            let (a, b) = lines[i];
            let ghost done = nonblank(pieces.take(i as int));
            proof {
                assert(pieces.take(i + 1).drop_last() == pieces.take(i as int));
                assert(pieces.take(i + 1).last() == pieces[i as int]);
                crate::engine::lemma_nonblank_prefix(pieces, i as int);
            }
            if a < b {
                let line = data.substring_char(a, b);
                proof {
                    assert(done.push(line@).drop_last() == done);
                    assert(nonblank(pieces.take(i + 1)) == done.push(line@));
                    let rest = line_games(nonblank(pieces.skip(i + 1)));
                    assert(pieces == pieces.take(i + 1) + pieces.skip(i + 1));
                    crate::engine::lemma_nonblank_concat(pieces.take(i + 1), pieces.skip(i + 1));
                    lemma_line_games_concat(done.push(line@), nonblank(pieces.skip(i + 1)));
                    assert(line_games(done.push(line@)) == line_games(done).push(game_moves(line@)));
                    assert(old_games + line_games(nonblank(pieces)) == (old_games + line_games(done)).push(
                        game_moves(line@),
                    ) + rest);
                    lemma_fits_along(old_games + line_games(done), game_moves(line@), rest);
                }
                self.opening_tree.insert(line);
                record_seen(&mut self.seen_positions, line);
                proof {
                    assert(self.games() == old_games + line_games(done.push(line@)));
                    assert(old_seen.union(seen_along(done)).union(spec_seen_along(line@))
                        == old_seen.union(seen_along(done.push(line@))));
                }
            }
            i += 1;
        }
        assert(pieces.take(lines@.len() as int) == pieces);
    }

    /// How many loaded games go on after `moves_played`, looking the move
    /// texts up as they are written; the number must fit in `u32`.
    pub fn how_many_times_game_seen(&self, moves_played: &str) -> (n: u32)
        requires
            self.wf(),
            continuing(games_after(self.games(), spec_book_history(moves_played@))) <= u32::MAX,
        ensures
            n == continuing(games_after(self.games(), spec_book_history(moves_played@))),
    {
        let history = book_history(moves_played);
        self.opening_tree.count(history.as_slice())
    }

    /// How many loaded games go on after `moves_played`, or `None` when the
    /// number does not fit in `u32`.
    pub fn try_how_many_times_game_seen(&self, moves_played: &str) -> (r: Option<u32>)
        requires
            self.wf(),
        ensures
            r == if continuing(games_after(self.games(), spec_book_history(moves_played@))) <= u32::MAX {
                Some(continuing(games_after(self.games(), spec_book_history(moves_played@))) as u32)
            } else {
                None::<u32>
            },
    {
        let history = book_history(moves_played);
        self.opening_tree.count_checked(history.as_slice())
    }
}

impl Default for ChessBot {
    /// A bot that has seen no games.
    fn default() -> (bot: ChessBot)
        ensures
            bot.wf(),
            bot.games() == Seq::<Seq<Seq<char>>>::empty(),
            bot.seen() == Set::<u64>::empty(),
    {
        ChessBot::new()
    }
}

} // verus!
