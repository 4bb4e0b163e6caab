//! Opening book: a prefix tree over the move texts of past games.
//!
//! Each node records, for every move text played from that position, the
//! child node it leads to and how many times it has been played. Looking up a
//! history walks the tree move by move; the most-played continuation is the
//! book move.

use vstd::prelude::*;
use vstd::string::StrSliceExecFns;
use crate::engine::opening::{
    count_first, games_after_move, games_after, continuing, lists_counts, sum_first, lemma_push,
    lemma_after_move_len, lemma_empty_after, lemma_after_push, lemma_after_concat, lemma_sum_total,
    lemma_sum_prefix, lemma_continuing_witness, lemma_count_first_member, fits_along, lemma_fits_child,
};
use crate::engine::{nonblank, tokens};
use crate::text::{chars_of, spec_split};

verus! {

/// The texts of a list of strings.
pub open spec fn views(v: Seq<String>) -> Seq<Seq<char>> {
    v.map_values(|s: String| s@)
}

/// The texts of a list of strings with counts.
pub open spec fn pair_views(v: Seq<(String, u32)>) -> Seq<(Seq<char>, u32)> {
    v.map_values(|p: (String, u32)| (p.0@, p.1))
}

/// The move texts of a game given as a comma-separated string: the non-blank
/// pieces, trimmed.
pub open spec fn game_moves(moves: Seq<char>) -> Seq<Seq<char>> {
    nonblank(spec_split(moves, ','))
}

/// A node of the opening book.
///
/// The children are kept in a vector with at most one entry per move text.
/// The move texts are arbitrary strings (no integer stands for each of them),
/// and vstd gives `HashMap` a usable specification only for keys whose
/// hashing it models, which a `String` key is not.
pub struct OpeningNode {
    /// Move text, child node, times played from here.
    children: Vec<(String, OpeningNode, u32)>,
    games: Ghost<Seq<Seq<Seq<char>>>>,
}

impl View for OpeningNode {
    type V = Seq<Seq<Seq<char>>>;

    /// The games fed into this node, as move texts, in order.
    closed spec fn view(&self) -> Seq<Seq<Seq<char>>> {
        self.games@
    }
}

impl OpeningNode {
    /// The counts and children agree with the games; no move text has two
    /// children.
    pub closed spec fn wf(&self) -> bool
        decreases self,
    {
        &&& forall|i: int| 0 <= i < self.children@.len() ==> {
            let e = #[trigger] self.children@[i];
            &&& e.2 > 0
            &&& e.2 == count_first(self.games@, e.0@)
            &&& e.1.games@ == games_after_move(self.games@, e.0@)
            &&& e.1.wf()
        }
        &&& forall|i: int, j: int|
            0 <= i < j < self.children@.len() ==> (#[trigger] self.children@[i]).0@ != (
            #[trigger] self.children@[j]).0@
        &&& forall|m: Seq<char>|
            count_first(self.games@, m) > 0 ==> exists|i: int|
                0 <= i < self.children@.len() && (#[trigger] self.children@[i]).0@ == m
    }

    /// The move texts of the children.
    closed spec fn keys(&self) -> Seq<Seq<char>> {
        self.children@.map_values(|e: (String, OpeningNode, u32)| e.0@)
    }

    /// An empty book.
    pub fn new() -> (node: OpeningNode)
        ensures
            node.wf(),
            node@ == Seq::<Seq<Seq<char>>>::empty(),
    {
        OpeningNode { children: Vec::new(), games: Ghost(Seq::empty()) }
    }

    /// The index of the child for a move text, if there is one.
    fn find(&self, key: &String) -> (r: Option<usize>)
        requires
            self.wf(),
        ensures
            match r {
                Some(i) => i < self.children@.len() && self.children@[i as int].0@ == key@,
                None => count_first(self@, key@) == 0 && forall|i: int|
                    0 <= i < self.children@.len() ==> (#[trigger] self.children@[i]).0@ != key@,
            },
    {
        let mut i: usize = 0;
        while i < self.children.len()
            invariant
                0 <= i <= self.children@.len(),
                forall|k: int| 0 <= k < i ==> (#[trigger] self.children@[k]).0@ != key@,
            decreases self.children@.len() - i,
        {
            if self.children[i].0 == *key {
                return Some(i);
            }
            i += 1;
        }
        None
    }

    /// Feed one game into the tree as a comma-separated move string, e.g.
    /// `"e2e4,e7e5,g1f3"`. Empty/whitespace entries are ignored.
    pub fn insert(&mut self, moves: &str)
        requires
            old(self).wf(),
            fits_along(old(self)@, game_moves(moves@)),
        ensures
            final(self).wf(),
            final(self)@ == old(self)@.push(game_moves(moves@)),
    {
        let chars = chars_of(moves);
        let toks = tokens(&chars, ',');
        let ghost pieces = spec_split(chars@, ',');
        let mut line: Vec<String> = Vec::new();
        for i in 0..toks.len()
            invariant
                chars@ == moves@,
                pieces == spec_split(chars@, ','),
                toks@.len() == pieces.len(),
                forall|k: int| 0 <= k < toks@.len() ==> {
                    &&& (#[trigger] toks@[k]).0 <= toks@[k].1 <= chars@.len()
                    &&& chars@.subrange(toks@[k].0 as int, toks@[k].1 as int) == crate::text::spec_trim(pieces[k])
                },
                views(line@) == nonblank(pieces.take(i as int)),
        {
            let (a, b) = toks[i];
            proof {
                assert(pieces.take(i + 1).drop_last() == pieces.take(i as int));
                assert(pieces.take(i + 1).last() == pieces[i as int]);
            }
            if a < b {
                let piece = moves.substring_char(a, b).to_owned();
                line.push(piece);
                assert(views(line@) == nonblank(pieces.take(i + 1)));
            }
        }
        assert(pieces.take(toks@.len() as int) == pieces);
        assert(views(line@).skip(0) == views(line@));
        self.insert_from(&line, 0);
    }


    /// The node reached by walking `history`, if the book goes that far; when
    /// it does not, no game begins with `history`.
    fn walk(&self, history: &[String]) -> (r: Option<&OpeningNode>)
        requires
            self.wf(),
        ensures
            match r {
                Some(n) => n.wf() && n@ == games_after(self@, views(history@)),
                None => games_after(self@, views(history@)) == Seq::<Seq<Seq<char>>>::empty(),
            },
    {
        let ghost h = views(history@);
        let mut node = self;
        let mut i: usize = 0;
        assert(h.take(0) == Seq::<Seq<char>>::empty());
        while i < history.len()
            invariant
                0 <= i <= history@.len(),
                h == views(history@),
                node.wf(),
                node@ == games_after(self@, h.take(i as int)),
            decreases history@.len() - i,
        {
            proof {
                assert(h.take(i + 1) == h.take(i as int).push(h[i as int]));
                lemma_after_push(self@, h.take(i as int), h[i as int]);
            }
            match node.find(&history[i]) {
                Some(idx) => {
                    node = &node.children[idx].1;
                },
                None => {
                    proof {
                        lemma_after_move_len(node@, h[i as int]);
                        assert(games_after_move(node@, h[i as int]) == Seq::<Seq<Seq<char>>>::empty());
                        assert(h == h.take(i + 1) + h.skip(i + 1));
                        lemma_after_concat(self@, h.take(i + 1), h.skip(i + 1));
                        lemma_empty_after(h.skip(i + 1));
                    }
                    return None;
                },
            }
            i += 1;
        }
        assert(h.take(history@.len() as int) == h);
        Some(node)
    }

    /// What the children say about the games of a node.
    proof fn lemma_children(&self)
        requires
            self.wf(),
        ensures
            self.keys().no_duplicates(),
            forall|i: int| 0 <= i < self@.len() && self@[i].len() > 0 ==> self.keys().contains(#[trigger] self@[i][0]),
            sum_first(self@, self.keys()) == continuing(self@),
            self.children@.len() > 0 ==> continuing(self@) > 0,
    {
        let keys = self.keys();
        assert forall|i: int, j: int| 0 <= i < j < keys.len() implies keys[i] != keys[j] by {
            assert(self.children@[i].0@ != self.children@[j].0@);
        }
        assert forall|i: int| 0 <= i < self@.len() && self@[i].len() > 0 implies keys.contains(#[trigger] self@[i][0]) by {
            lemma_count_first_member(self@, i);
            let j = choose|j: int| 0 <= j < self.children@.len() && (#[trigger] self.children@[j]).0@ == self@[i][0];
            assert(keys[j] == self@[i][0]);
        }
        lemma_sum_total(self@, keys);
        if self.children@.len() > 0 {
            let e = self.children@[0];
            lemma_after_move_len(self@, e.0@);
        }
    }

    /// Total number of times any continuation has been played from the node
    /// reached by walking `history`; the total must fit in `u32`.
    pub fn count(&self, history: &[String]) -> (n: u32)
        requires
            self.wf(),
            continuing(games_after(self@, views(history@))) <= u32::MAX,
        ensures
            n == continuing(games_after(self@, views(history@))),
    {
        self.count_checked(history).unwrap()
    }

    /// The total that `count` gives, or `None` when it does not fit in `u32`.
    pub fn count_checked(&self, history: &[String]) -> (r: Option<u32>)
        requires
            self.wf(),
        ensures
            r == if continuing(games_after(self@, views(history@))) <= u32::MAX {
                Some(continuing(games_after(self@, views(history@))) as u32)
            } else {
                None::<u32>
            },
    {
        let node = match self.walk(history) {
            Some(n) => n,
            None => {
                return Some(0);
            },
        };
        proof {
            node.lemma_children();
        }
        let ghost keys = node.keys();
        let mut total: u64 = 0;
        for i in 0..node.children.len()
            invariant
                node.wf(),
                keys == node.keys(),
                node@ == games_after(self@, views(history@)),
                sum_first(node@, keys) == continuing(node@),
                total == sum_first(node@, keys.take(i as int)),
                total <= u32::MAX,
        {
            proof {
                assert(keys.take(i + 1).drop_last() == keys.take(i as int));
                lemma_sum_prefix(node@, keys, i + 1);
                assert(keys[i as int] == node.children@[i as int].0@);
            }
            total = total + node.children[i].2 as u64;
            if total > 4294967295u64 {
                return None;
            }
        }
        assert(keys.take(keys.len() as int) == keys);
        Some(total as u32)
    }

    /// The most-played continuation after `history`, if the book goes on
    /// there; when several are played equally often, one of them.
    pub fn most_played(&self, history: &[String]) -> (r: Option<String>)
        requires
            self.wf(),
        ensures
            match r {
                None => continuing(games_after(self@, views(history@))) == 0,
                Some(s) => count_first(games_after(self@, views(history@)), s@) > 0 && forall|m: Seq<char>|
                    #[trigger] count_first(games_after(self@, views(history@)), m) <= count_first(
                        games_after(self@, views(history@)),
                        s@,
                    ),
            },
    {
        let node = match self.walk(history) {
            Some(n) => n,
            None => {
                proof {
                    lemma_after_move_len(Seq::<Seq<Seq<char>>>::empty(), Seq::<char>::empty());
                }
                return None;
            },
        };
        proof {
            node.lemma_children();
        }
        if node.children.len() == 0 {
            proof {
                if continuing(node@) > 0 {
                    lemma_continuing_witness(node@);
                    let i = choose|i: int| 0 <= i < node@.len() && node@[i].len() > 0 && count_first(node@, node@[i][0]) > 0;
                    assert(node.keys().contains(node@[i][0]));
                }
            }
            return None;
        }
        let mut best: usize = 0;
        for i in 1..node.children.len()
            invariant
                node.wf(),
                0 <= best < node.children@.len(),
                forall|k: int| 0 <= k < i ==> (#[trigger] node.children@[k]).2 <= node.children@[best as int].2,
        {
            if node.children[i].2 > node.children[best].2 {
                best = i;
            }
        }
        proof {
            let top = node.children@[best as int];
            assert forall|m: Seq<char>| #[trigger] count_first(node@, m) <= count_first(node@, top.0@) by {
                if count_first(node@, m) > 0 {
                    let j = choose|j: int| 0 <= j < node.children@.len() && (#[trigger] node.children@[j]).0@ == m;
                    assert(node.children@[j].2 <= top.2);
                }
            }
        }
        Some(node.children[best].0.clone())
    }

    /// Every recorded continuation after `history` with how often it has
    /// been played, if there is any.
    pub fn continuations(&self, history: &[String]) -> (r: Option<Vec<(String, u32)>>)
        requires
            self.wf(),
        ensures
            match r {
                None => continuing(games_after(self@, views(history@))) == 0,
                Some(v) => continuing(games_after(self@, views(history@))) > 0 && lists_counts(
                    pair_views(v@),
                    games_after(self@, views(history@)),
                ),
            },
    {
        let node = match self.walk(history) {
            Some(n) => n,
            None => {
                proof {
                    lemma_after_move_len(Seq::<Seq<Seq<char>>>::empty(), Seq::<char>::empty());
                }
                return None;
            },
        };
        proof {
            node.lemma_children();
        }
        if node.children.len() == 0 {
            proof {
                if continuing(node@) > 0 {
                    lemma_continuing_witness(node@);
                    let i = choose|i: int| 0 <= i < node@.len() && node@[i].len() > 0 && count_first(node@, node@[i][0]) > 0;
                    assert(node.keys().contains(node@[i][0]));
                }
            }
            return None;
        }
        let mut v: Vec<(String, u32)> = Vec::new();
        for i in 0..node.children.len()
            invariant
                node.wf(),
                v@.len() == i,
                forall|k: int| 0 <= k < i ==> (#[trigger] v@[k]).0@ == node.children@[k].0@ && v@[k].1
                    == node.children@[k].2,
        {
            let e = &node.children[i];
            v.push((e.0.clone(), e.2));
        }
        proof {
            let pv = pair_views(v@);
            assert forall|m: Seq<char>| count_first(node@, m) > 0 implies exists|i: int|
                0 <= i < pv.len() && #[trigger] pv[i].0 == m by {
                let j = choose|j: int| 0 <= j < node.children@.len() && (#[trigger] node.children@[j]).0@ == m;
                assert(pv[j].0 == m);
            }
            assert forall|i: int, j: int| 0 <= i < j < pv.len() implies #[trigger] pv[i].0 != #[trigger] pv[j].0 by {
                assert(node.children@[i].0@ != node.children@[j].0@);
            }
        }
        Some(v)
    }

    fn insert_from(&mut self, moves: &Vec<String>, start: usize)
        requires
            old(self).wf(),
            start <= moves@.len(),
            fits_along(old(self)@, views(moves@).skip(start as int)),
        ensures
            final(self).wf(),
            final(self)@ == old(self)@.push(views(moves@).skip(start as int)),
        decreases moves@.len() - start,
    {
        let ghost old_games = self.games@;
        let ghost old_children = self.children@;
        let ghost g = views(moves@).skip(start as int);
        let ghost mut at: int = 0;
        if start < moves.len() {
            let key = &moves[start];
            let ghost m = key@;
            assert(g.len() > 0 && g[0] == m);
            assert(g.drop_first() == views(moves@).skip(start + 1));
            proof {
                lemma_push(old_games, g, m);
                lemma_after_move_len(old_games, m);
                lemma_fits_child(old_games, g);
            }
            match self.find(key) {
                Some(idx) => {
                    let (k, mut child, cnt) = self.children.remove(idx);
                    child.insert_from(moves, start + 1);
                    self.children.insert(idx, (k, child, cnt + 1));
                    proof {
                        at = idx as int;
                        assert forall|i: int| 0 <= i < self.children@.len() && i != idx implies #[trigger] self.children@[i]
                            == old_children[i] by {
                        }
                    }
                },
                None => {
                    let mut child = OpeningNode::new();
                    assert(games_after_move(old_games, m) == Seq::<Seq<Seq<char>>>::empty());
                    child.insert_from(moves, start + 1);
                    self.children.push((key.clone(), child, 1));
                    proof {
                        at = old_children.len() as int;
                    }
                },
            }
        } else {
            assert(g.len() == 0);
        }
        self.games = Ghost(old_games.push(g));
        proof {
            let ng = old_games.push(g);
            assert forall|i: int| 0 <= i < self.children@.len() implies {
                let e = #[trigger] self.children@[i];
                &&& e.2 > 0
                &&& e.2 == count_first(ng, e.0@)
                &&& e.1.games@ == games_after_move(ng, e.0@)
                &&& e.1.wf()
            } by {
                let e = self.children@[i];
                if !(g.len() > 0 && e.0@ == g[0]) {
                    lemma_push(old_games, g, e.0@);
                    assert(i < old_children.len() && e == old_children[i]);
                }
            }
            assert forall|i: int, j: int|
                0 <= i < j < self.children@.len() implies (#[trigger] self.children@[i]).0@ != (
            #[trigger] self.children@[j]).0@ by {
                if j >= old_children.len() {
                    assert(i < old_children.len());
                    assert(self.children@[i] == old_children[i]);
                } else if g.len() > 0 {
                    assert(self.children@[i].0@ == old_children[i].0@);
                    assert(self.children@[j].0@ == old_children[j].0@);
                } else {
                    assert(self.children@[i] == old_children[i]);
                    assert(self.children@[j] == old_children[j]);
                }
            }
            assert forall|m2: Seq<char>| count_first(ng, m2) > 0 implies exists|i: int|
                0 <= i < self.children@.len() && (#[trigger] self.children@[i]).0@ == m2 by {
                lemma_push(old_games, g, m2);
                if g.len() > 0 && g[0] == m2 {
                    assert(self.children@[at].0@ == m2);
                } else {
                    let j = choose|j: int| 0 <= j < old_children.len() && (#[trigger] old_children[j]).0@ == m2;
                    assert(self.children@[j].0@ == m2);
                }
            }
        }
    }
}

impl Default for OpeningNode {
    /// An empty book.
    fn default() -> (node: OpeningNode)
        ensures
            node.wf(),
            node@ == Seq::<Seq<Seq<char>>>::empty(),
    {
        OpeningNode::new()
    }
}

} // verus!
