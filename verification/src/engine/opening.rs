//! Opening book: a prefix tree over UCI move sequences.
//!
//! Each node records, for every move played from that position, the child node
//! it leads to and how many times that move has been played. The book is
//! described by the sequence of games fed into it: a node holds the games that
//! reached it, each with the moves that led there removed.

use vstd::prelude::*;
use std::collections::HashMap;
use vstd::std_specs::iter::IteratorSpec;
use crate::uci::{UciMove, lemma_code_injective};

verus! {

broadcast use vstd::std_specs::hash::group_hash_axioms;

/// How many of `games` begin with the move `m`.
pub open spec fn count_first<K>(games: Seq<Seq<K>>, m: K) -> nat
    decreases games.len(),
{
    if games.len() == 0 {
        0
    } else {
        count_first(games.drop_last(), m) + if games.last().len() > 0 && games.last()[0] == m {
            1nat
        } else {
            0nat
        }
    }
}

/// The games that begin with `m`, each with that first move removed, in the
/// order they were played.
pub open spec fn games_after_move<K>(games: Seq<Seq<K>>, m: K) -> Seq<Seq<K>>
    decreases games.len(),
{
    if games.len() == 0 {
        Seq::empty()
    } else {
        let init = games_after_move(games.drop_last(), m);
        if games.last().len() > 0 && games.last()[0] == m {
            init.push(games.last().drop_first())
        } else {
            init
        }
    }
}

/// The games that begin with `history`, each with `history` removed.
pub open spec fn games_after<K>(games: Seq<Seq<K>>, history: Seq<K>) -> Seq<Seq<K>>
    decreases history.len(),
{
    if history.len() == 0 {
        games
    } else {
        games_after(games_after_move(games, history[0]), history.drop_first())
    }
}

/// How many of `games` go on after their start (are not empty).
pub open spec fn continuing<K>(games: Seq<Seq<K>>) -> nat
    decreases games.len(),
{
    if games.len() == 0 {
        0
    } else {
        continuing(games.drop_last()) + if games.last().len() > 0 {
            1nat
        } else {
            0nat
        }
    }
}

/// Every move of every game is well formed.
pub open spec fn games_wf(games: Seq<Seq<UciMove>>) -> bool {
    forall|i: int, j: int|
        0 <= i < games.len() && 0 <= j < games[i].len() ==> (#[trigger] games[i][j]).wf()
}

/// The sum of `count_first(games, m)` over the moves `m` of `moves`.
pub open spec fn sum_first<K>(games: Seq<Seq<K>>, moves: Seq<K>) -> nat
    decreases moves.len(),
{
    if moves.len() == 0 {
        0
    } else {
        sum_first(games, moves.drop_last()) + count_first(games, moves.last())
    }
}

/// How many entries of `moves` are the first move of `g`.
pub open spec fn hits<K>(g: Seq<K>, moves: Seq<K>) -> nat
    decreases moves.len(),
{
    if moves.len() == 0 {
        0
    } else {
        hits(g, moves.drop_last()) + if g.len() > 0 && g[0] == moves.last() {
            1nat
        } else {
            0nat
        }
    }
}

pub proof fn lemma_push<K>(games: Seq<Seq<K>>, g: Seq<K>, m: K)
    ensures
        count_first(games.push(g), m) == count_first(games, m) + if g.len() > 0 && g[0] == m {
            1nat
        } else {
            0nat
        },
        games_after_move(games.push(g), m) == if g.len() > 0 && g[0] == m {
            games_after_move(games, m).push(g.drop_first())
        } else {
            games_after_move(games, m)
        },
        continuing(games.push(g)) == continuing(games) + if g.len() > 0 {
            1nat
        } else {
            0nat
        },
{
    assert(games.push(g).drop_last() == games);
}

pub proof fn lemma_after_move_len<K>(games: Seq<Seq<K>>, m: K)
    ensures
        games_after_move(games, m).len() == count_first(games, m),
        count_first(games, m) <= games.len(),
        count_first(games, m) <= continuing(games),
        continuing(games) <= games.len(),
    decreases games.len(),
{
    if games.len() > 0 {
        lemma_after_move_len(games.drop_last(), m);
    }
}

pub proof fn lemma_empty_after<K>(history: Seq<K>)
    ensures
        games_after(Seq::<Seq<K>>::empty(), history) == Seq::<Seq<K>>::empty(),
    decreases history.len(),
{
    if history.len() > 0 {
        assert(games_after_move(Seq::<Seq<K>>::empty(), history[0]) == Seq::<
            Seq<K>,
        >::empty());
        lemma_empty_after(history.drop_first());
    }
}

pub proof fn lemma_after_push<K>(games: Seq<Seq<K>>, history: Seq<K>, m: K)
    ensures
        games_after(games, history.push(m)) == games_after_move(games_after(games, history), m),
    decreases history.len(),
{
    let h2 = history.push(m);
    assert(h2[0] == if history.len() == 0 { m } else { history[0] });
    if history.len() == 0 {
        assert(h2.drop_first() == Seq::<K>::empty());
        assert(games_after(games_after_move(games, m), Seq::<K>::empty()) == games_after_move(games, m));
    } else {
        assert(h2.drop_first() == history.drop_first().push(m));
        lemma_after_push(games_after_move(games, history[0]), history.drop_first(), m);
    }
}

pub proof fn lemma_hits<K>(g: Seq<K>, moves: Seq<K>)
    requires
        moves.no_duplicates(),
    ensures
        hits(g, moves) == if g.len() > 0 && moves.contains(g[0]) {
            1nat
        } else {
            0nat
        },
    decreases moves.len(),
{
    if moves.len() > 0 {
        let init = moves.drop_last();
        assert(init.no_duplicates());
        lemma_hits(g, init);
        if g.len() > 0 && g[0] == moves.last() {
            if init.contains(g[0]) {
                let k = choose|k: int| 0 <= k < init.len() && init[k] == g[0];
                assert(moves[k] == moves[moves.len() - 1]);
            }
        }
        if g.len() > 0 && init.contains(g[0]) {
            let k = choose|k: int| 0 <= k < init.len() && init[k] == g[0];
            assert(moves[k] == g[0]);
        }
        if g.len() > 0 && moves.contains(g[0]) && g[0] != moves.last() {
            let k = choose|k: int| 0 <= k < moves.len() && moves[k] == g[0];
            assert(init[k] == g[0]);
        }
    }
}

pub proof fn lemma_sum_push<K>(games: Seq<Seq<K>>, g: Seq<K>, moves: Seq<K>)
    ensures
        sum_first(games.push(g), moves) == sum_first(games, moves) + hits(g, moves),
    decreases moves.len(),
{
    if moves.len() > 0 {
        lemma_sum_push(games, g, moves.drop_last());
        lemma_push(games, g, moves.last());
    }
}

pub proof fn lemma_sum_empty<K>(moves: Seq<K>)
    ensures
        sum_first(Seq::<Seq<K>>::empty(), moves) == 0,
    decreases moves.len(),
{
    if moves.len() > 0 {
        lemma_sum_empty(moves.drop_last());
    }
}

/// Summing the counts of distinct first moves that cover all continuing games
/// gives the number of continuing games.
pub proof fn lemma_sum_total<K>(games: Seq<Seq<K>>, moves: Seq<K>)
    requires
        moves.no_duplicates(),
        forall|i: int| 0 <= i < games.len() && games[i].len() > 0 ==> moves.contains(#[trigger] games[i][0]),
    ensures
        sum_first(games, moves) == continuing(games),
    decreases games.len(),
{
    if games.len() == 0 {
        assert(games == Seq::<Seq<K>>::empty());
        lemma_sum_empty(moves);
    } else {
        let init = games.drop_last();
        let g = games.last();
        assert forall|i: int| 0 <= i < init.len() && init[i].len() > 0 implies moves.contains(
            #[trigger] init[i][0],
        ) by {
            assert(init[i] == games[i]);
        }
        lemma_sum_total(init, moves);
        assert(init.push(g) == games);
        lemma_sum_push(init, g, moves);
        lemma_hits(g, moves);
        assert(continuing(games) == continuing(init) + if g.len() > 0 { 1nat } else { 0nat });
        if g.len() > 0 {
            assert(games[games.len() - 1][0] == g[0]);
            assert(moves.contains(g[0]));
            assert(hits(g, moves) == 1);
        } else {
            assert(hits(g, moves) == 0);
        }
        assert(sum_first(games, moves) == sum_first(init, moves) + hits(g, moves));
    }
}

pub proof fn lemma_sum_prefix<K>(games: Seq<Seq<K>>, moves: Seq<K>, i: int)
    requires
        0 <= i <= moves.len(),
    ensures
        sum_first(games, moves.take(i)) <= sum_first(games, moves),
    decreases moves.len() - i,
{
    if i < moves.len() {
        assert(moves.take(i + 1).drop_last() == moves.take(i));
        lemma_sum_prefix(games, moves, i + 1);
    } else {
        assert(moves.take(i) == moves);
    }
}


pub proof fn lemma_after_concat<K>(games: Seq<Seq<K>>, a: Seq<K>, b: Seq<K>)
    ensures
        games_after(games, a + b) == games_after(games_after(games, a), b),
    decreases a.len(),
{
    if a.len() == 0 {
        assert(a + b == b);
    } else {
        assert((a + b)[0] == a[0]);
        assert((a + b).drop_first() == a.drop_first() + b);
        lemma_after_concat(games_after_move(games, a[0]), a.drop_first(), b);
    }
}

/// A move that is not well formed begins none of a sequence of well-formed
/// games.
pub proof fn lemma_count_first_wf(games: Seq<Seq<UciMove>>, m: UciMove)
    requires
        games_wf(games),
        !m.wf(),
    ensures
        count_first(games, m) == 0,
    decreases games.len(),
{
    if games.len() > 0 {
        let init = games.drop_last();
        assert(games_wf(init)) by {
            assert forall|i: int, j: int| 0 <= i < init.len() && 0 <= j < init[i].len() implies (
            #[trigger] init[i][j]).wf() by {
                assert(init[i] == games[i]);
            }
        }
        lemma_count_first_wf(init, m);
        if games.last().len() > 0 {
            assert(games[games.len() - 1][0].wf());
        }
    }
}

/// The first move of a continuing game is counted.
pub proof fn lemma_continuing_witness<K>(games: Seq<Seq<K>>)
    requires
        continuing(games) > 0,
    ensures
        exists|i: int| 0 <= i < games.len() && games[i].len() > 0 && count_first(games, games[i][0]) > 0,
    decreases games.len(),
{
    if games.last().len() > 0 {
        lemma_count_first_member(games, games.len() - 1);
    } else {
        let init = games.drop_last();
        lemma_continuing_witness(init);
        let i = choose|i: int| 0 <= i < init.len() && init[i].len() > 0 && count_first(init, init[i][0]) > 0;
        assert(init[i] == games[i]);
        lemma_count_first_member(games, i);
    }
}

pub proof fn lemma_count_first_member<K>(games: Seq<Seq<K>>, i: int)
    requires
        0 <= i < games.len(),
        games[i].len() > 0,
    ensures
        count_first(games, games[i][0]) > 0,
    decreases games.len(),
{
    if i < games.len() - 1 {
        let init = games.drop_last();
        assert(init[i] == games[i]);
        lemma_count_first_member(init, i);
    }
}

/// `v` lists, once each, every move that begins one of `games`, with the
/// number of games it begins.
pub open spec fn lists_counts<K>(v: Seq<(K, u32)>, games: Seq<Seq<K>>) -> bool {
    &&& forall|i: int| 0 <= i < v.len() ==> #[trigger] v[i].1 == count_first(games, v[i].0)
        && v[i].1 > 0
    &&& forall|m: K| count_first(games, m) > 0 ==> exists|i: int| 0 <= i < v.len() && #[trigger] v[i].0 == m
    &&& forall|i: int, j: int| 0 <= i < j < v.len() ==> #[trigger] v[i].0 != #[trigger] v[j].0
}


/// `game` begins with `p`.
pub open spec fn begins_with<K>(game: Seq<K>, p: Seq<K>) -> bool {
    p.len() <= game.len() && game.take(p.len() as int) == p
}

/// How many of `games` begin with `p`.
pub open spec fn prefix_count<K>(games: Seq<Seq<K>>, p: Seq<K>) -> nat
    decreases games.len(),
{
    if games.len() == 0 {
        0
    } else {
        prefix_count(games.drop_last(), p) + if begins_with(games.last(), p) {
            1nat
        } else {
            0nat
        }
    }
}

/// How many of `games` begin with `p` and go on after it.
pub open spec fn extend_count<K>(games: Seq<Seq<K>>, p: Seq<K>) -> nat
    decreases games.len(),
{
    if games.len() == 0 {
        0
    } else {
        extend_count(games.drop_last(), p) + if begins_with(games.last(), p) && games.last().len() > p.len() {
            1nat
        } else {
            0nat
        }
    }
}

/// Recording the game `g` after `games` keeps every count along `g` within
/// `u32`: before it, fewer than `u32::MAX` games begin with each nonempty
/// prefix of `g`.
pub open spec fn fits_along<K>(games: Seq<Seq<K>>, g: Seq<K>) -> bool {
    forall|j: int| 0 <= j < g.len() ==> #[trigger] prefix_count(games, g.take(j + 1)) < u32::MAX
}

/// Every count of a book fed `games` fits in `u32`: at most `u32::MAX` games
/// begin with any nonempty move sequence.
pub open spec fn counts_fit<K>(games: Seq<Seq<K>>) -> bool {
    forall|p: Seq<K>| p.len() > 0 ==> #[trigger] prefix_count(games, p) <= u32::MAX
}

/// Prefix counts add up over joined game lists.
pub proof fn lemma_prefix_count_concat<K>(x: Seq<Seq<K>>, y: Seq<Seq<K>>, p: Seq<K>)
    ensures
        prefix_count(x + y, p) == prefix_count(x, p) + prefix_count(y, p),
    decreases y.len(),
{
    if y.len() > 0 {
        lemma_prefix_count_concat(x, y.drop_last(), p);
        assert((x + y).drop_last() == x + y.drop_last());
        assert((x + y).last() == y.last());
    } else {
        assert(x + y == x);
    }
}

/// If every count fits after `games` followed by `g` and more, then recording
/// `g` after `games` keeps every count along it within `u32`.
pub proof fn lemma_fits_along<K>(games: Seq<Seq<K>>, g: Seq<K>, rest: Seq<Seq<K>>)
    requires
        counts_fit(games.push(g) + rest),
    ensures
        fits_along(games, g),
{
    assert forall|j: int| 0 <= j < g.len() implies #[trigger] prefix_count(games, g.take(j + 1)) < u32::MAX by {
        let p = g.take(j + 1);
        lemma_prefix_count_concat(games.push(g), rest, p);
        assert(games.push(g).drop_last() == games);
        assert(begins_with(g, p));
        assert(prefix_count(games.push(g) + rest, p) <= u32::MAX);
    }
}

proof fn lemma_begins_cons<K>(g: Seq<K>, a: K, p: Seq<K>)
    ensures
        begins_with(g, seq![a] + p) <==> (g.len() > 0 && g[0] == a && begins_with(g.drop_first(), p)),
{
    let q = seq![a] + p;
    if begins_with(g, q) {
        assert(g[0] == g.take(q.len() as int)[0]);
        assert(g.drop_first().take(p.len() as int) == g.take(q.len() as int).drop_first());
        assert(q.drop_first() == p);
    }
    if g.len() > 0 && g[0] == a && begins_with(g.drop_first(), p) {
        assert(g.take(q.len() as int) == q);
    }
}

proof fn lemma_after_move_prefix<K>(games: Seq<Seq<K>>, a: K, p: Seq<K>)
    ensures
        prefix_count(games_after_move(games, a), p) == prefix_count(games, seq![a] + p),
        extend_count(games_after_move(games, a), p) == extend_count(games, seq![a] + p),
    decreases games.len(),
{
    if games.len() > 0 {
        let init = games.drop_last();
        let g = games.last();
        lemma_after_move_prefix(init, a, p);
        lemma_begins_cons(g, a, p);
        lemma_push(init, g, a);
        assert(init.push(g) == games);
        let r0 = games_after_move(init, a);
        if g.len() > 0 && g[0] == a {
            assert(r0.push(g.drop_first()).drop_last() == r0);
        }
    }
}

proof fn lemma_first_prefix<K>(games: Seq<Seq<K>>, m: K)
    ensures
        count_first(games, m) == prefix_count(games, seq![m]),
        continuing(games) == extend_count(games, Seq::<K>::empty()),
    decreases games.len(),
{
    if games.len() > 0 {
        lemma_first_prefix(games.drop_last(), m);
        let g = games.last();
        if g.len() > 0 {
            assert(g.take(1) == seq![g[0]]);
        }
        if begins_with(g, seq![m]) {
            assert(g[0] == g.take(1)[0]);
        }
        assert(g.take(0) == Seq::<K>::empty());
    }
}

/// Recording a game keeps the count of its first move within `u32`, and
/// recording the rest of it in the node of that move keeps the counts there.
pub proof fn lemma_fits_child<K>(games: Seq<Seq<K>>, g: Seq<K>)
    requires
        fits_along(games, g),
        g.len() > 0,
    ensures
        count_first(games, g[0]) < u32::MAX,
        fits_along(games_after_move(games, g[0]), g.drop_first()),
{
    let m = g[0];
    lemma_first_prefix(games, m);
    assert(g.take(1) == seq![m]);
    assert(prefix_count(games, g.take(0int + 1)) < u32::MAX);
    let g2 = g.drop_first();
    assert forall|j: int| 0 <= j < g2.len() implies #[trigger] prefix_count(games_after_move(games, m), g2.take(j + 1))
        < u32::MAX by {
        lemma_after_move_prefix(games, m, g2.take(j + 1));
        assert(seq![m] + g2.take(j + 1) == g.take((j + 1) + 1));
        assert(prefix_count(games, g.take((j + 1) + 1)) < u32::MAX);
    }
}

/// What the book reports after a history is how many of the games fed in
/// begin with it: the count of a next move `m` is the number of games that
/// begin with the history followed by `m`, and the number of games that go
/// on after the history is the number of games that begin with it and are
/// longer.
pub proof fn law_book_counts_games<K>(games: Seq<Seq<K>>, history: Seq<K>, m: K)
    ensures
        count_first(games_after(games, history), m) == prefix_count(games, history.push(m)),
        continuing(games_after(games, history)) == extend_count(games, history),
    decreases history.len(),
{
    if history.len() == 0 {
        lemma_first_prefix(games, m);
        assert(history.push(m) == seq![m]);
        assert(history == Seq::<K>::empty());
    } else {
        let a = history[0];
        let rest = history.drop_first();
        law_book_counts_games(games_after_move(games, a), rest, m);
        lemma_after_move_prefix(games, a, rest.push(m));
        lemma_after_move_prefix(games, a, rest);
        assert(seq![a] + rest.push(m) == history.push(m));
        assert(seq![a] + rest == history);
    }
}

/// The total of a list of counts.
pub open spec fn total<K>(v: Seq<(K, u32)>) -> nat
    decreases v.len(),
{
    if v.len() == 0 {
        0
    } else {
        total(v.drop_last()) + v.last().1 as nat
    }
}

proof fn lemma_total_sum_first<K>(v: Seq<(K, u32)>, games: Seq<Seq<K>>)
    requires
        forall|i: int| 0 <= i < v.len() ==> #[trigger] v[i].1 == count_first(games, v[i].0),
    ensures
        total(v) == sum_first(games, v.map_values(|p: (K, u32)| p.0)),
    decreases v.len(),
{
    if v.len() > 0 {
        let init = v.drop_last();
        assert(v.map_values(|p: (K, u32)| p.0).drop_last() == init.map_values(|p: (K, u32)| p.0));
        assert forall|i: int| 0 <= i < init.len() implies #[trigger] init[i].1 == count_first(games, init[i].0) by {
            assert(init[i] == v[i]);
        }
        lemma_total_sum_first(init, games);
    }
}

/// The continuations listed after a history add up to the number of games
/// that go on after it: what `count` returns is the sum of what `lookup`
/// lists.
pub proof fn law_count_is_total<K>(v: Seq<(K, u32)>, games: Seq<Seq<K>>)
    requires
        lists_counts(v, games),
    ensures
        total(v) == continuing(games),
{
    let moves = v.map_values(|p: (K, u32)| p.0);
    lemma_total_sum_first(v, games);
    assert forall|i: int, j: int| 0 <= i < j < moves.len() implies moves[i] != moves[j] by {
        assert(v[i].0 != v[j].0);
    }
    assert forall|i: int| 0 <= i < games.len() && games[i].len() > 0 implies moves.contains(#[trigger] games[i][0]) by {
        lemma_count_first_member(games, i);
        let k = choose|k: int| 0 <= k < v.len() && #[trigger] v[k].0 == games[i][0];
        assert(moves[k] == games[i][0]);
    }
    lemma_sum_total(games, moves);
}

/// Recording one more game raises the count of a move after a history by one
/// exactly when that game begins with the history followed by the move, and
/// leaves every other count as it was.
pub proof fn law_insert_counts<K>(games: Seq<Seq<K>>, g: Seq<K>, history: Seq<K>, m: K)
    ensures
        count_first(games_after(games.push(g), history), m) == count_first(
            games_after(games, history),
            m,
        ) + if begins_with(g, history.push(m)) {
            1nat
        } else {
            0nat
        },
{
    law_book_counts_games(games, history, m);
    law_book_counts_games(games.push(g), history, m);
    assert(games.push(g).drop_last() == games);
}

/// A node of the opening book.
pub struct OpeningNode {
    /// Move code -> (move, child node, times played from here).
    children: HashMap<u32, (UciMove, OpeningNode, u32)>,
    games: Ghost<Seq<Seq<UciMove>>>,
}

impl View for OpeningNode {
    type V = Seq<Seq<UciMove>>;

    /// The games fed into this node, in order.
    closed spec fn view(&self) -> Seq<Seq<UciMove>> {
        self.games@
    }
}

impl OpeningNode {
    /// The counts and children agree with the games, which are made of
    /// well-formed moves.
    pub closed spec fn wf(&self) -> bool
        decreases self,
    {
        &&& games_wf(self.games@)
        &&& forall|k: u32| #[trigger]
            self.children@.contains_key(k) ==> {
                let e = self.children@[k];
                &&& k == e.0.spec_code()
                &&& e.0.wf()
                &&& e.2 > 0
                &&& e.2 == count_first(self.games@, e.0)
                &&& e.1.games@ == games_after_move(self.games@, e.0)
                &&& e.1.wf()
            }
        &&& forall|m: UciMove|
            m.wf() && count_first(self.games@, m) > 0 ==> #[trigger] self.children@.contains_key(
                m.spec_code(),
            )
    }

    /// An empty book.
    pub fn new() -> (node: OpeningNode)
        ensures
            node.wf(),
            node@ == Seq::<Seq<UciMove>>::empty(),
    {
        OpeningNode { children: HashMap::new(), games: Ghost(Seq::empty()) }
    }

    /// Feeds one game into the book as a sequence of moves, e.g.
    /// `[e2e4, e7e5, g1f3]`. Each count along the game must stay within
    /// `u32`.
    pub fn insert(&mut self, moves: &[UciMove])
        requires
            old(self).wf(),
            fits_along(old(self)@, moves@),
            forall|i: int| 0 <= i < moves@.len() ==> (#[trigger] moves@[i]).wf(),
        ensures
            final(self).wf(),
            final(self)@ == old(self)@.push(moves@),
    {
        assert(moves@.skip(0) == moves@);
        self.insert_from(moves, 0);
    }

    fn insert_from(&mut self, moves: &[UciMove], start: usize)
        requires
            old(self).wf(),
            start <= moves@.len(),
            fits_along(old(self)@, moves@.skip(start as int)),
            forall|i: int| 0 <= i < moves@.len() ==> (#[trigger] moves@[i]).wf(),
        ensures
            final(self).wf(),
            final(self)@ == old(self)@.push(moves@.skip(start as int)),
        decreases moves@.len() - start,
    {
        let ghost old_games = self.games@;
        let ghost old_children = self.children@;
        let ghost g = moves@.skip(start as int);
        assert(games_wf(old_games.push(g))) by {
            let ng = old_games.push(g);
            assert forall|i: int, j: int| 0 <= i < ng.len() && 0 <= j < ng[i].len() implies (
            #[trigger] ng[i][j]).wf() by {
                if i < old_games.len() {
                    assert(ng[i] == old_games[i]);
                } else {
                    assert(ng[i][j] == moves@[start + j]);
                }
            }
        }
        if start < moves.len() {
            let m = moves[start];
            let k = m.code();
            let removed = self.children.remove(&k);
            let (mut child, cnt) = match removed {
                Some(e) => (e.1, e.2),
                None => (OpeningNode::new(), 0u32),
            };
            proof {
                lemma_after_move_len(old_games, m);
                assert(g.drop_first() == moves@.skip(start + 1));
                lemma_fits_child(old_games, g);
                if old_children.contains_key(k) {
                    lemma_code_injective(old_children[k].0, m);
                } else {
                    assert(games_after_move(old_games, m) == Seq::<Seq<UciMove>>::empty());
                }
            }
            child.insert_from(moves, start + 1);
            self.children.insert(k, (m, child, cnt + 1));
            proof {
                assert(g.len() > 0 && g[0] == m);
                assert(g.drop_first() == moves@.skip(start + 1));
                lemma_push(old_games, g, m);
            }
        } else {
            assert(g.len() == 0);
        }
        self.games = Ghost(old_games.push(g));
        proof {
            let ng = old_games.push(g);
            assert forall|k2: u32| #[trigger] self.children@.contains_key(k2) implies {
                let e = self.children@[k2];
                &&& k2 == e.0.spec_code()
                &&& e.0.wf()
                &&& e.2 > 0
                &&& e.2 == count_first(ng, e.0)
                &&& e.1.games@ == games_after_move(ng, e.0)
                &&& e.1.wf()
            } by {
                let e = self.children@[k2];
                if g.len() > 0 && k2 == g[0].spec_code() {
                } else {
                    assert(old_children.contains_key(k2));
                    assert(e == old_children[k2]);
                    lemma_push(old_games, g, e.0);
                    if g.len() > 0 && g[0] == e.0 {
                        assert(false);
                    }
                }
            }
            assert forall|m2: UciMove|
                m2.wf() && count_first(ng, m2) > 0 implies #[trigger] self.children@.contains_key(
                m2.spec_code(),
            ) by {
                lemma_push(old_games, g, m2);
                if g.len() > 0 && g[0] == m2 {
                } else {
                    assert(old_children.contains_key(m2.spec_code()));
                    if g.len() > 0 && m2.spec_code() == g[0].spec_code() {
                        lemma_code_injective(m2, g[0]);
                    }
                }
            }
        }
    }

    /// The node reached by walking `history`, if the book goes that far; when
    /// it does not, no game begins with `history`.
    fn walk(&self, history: &[UciMove]) -> (r: Option<&OpeningNode>)
        requires
            self.wf(),
            forall|i: int| 0 <= i < history@.len() ==> (#[trigger] history@[i]).wf(),
        ensures
            match r {
                Some(n) => n.wf() && n@ == games_after(self@, history@),
                None => games_after(self@, history@) == Seq::<Seq<UciMove>>::empty(),
            },
    {
        let mut node = self;
        let mut i: usize = 0;
        assert(history@.take(0) == Seq::<UciMove>::empty());
        while i < history.len()
            invariant
                0 <= i <= history@.len(),
                node.wf(),
                node@ == games_after(self@, history@.take(i as int)),
                forall|j: int| 0 <= j < history@.len() ==> (#[trigger] history@[j]).wf(),
            decreases history@.len() - i,
        {
            let m = history[i];
            proof {
                assert(history@.take(i + 1) == history@.take(i as int).push(m));
                lemma_after_push(self@, history@.take(i as int), m);
            }
            match node.children.get(&m.code()) {
                Some(e) => {
                    proof {
                        lemma_code_injective(e.0, m);
                    }
                    node = &e.1;
                },
                None => {
                    proof {
                        lemma_after_move_len(node@, m);
                        let after = games_after_move(node@, m);
                        assert(after == Seq::<Seq<UciMove>>::empty());
                        assert(history@ == history@.take(i + 1) + history@.skip(i + 1));
                        lemma_after_concat(self@, history@.take(i + 1), history@.skip(i + 1));
                        lemma_empty_after(history@.skip(i + 1));
                    }
                    return None;
                },
            }
            i += 1;
        }
        assert(history@.take(history@.len() as int) == history@);
        Some(node)
    }

    /// Walks the book along `history` and returns every recorded continuation
    /// from the reached node together with how often it has been played.
    ///
    /// Returns `None` if the history leaves the book or the reached node has
    /// no recorded continuations.
    pub fn lookup(&self, history: &[UciMove]) -> (r: Option<Vec<(UciMove, u32)>>)
        requires
            self.wf(),
            forall|i: int| 0 <= i < history@.len() ==> (#[trigger] history@[i]).wf(),
        ensures
            match r {
                None => continuing(games_after(self@, history@)) == 0,
                Some(v) => continuing(games_after(self@, history@)) > 0 && lists_counts(
                    v@,
                    games_after(self@, history@),
                ) && forall|i: int| 0 <= i < v@.len() ==> (#[trigger] v@[i]).0.wf(),
            },
    {
        let node = match self.walk(history) {
            Some(n) => n,
            None => {
                return None;
            },
        };
        let ghost games = node@;
        if node.children.is_empty() {
            proof {
                if continuing(games) > 0 {
                    lemma_continuing_witness(games);
                    let i = choose|i: int| 0 <= i < games.len() && games[i].len() > 0 && count_first(games, games[i][0]) > 0;
                    assert(games[i][0].wf());
                    assert(node.children@.contains_key(games[i][0].spec_code()));
                }
            }
            return None;
        }
        let mut v: Vec<(UciMove, u32)> = Vec::new();
        let iter = node.children.iter();
        let ghost entries = iter.remaining();
        for e in it: iter
            invariant
                node.wf(),
                it.seq() == entries,
                v@.len() == it.index(),
                forall|j: int| 0 <= j < it.index() ==> #[trigger] v@[j] == (entries[j].1.0, entries[j].1.2),
        {
            v.push((e.1.0, e.1.2));
        }
        proof {
            node.lemma_entries(entries);
            assert(games == games_after(self@, history@));
            assert(v@ == entries.map_values(|p: (&u32, &(UciMove, OpeningNode, u32))| (p.1.0, p.1.2)));
            assert(node.children@.dom().len() > 0);
            assert(entries.len() > 0);
            assert(v@.len() > 0);
            assert(v@[0].1 == count_first(games, v@[0].0) && v@[0].1 > 0);
            lemma_after_move_len(games, v@[0].0);
            assert(continuing(games) > 0);
            assert(lists_counts(v@, games));
            assert forall|i: int| 0 <= i < v@.len() implies (#[trigger] v@[i]).0.wf() by {
                assert(v@[i].1 == count_first(games, v@[i].0) && v@[i].1 > 0);
                if !v@[i].0.wf() {
                    lemma_count_first_wf(games, v@[i].0);
                }
            }
        }
        Some(v)
    }

    /// Total number of times any continuation has been played from the node
    /// reached by walking `history`; the total must fit in `u32`.
    pub fn count(&self, history: &[UciMove]) -> (n: u32)
        requires
            self.wf(),
            forall|i: int| 0 <= i < history@.len() ==> (#[trigger] history@[i]).wf(),
            continuing(games_after(self@, history@)) <= u32::MAX,
        ensures
            n == continuing(games_after(self@, history@)),
    {
        self.count_checked(history).unwrap()
    }

    /// The total that `count` gives, or `None` when it does not fit in `u32`.
    pub fn count_checked(&self, history: &[UciMove]) -> (r: Option<u32>)
        requires
            self.wf(),
            forall|i: int| 0 <= i < history@.len() ==> (#[trigger] history@[i]).wf(),
        ensures
            r == if continuing(games_after(self@, history@)) <= u32::MAX {
                Some(continuing(games_after(self@, history@)) as u32)
            } else {
                None::<u32>
            },
    {
        let node = match self.walk(history) {
            Some(n) => n,
            None => {
                return Some(0);
            },
        };
        let ghost games = node@;
        let iter = node.children.iter();
        let ghost entries = iter.remaining();
        let ghost moves = entries.map_values(|p: (&u32, &(UciMove, OpeningNode, u32))| p.1.0);
        proof {
            node.lemma_entries(entries);
            lemma_sum_total(games, moves);
        }
        let mut total: u64 = 0;
        for e in it: iter
            invariant
                node.wf(),
                games == node@,
                it.seq() == entries,
                moves == entries.map_values(|p: (&u32, &(UciMove, OpeningNode, u32))| p.1.0),
                forall|j: int| 0 <= j < entries.len() ==> #[trigger] entries[j].1.2 == count_first(games, entries[j].1.0),
                sum_first(games, moves) == continuing(games),
                0 <= it.index() <= entries.len(),
                total == sum_first(games, moves.take(it.index())),
                total <= u32::MAX,
                games == games_after(self@, history@),
        {
            proof {
                let i = it.index();
                assert(moves.take(i + 1).drop_last() == moves.take(i));
                lemma_sum_prefix(games, moves, i + 1);
            }
            total = total + e.1.2 as u64;
            if total > 4294967295u64 {
                return None;
            }
        }
        assert(moves.take(entries.len() as int) == moves);
        Some(total as u32)
    }

    /// What iterating over the children yields: each entry once, every entry.
    proof fn lemma_entries(&self, entries: Seq<(&u32, &(UciMove, OpeningNode, u32))>)
        requires
            self.wf(),
            entries == self.children.iter().remaining(),
            entries.no_duplicates(),
        ensures
            lists_counts(entries.map_values(|p: (&u32, &(UciMove, OpeningNode, u32))| (p.1.0, p.1.2)), self@),
            entries.map_values(|p: (&u32, &(UciMove, OpeningNode, u32))| p.1.0).no_duplicates(),
            forall|j: int| 0 <= j < entries.len() ==> #[trigger] entries[j].1.2 == count_first(self@, entries[j].1.0),
            forall|i: int| 0 <= i < self@.len() && self@[i].len() > 0 ==> entries.map_values(
                |p: (&u32, &(UciMove, OpeningNode, u32))| p.1.0).contains(#[trigger] self@[i][0]),
    {
        let m = self.children@;
        let games = self@;
        let v = entries.map_values(|p: (&u32, &(UciMove, OpeningNode, u32))| (p.1.0, p.1.2));
        let moves = entries.map_values(|p: (&u32, &(UciMove, OpeningNode, u32))| p.1.0);
        assert forall|j: int| 0 <= j < entries.len() implies #[trigger] entries[j].1.2 == count_first(games, entries[j].1.0)
            && entries[j].1.2 > 0 && entries[j].1.0.wf() && m.contains_key(*entries[j].0)
            && *entries[j].0 == entries[j].1.0.spec_code() by {
            assert(m.contains_key(*entries[j].0));
        }
        assert forall|i: int, j: int| 0 <= i < j < entries.len() implies #[trigger] moves[i] != #[trigger] moves[j] by {
            if moves[i] == moves[j] {
                assert(moves[i] == entries[i].1.0);
                assert(moves[j] == entries[j].1.0);
                assert(entries[i].1.2 == count_first(games, entries[i].1.0));
                assert(entries[j].1.2 == count_first(games, entries[j].1.0));
                assert(entries[i].1.0 == entries[j].1.0);
                assert(*entries[i].0 == *entries[j].0);
                assert(entries[i] == entries[j]);
            }
        }
        assert(moves.no_duplicates());
        assert forall|mv: UciMove| count_first(games, mv) > 0 implies exists|i: int|
            0 <= i < v.len() && #[trigger] v[i].0 == mv by {
            if !mv.wf() {
                lemma_count_first_wf(games, mv);
            }
            let k = mv.spec_code();
            assert(m.contains_key(k));
            assert(entries.contains((&k, &m[k])));
            let j = choose|j: int| 0 <= j < entries.len() && entries[j] == (&k, &m[k]);
            lemma_code_injective(m[k].0, mv);
            assert(v[j].0 == mv);
        }
        assert forall|i: int| 0 <= i < games.len() && games[i].len() > 0 implies moves.contains(#[trigger] games[i][0]) by {
            let mv = games[i][0];
            lemma_count_first_member(games, i);
            let j = choose|j: int| 0 <= j < v.len() && #[trigger] v[j].0 == mv;
            assert(moves[j] == mv);
        }
    }
}

impl Default for OpeningNode {
    /// An empty book.
    fn default() -> (node: OpeningNode)
        ensures
            node.wf(),
            node@ == Seq::<Seq<UciMove>>::empty(),
    {
        OpeningNode::new()
    }
}

} // verus!
