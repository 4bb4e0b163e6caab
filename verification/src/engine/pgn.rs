//! PGN reading: turn the games of a PGN file (SAN move text) into the
//! labelled UCI move histories the bot consumes.
//!
//! The PGN syntax is read by `pgn-reader`, which reports tags and moves one at
//! a time; what is kept of them is decided here. Each output line is
//! `white_name|black_name|uci1,uci2,...`, missing tags become empty fields.

use vstd::prelude::*;
use vstd::string::{StrSliceExecFns, StringExecFns};
use crate::position::{Position, start_fen, spec_play, spec_san_move};
use crate::text::{chars_of, spec_split};

verus! {

/// `s` without its `|` characters.
pub open spec fn without_bars(s: Seq<char>) -> Seq<char>
    decreases s.len(),
{
    if s.len() == 0 {
        Seq::empty()
    } else if s.last() == '|' {
        without_bars(s.drop_last())
    } else {
        without_bars(s.drop_last()).push(s.last())
    }
}

/// The parts joined with `sep` between each two, as `[String]::join` does.
pub open spec fn join(parts: Seq<Seq<char>>, sep: char) -> Seq<char>
    decreases parts.len(),
{
    if parts.len() == 0 {
        Seq::empty()
    } else if parts.len() == 1 {
        parts[0]
    } else {
        join(parts.drop_last(), sep).push(sep) + parts.last()
    }
}

/// The texts of a list of strings.
pub open spec fn texts(v: Seq<String>) -> Seq<Seq<char>> {
    v.map_values(|s: String| s@)
}

/// Appends `s` without its `|` characters to `out`.
fn append_without_bars(out: &mut String, s: &str)
    ensures
        final(out)@ == old(out)@ + without_bars(s@),
{
    let chars = chars_of(s);
    let n = chars.len();
    let mut start: usize = 0;
    let ghost base = out@;
    for i in 0..n
        invariant
            chars@ == s@,
            n == s@.len(),
            start <= i,
            out@ == base + without_bars(s@.take(start as int)),
            forall|k: int| start <= k < i ==> s@[k] != '|',
            without_bars(s@.take(i as int)) == without_bars(s@.take(start as int)) + s@.subrange(
                start as int,
                i as int,
            ),
    {
        proof {
            assert(s@.take(i + 1).drop_last() == s@.take(i as int));
            assert(s@.take(i + 1).last() == s@[i as int]);
        }
        if chars[i] == '|' {
            out.append(s.substring_char(start, i));
            assert(s@.subrange(start as int, i as int) + Seq::<char>::empty() == s@.subrange(start as int, i as int));
            start = i + 1;
            assert(s@.subrange(start as int, i + 1) == Seq::<char>::empty());
            assert(without_bars(s@.take(start as int)) == without_bars(s@.take(i as int)));
        } else {
            assert(s@.subrange(start as int, i + 1) == s@.subrange(start as int, i as int).push(s@[i as int]));
        }
    }
    out.append(s.substring_char(start, n));
    assert(s@.take(n as int) == s@);
}


/// A name is written with every character but `|` kept, in order; a name
/// without `|` is written unchanged.
pub proof fn law_without_bars(s: Seq<char>)
    ensures
        without_bars(s) == s.filter(|c: char| c != '|'),
        lacks(s, '|') ==> without_bars(s) == s,
    decreases s.len(),
{
    reveal(Seq::filter);
    if s.len() > 0 {
        law_without_bars(s.drop_last());
        if lacks(s, '|') {
            assert(lacks(s.drop_last(), '|')) by {
                assert forall|i: int| 0 <= i < s.drop_last().len() implies s.drop_last()[i] != '|' by {
                    assert(s.drop_last()[i] == s[i]);
                }
            }
            assert(s.last() == s[s.len() - 1]);
            assert(s.drop_last().push(s.last()) == s);
        }
    }
}

/// `s` holds no `c`.
pub open spec fn lacks(s: Seq<char>, c: char) -> bool {
    forall|i: int| 0 <= i < s.len() ==> s[i] != c
}

/// The line written for a game with these names and move texts.
pub open spec fn line_of(white: Seq<char>, black: Seq<char>, moves: Seq<Seq<char>>) -> Seq<char> {
    without_bars(white) + seq!['|'] + without_bars(black) + seq!['|'] + join(moves, ',')
}

proof fn lemma_without_bars_lacks(s: Seq<char>)
    ensures
        lacks(without_bars(s), '|'),
    decreases s.len(),
{
    if s.len() > 0 {
        lemma_without_bars_lacks(s.drop_last());
    }
}

proof fn lemma_join_lacks(parts: Seq<Seq<char>>, sep: char, c: char)
    requires
        sep != c,
        forall|i: int| 0 <= i < parts.len() ==> lacks(#[trigger] parts[i], c),
    ensures
        lacks(join(parts, sep), c),
    decreases parts.len(),
{
    if parts.len() > 1 {
        let init = parts.drop_last();
        assert forall|i: int| 0 <= i < init.len() implies lacks(#[trigger] init[i], c) by {
            assert(init[i] == parts[i]);
        }
        lemma_join_lacks(init, sep, c);
        assert(lacks(parts[parts.len() - 1], c));
    } else if parts.len() == 1 {
        assert(lacks(parts[0], c));
    }
}

proof fn lemma_split_plain(a: Seq<char>, sep: char)
    requires
        lacks(a, sep),
    ensures
        spec_split(a, sep) == seq![a],
    decreases a.len(),
{
    if a.len() > 0 {
        let a0 = a.drop_last();
        assert forall|i: int| 0 <= i < a0.len() implies a0[i] != sep by {
            assert(a0[i] == a[i]);
        }
        lemma_split_plain(a0, sep);
        assert(a.last() == a[a.len() - 1]);
        assert(a0.push(a.last()) == a);
        assert(seq![a0].update(0, a0.push(a.last())) == seq![a]);
    } else {
        assert(a == Seq::<char>::empty());
    }
}

proof fn lemma_split_concat(a: Seq<char>, b: Seq<char>, sep: char)
    requires
        lacks(a, sep),
    ensures
        spec_split(a.push(sep) + b, sep) == seq![a] + spec_split(b, sep),
    decreases b.len(),
{
    let whole = a.push(sep) + b;
    if b.len() == 0 {
        assert(whole == a.push(sep));
        assert(whole.drop_last() == a);
        lemma_split_plain(a, sep);
        assert(b == Seq::<char>::empty());
    } else {
        let b0 = b.drop_last();
        lemma_split_concat(a, b0, sep);
        assert(whole.drop_last() == a.push(sep) + b0);
        assert(whole.last() == b.last());
        crate::text::lemma_split_nonempty(b0, sep);
        let sb0 = spec_split(b0, sep);
        if b.last() != sep {
            assert((seq![a] + sb0).update(sb0.len() as int, sb0.last().push(b.last())) == seq![a] + sb0.update(
                sb0.len() - 1,
                sb0.last().push(b.last()),
            ));
        } else {
            assert((seq![a] + sb0).push(Seq::<char>::empty()) == seq![a] + sb0.push(Seq::<char>::empty()));
        }
    }
}

/// The line of a game splits at `|` into exactly three fields: the white
/// name, the black name (each without its `|` characters), and the moves
/// joined with commas, as long as no move text holds a `|` (no UCI move
/// does).
pub proof fn law_line_fields(white: Seq<char>, black: Seq<char>, moves: Seq<Seq<char>>)
    requires
        forall|i: int| 0 <= i < moves.len() ==> lacks(#[trigger] moves[i], '|'),
    ensures
        spec_split(line_of(white, black, moves), '|') == seq![without_bars(white), without_bars(black), join(moves, ',')],
{
    let w = without_bars(white);
    let b = without_bars(black);
    let j = join(moves, ',');
    lemma_without_bars_lacks(white);
    lemma_without_bars_lacks(black);
    lemma_join_lacks(moves, ',', '|');
    assert(line_of(white, black, moves) == w.push('|') + (b.push('|') + j));
    lemma_split_concat(w, b.push('|') + j, '|');
    lemma_split_concat(b, j, '|');
    lemma_split_plain(j, '|');
}

/// Splitting moves joined with commas at the commas gives the moves back,
/// as long as there is at least one and none holds a comma; with
/// `law_line_fields`, the third field of a game's line splits at `,` into
/// exactly its moves.
pub proof fn law_line_moves(moves: Seq<Seq<char>>)
    requires
        moves.len() > 0,
        forall|i: int| 0 <= i < moves.len() ==> lacks(#[trigger] moves[i], ','),
    ensures
        spec_split(join(moves, ','), ',') == moves,
    decreases moves.len(),
{
    if moves.len() == 1 {
        lemma_split_plain(moves[0], ',');
        assert(seq![moves[0]] == moves);
    } else {
        let init = moves.drop_last();
        assert forall|i: int| 0 <= i < init.len() implies lacks(#[trigger] init[i], ',') by {
            assert(init[i] == moves[i]);
        }
        law_line_moves(init);
        crate::text::lemma_split_append(join(init, ','), moves.last(), ',');
        assert(lacks(moves[moves.len() - 1], ','));
        lemma_split_plain(moves.last(), ',');
        assert(init + seq![moves.last()] == moves);
    }
}

/// The text of a well-formed UCI move holds no `|`.
pub proof fn lemma_uci_text_lacks_bar(m: crate::uci::UciMove)
    requires
        m.wf(),
    ensures
        lacks(m.text(), '|'),
{
}

/// One game's output: the player names and the moves in UCI notation.
pub struct GameOutput {
    pub white: String,
    pub black: String,
    pub moves: Vec<String>,
}

impl GameOutput {
    /// Serialize as `white|black|uci,uci,...`. Any `|` in a name is stripped so
    /// the format stays parseable by a simple `split('|')`.
    pub fn to_line(&self) -> (line: String)
        ensures
            line@ == line_of(self.white@, self.black@, texts(self.moves@)),
    {
        let mut line = String::new();
        proof {
            reveal_strlit("|");
            reveal_strlit(",");
        }
        append_without_bars(&mut line, self.white.as_str());
        line.append("|");
        append_without_bars(&mut line, self.black.as_str());
        line.append("|");
        let ghost head = line@;
        let n = self.moves.len();
        for i in 0..n
            invariant
                n == self.moves@.len(),
                line@ == head + join(texts(self.moves@.take(i as int)), ','),
        {
            proof {
                reveal_strlit(",");
                let parts = texts(self.moves@.take(i + 1));
                assert(parts.drop_last() == texts(self.moves@.take(i as int)));
                assert(parts.last() == self.moves@[i as int]@);
            }
            if i > 0 {
                line.append(",");
            } else {
                assert(texts(self.moves@.take(0)) == Seq::<Seq<char>>::empty());
            }
            line.append(self.moves[i].as_str());
        }
        assert(self.moves@.take(n as int) == self.moves@);
        line
    }
}

/// Adds the line of a finished game, if it has moves; games with no parsed
/// moves are skipped.
pub fn push_game_line(lines: &mut Vec<String>, game: Option<GameOutput>)
    ensures
        match game {
            Some(g) => if g.moves@.len() > 0 {
                exists|line: String| #[trigger] final(lines)@ == old(lines)@.push(line) && line@
                    == line_of(g.white@, g.black@, texts(g.moves@))
            } else {
                final(lines)@ == old(lines)@
            },
            None => final(lines)@ == old(lines)@,
        },
{
    if let Some(g) = game {
        if g.moves.len() > 0 {
            let line = g.to_line();
            lines.push(line);
        }
    }
}

/// The player-name tags read so far.
pub struct TagState {
    pub white: String,
    pub black: String,
}

impl TagState {
    /// No tags read yet.
    pub fn new() -> (t: TagState)
        ensures
            t.white@ == Seq::<char>::empty(),
            t.black@ == Seq::<char>::empty(),
    {
        TagState { white: String::new(), black: String::new() }
    }

    /// Keeps the value of a `White` or `Black` tag; other tags are ignored.
    pub fn tag(&mut self, name: &[u8], value: String)
        ensures
            name@ == seq![87u8, 104, 105, 116, 101] ==> final(self).white@ == value@ && final(self).black == old(self).black,
            name@ == seq![66u8, 108, 97, 99, 107] ==> final(self).black@ == value@ && final(self).white == old(self).white,
            name@ != seq![87u8, 104, 105, 116, 101] && name@ != seq![66u8, 108, 97, 99, 107] ==> *final(self) == *old(self),
    {
        if bytes_eq(name, &[87u8, 104, 105, 116, 101]) {
            self.white = value;
        } else if bytes_eq(name, &[66u8, 108, 97, 99, 107]) {
            self.black = value;
        }
    }
}

/// Whether two byte strings are equal.
fn bytes_eq(a: &[u8], b: &[u8]) -> (r: bool)
    ensures
        r == (a@ == b@),
{
    if a.len() != b.len() {
        return false;
    }
    let mut i: usize = 0;
    while i < a.len()
        invariant
            a@.len() == b@.len(),
            0 <= i <= a@.len(),
            forall|k: int| 0 <= k < i ==> a@[k] == b@[k],
        decreases a@.len() - i,
    {
        if a[i] != b[i] {
            return false;
        }
        i += 1;
    }
    assert(a@ == b@);
    true
}

/// A game being replayed: the running position, the UCI moves so far, and
/// the player names.
pub struct GameState {
    pos: Position,
    moves: Vec<String>,
    white: String,
    black: String,
}

impl GameState {
    /// The FEN of the running position.
    pub closed spec fn fen(&self) -> Seq<char> {
        self.pos@
    }

    /// The UCI moves so far.
    pub closed spec fn moves(&self) -> Seq<Seq<char>> {
        texts(self.moves@)
    }

    /// The player names.
    pub closed spec fn names(&self) -> (Seq<char>, Seq<char>) {
        (self.white@, self.black@)
    }

    /// The move text begins: the starting position, no moves, the names
    /// from the tags.
    pub fn begin_movetext(tags: TagState) -> (g: GameState)
        ensures
            g.fen() == start_fen(),
            g.moves() == Seq::<Seq<char>>::empty(),
            g.names() == (tags.white@, tags.black@),
    {
        let g = GameState { pos: Position::start(), moves: Vec::new(), white: tags.white, black: tags.black };
        assert(g.moves() == Seq::<Seq<char>>::empty());
        g
    }

    /// Replays one SAN move and records it in UCI notation. Returns whether
    /// the move was legal; an illegal or ambiguous move ends the game and
    /// changes nothing.
    pub fn san(&mut self, san: &str) -> (ok: bool)
        ensures
            match spec_san_move(old(self).fen(), san@) {
                Some(k) => ok && final(self).fen() == spec_play(old(self).fen(), k)
                    && final(self).moves() == old(self).moves().push(k.uci().text())
                    && final(self).names() == old(self).names(),
                None => !ok && final(self).fen() == old(self).fen() && final(self).moves() == old(self).moves()
                    && final(self).names() == old(self).names(),
            },
    {
        match self.pos.san_to_move(san) {
            Some(m) => {
                let u = m.to_uci();
                proof {
                    crate::position::lemma_uci_wf(m@);
                }
                let text = u.to_uci_string();
                self.moves.push(text);
                self.pos = self.pos.play(&m);
                proof {
                    assert(texts(self.moves@) == texts(old(self).moves@).push(u.text()));
                }
                true
            },
            None => false,
        }
    }

    /// The game's output: the names and the UCI moves.
    pub fn finish(self) -> (out: GameOutput)
        ensures
            out.white@ == self.names().0,
            out.black@ == self.names().1,
            texts(out.moves@) == self.moves(),
    {
        GameOutput { white: self.white, black: self.black, moves: self.moves }
    }
}

} // verus!
