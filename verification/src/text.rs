//! Character-level text handling: splitting at a separator and trimming
//! white space, stated over sequences of characters.

use vstd::prelude::*;

verus! {

/// Whether a character has the Unicode `White_Space` property, which is what
/// `char::is_whitespace` reports: tab, line feed, vertical tab, form feed,
/// carriage return, space, next line, no-break space, ogham space mark, the
/// spaces from en quad to hair space, line and paragraph separators, narrow
/// no-break space, medium mathematical space and ideographic space.
pub open spec fn spec_is_whitespace(c: char) -> bool {
    let u = c as u32;
    (0x9 <= u <= 0xD) || u == 0x20 || u == 0x85 || u == 0xA0 || u == 0x1680 || (0x2000 <= u <= 0x200A)
        || u == 0x2028 || u == 0x2029 || u == 0x202F || u == 0x205F || u == 0x3000
}

/// Whether a character is white space, as `char::is_whitespace` says.
pub fn is_whitespace(c: char) -> (b: bool)
    ensures
        b == spec_is_whitespace(c),
{
    let u = c as u32;
    (0x9 <= u && u <= 0xD) || u == 0x20 || u == 0x85 || u == 0xA0 || u == 0x1680 || (0x2000 <= u && u <= 0x200A)
        || u == 0x2028 || u == 0x2029 || u == 0x202F || u == 0x205F || u == 0x3000
}

/// `s` with its leading white space removed.
pub open spec fn trim_start(s: Seq<char>) -> Seq<char>
    decreases s.len(),
{
    if s.len() > 0 && spec_is_whitespace(s[0]) {
        trim_start(s.drop_first())
    } else {
        s
    }
}

/// `s` with its trailing white space removed.
pub open spec fn trim_end(s: Seq<char>) -> Seq<char>
    decreases s.len(),
{
    if s.len() > 0 && spec_is_whitespace(s.last()) {
        trim_end(s.drop_last())
    } else {
        s
    }
}

/// `s` with leading and trailing white space removed, as `str::trim` does.
pub open spec fn spec_trim(s: Seq<char>) -> Seq<char> {
    trim_end(trim_start(s))
}

/// The pieces of `s` between occurrences of `sep`, as `str::split` yields
/// them: always at least one piece, empty pieces included.
pub open spec fn spec_split(s: Seq<char>, sep: char) -> Seq<Seq<char>>
    decreases s.len(),
{
    if s.len() == 0 {
        seq![Seq::empty()]
    } else {
        let init = spec_split(s.drop_last(), sep);
        if s.last() == sep {
            init.push(Seq::empty())
        } else {
            init.update(init.len() - 1, init.last().push(s.last()))
        }
    }
}

/// There is always at least one piece.
pub proof fn lemma_split_nonempty(s: Seq<char>, sep: char)
    ensures
        spec_split(s, sep).len() >= 1,
    decreases s.len(),
{
    if s.len() > 0 {
        lemma_split_nonempty(s.drop_last(), sep);
    }
}

/// Splitting two texts joined by the separator gives the pieces of the first
/// followed by the pieces of the second.
pub proof fn lemma_split_append(a: Seq<char>, b: Seq<char>, sep: char)
    ensures
        spec_split(a.push(sep) + b, sep) == spec_split(a, sep) + spec_split(b, sep),
    decreases b.len(),
{
    let w = a.push(sep) + b;
    if b.len() == 0 {
        assert(w == a.push(sep));
        assert(w.drop_last() == a);
        assert(spec_split(a, sep).push(Seq::empty()) == spec_split(a, sep) + seq![Seq::<char>::empty()]);
    } else {
        let b0 = b.drop_last();
        let c = b.last();
        lemma_split_append(a, b0, sep);
        assert(w.drop_last() == a.push(sep) + b0);
        assert(w.last() == c);
        lemma_split_nonempty(b0, sep);
        let x = spec_split(a, sep);
        let y = spec_split(b0, sep);
        if c == sep {
            assert((x + y).push(Seq::empty()) == x + y.push(Seq::empty()));
        } else {
            assert((x + y).update((x + y).len() - 1, (x + y).last().push(c)) == x + y.update(
                y.len() - 1,
                y.last().push(c),
            ));
        }
    }
}

proof fn lemma_trim_start_skip(s: Seq<char>, i: int)
    requires
        0 <= i <= s.len(),
        forall|k: int| 0 <= k < i ==> spec_is_whitespace(#[trigger] s[k]),
    ensures
        trim_start(s) == trim_start(s.skip(i)),
    decreases i,
{
    if i > 0 {
        assert(s.skip(1) == s.drop_first());
        lemma_trim_start_skip(s.drop_first(), i - 1);
        assert(s.drop_first().skip(i - 1) == s.skip(i));
    } else {
        assert(s.skip(0) == s);
    }
}

proof fn lemma_trim_end_take(s: Seq<char>, j: int)
    requires
        0 <= j <= s.len(),
        forall|k: int| j <= k < s.len() ==> spec_is_whitespace(#[trigger] s[k]),
    ensures
        trim_end(s) == trim_end(s.take(j)),
    decreases s.len() - j,
{
    if j < s.len() {
        assert(s.drop_last() == s.take(s.len() - 1));
        lemma_trim_end_take(s.drop_last(), j);
        assert(s.drop_last().take(j) == s.take(j));
    } else {
        assert(s.take(j) == s);
    }
}

/// The characters of a string.
pub fn chars_of(s: &str) -> (v: Vec<char>)
    ensures
        v@ == s@,
{
    let mut v: Vec<char> = Vec::new();
    for c in it: s.chars()
        invariant
            v@ == it.seq().take(it.index() as int),
            it.seq() == s@,
    {
        v.push(c);
    }
    v
}

/// The bounds of `s[a..b]` with leading and trailing white space removed.
pub fn trim_bounds(s: &[char], a: usize, b: usize) -> (r: (usize, usize))
    requires
        a <= b <= s@.len(),
    ensures
        a <= r.0 <= r.1 <= b,
        s@.subrange(r.0 as int, r.1 as int) == spec_trim(s@.subrange(a as int, b as int)),
{
    let ghost piece = s@.subrange(a as int, b as int);
    let mut i: usize = a;
    while i < b && is_whitespace(s[i])
        invariant
            a <= i <= b <= s@.len(),
            piece == s@.subrange(a as int, b as int),
            forall|k: int| 0 <= k < i - a ==> spec_is_whitespace(#[trigger] piece[k]),
        decreases b - i,
    {
        i += 1;
    }
    proof {
        lemma_trim_start_skip(piece, i - a);
        assert(piece.skip(i - a) == s@.subrange(i as int, b as int));
        if i < b {
            assert(piece.skip(i - a)[0] == s@[i as int]);
        }
    }
    let ghost rest = s@.subrange(i as int, b as int);
    assert(trim_start(piece) == rest);
    let mut j: usize = b;
    while j > i && is_whitespace(s[j - 1])
        invariant
            a <= i <= j <= b <= s@.len(),
            rest == s@.subrange(i as int, b as int),
            forall|k: int| j - i <= k < rest.len() ==> spec_is_whitespace(#[trigger] rest[k]),
        decreases j,
    {
        j -= 1;
    }
    proof {
        lemma_trim_end_take(rest, j - i);
        if j > i {
            assert(rest.take(j - i).last() == s@[j - 1]);
        }
        assert(rest.take(j - i) == s@.subrange(i as int, j as int));
    }
    (i, j)
}

/// The bounds of the pieces of `s` between occurrences of `sep`.
pub fn split_bounds(s: &[char], sep: char) -> (pieces: Vec<(usize, usize)>)
    ensures
        pieces@.len() == spec_split(s@, sep).len(),
        forall|i: int| 0 <= i < pieces@.len() ==> {
            &&& (#[trigger] pieces@[i]).0 <= pieces@[i].1 <= s@.len()
            &&& s@.subrange(pieces@[i].0 as int, pieces@[i].1 as int) == spec_split(s@, sep)[i]
        },
{
    let mut pieces: Vec<(usize, usize)> = Vec::new();
    let mut start: usize = 0;
    let n = s.len();
    for i in 0..n
        invariant
            n == s@.len(),
            start <= i,
            pieces@.len() + 1 == spec_split(s@.take(i as int), sep).len(),
            forall|k: int| 0 <= k < pieces@.len() ==> {
                &&& (#[trigger] pieces@[k]).0 <= pieces@[k].1 <= i
                &&& s@.subrange(pieces@[k].0 as int, pieces@[k].1 as int) == spec_split(s@.take(i as int), sep)[k]
            },
            s@.subrange(start as int, i as int) == spec_split(s@.take(i as int), sep).last(),
    {
        let c = s[i];
        proof {
            assert(s@.take(i + 1).drop_last() == s@.take(i as int));
            assert(s@.take(i + 1).last() == c);
            lemma_split_nonempty(s@.take(i as int), sep);
        }
        if c == sep {
            pieces.push((start, i));
            start = i + 1;
            assert(s@.subrange(start as int, i + 1) == Seq::<char>::empty());
        } else {
            assert(s@.subrange(start as int, i + 1) == s@.subrange(start as int, i as int).push(c));
        }
    }
    assert(s@.take(n as int) == s@);
    pieces.push((start, n));
    pieces
}

} // verus!
