//! Character sequences: searching, splitting and trimming, with their executable
//! counterparts on `&str`.

use vstd::prelude::*;
use vstd::string::StrSliceExecFns;

verus! {

/// The number of characters of `s` that stand before the first occurrence of `c`:
/// the length of `s` where `c` does not occur.
pub open spec fn first_index(s: Seq<char>, c: char) -> nat
    decreases s.len(),
{
    if s.len() == 0 || s[0] == c {
        0
    } else {
        1 + first_index(s.drop_first(), c)
    }
}

/// The number of characters of `s` that stand before the last occurrence of `c`:
/// the length of `s` where `c` does not occur.
pub open spec fn last_index(s: Seq<char>, c: char) -> nat
    decreases s.len(),
{
    if s.len() == 0 {
        0
    } else if s.last() == c {
        (s.len() - 1) as nat
    } else {
        let before = last_index(s.drop_last(), c);
        if before == s.len() - 1 {
            s.len()
        } else {
            before
        }
    }
}

/// The pieces of `s` between the occurrences of `sep`, in order. There is always
/// at least one piece, and a piece may be empty.
pub open spec fn split_on(s: Seq<char>, sep: char) -> Seq<Seq<char>>
    decreases s.len(),
{
    let i = first_index(s, sep) as int;
    if i >= s.len() {
        seq![s]
    } else {
        seq![s.take(i)] + split_on(s.skip(i + 1), sep)
    }
}

/// The pieces one after another, each followed by `sep`.
pub open spec fn suffix_each(pieces: Seq<Seq<char>>, sep: char) -> Seq<char>
    decreases pieces.len(),
{
    if pieces.len() == 0 {
        Seq::empty()
    } else {
        suffix_each(pieces.drop_last(), sep) + pieces.last() + seq![sep]
    }
}

/// `first_index` is a position in `s`, or its length; no earlier character is `c`,
/// and the character there is.
pub proof fn lemma_first_index(s: Seq<char>, c: char)
    ensures
        first_index(s, c) <= s.len(),
        forall|k: int| 0 <= k < first_index(s, c) ==> s[k] != c,
        first_index(s, c) < s.len() ==> s[first_index(s, c) as int] == c,
    decreases s.len(),
{
    if s.len() == 0 || s[0] == c {
    } else {
        lemma_first_index(s.drop_first(), c);
        assert forall|k: int| 0 <= k < first_index(s, c) implies s[k] != c by {
            if k > 0 {
                assert(s[k] == s.drop_first()[k - 1]);
            }
        }
    }
}

/// A position whose character is `c`, with none before it, is `first_index`.
pub proof fn lemma_first_index_is(s: Seq<char>, c: char, i: int)
    requires
        0 <= i <= s.len(),
        forall|k: int| 0 <= k < i ==> s[k] != c,
        i < s.len() ==> s[i] == c,
    ensures
        first_index(s, c) == i,
{
    lemma_first_index(s, c);
}

/// `last_index` is a position in `s`, or its length; no later character is `c`,
/// and the character there is.
pub proof fn lemma_last_index(s: Seq<char>, c: char)
    ensures
        last_index(s, c) <= s.len(),
        forall|k: int| last_index(s, c) < k < s.len() ==> s[k] != c,
        last_index(s, c) < s.len() ==> s[last_index(s, c) as int] == c,
        last_index(s, c) == s.len() ==> forall|k: int| 0 <= k < s.len() ==> s[k] != c,
    decreases s.len(),
{
    if s.len() == 0 {
    } else if s.last() == c {
    } else {
        let t = s.drop_last();
        lemma_last_index(t, c);
        assert forall|k: int| last_index(s, c) < k < s.len() implies s[k] != c by {
            if k < t.len() {
                assert(s[k] == t[k]);
            }
        }
        if last_index(s, c) == s.len() {
            assert forall|k: int| 0 <= k < s.len() implies s[k] != c by {
                if k < t.len() {
                    assert(s[k] == t[k]);
                }
            }
        }
        if last_index(s, c) < s.len() {
            assert(s[last_index(s, c) as int] == t[last_index(s, c) as int]);
        }
    }
}

/// A position whose character is `c`, with none after it, is `last_index`.
pub proof fn lemma_last_index_is(s: Seq<char>, c: char, i: int)
    requires
        0 <= i <= s.len(),
        forall|k: int| i < k < s.len() ==> s[k] != c,
        i < s.len() ==> s[i] == c,
        i == s.len() ==> forall|k: int| 0 <= k < s.len() ==> s[k] != c,
    ensures
        last_index(s, c) == i,
{
    lemma_last_index(s, c);
}

/// The characters of `s`, one by one.
pub fn chars_of(s: &str) -> (v: Vec<char>)
    ensures
        v@ == s@,
{
    broadcast use vstd::string::axiom_spec_iter;

    let mut v: Vec<char> = Vec::new();
    for c in it: s.chars()
        invariant
            it.seq() == s@,
            v@ == it.seq().take(it.index()),
    {
        v.push(c);
    }
    assert(v@ == s@);
    v
}

/// The position of the first `c` in `chars` at or after `from`, or the length.
pub fn find_from(chars: &Vec<char>, from: usize, c: char) -> (i: usize)
    requires
        from <= chars.len(),
    ensures
        i == from + first_index(chars@.skip(from as int), c),
        from <= i <= chars.len(),
{
    let mut i: usize = from;
    while i < chars.len() && chars[i] != c
        invariant
            from <= i <= chars.len(),
            forall|k: int| from <= k < i ==> chars@[k] != c,
        decreases chars.len() - i,
    {
        i += 1;
    }
    proof {
        lemma_first_index_is(chars@.skip(from as int), c, i - from);
    }
    i
}

/// Splits `s` at every `sep`.
pub fn split(s: &str, sep: char) -> (pieces: Vec<String>)
    ensures
        pieces.deep_view() == split_on(s@, sep),
{
    let chars = chars_of(s);
    let n = chars.len();
    let mut pieces: Vec<String> = Vec::new();
    let mut start: usize = 0;
    assert(s@.skip(0) == s@);
    assert(pieces.deep_view() == Seq::<Seq<char>>::empty());
    loop
        invariant_except_break
            start <= n,
            n == chars.len(),
            chars@ == s@,
            split_on(s@, sep) == pieces.deep_view() + split_on(s@.skip(start as int), sep),
        ensures
            pieces.deep_view() == split_on(s@, sep),
        decreases n - start,
    {
        let end = find_from(&chars, start, sep);
        let piece = s.substring_char(start, end).to_owned();
        let ghost rest = s@.skip(start as int);
        let ghost before = pieces.deep_view();
        pieces.push(piece);
        assert(piece@ == rest.take(end - start));
        assert(pieces.deep_view() == before.push(piece@));
        if end >= n {
            assert(rest.take(end - start) == rest);
            break ;
        }
        assert(rest.skip(end - start + 1) == s@.skip(end + 1));
        start = end + 1;
    }
    pieces
}

} // verus!
