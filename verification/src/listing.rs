//! The versions of an artifact that a repository holds, read off the names of
//! the files in the artifact's directory.

use crate::text::{chars_of, last_index, lemma_last_index_is};
use vstd::prelude::*;
use vstd::string::StrSliceExecFns;

verus! {

/// A file name without its extension: the part before the last dot. A name
/// without a dot, or whose only dot comes first, is its own stem.
pub open spec fn file_stem(name: Seq<char>) -> Seq<char> {
    let dot = last_index(name, '.');
    if dot == 0 || dot >= name.len() {
        name
    } else {
        name.take(dot as int)
    }
}

/// The items of `items` in the order in which each first occurs, none twice.
pub open spec fn distinct(items: Seq<Seq<char>>) -> Seq<Seq<char>>
    decreases items.len(),
{
    if items.len() == 0 {
        Seq::empty()
    } else {
        let before = distinct(items.drop_last());
        if before.contains(items.last()) {
            before
        } else {
            before.push(items.last())
        }
    }
}

/// The versions that the file names `names` witness: the stem of each name,
/// each version once.
pub open spec fn versions_of(names: Seq<Seq<char>>) -> Seq<Seq<char>> {
    distinct(names.map_values(|name: Seq<char>| file_stem(name)))
}

/// `distinct` holds nothing twice, and holds exactly what `items` holds.
pub proof fn lemma_distinct(items: Seq<Seq<char>>)
    ensures
        distinct(items).no_duplicates(),
        forall|j: int|
            0 <= j < distinct(items).len() ==> items.contains(#[trigger] distinct(items)[j]),
        forall|i: int| 0 <= i < items.len() ==> distinct(items).contains(#[trigger] items[i]),
    decreases items.len(),
{
    if items.len() > 0 {
        let init = items.drop_last();
        let before = distinct(init);
        let all = distinct(items);
        lemma_distinct(init);
        assert forall|j: int| 0 <= j < all.len() implies items.contains(#[trigger] all[j]) by {
            if j < before.len() {
                assert(all[j] == before[j]);
                assert(init.contains(before[j]));
                let i = choose|i: int| 0 <= i < init.len() && init[i] == before[j];
                assert(items[i] == all[j]);
            } else {
                assert(items[items.len() - 1] == all[j]);
            }
        }
        assert forall|i: int| 0 <= i < items.len() implies all.contains(#[trigger] items[i]) by {
            if i < init.len() {
                assert(items[i] == init[i]);
                assert(before.contains(init[i]));
                let j = choose|j: int| 0 <= j < before.len() && before[j] == init[i];
                assert(all[j] == items[i]);
            } else if before.contains(items.last()) {
                let j = choose|j: int| 0 <= j < before.len() && before[j] == items.last();
                assert(all[j] == items[i]);
            } else {
                assert(all[before.len() as int] == items[i]);
            }
        }
    }
}

/// The stem of the file name `name`.
pub fn stem_of(name: &str) -> (r: String)
    ensures
        r@ == file_stem(name@),
{
    let chars = chars_of(name);
    let n = chars.len();
    let mut i: usize = n;
    while i > 0 && chars[i - 1] != '.'
        invariant
            i <= n,
            n == chars.len(),
            forall|k: int| i <= k < n ==> chars@[k] != '.',
        decreases i,
    {
        i -= 1;
    }
    proof {
        if i > 0 {
            lemma_last_index_is(name@, '.', i - 1);
        } else {
            lemma_last_index_is(name@, '.', n as int);
        }
    }
    if i <= 1 {
        assert(name@.take(n as int) == name@);
        name.substring_char(0, n).to_owned()
    } else {
        name.substring_char(0, i - 1).to_owned()
    }
}

/// Whether one of `items` is `item`.
pub fn holds(items: &Vec<String>, item: &String) -> (r: bool)
    ensures
        r == items.deep_view().contains(item@),
{
    let mut i: usize = 0;
    while i < items.len()
        invariant
            i <= items.len(),
            forall|k: int| 0 <= k < i ==> items.deep_view()[k] != item@,
        decreases items.len() - i,
    {
        if items[i] == *item {
            assert(items.deep_view()[i as int] == item@);
            return true;
        }
        i += 1;
    }
    false
}

/// The versions of an artifact that its directory holds, given the names of
/// the files in that directory: the stem of each name, in the order of the
/// names, each version once.
pub fn available_versions(names: &Vec<String>) -> (versions: Vec<String>)
    ensures
        versions.deep_view() == versions_of(names.deep_view()),
        versions.deep_view().no_duplicates(),
        forall|version: Seq<char>|
            versions.deep_view().contains(version) <==> exists|i: int|
                0 <= i < names.len() && file_stem(#[trigger] names[i]@) == version,
{
    let ghost stems = names.deep_view().map_values(|name: Seq<char>| file_stem(name));
    let mut versions: Vec<String> = Vec::new();
    let mut i: usize = 0;
    assert(stems.take(0) == Seq::<Seq<char>>::empty());
    assert(versions.deep_view() == Seq::<Seq<char>>::empty());
    while i < names.len()
        invariant
            i <= names.len(),
            stems == names.deep_view().map_values(|name: Seq<char>| file_stem(name)),
            versions.deep_view() == distinct(stems.take(i as int)),
        decreases names.len() - i,
    {
        let stem = stem_of(names[i].as_str());
        proof {
            let next = stems.take(i + 1);
            assert(next.drop_last() == stems.take(i as int));
            assert(next.last() == stem@);
        }
        if !holds(&versions, &stem) {
            let ghost before = versions.deep_view();
            versions.push(stem);
            assert(versions.deep_view() == before.push(stem@));
        }
        i += 1;
    }
    proof {
        assert(stems.take(i as int) == stems);
        lemma_distinct(stems);
        let found = versions.deep_view();
        assert forall|version: Seq<char>|
            found.contains(version) <==> exists|i: int|
                0 <= i < names.len() && file_stem(#[trigger] names[i]@) == version by {
            if found.contains(version) {
                let j = choose|j: int| 0 <= j < found.len() && found[j] == version;
                assert(stems.contains(found[j]));
                let k = choose|k: int| 0 <= k < stems.len() && stems[k] == version;
                assert(file_stem(names[k]@) == version);
            }
            if exists|i: int| 0 <= i < names.len() && file_stem(#[trigger] names[i]@) == version {
                let k = choose|i: int|
                    0 <= i < names.len() && file_stem(#[trigger] names[i]@) == version;
                assert(stems[k] == version);
                assert(found.contains(stems[k]));
            }
        }
    }
    versions
}

} // verus!
