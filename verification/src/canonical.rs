//! The plain manifest of a list of coordinates, and the proof that reading it
//! gives the list back.

use crate::error::{ManifestFault, Part};
use crate::manifest::{
    children, closing, coordinate, coordinates, dependencies_of, elements, entries_of, entry_name,
    field, is_named, named, part_name, root_of, significant, the_one, Element,
};
use crate::markup::TokenView;
use crate::repository::ArtifactView;
use vstd::prelude::*;

verus! {

/// The tokens of one field of a dependency: the element named for `part`, with
/// `text` inside.
pub open spec fn field_tokens(part: Part, text: Seq<char>) -> Seq<TokenView> {
    seq![TokenView::Open(part_name(part)), TokenView::Text(text), TokenView::Close]
}

/// The tokens of the entry that declares `artifact`: a `dependency` element
/// with the three fields inside, the group first and the version last.
pub open spec fn entry_tokens(artifact: ArtifactView) -> Seq<TokenView> {
    seq![TokenView::Open(entry_name())] + field_tokens(Part::GroupId, artifact.group_id)
        + field_tokens(Part::ArtifactId, artifact.artifact_id) + field_tokens(
        Part::Version,
        artifact.version,
    ) + seq![TokenView::Close]
}

/// The tokens of the entries that declare `artifacts`, one after another.
pub open spec fn entries_tokens(artifacts: Seq<ArtifactView>) -> Seq<TokenView>
    decreases artifacts.len(),
{
    if artifacts.len() == 0 {
        Seq::empty()
    } else {
        entries_tokens(artifacts.drop_last()) + entry_tokens(artifacts.last())
    }
}

/// The tokens of the plain manifest that declares `artifacts`: a root element
/// named `root` that holds a `dependencies` element, which holds one entry for
/// each coordinate, in order.
pub open spec fn manifest_tokens(root: Seq<char>, artifacts: Seq<ArtifactView>) -> Seq<TokenView> {
    seq![TokenView::Open(root), TokenView::Open(part_name(Part::Dependencies))] + entries_tokens(
        artifacts,
    ) + seq![TokenView::Close, TokenView::Close]
}

/// The token at place `j` of an entry.
spec fn entry_token(artifact: ArtifactView, j: int) -> TokenView {
    if j == 0 {
        TokenView::Open(entry_name())
    } else if j == 1 {
        TokenView::Open(part_name(Part::GroupId))
    } else if j == 2 {
        TokenView::Text(artifact.group_id)
    } else if j == 4 {
        TokenView::Open(part_name(Part::ArtifactId))
    } else if j == 5 {
        TokenView::Text(artifact.artifact_id)
    } else if j == 7 {
        TokenView::Open(part_name(Part::Version))
    } else if j == 8 {
        TokenView::Text(artifact.version)
    } else {
        TokenView::Close
    }
}

/// Whether `t` holds, from place `base` on, the entries of `artifacts`.
spec fn holds_entries(t: Seq<TokenView>, base: int, artifacts: Seq<ArtifactView>) -> bool {
    &&& 0 <= base
    &&& base + 11 * artifacts.len() <= t.len()
    &&& forall|k: int, j: int|
        0 <= k < artifacts.len() && 0 <= j < 11 ==> #[trigger] t[base + 11 * k + j] == entry_token(
            artifacts[k],
            j,
        )
}

proof fn lemma_entry_tokens(artifact: ArtifactView)
    ensures
        entry_tokens(artifact).len() == 11,
        forall|j: int| 0 <= j < 11 ==> #[trigger] entry_tokens(artifact)[j] == entry_token(artifact, j),
{
}

proof fn lemma_entries_tokens(artifacts: Seq<ArtifactView>)
    ensures
        entries_tokens(artifacts).len() == 11 * artifacts.len(),
        holds_entries(entries_tokens(artifacts), 0, artifacts),
    decreases artifacts.len(),
{
    if artifacts.len() > 0 {
        let init = artifacts.drop_last();
        lemma_entries_tokens(init);
        lemma_entry_tokens(artifacts.last());
        let t = entries_tokens(artifacts);
        assert forall|k: int, j: int| 0 <= k < artifacts.len() && 0 <= j < 11 implies #[trigger] t[11
            * k + j] == entry_token(artifacts[k], j) by {
            if k < init.len() {
                assert(t[11 * k + j] == entries_tokens(init)[0 + 11 * k + j]);
                assert(artifacts[k] == init[k]);
            } else {
                assert(t[11 * k + j] == entry_tokens(artifacts.last())[j]);
            }
        }
        assert(holds_entries(t, 0, artifacts)) by {
            assert forall|k: int, j: int|
                0 <= k < artifacts.len() && 0 <= j < 11 implies #[trigger] t[0 + 11 * k + j]
                == entry_token(artifacts[k], j) by {
                assert(t[0 + 11 * k + j] == t[11 * k + j]);
            }
        }
    }
}

/// The places of the tokens of a plain manifest.
proof fn lemma_manifest_tokens(root: Seq<char>, artifacts: Seq<ArtifactView>)
    ensures
        ({
            let t = manifest_tokens(root, artifacts);
            let n = artifacts.len() as int;
            &&& t.len() == 11 * n + 4
            &&& t[0] == TokenView::Open(root)
            &&& t[1] == TokenView::Open(part_name(Part::Dependencies))
            &&& t[11 * n + 2] == TokenView::Close
            &&& t[11 * n + 3] == TokenView::Close
            &&& holds_entries(t, 2, artifacts)
        }),
{
    lemma_entries_tokens(artifacts);
    let t = manifest_tokens(root, artifacts);
    let inner = entries_tokens(artifacts);
    assert forall|k: int, j: int| 0 <= k < artifacts.len() && 0 <= j < 11 implies #[trigger] t[2 + 11
        * k + j] == entry_token(artifacts[k], j) by {
        assert(t[2 + 11 * k + j] == inner[0 + 11 * k + j]);
    }
}

/// Whether `t` holds at place `p` the entry that declares `artifact`.
spec fn entry_at(t: Seq<TokenView>, p: int, artifact: ArtifactView) -> bool {
    &&& 0 <= p
    &&& p + 11 <= t.len()
    &&& t[p] == TokenView::Open(entry_name())
    &&& t[p + 1] == TokenView::Open(part_name(Part::GroupId))
    &&& t[p + 2] == TokenView::Text(artifact.group_id)
    &&& t[p + 3] == TokenView::Close
    &&& t[p + 4] == TokenView::Open(part_name(Part::ArtifactId))
    &&& t[p + 5] == TokenView::Text(artifact.artifact_id)
    &&& t[p + 6] == TokenView::Close
    &&& t[p + 7] == TokenView::Open(part_name(Part::Version))
    &&& t[p + 8] == TokenView::Text(artifact.version)
    &&& t[p + 9] == TokenView::Close
    &&& t[p + 10] == TokenView::Close
}

proof fn lemma_entry_at(t: Seq<TokenView>, base: int, artifacts: Seq<ArtifactView>, k: int)
    requires
        holds_entries(t, base, artifacts),
        0 <= k < artifacts.len(),
    ensures
        entry_at(t, base + 11 * k, artifacts[k]),
{
    let p = base + 11 * k;
    let a = artifacts[k];
    assert(t[base + 11 * k + 0] == entry_token(a, 0));
    assert(t[base + 11 * k + 1] == entry_token(a, 1));
    assert(t[base + 11 * k + 2] == entry_token(a, 2));
    assert(t[base + 11 * k + 3] == entry_token(a, 3));
    assert(t[base + 11 * k + 4] == entry_token(a, 4));
    assert(t[base + 11 * k + 5] == entry_token(a, 5));
    assert(t[base + 11 * k + 6] == entry_token(a, 6));
    assert(t[base + 11 * k + 7] == entry_token(a, 7));
    assert(t[base + 11 * k + 8] == entry_token(a, 8));
    assert(t[base + 11 * k + 9] == entry_token(a, 9));
    assert(t[base + 11 * k + 10] == entry_token(a, 10));
}

/// The element that an entry is, and the elements that its fields are.
proof fn lemma_entry_closings(t: Seq<TokenView>, p: int, artifact: ArtifactView, depth: nat)
    requires
        entry_at(t, p, artifact),
    ensures
        closing(t, p, depth) == closing(t, p + 11, depth),
        closing(t, p + 1, 0) == Some(p + 10),
        closing(t, p + 2, 0) == Some(p + 3),
        closing(t, p + 5, 0) == Some(p + 6),
        closing(t, p + 8, 0) == Some(p + 9),
{
    reveal_with_fuel(closing, 12);
}

/// The names of the parts of a manifest differ from one another.
proof fn lemma_names_differ()
    ensures
        part_name(Part::GroupId) != part_name(Part::ArtifactId),
        part_name(Part::GroupId) != part_name(Part::Version),
        part_name(Part::ArtifactId) != part_name(Part::Version),
{
    reveal_strlit("groupId");
    reveal_strlit("artifactId");
    reveal_strlit("version");
    assert(part_name(Part::GroupId).len() == 7);
    assert(part_name(Part::ArtifactId).len() == 10);
    assert(part_name(Part::Version).len() == 7);
    assert(part_name(Part::GroupId)[0] == 'g');
    assert(part_name(Part::Version)[0] == 'v');
}

/// Reading an entry gives the coordinate that it declares.
proof fn lemma_entry_coordinate(t: Seq<TokenView>, p: int, artifact: ArtifactView)
    requires
        entry_at(t, p, artifact),
    ensures
        coordinate(t, Element { open: p, close: p + 10 }) == Ok::<ArtifactView, ManifestFault>(
            artifact,
        ),
{
    lemma_entry_closings(t, p, artifact, 0);
    lemma_names_differ();
    let entry = Element { open: p, close: p + 10 };
    let group = Element { open: p + 1, close: p + 3 };
    let name = Element { open: p + 4, close: p + 6 };
    let version = Element { open: p + 7, close: p + 9 };
    let inside = children(t, entry);
    assert(inside == seq![group, name, version]) by {
        reveal_with_fuel(elements, 5);
        assert(elements(t, p + 10, p + 10) == Seq::<Element>::empty());
        assert(elements(t, p + 7, p + 10) == seq![version] + elements(t, p + 10, p + 10));
        assert(elements(t, p + 4, p + 10) == seq![name] + elements(t, p + 7, p + 10));
        assert(elements(t, p + 1, p + 10) == seq![group] + elements(t, p + 4, p + 10));
    }
    assert(named(t, inside, part_name(Part::GroupId)) == seq![group]) by {
        lemma_pick(t, inside, part_name(Part::GroupId));
    }
    assert(named(t, inside, part_name(Part::ArtifactId)) == seq![name]) by {
        lemma_pick(t, inside, part_name(Part::ArtifactId));
    }
    assert(named(t, inside, part_name(Part::Version)) == seq![version]) by {
        lemma_pick(t, inside, part_name(Part::Version));
    }
    assert(field(t, entry, Part::GroupId) == Ok::<Seq<char>, ManifestFault>(artifact.group_id));
    assert(field(t, entry, Part::ArtifactId) == Ok::<Seq<char>, ManifestFault>(
        artifact.artifact_id,
    ));
    assert(field(t, entry, Part::Version) == Ok::<Seq<char>, ManifestFault>(artifact.version));
}

/// What `named` keeps of three elements.
proof fn lemma_pick(t: Seq<TokenView>, found: Seq<Element>, name: Seq<char>)
    requires
        found.len() == 3,
    ensures
        named(t, found, name) == (if is_named(t, found[0], name) {
            seq![found[0]]
        } else {
            Seq::empty()
        }) + (if is_named(t, found[1], name) {
            seq![found[1]]
        } else {
            Seq::empty()
        }) + (if is_named(t, found[2], name) {
            seq![found[2]]
        } else {
            Seq::empty()
        }),
{
    let keep = |element: Element| is_named(t, element, name);
    let one = seq![found[0]];
    let two = seq![found[0], found[1]];
    reveal_with_fuel(Seq::filter, 2);
    assert(one.drop_last() == Seq::<Element>::empty());
    assert(Seq::<Element>::empty().filter(keep) == Seq::<Element>::empty());
    assert(two.drop_last() == one);
    assert(found.drop_last() == two);
    assert(one.filter(keep) == if keep(found[0]) {
        seq![found[0]]
    } else {
        Seq::empty()
    });
    assert(two.filter(keep) == one.filter(keep) + if keep(found[1]) {
        seq![found[1]]
    } else {
        Seq::empty()
    });
    assert(found.filter(keep) == two.filter(keep) + if keep(found[2]) {
        seq![found[2]]
    } else {
        Seq::empty()
    });
}

/// The elements that the entries of `artifacts` are, from the entry `k` on,
/// where the first entry stands at place `base`.
spec fn entry_elements(base: int, artifacts: Seq<ArtifactView>, k: int) -> Seq<Element> {
    Seq::new(
        (artifacts.len() - k) as nat,
        |j: int| Element { open: base + 11 * (k + j), close: base + 11 * (k + j) + 10 },
    )
}

/// The token that closes what holds the entries comes after all of them.
proof fn lemma_skip_entries(
    t: Seq<TokenView>,
    base: int,
    artifacts: Seq<ArtifactView>,
    k: int,
    depth: nat,
)
    requires
        holds_entries(t, base, artifacts),
        0 <= k <= artifacts.len(),
    ensures
        closing(t, base + 11 * k, depth) == closing(t, base + 11 * artifacts.len(), depth),
    decreases artifacts.len() - k,
{
    if k < artifacts.len() {
        lemma_entry_at(t, base, artifacts, k);
        lemma_entry_closings(t, base + 11 * k, artifacts[k], depth);
        lemma_skip_entries(t, base, artifacts, k + 1, depth);
    }
}

/// The elements between the entry `k` and the end of the entries are the
/// entries from `k` on.
proof fn lemma_entry_elements(t: Seq<TokenView>, base: int, artifacts: Seq<ArtifactView>, k: int)
    requires
        holds_entries(t, base, artifacts),
        0 <= k <= artifacts.len(),
    ensures
        elements(t, base + 11 * k, base + 11 * artifacts.len()) == entry_elements(
            base,
            artifacts,
            k,
        ),
    decreases artifacts.len() - k,
{
    let to = base + 11 * artifacts.len();
    if k < artifacts.len() {
        let p = base + 11 * k;
        lemma_entry_at(t, base, artifacts, k);
        lemma_entry_closings(t, p, artifacts[k], 0);
        lemma_entry_elements(t, base, artifacts, k + 1);
        let first = Element { open: p, close: p + 10 };
        assert(elements(t, p, to) == seq![first] + elements(t, p + 11, to));
        assert(seq![first] + entry_elements(base, artifacts, k + 1) =~= entry_elements(
            base,
            artifacts,
            k,
        ));
    } else {
        assert(elements(t, to, to) =~= entry_elements(base, artifacts, k));
    }
}

/// `named` keeps a sequence whose elements all have the name.
proof fn lemma_all_named(t: Seq<TokenView>, found: Seq<Element>, name: Seq<char>)
    requires
        forall|i: int| 0 <= i < found.len() ==> is_named(t, #[trigger] found[i], name),
    ensures
        named(t, found, name) == found,
    decreases found.len(),
{
    reveal(Seq::filter);
    if found.len() > 0 {
        lemma_all_named(t, found.drop_last(), name);
        assert(found.drop_last().push(found.last()) == found);
    }
}

/// `significant` keeps a sequence without a token of the kind it drops.
proof fn lemma_all_significant(tokens: Seq<TokenView>)
    requires
        forall|i: int| 0 <= i < tokens.len() ==> #[trigger] tokens[i] != TokenView::Other,
    ensures
        significant(tokens) == tokens,
    decreases tokens.len(),
{
    reveal(Seq::filter);
    if tokens.len() > 0 {
        lemma_all_significant(tokens.drop_last());
        assert(tokens.drop_last().push(tokens.last()) == tokens);
    }
}

/// Reading the first `k` entries gives the first `k` coordinates.
proof fn lemma_entries_coordinates(
    t: Seq<TokenView>,
    base: int,
    artifacts: Seq<ArtifactView>,
    k: int,
)
    requires
        holds_entries(t, base, artifacts),
        0 <= k <= artifacts.len(),
    ensures
        coordinates(t, entry_elements(base, artifacts, 0).take(k)) == Ok::<
            Seq<ArtifactView>,
            ManifestFault,
        >(artifacts.take(k)),
    decreases k,
{
    let entries = entry_elements(base, artifacts, 0);
    if k == 0 {
        assert(artifacts.take(0) == Seq::<ArtifactView>::empty());
    } else {
        lemma_entries_coordinates(t, base, artifacts, k - 1);
        lemma_entry_at(t, base, artifacts, k - 1);
        lemma_entry_coordinate(t, base + 11 * (k - 1), artifacts[k - 1]);
        let some = entries.take(k);
        assert(some.drop_last() == entries.take(k - 1));
        assert(some.last() == Element {
            open: base + 11 * (k - 1),
            close: base + 11 * (k - 1) + 10,
        });
        assert(artifacts.take(k - 1).push(artifacts[k - 1]) == artifacts.take(k));
    }
}

/// Whether `t` is laid out as the plain manifest of `artifacts`.
spec fn laid_out(t: Seq<TokenView>, artifacts: Seq<ArtifactView>) -> bool {
    let n = artifacts.len() as int;
    &&& t.len() == 11 * n + 4
    &&& t[0] is Open
    &&& t[1] == TokenView::Open(part_name(Part::Dependencies))
    &&& t[11 * n + 2] == TokenView::Close
    &&& t[11 * n + 3] == TokenView::Close
    &&& holds_entries(t, 2, artifacts)
}

/// A plain manifest holds no token of the kind that `significant` drops.
proof fn lemma_plain_is_significant(t: Seq<TokenView>, artifacts: Seq<ArtifactView>)
    requires
        laid_out(t, artifacts),
    ensures
        significant(t) == t,
{
    let n = artifacts.len() as int;
    assert forall|i: int| 0 <= i < t.len() implies #[trigger] t[i] != TokenView::Other by {
        if 2 <= i < 11 * n + 2 {
            let k = (i - 2) / 11;
            let j = (i - 2) % 11;
            assert(i == 2 + 11 * k + j);
            assert(t[2 + 11 * k + j] == entry_token(artifacts[k], j));
        }
    }
    lemma_all_significant(t);
}

/// The root of a plain manifest is the whole of it.
proof fn lemma_plain_root(t: Seq<TokenView>, artifacts: Seq<ArtifactView>)
    requires
        laid_out(t, artifacts),
    ensures
        closing(t, 2, 0) == Some(11 * artifacts.len() as int + 2),
        root_of(t) == Some(Element { open: 0, close: 11 * artifacts.len() as int + 3 }),
{
    let n = artifacts.len() as int;
    lemma_skip_entries(t, 2, artifacts, 0, 0);
    lemma_skip_entries(t, 2, artifacts, 0, 1);
    assert(closing(t, 2 + 11 * n, 0) == Some(11 * n + 2));
    assert(closing(t, 3 + 11 * n, 0) == Some(11 * n + 3));
    assert(closing(t, 2 + 11 * n, 1) == closing(t, 3 + 11 * n, 0));
    assert(closing(t, 1, 0) == closing(t, 2, 1));
}

/// The entries of a plain manifest are its entries.
proof fn lemma_plain_entries(t: Seq<TokenView>, artifacts: Seq<ArtifactView>)
    requires
        laid_out(t, artifacts),
    ensures
        entries_of(t) == Ok::<Seq<Element>, ManifestFault>(entry_elements(2, artifacts, 0)),
{
    let n = artifacts.len() as int;
    lemma_plain_root(t, artifacts);
    let document = Element { open: 0, close: 11 * n + 3 };
    let list = Element { open: 1, close: 11 * n + 2 };
    assert(children(t, document) == seq![list]) by {
        assert(elements(t, 11 * n + 3, 11 * n + 3) == Seq::<Element>::empty());
        assert(elements(t, 1, 11 * n + 3) == seq![list] + elements(t, 11 * n + 3, 11 * n + 3));
    }
    lemma_all_named(t, seq![list], part_name(Part::Dependencies));
    assert(the_one(
        named(t, children(t, document), part_name(Part::Dependencies)),
        Part::Dependencies,
    ) == Ok::<Element, ManifestFault>(list));
    lemma_entry_elements(t, 2, artifacts, 0);
    let entries = entry_elements(2, artifacts, 0);
    assert(children(t, list) == entries);
    assert forall|i: int| 0 <= i < entries.len() implies is_named(
        t,
        #[trigger] entries[i],
        entry_name(),
    ) by {
        lemma_entry_at(t, 2, artifacts, i);
    }
    lemma_all_named(t, entries, entry_name());
}

/// Reading the plain manifest of a list of coordinates gives the list back:
/// as many coordinates as it has entries, in their order, each field with the
/// text that the entry holds for it. This holds of every list, the empty one
/// included, of every text in the fields, and whatever the root is called.
pub proof fn lemma_plain_manifest_reads_back(root: Seq<char>, artifacts: Seq<ArtifactView>)
    ensures
        dependencies_of(manifest_tokens(root, artifacts)) == Ok::<
            Seq<ArtifactView>,
            ManifestFault,
        >(artifacts),
{
    let t = manifest_tokens(root, artifacts);
    let n = artifacts.len() as int;
    lemma_manifest_tokens(root, artifacts);
    assert(laid_out(t, artifacts));
    lemma_plain_is_significant(t, artifacts);
    lemma_plain_entries(t, artifacts);
    let entries = entry_elements(2, artifacts, 0);
    lemma_entries_coordinates(t, 2, artifacts, n);
    assert(entries.take(n) == entries);
    assert(artifacts.take(n) == artifacts);
}

} // verus!
