//! The dependencies that a manifest declares, read off the tokens of the
//! document: a root element that holds one `dependencies` element, which holds
//! one `dependency` element for each coordinate.

use crate::error::{ManifestError, ManifestFault, Part};
use crate::markup::{Token, TokenView};
use crate::repository::{Artifact, ArtifactView};
use vstd::prelude::*;

verus! {

/// An element of a document: the positions of the token that opens it and of
/// the token that closes it.
pub struct Element {
    pub open: int,
    pub close: int,
}

/// An [`Element`] of a document that is held in memory.
#[derive(Clone, Copy, Debug)]
pub struct Span {
    pub open: usize,
    pub close: usize,
}

impl View for Span {
    type V = Element;

    open spec fn view(&self) -> Element {
        Element { open: self.open as int, close: self.close as int }
    }
}

impl DeepView for Span {
    type V = Element;

    open spec fn deep_view(&self) -> Element {
        self@
    }
}

/// The tokens that carry the structure of a document and its text.
pub open spec fn significant(tokens: Seq<TokenView>) -> Seq<TokenView> {
    tokens.filter(|token: TokenView| token != TokenView::Other)
}

/// The position, at or after `from`, of the token that closes the element
/// inside which `from` stands `depth` elements deep; `None` where the tokens
/// end before it.
pub open spec fn closing(t: Seq<TokenView>, from: int, depth: nat) -> Option<int>
    decreases t.len() - from,
{
    if from < 0 || from >= t.len() {
        None
    } else {
        match t[from] {
            TokenView::Open(_) => closing(t, from + 1, depth + 1),
            TokenView::Close => if depth == 0 {
                Some(from)
            } else {
                closing(t, from + 1, (depth - 1) as nat)
            },
            _ => closing(t, from + 1, depth),
        }
    }
}

/// The elements that start at or after `from` and end before `to`, none inside
/// another, in the order of the document. Text between them is passed over.
pub open spec fn elements(t: Seq<TokenView>, from: int, to: int) -> Seq<Element>
    decreases to - from,
{
    if from < 0 || from >= to || to > t.len() {
        Seq::empty()
    } else if t[from] is Open {
        match closing(t, from + 1, 0) {
            Some(close) => if from < close < to {
                seq![Element { open: from, close }] + elements(t, close + 1, to)
            } else {
                Seq::empty()
            },
            None => Seq::empty(),
        }
    } else {
        elements(t, from + 1, to)
    }
}

/// The elements directly inside `element`.
pub open spec fn children(t: Seq<TokenView>, element: Element) -> Seq<Element> {
    elements(t, element.open + 1, element.close)
}

/// Whether `element` has the name `name`.
pub open spec fn is_named(t: Seq<TokenView>, element: Element, name: Seq<char>) -> bool {
    0 <= element.open < t.len() && t[element.open] == TokenView::Open(name)
}

/// Those of `found` that have the name `name`.
pub open spec fn named(t: Seq<TokenView>, found: Seq<Element>, name: Seq<char>) -> Seq<Element> {
    found.filter(|element: Element| is_named(t, element, name))
}

/// The root element, where the tokens are one element and nothing else.
pub open spec fn root_of(t: Seq<TokenView>) -> Option<Element> {
    if t.len() > 0 && t[0] is Open && closing(t, 1, 0) == Some(t.len() - 1) {
        Some(Element { open: 0, close: t.len() - 1 })
    } else {
        None
    }
}

/// The name under which a manifest holds `part`.
pub open spec fn part_name(part: Part) -> Seq<char> {
    match part {
        Part::Dependencies => "dependencies"@,
        Part::GroupId => "groupId"@,
        Part::ArtifactId => "artifactId"@,
        Part::Version => "version"@,
    }
}

/// The name of the element that declares one dependency.
pub open spec fn entry_name() -> Seq<char> {
    "dependency"@
}

/// The one element of `found`, which holds the elements that were found for
/// `part`.
pub open spec fn the_one(found: Seq<Element>, part: Part) -> Result<Element, ManifestFault> {
    if found.len() == 0 {
        Err(ManifestFault::Missing(part))
    } else if found.len() > 1 {
        Err(ManifestFault::Repeated(part))
    } else {
        Ok(found[0])
    }
}

/// The text that `element` holds: the empty text where it holds nothing, the
/// text where it holds one text and nothing else.
pub open spec fn text_of(t: Seq<TokenView>, element: Element, part: Part) -> Result<
    Seq<char>,
    ManifestFault,
> {
    if element.close == element.open + 1 {
        Ok(Seq::empty())
    } else if element.close == element.open + 2 && 0 <= element.open && element.close <= t.len()
        && t[element.open + 1] is Text {
        Ok(t[element.open + 1]->Text_0)
    } else {
        Err(ManifestFault::NotText(part))
    }
}

/// The text of the field `part` of the dependency `entry`: the text of the one
/// element of that name directly inside it.
pub open spec fn field(t: Seq<TokenView>, entry: Element, part: Part) -> Result<
    Seq<char>,
    ManifestFault,
> {
    match the_one(named(t, children(t, entry), part_name(part)), part) {
        Err(fault) => Err(fault),
        Ok(element) => text_of(t, element, part),
    }
}

/// The coordinate that the dependency `entry` declares. Where several fields
/// are at fault, the group comes before the name and the name before the
/// version.
pub open spec fn coordinate(t: Seq<TokenView>, entry: Element) -> Result<
    ArtifactView,
    ManifestFault,
> {
    match field(t, entry, Part::GroupId) {
        Err(fault) => Err(fault),
        Ok(group_id) => match field(t, entry, Part::ArtifactId) {
            Err(fault) => Err(fault),
            Ok(artifact_id) => match field(t, entry, Part::Version) {
                Err(fault) => Err(fault),
                Ok(version) => Ok(ArtifactView { group_id, artifact_id, version }),
            },
        },
    }
}

/// The coordinates that `entries` declare, one for each and in their order, or
/// the fault of the first entry that has one.
pub open spec fn coordinates(t: Seq<TokenView>, entries: Seq<Element>) -> Result<
    Seq<ArtifactView>,
    ManifestFault,
>
    decreases entries.len(),
{
    if entries.len() == 0 {
        Ok(Seq::empty())
    } else {
        match coordinates(t, entries.drop_last()) {
            Err(fault) => Err(fault),
            Ok(before) => match coordinate(t, entries.last()) {
                Err(fault) => Err(fault),
                Ok(artifact) => Ok(before.push(artifact)),
            },
        }
    }
}

/// The dependency entries of a document: the elements named `dependency`
/// directly inside the one element named `dependencies` directly inside the
/// root.
pub open spec fn entries_of(t: Seq<TokenView>) -> Result<Seq<Element>, ManifestFault> {
    match root_of(t) {
        None => Err(ManifestFault::NotADocument),
        Some(root) => match the_one(
            named(t, children(t, root), part_name(Part::Dependencies)),
            Part::Dependencies,
        ) {
            Err(fault) => Err(fault),
            Ok(list) => Ok(named(t, children(t, list), entry_name())),
        },
    }
}

/// The dependencies that the document with the tokens `tokens` declares.
pub open spec fn dependencies_of(tokens: Seq<TokenView>) -> Result<
    Seq<ArtifactView>,
    ManifestFault,
> {
    let t = significant(tokens);
    match entries_of(t) {
        Err(fault) => Err(fault),
        Ok(entries) => coordinates(t, entries),
    }
}

/// Whether the outcome `r` of an executable function is the outcome `expected`.
pub open spec fn listed(
    r: Result<Vec<Artifact>, ManifestError>,
    expected: Result<Seq<ArtifactView>, ManifestFault>,
) -> bool {
    match r {
        Ok(found) => expected == Ok::<Seq<ArtifactView>, ManifestFault>(found.deep_view()),
        Err(error) => expected == Err::<Seq<ArtifactView>, ManifestFault>(error@),
    }
}

/// Keeps the tokens that carry the structure of a document and its text.
pub fn significant_tokens(tokens: Vec<Token>) -> (kept: Vec<Token>)
    ensures
        kept.deep_view() == significant(tokens.deep_view()),
{
    let ghost all = tokens.deep_view();
    let mut kept: Vec<Token> = Vec::new();
    assert(all.take(0) == Seq::<TokenView>::empty());
    assert(kept.deep_view() == Seq::<TokenView>::empty());
    for token in it: tokens
        invariant
            it.seq().len() == all.len(),
            forall|k: int| 0 <= k < all.len() ==> it.seq()[k]@ == all[k],
            kept.deep_view() == significant(all.take(it.index())),
    {
        proof {
            reveal(Seq::filter);
            let next = all.take(it.index() + 1);
            assert(next.drop_last() == all.take(it.index()));
            assert(next.last() == token@);
        }
        match token {
            Token::Other => {},
            _ => {
                let ghost before = kept.deep_view();
                kept.push(token);
                assert(kept.deep_view() == before.push(token@));
            },
        }
    }
    assert(all.take(all.len() as int) == all);
    kept
}

/// The position of the token that closes the element whose content starts at
/// `from`.
fn closing_from(tokens: &Vec<Token>, from: usize) -> (r: Option<usize>)
    ensures
        match r {
            Some(close) => closing(tokens.deep_view(), from as int, 0) == Some(close as int)
                && from <= close < tokens.len(),
            None => closing(tokens.deep_view(), from as int, 0) is None,
        },
{
    let ghost t = tokens.deep_view();
    let mut p: usize = from;
    let mut depth: usize = 0;
    while p < tokens.len()
        invariant
            from <= p,
            depth <= p - from,
            t == tokens.deep_view(),
            closing(t, from as int, 0) == closing(t, p as int, depth as nat),
        decreases tokens.len() - p,
    {
        assert(t[p as int] == tokens[p as int]@);
        match &tokens[p] {
            Token::Open(_) => {
                depth += 1;
            },
            Token::Close => {
                if depth == 0 {
                    return Some(p);
                }
                depth -= 1;
            },
            _ => {},
        }
        p += 1;
    }
    None
}

/// The elements that start at or after `from` and end before `to`, none inside
/// another.
fn elements_between(tokens: &Vec<Token>, from: usize, to: usize) -> (found: Vec<Span>)
    requires
        to <= tokens.len(),
    ensures
        found.deep_view() == elements(tokens.deep_view(), from as int, to as int),
        forall|i: int| 0 <= i < found.len() ==> (#[trigger] found[i]).open < found[i].close < to,
{
    let ghost t = tokens.deep_view();
    let mut found: Vec<Span> = Vec::new();
    let mut p: usize = from;
    assert(found.deep_view() + elements(t, from as int, to as int) == elements(
        t,
        from as int,
        to as int,
    ));
    while p < to
        invariant
            from <= p,
            to <= tokens.len(),
            t == tokens.deep_view(),
            elements(t, from as int, to as int) == found.deep_view() + elements(
                t,
                p as int,
                to as int,
            ),
            forall|i: int| 0 <= i < found.len() ==> (#[trigger] found[i]).open < found[i].close < to,
        decreases to - p,
    {
        assert(t[p as int] == tokens[p as int]@);
        let ghost before = found.deep_view();
        match &tokens[p] {
            Token::Open(_) => {
                match closing_from(tokens, p + 1) {
                    Some(close) => {
                        if close < to {
                            let span = Span { open: p, close };
                            found.push(span);
                            assert(found.deep_view() == before.push(span@));
                            assert(before.push(span@) + elements(t, close + 1, to as int) == before
                                + (seq![span@] + elements(t, close + 1, to as int)));
                            p = close + 1;
                        } else {
                            assert(before + Seq::<Element>::empty() == before);
                            return found;
                        }
                    },
                    None => {
                        assert(before + Seq::<Element>::empty() == before);
                        return found;
                    },
                }
            },
            _ => {
                p += 1;
            },
        }
    }
    assert(found.deep_view() + Seq::<Element>::empty() == found.deep_view());
    found
}

/// Those of `found` that have the name `name`.
fn pick(tokens: &Vec<Token>, found: &Vec<Span>, name: &str) -> (r: Vec<Span>)
    requires
        forall|i: int| 0 <= i < found.len() ==> (#[trigger] found[i]).open < found[i].close
            < tokens.len(),
    ensures
        r.deep_view() == named(tokens.deep_view(), found.deep_view(), name@),
        forall|i: int| 0 <= i < r.len() ==> (#[trigger] r[i]).open < r[i].close < tokens.len(),
{
    let ghost t = tokens.deep_view();
    let ghost all = found.deep_view();
    let wanted = name.to_owned();
    let mut r: Vec<Span> = Vec::new();
    let mut i: usize = 0;
    assert(all.take(0) == Seq::<Element>::empty());
    assert(r.deep_view() == Seq::<Element>::empty());
    while i < found.len()
        invariant
            i <= found.len(),
            t == tokens.deep_view(),
            all == found.deep_view(),
            wanted@ == name@,
            forall|i: int| 0 <= i < found.len() ==> (#[trigger] found[i]).open < found[i].close
                < tokens.len(),
            r.deep_view() == named(t, all.take(i as int), name@),
            forall|i: int| 0 <= i < r.len() ==> (#[trigger] r[i]).open < r[i].close < tokens.len(),
        decreases found.len() - i,
    {
        let span = found[i];
        proof {
            reveal(Seq::filter);
            let next = all.take(i + 1);
            assert(next.drop_last() == all.take(i as int));
            assert(next.last() == span@);
            assert(t[span.open as int] == tokens[span.open as int]@);
        }
        let matches = match &tokens[span.open] {
            Token::Open(held) => *held == wanted,
            _ => false,
        };
        if matches {
            let ghost before = r.deep_view();
            r.push(span);
            assert(r.deep_view() == before.push(span@));
        }
        i += 1;
    }
    assert(all.take(i as int) == all);
    r
}

/// The one element of `found`, which holds the elements that were found for
/// `part`.
fn only(found: &Vec<Span>, part: Part) -> (r: Result<Span, ManifestError>)
    ensures
        match r {
            Ok(span) => the_one(found.deep_view(), part) == Ok::<Element, ManifestFault>(span@)
                && found.len() == 1 && span == found[0],
            Err(error) => the_one(found.deep_view(), part) == Err::<Element, ManifestFault>(
                error@,
            ),
        },
{
    if found.len() == 0 {
        Err(ManifestError::Missing(part))
    } else if found.len() > 1 {
        Err(ManifestError::Repeated(part))
    } else {
        Ok(found[0])
    }
}

/// The text that the element `span` holds.
fn text_in(tokens: &Vec<Token>, span: Span, part: Part) -> (r: Result<String, ManifestError>)
    requires
        span.open < span.close < tokens.len(),
    ensures
        match r {
            Ok(text) => text_of(tokens.deep_view(), span@, part) == Ok::<
                Seq<char>,
                ManifestFault,
            >(text@),
            Err(error) => text_of(tokens.deep_view(), span@, part) == Err::<
                Seq<char>,
                ManifestFault,
            >(error@),
        },
{
    if span.close == span.open + 1 {
        return Ok(String::new());
    }
    if span.close == span.open + 2 {
        assert(tokens.deep_view()[span.open + 1] == tokens[span.open + 1]@);
        match &tokens[span.open + 1] {
            Token::Text(text) => {
                return Ok(text.clone());
            },
            _ => {},
        }
    }
    Err(ManifestError::NotText(part))
}

/// The name under which a manifest holds `part`.
fn name_of(part: Part) -> (name: &'static str)
    ensures
        name@ == part_name(part),
{
    match part {
        Part::Dependencies => "dependencies",
        Part::GroupId => "groupId",
        Part::ArtifactId => "artifactId",
        Part::Version => "version",
    }
}

/// The text of the field `part` of a dependency, given the elements `inside`
/// the dependency.
fn field_in(tokens: &Vec<Token>, inside: &Vec<Span>, part: Part) -> (r: Result<
    String,
    ManifestError,
>)
    requires
        forall|i: int| 0 <= i < inside.len() ==> (#[trigger] inside[i]).open < inside[i].close
            < tokens.len(),
    ensures
        ({
            let t = tokens.deep_view();
            let expected = match the_one(named(t, inside.deep_view(), part_name(part)), part) {
                Err(fault) => Err(fault),
                Ok(element) => text_of(t, element, part),
            };
            match r {
                Ok(text) => expected == Ok::<Seq<char>, ManifestFault>(text@),
                Err(error) => expected == Err::<Seq<char>, ManifestFault>(error@),
            }
        }),
{
    let found = pick(tokens, inside, name_of(part));
    match only(&found, part) {
        Err(error) => Err(error),
        Ok(span) => text_in(tokens, span, part),
    }
}

/// The coordinate that the dependency `entry` declares.
fn coordinate_in(tokens: &Vec<Token>, entry: Span) -> (r: Result<Artifact, ManifestError>)
    requires
        entry.open < entry.close < tokens.len(),
    ensures
        match r {
            Ok(artifact) => coordinate(tokens.deep_view(), entry@) == Ok::<
                ArtifactView,
                ManifestFault,
            >(artifact@),
            Err(error) => coordinate(tokens.deep_view(), entry@) == Err::<
                ArtifactView,
                ManifestFault,
            >(error@),
        },
{
    let inside = elements_between(tokens, entry.open + 1, entry.close);
    let group_id = match field_in(tokens, &inside, Part::GroupId) {
        Ok(text) => text,
        Err(error) => {
            return Err(error);
        },
    };
    let artifact_id = match field_in(tokens, &inside, Part::ArtifactId) {
        Ok(text) => text,
        Err(error) => {
            return Err(error);
        },
    };
    let version = match field_in(tokens, &inside, Part::Version) {
        Ok(text) => text,
        Err(error) => {
            return Err(error);
        },
    };
    Ok(Artifact { group_id, artifact_id, version })
}

/// The dependency entries of the document with the significant tokens
/// `tokens`.
fn entries_in(tokens: &Vec<Token>) -> (r: Result<Vec<Span>, ManifestError>)
    ensures
        match r {
            Ok(entries) => entries_of(tokens.deep_view()) == Ok::<Seq<Element>, ManifestFault>(
                entries.deep_view(),
            ) && forall|i: int|
                0 <= i < entries.len() ==> (#[trigger] entries[i]).open < entries[i].close
                    < tokens.len(),
            Err(error) => entries_of(tokens.deep_view()) == Err::<Seq<Element>, ManifestFault>(
                error@,
            ),
        },
{
    let n = tokens.len();
    if n == 0 {
        return Err(ManifestError::NotADocument);
    }
    assert(tokens.deep_view()[0] == tokens[0]@);
    match &tokens[0] {
        Token::Open(_) => {},
        _ => {
            return Err(ManifestError::NotADocument);
        },
    }
    match closing_from(tokens, 1) {
        Some(close) => {
            if close != n - 1 {
                return Err(ManifestError::NotADocument);
            }
        },
        None => {
            return Err(ManifestError::NotADocument);
        },
    }
    let inside = elements_between(tokens, 1, n - 1);
    let lists = pick(tokens, &inside, name_of(Part::Dependencies));
    let list = match only(&lists, Part::Dependencies) {
        Ok(span) => span,
        Err(error) => {
            return Err(error);
        },
    };
    let declared = elements_between(tokens, list.open + 1, list.close);
    Ok(pick(tokens, &declared, "dependency"))
}

/// The dependencies that a document declares, given its tokens: one
/// coordinate for each `dependency` element directly inside the one
/// `dependencies` element directly inside the root, in the order of the
/// document, each with the text of its `groupId`, `artifactId` and `version`.
/// Other elements, and text beside elements, are passed over.
pub fn dependencies_in_tokens(tokens: Vec<Token>) -> (r: Result<Vec<Artifact>, ManifestError>)
    ensures
        listed(r, dependencies_of(tokens.deep_view())),
{
    let ghost all = tokens.deep_view();
    let kept = significant_tokens(tokens);
    let ghost t = kept.deep_view();
    let entries = match entries_in(&kept) {
        Ok(entries) => entries,
        Err(error) => {
            return Err(error);
        },
    };
    let ghost declared = entries.deep_view();
    let mut found: Vec<Artifact> = Vec::new();
    let mut i: usize = 0;
    assert(declared.take(0) == Seq::<Element>::empty());
    assert(found.deep_view() == Seq::<ArtifactView>::empty());
    while i < entries.len()
        invariant
            i <= entries.len(),
            t == kept.deep_view(),
            t == significant(all),
            all == tokens.deep_view(),
            declared == entries.deep_view(),
            entries_of(t) == Ok::<Seq<Element>, ManifestFault>(declared),
            forall|i: int|
                0 <= i < entries.len() ==> (#[trigger] entries[i]).open < entries[i].close
                    < kept.len(),
            coordinates(t, declared.take(i as int)) == Ok::<Seq<ArtifactView>, ManifestFault>(
                found.deep_view(),
            ),
        decreases entries.len() - i,
    {
        let entry = entries[i];
        proof {
            let next = declared.take(i + 1);
            assert(next.drop_last() == declared.take(i as int));
            assert(next.last() == entry@);
        }
        match coordinate_in(&kept, entry) {
            Ok(artifact) => {
                let ghost before = found.deep_view();
                found.push(artifact);
                assert(found.deep_view() == before.push(artifact@));
            },
            Err(error) => {
                proof {
                    let next = declared.take(i + 1);
                    assert(coordinates(t, next) == Err::<Seq<ArtifactView>, ManifestFault>(
                        error@,
                    ));
                    lemma_fault_stays(t, declared, i + 1);
                }
                return Err(error);
            },
        }
        i += 1;
    }
    assert(declared.take(i as int) == declared);
    Ok(found)
}

/// A fault among the first `n` entries is the fault of all of them.
pub proof fn lemma_fault_stays(t: Seq<TokenView>, entries: Seq<Element>, n: int)
    requires
        0 <= n <= entries.len(),
        coordinates(t, entries.take(n)) is Err,
    ensures
        coordinates(t, entries) == coordinates(t, entries.take(n)),
    decreases entries.len() - n,
{
    if n < entries.len() {
        let next = entries.take(n + 1);
        assert(next.drop_last() == entries.take(n));
        lemma_fault_stays(t, entries, n + 1);
    } else {
        assert(entries.take(n) == entries);
    }
}

/// Each dependency entry gives exactly one coordinate, in the order of the
/// entries. Where `coordinates` succeeds, it holds as many coordinates as there
/// are entries, and each is the coordinate of the entry at its place. Where it
/// fails, the fault is that of the first entry that has one.
pub proof fn lemma_one_coordinate_per_entry(t: Seq<TokenView>, entries: Seq<Element>)
    ensures
        match coordinates(t, entries) {
            Ok(found) => found.len() == entries.len() && forall|i: int|
                0 <= i < entries.len() ==> coordinate(t, #[trigger] entries[i]) == Ok::<
                    ArtifactView,
                    ManifestFault,
                >(found[i]),
            Err(fault) => exists|i: int|
                0 <= i < entries.len() && coordinate(t, #[trigger] entries[i]) == Err::<
                    ArtifactView,
                    ManifestFault,
                >(fault) && forall|j: int| 0 <= j < i ==> coordinate(t, #[trigger] entries[j]) is Ok,
        },
    decreases entries.len(),
{
    if entries.len() > 0 {
        let init = entries.drop_last();
        lemma_one_coordinate_per_entry(t, init);
        match coordinates(t, init) {
            Err(fault) => {
                let i = choose|i: int|
                    0 <= i < init.len() && coordinate(t, #[trigger] init[i]) == Err::<
                        ArtifactView,
                        ManifestFault,
                    >(fault) && forall|j: int| 0 <= j < i ==> coordinate(t, #[trigger] init[j]) is Ok;
                assert(entries[i] == init[i]);
                assert forall|j: int| 0 <= j < i implies coordinate(t, #[trigger] entries[j]) is Ok by {
                    assert(entries[j] == init[j]);
                }
            },
            Ok(before) => {
                assert forall|j: int| 0 <= j < init.len() implies coordinate(
                    t,
                    #[trigger] entries[j],
                ) == Ok::<ArtifactView, ManifestFault>(before[j]) by {
                    assert(entries[j] == init[j]);
                }
                match coordinate(t, entries.last()) {
                    Err(fault) => {
                        assert(entries[entries.len() - 1] == entries.last());
                    },
                    Ok(artifact) => {},
                }
            },
        }
    }
}

/// A document without a `dependencies` element directly inside its root gives
/// no list of dependencies, not an empty one: the outcome is the fault that
/// this part is missing.
pub proof fn lemma_dependencies_must_be_there(tokens: Seq<TokenView>)
    requires
        root_of(significant(tokens)) matches Some(root) && named(
            significant(tokens),
            children(significant(tokens), root),
            part_name(Part::Dependencies),
        ).len() == 0,
    ensures
        dependencies_of(tokens) == Err::<Seq<ArtifactView>, ManifestFault>(
            ManifestFault::Missing(Part::Dependencies),
        ),
{
}

/// A document with one `dependencies` element that holds no `dependency`
/// declares no dependency: the outcome is the empty list.
pub proof fn lemma_no_entry_no_dependency(tokens: Seq<TokenView>)
    requires
        entries_of(significant(tokens)) matches Ok(entries) && entries.len() == 0,
    ensures
        dependencies_of(tokens) == Ok::<Seq<ArtifactView>, ManifestFault>(Seq::empty()),
{
}

} // verus!
