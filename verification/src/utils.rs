//! From the text of a manifest to the dependencies that it declares.

use crate::error::{ManifestError, ManifestFault};
use crate::manifest::{dependencies_in_tokens, dependencies_of, listed};
use crate::markup::{read_events, xml_events};
use crate::repository::{Artifact, ArtifactView};
use crate::text::{chars_of, find_from, first_index, lemma_first_index_is};
use vstd::prelude::*;
use vstd::string::StrSliceExecFns;

verus! {

/// Whether `c` is white space: a character with the Unicode property
/// `White_Space`.
pub open spec fn is_whitespace(c: char) -> bool {
    let code = c as u32;
    ||| 0x09 <= code <= 0x0D
    ||| code == 0x20
    ||| code == 0x85
    ||| code == 0xA0
    ||| code == 0x1680
    ||| 0x2000 <= code <= 0x200A
    ||| code == 0x2028
    ||| code == 0x2029
    ||| code == 0x202F
    ||| code == 0x205F
    ||| code == 0x3000
}

/// The number of white space characters that `s` starts with.
pub open spec fn leading_whitespace(s: Seq<char>) -> nat
    decreases s.len(),
{
    if s.len() == 0 || !is_whitespace(s[0]) {
        0
    } else {
        1 + leading_whitespace(s.drop_first())
    }
}

/// How a declaration of the document starts.
pub open spec fn declaration_start() -> Seq<char> {
    "<?xml"@
}

/// Whether the first thing in `text` after white space is a declaration.
pub open spec fn starts_with_declaration(text: Seq<char>) -> bool {
    declaration_start().is_prefix_of(text.skip(leading_whitespace(text) as int))
}

/// The manifest `text` without its declaration line. Where the first thing in
/// `text` after white space is a declaration, this is what follows the first
/// line break after it, and nothing where no line break follows. Any other
/// text is left as it is, white space included.
pub open spec fn without_declaration(text: Seq<char>) -> Seq<char> {
    if starts_with_declaration(text) {
        let body = text.skip(leading_whitespace(text) as int);
        let end = first_index(body, '\n') as int;
        if end < body.len() {
            body.skip(end + 1)
        } else {
            Seq::empty()
        }
    } else {
        text
    }
}

/// The dependencies that the manifest `text` declares: those of the tokens of
/// the document that is left when the declaration line is taken away.
pub open spec fn manifest_dependencies(text: Seq<char>) -> Result<
    Seq<ArtifactView>,
    ManifestFault,
> {
    match xml_events(without_declaration(text)) {
        None => Err(ManifestFault::Malformed),
        Some(tokens) => dependencies_of(tokens),
    }
}

/// `leading_whitespace` is the first position whose character is not white
/// space.
pub proof fn lemma_leading_whitespace(s: Seq<char>)
    ensures
        leading_whitespace(s) <= s.len(),
        forall|k: int| 0 <= k < leading_whitespace(s) ==> is_whitespace(s[k]),
        leading_whitespace(s) < s.len() ==> !is_whitespace(s[leading_whitespace(s) as int]),
    decreases s.len(),
{
    if s.len() == 0 || !is_whitespace(s[0]) {
    } else {
        let t = s.drop_first();
        lemma_leading_whitespace(t);
        assert forall|k: int| 0 <= k < leading_whitespace(s) implies is_whitespace(s[k]) by {
            if k > 0 {
                assert(s[k] == t[k - 1]);
            }
        }
        if leading_whitespace(s) < s.len() {
            assert(s[leading_whitespace(s) as int] == t[leading_whitespace(t) as int]);
        }
    }
}

/// A position with white space before it and none at it is
/// `leading_whitespace`.
pub proof fn lemma_leading_whitespace_is(s: Seq<char>, i: int)
    requires
        0 <= i <= s.len(),
        forall|k: int| 0 <= k < i ==> is_whitespace(s[k]),
        i < s.len() ==> !is_whitespace(s[i]),
    ensures
        leading_whitespace(s) == i,
{
    lemma_leading_whitespace(s);
}

/// Whether `c` is white space.
pub fn is_white(c: char) -> (r: bool)
    ensures
        r == is_whitespace(c),
{
    let code: u32 = c as u32;
    (0x09 <= code && code <= 0x0D) || code == 0x20 || code == 0x85 || code == 0xA0 || code
        == 0x1680 || (0x2000 <= code && code <= 0x200A) || code == 0x2028 || code == 0x2029
        || code == 0x202F || code == 0x205F || code == 0x3000
}

/// Takes the declaration line off the manifest `pom_contents`, for the reader
/// of the document does not take a declaration that has white space before it.
/// A manifest that does not start with a declaration comes back as it is.
pub fn trim_xml_file(pom_contents: &str) -> (r: &str)
    ensures
        r@ == without_declaration(pom_contents@),
{
    let chars = chars_of(pom_contents);
    let n = chars.len();
    let mut start: usize = 0;
    while start < n && is_white(chars[start])
        invariant
            start <= n,
            n == chars.len(),
            forall|k: int| 0 <= k < start ==> is_whitespace(chars@[k]),
        decreases n - start,
    {
        start += 1;
    }
    proof {
        lemma_leading_whitespace_is(pom_contents@, start as int);
        reveal_strlit("<?xml");
    }
    let ghost body = pom_contents@.skip(start as int);
    if n - start >= 5 && chars[start] == '<' && chars[start + 1] == '?' && chars[start + 2] == 'x'
        && chars[start + 3] == 'm' && chars[start + 4] == 'l' {
        assert(declaration_start() =~= body.subrange(0, 5));
        let end = find_from(&chars, start, '\n');
        if end < n {
            assert(body.skip(end - start + 1) == pom_contents@.skip(end + 1));
            assert(pom_contents@.skip(end + 1) == pom_contents@.subrange(end + 1, n as int));
            pom_contents.substring_char(end + 1, n)
        } else {
            pom_contents.substring_char(n, n)
        }
    } else {
        assert(!declaration_start().is_prefix_of(body)) by {
            if declaration_start().is_prefix_of(body) {
                let head = body.subrange(0, 5);
                assert(head[0] == '<' && head[1] == '?' && head[2] == 'x' && head[3] == 'm'
                    && head[4] == 'l');
            }
        }
        pom_contents
    }
}

/// The dependencies that the manifest `pom_contents` declares, in the order
/// in which it declares them.
pub fn dependencies_in_pom(pom_contents: &str) -> (r: Result<Vec<Artifact>, ManifestError>)
    ensures
        listed(r, manifest_dependencies(pom_contents@)),
{
    match read_events(trim_xml_file(pom_contents)) {
        Ok(tokens) => dependencies_in_tokens(tokens),
        Err(error) => Err(ManifestError::Malformed(error)),
    }
}

/// A manifest that starts with a declaration line declares what it declares
/// without that line. Let a manifest be made of white space `lead`, a line
/// `line` that starts a declaration, a line break, and `rest`, where `rest`
/// does not start with a declaration of its own. Then all but `rest` is taken
/// away, `rest` alone is left as it is, and the two give the same outcome.
pub proof fn lemma_declaration_line_is_passed_over(
    lead: Seq<char>,
    line: Seq<char>,
    rest: Seq<char>,
)
    requires
        forall|i: int| 0 <= i < lead.len() ==> is_whitespace(lead[i]),
        declaration_start().is_prefix_of(line),
        forall|i: int| 0 <= i < line.len() ==> line[i] != '\n',
        !starts_with_declaration(rest),
    ensures
        without_declaration(lead + line + seq!['\n'] + rest) == rest,
        without_declaration(rest) == rest,
        manifest_dependencies(lead + line + seq!['\n'] + rest) == manifest_dependencies(rest),
{
    reveal_strlit("<?xml");
    let text = lead + line + seq!['\n'] + rest;
    let body = line + seq!['\n'] + rest;
    assert(line.subrange(0, 5)[0] == '<');
    assert(text[lead.len() as int] == line[0]);
    assert forall|k: int| 0 <= k < lead.len() implies is_whitespace(text[k]) by {
        assert(text[k] == lead[k]);
    }
    lemma_leading_whitespace_is(text, lead.len() as int);
    assert(text.skip(lead.len() as int) == body);
    assert(declaration_start() =~= body.subrange(0, 5)) by {
        assert(declaration_start() =~= line.subrange(0, 5));
        assert(line.subrange(0, 5) =~= body.subrange(0, 5));
    }
    assert forall|k: int| 0 <= k < line.len() implies body[k] != '\n' by {
        assert(body[k] == line[k]);
    }
    assert(body[line.len() as int] == '\n');
    lemma_first_index_is(body, '\n', line.len() as int);
    assert(body.skip(line.len() as int + 1) == rest);
}

} // verus!
