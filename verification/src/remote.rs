//! The remote repository: from a base endpoint and a coordinate to the URLs of
//! the artifact's binary and manifest.

use crate::error::{UrlError, UrlFault};
use crate::repository::{Artifact, ArtifactView};
use crate::text::{chars_of, split, split_on};
use crate::urls::{as_str, join, parse, push_segment, url_joined, url_parsed, url_pushed, PUSH_LIMIT};
use vstd::prelude::*;
use vstd::string::{StrSliceExecFns, StringExecFns};

verus! {

/// Whether `c` can stand in a path segment as it is: a letter or digit of ASCII,
/// or one of ``-._~!$&'()*+,;=:@``.
pub open spec fn legal_in_segment(c: char) -> bool {
    let code = c as u32;
    ||| 0x61 <= code <= 0x7A
    ||| 0x41 <= code <= 0x5A
    ||| 0x30 <= code <= 0x39
    ||| c == '-' || c == '.' || c == '_' || c == '~'
    ||| c == '!' || c == '$' || c == '&' || c == '\'' || c == '(' || c == ')'
    ||| c == '*' || c == '+' || c == ',' || c == ';' || c == '='
    ||| c == ':' || c == '@'
}

/// What is wrong with `segment` as a path segment, if anything.
pub open spec fn segment_fault(segment: Seq<char>) -> Option<UrlFault> {
    if segment.len() == 0 {
        Some(UrlFault::EmptySegment)
    } else if segment == seq!['.'] || segment == seq!['.', '.'] {
        Some(UrlFault::DotSegment)
    } else if exists|i: int| 0 <= i < segment.len() && !legal_in_segment(#[trigger] segment[i]) {
        Some(UrlFault::IllegalCharacter)
    } else {
        None
    }
}

/// The fault of the first of `segments` that has one.
pub open spec fn first_fault(segments: Seq<Seq<char>>) -> Option<UrlFault>
    decreases segments.len(),
{
    if segments.len() == 0 {
        None
    } else {
        match segment_fault(segments[0]) {
            Some(fault) => Some(fault),
            None => first_fault(segments.drop_first()),
        }
    }
}

/// The path segments that a coordinate adds to the repository's layout: the
/// pieces of the group between its dots, the artifact name, the version, and
/// the name and the version joined by a hyphen.
pub open spec fn url_segments(artifact: ArtifactView) -> Seq<Seq<char>> {
    split_on(artifact.group_id, '.') + seq![
        artifact.artifact_id,
        artifact.version,
        artifact.artifact_id + seq!['-'] + artifact.version,
    ]
}

/// The URL `url` after each of `segments` has been appended to its path, in
/// order.
pub open spec fn extended(url: Seq<char>, segments: Seq<Seq<char>>) -> Result<
    Seq<char>,
    UrlFault,
>
    decreases segments.len(),
{
    if segments.len() == 0 {
        Ok(url)
    } else if url.len() > PUSH_LIMIT || segments[0].len() > PUSH_LIMIT {
        Err(UrlFault::TooLong)
    } else {
        match url_pushed(url, segments[0]) {
            None => Err(UrlFault::NotABase),
            Some(next) => extended(next, segments.drop_first()),
        }
    }
}

/// The segment that stands for the repository's layout, between the base
/// endpoint and the coordinate.
pub open spec fn layout_segment() -> Seq<char> {
    "maven2"@
}

/// The URL of an artifact without the suffix of a file: the base endpoint
/// joined with the layout segment, then extended by the coordinate's segments.
/// A fault of the coordinate comes before any fault of the endpoint.
pub open spec fn artifact_url_of(base: Seq<char>, artifact: ArtifactView) -> Result<
    Seq<char>,
    UrlFault,
> {
    match first_fault(url_segments(artifact)) {
        Some(fault) => Err(fault),
        None => match url_parsed(base) {
            None => Err(UrlFault::Rejected),
            Some(endpoint) => match url_joined(endpoint, layout_segment()) {
                None => Err(UrlFault::Rejected),
                Some(layout) => extended(layout, url_segments(artifact)),
            },
        },
    }
}

/// The URL of the file of an artifact that ends in `suffix`: the artifact's URL
/// with the suffix appended, parsed again.
pub open spec fn file_url_of(base: Seq<char>, artifact: ArtifactView, suffix: Seq<char>) -> Result<
    Seq<char>,
    UrlFault,
> {
    match artifact_url_of(base, artifact) {
        Err(fault) => Err(fault),
        Ok(stem) => match url_parsed(stem + suffix) {
            None => Err(UrlFault::Rejected),
            Some(url) => Ok(url),
        },
    }
}

/// Whether the outcome `r` of an executable function is the outcome `expected`.
pub open spec fn agrees(r: Result<String, UrlError>, expected: Result<Seq<char>, UrlFault>) -> bool {
    match r {
        Ok(text) => expected == Ok::<Seq<char>, UrlFault>(text@),
        Err(error) => expected == Err::<Seq<char>, UrlFault>(error@),
    }
}

/// Whether `c` can stand in a path segment as it is.
pub fn is_legal_in_segment(c: char) -> (r: bool)
    ensures
        r == legal_in_segment(c),
{
    let code: u32 = c as u32;
    (0x61 <= code && code <= 0x7A) || (0x41 <= code && code <= 0x5A) || (0x30 <= code && code
        <= 0x39) || c == '-' || c == '.' || c == '_' || c == '~' || c == '!' || c == '$' || c
        == '&' || c == '\'' || c == '(' || c == ')' || c == '*' || c == '+' || c == ',' || c == ';'
        || c == '=' || c == ':' || c == '@'
}

/// Checks one path segment.
pub fn check_segment(segment: &str) -> (r: Option<UrlError>)
    ensures
        match r {
            Some(error) => segment_fault(segment@) == Some(error@),
            None => segment_fault(segment@) is None,
        },
{
    let chars = chars_of(segment);
    let n = chars.len();
    if n == 0 {
        return Some(UrlError::EmptySegment);
    }
    if chars[0] == '.' && (n == 1 || (n == 2 && chars[1] == '.')) {
        assert(segment@ == seq!['.'] || segment@ == seq!['.', '.']);
        return Some(UrlError::DotSegment);
    }
    assert(segment@ != seq!['.'] && segment@ != seq!['.', '.']) by {
        if segment@ == seq!['.'] {
            assert(seq!['.'].len() == 1 && seq!['.'][0] == '.');
        }
        if segment@ == seq!['.', '.'] {
            assert(seq!['.', '.'].len() == 2 && seq!['.', '.'][0] == '.' && seq!['.', '.'][1]
                == '.');
        }
    }
    let mut i: usize = 0;
    while i < n
        invariant
            i <= n,
            n == chars.len(),
            chars@ == segment@,
            forall|k: int| 0 <= k < i ==> legal_in_segment(#[trigger] segment@[k]),
        decreases n - i,
    {
        if !is_legal_in_segment(chars[i]) {
            return Some(UrlError::IllegalCharacter);
        }
        i += 1;
    }
    None
}

/// The path segments that `artifact` adds to the repository's layout, or the
/// fault of the first of them that has one.
pub fn artifact_segments(artifact: &Artifact) -> (r: Result<Vec<String>, UrlError>)
    ensures
        match r {
            Ok(segments) => first_fault(url_segments(artifact@)) is None && segments.deep_view()
                == url_segments(artifact@),
            Err(error) => first_fault(url_segments(artifact@)) == Some(error@),
        },
{
    let mut segments = split(artifact.group_id.as_str(), '.');
    let ghost pieces = segments.deep_view();
    segments.push(artifact.artifact_id.clone());
    segments.push(artifact.version.clone());
    let mut last = artifact.artifact_id.clone();
    proof {
        reveal_strlit("-");
    }
    last.append("-");
    last.append(artifact.version.as_str());
    assert(last@ == artifact@.artifact_id + seq!['-'] + artifact@.version);
    segments.push(last);
    let ghost all = url_segments(artifact@);
    assert(segments.deep_view() == all);
    assert(all.skip(0) == all);
    let mut i: usize = 0;
    while i < segments.len()
        invariant
            i <= segments.len(),
            segments.deep_view() == all,
            all == url_segments(artifact@),
            first_fault(all) == first_fault(all.skip(i as int)),
        decreases segments.len() - i,
    {
        assert(segments[i as int]@ == all[i as int]);
        assert(all.skip(i as int)[0] == all[i as int]);
        assert(all.skip(i as int).drop_first() == all.skip(i + 1));
        match check_segment(segments[i].as_str()) {
            Some(error) => {
                return Err(error);
            },
            None => {},
        }
        i += 1;
    }
    Ok(segments)
}

/// A remote repository, known by its base endpoint.
pub struct RemoteRepository {
    /// The base endpoint, as text. It is parsed when a URL is derived from it.
    pub remote_url: String,
}

impl View for RemoteRepository {
    type V = Seq<char>;

    /// The base endpoint.
    open spec fn view(&self) -> Seq<char> {
        self.remote_url@
    }
}

impl Default for RemoteRepository {
    /// The central repository of Maven.
    fn default() -> (r: Self)
        ensures
            r@ == "https://repo1.maven.org/"@,
    {
        RemoteRepository { remote_url: "https://repo1.maven.org/".to_owned() }
    }
}

impl RemoteRepository {
    /// The remote repository with the base endpoint `remote_url`.
    pub fn new(remote_url: &str) -> (r: Self)
        ensures
            r@ == remote_url@,
    {
        RemoteRepository { remote_url: remote_url.to_owned() }
    }

    /// The URL of `artifact` in this repository, without the suffix of a file.
    #[verifier::loop_isolation(false)]
    pub fn artifact_url(&self, artifact: &Artifact) -> (r: Result<String, UrlError>)
        ensures
            agrees(r, artifact_url_of(self@, artifact@)),
    {
        let segments = match artifact_segments(artifact) {
            Ok(segments) => segments,
            Err(error) => {
                return Err(error);
            },
        };
        let endpoint = match parse(self.remote_url.as_str()) {
            Ok(url) => url,
            Err(error) => {
                return Err(UrlError::Rejected(error));
            },
        };
        let mut url = match join(&endpoint, "maven2") {
            Ok(url) => url,
            Err(error) => {
                return Err(UrlError::Rejected(error));
            },
        };
        let ghost all = url_segments(artifact@);
        let ghost layout = crate::urls::url_text(url);
        assert(all.skip(0) == all);
        let mut i: usize = 0;
        while i < segments.len()
            invariant
                i <= segments.len(),
                segments.deep_view() == all,
                extended(layout, all) == extended(crate::urls::url_text(url), all.skip(i as int)),
            decreases segments.len() - i,
        {
            assert(segments[i as int]@ == all[i as int]);
            assert(all.skip(i as int)[0] == all[i as int]);
            assert(all.skip(i as int).drop_first() == all.skip(i + 1));
            let segment = segments[i].as_str();
            if as_str(&url).unicode_len() > PUSH_LIMIT || segment.unicode_len() > PUSH_LIMIT {
                return Err(UrlError::TooLong);
            }
            if !push_segment(&mut url, segment) {
                return Err(UrlError::NotABase);
            }
            i += 1;
        }
        Ok(as_str(&url).to_owned())
    }

    /// The URL of the file of `artifact` that ends in `suffix`.
    fn file_url(&self, artifact: &Artifact, suffix: &str) -> (r: Result<String, UrlError>)
        ensures
            agrees(r, file_url_of(self@, artifact@, suffix@)),
    {
        let mut text = match self.artifact_url(artifact) {
            Ok(text) => text,
            Err(error) => {
                return Err(error);
            },
        };
        text.append(suffix);
        match parse(text.as_str()) {
            Ok(url) => Ok(as_str(&url).to_owned()),
            Err(error) => Err(UrlError::Rejected(error)),
        }
    }

    /// The URL of the binary of `artifact`.
    pub fn jar_artifact_url(&self, artifact: &Artifact) -> (r: Result<String, UrlError>)
        ensures
            agrees(r, file_url_of(self@, artifact@, crate::repository::jar_suffix())),
    {
        self.file_url(artifact, ".jar")
    }

    /// The URL of the manifest of `artifact`.
    pub fn pom_artifact_url(&self, artifact: &Artifact) -> (r: Result<String, UrlError>)
        ensures
            agrees(r, file_url_of(self@, artifact@, crate::repository::pom_suffix())),
    {
        self.file_url(artifact, ".pom")
    }
}

} // verus!
