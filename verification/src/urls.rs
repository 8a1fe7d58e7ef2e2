//! The calls into the `url` crate, and the names under which the rest of the
//! library speaks of what they return. Nothing here is proved: each contract
//! restates what the `url` crate documents.

use url::{ParseError, Url};
use vstd::prelude::*;

verus! {

/// `url::Url`: a parsed URL. The library carries it from one call to the next
/// and speaks of it by its serialization only.
#[verifier::external_type_specification]
#[verifier::external_body]
pub struct ExUrl(url::Url);

/// `url::ParseError`: why the URL parser refused an input. The library carries
/// it and never looks inside.
#[verifier::external_type_specification]
#[verifier::external_body]
pub struct ExParseError(url::ParseError);

/// The serialization of a parsed URL: what `Url::as_str` returns for it.
pub uninterp spec fn url_text(url: Url) -> Seq<char>;

/// What `Url::parse` makes of `input`: the serialization of the URL it parses,
/// or `None` where it refuses the input.
pub uninterp spec fn url_parsed(input: Seq<char>) -> Option<Seq<char>>;

/// What `Url::join` makes of `reference` against the URL whose serialization is
/// `base`: the serialization of the resolved URL, or `None` where it refuses.
pub uninterp spec fn url_joined(base: Seq<char>, reference: Seq<char>) -> Option<Seq<char>>;

/// The serialization of the URL `url` after `PathSegmentsMut::push` has appended
/// `segment` to its path, or `None` where the URL cannot be a base and so has no
/// path segments to append to.
pub uninterp spec fn url_pushed(url: Seq<char>, segment: Seq<char>) -> Option<Seq<char>>;

/// The longest URL, and the longest segment, that `push_segment` is called with,
/// in characters. The `url` crate keeps positions in 32 bits; with both within
/// this limit the URL after the call still fits, however the segment is encoded.
pub const PUSH_LIMIT: usize = 0x0FFF_FFFF;

/// `Url::parse`: parses an absolute URL. The result is the URL named by
/// `url_parsed`, and an error exactly where that is `None`.
#[verifier::external_body]
pub(crate) fn parse(input: &str) -> (r: Result<Url, ParseError>)
    ensures
        match r {
            Ok(url) => url_parsed(input@) == Some(url_text(url)),
            Err(_) => url_parsed(input@) is None,
        },
{
    Url::parse(input)
}

/// `Url::join`: resolves `reference` against `base`. The result is the URL
/// named by `url_joined`, and an error exactly where that is `None`.
#[verifier::external_body]
pub(crate) fn join(base: &Url, reference: &str) -> (r: Result<Url, ParseError>)
    ensures
        match r {
            Ok(url) => url_joined(url_text(*base), reference@) == Some(url_text(url)),
            Err(_) => url_joined(url_text(*base), reference@) is None,
        },
{
    base.join(reference)
}

/// `Url::path_segments_mut` and `PathSegmentsMut::push`: appends one segment to
/// the path of `url`. Returns `false`, leaving `url` as it was, where the URL
/// cannot be a base; otherwise `url` becomes the URL named by `url_pushed`.
#[verifier::external_body]
pub(crate) fn push_segment(url: &mut Url, segment: &str) -> (pushed: bool)
    requires
        url_text(*old(url)).len() <= PUSH_LIMIT,
        segment@.len() <= PUSH_LIMIT,
    ensures
        match url_pushed(url_text(*old(url)), segment@) {
            Some(text) => pushed && url_text(*final(url)) == text,
            None => !pushed && url_text(*final(url)) == url_text(*old(url)),
        },
{
    match url.path_segments_mut() {
        Ok(mut segments) => {
            segments.push(segment);
            true
        },
        Err(()) => false,
    }
}

/// `Url::as_str`: the serialization of `url`.
#[verifier::external_body]
pub(crate) fn as_str(url: &Url) -> (text: &str)
    ensures
        text@ == url_text(*url),
{
    url.as_str()
}

} // verus!
