//! What can go wrong while an artifact is resolved.

use url::ParseError;
use vstd::prelude::*;
use xml::reader::Error;

verus! {

/// Why a coordinate and a base endpoint give no URL.
#[derive(Debug)]
pub enum UrlError {
    /// A field of the coordinate gives an empty path segment: the field is empty,
    /// or the group starts or ends with a dot or holds two dots in a row.
    EmptySegment,
    /// The artifact name or the version is `.` or `..`, which no path keeps as a
    /// segment.
    DotSegment,
    /// A field holds a character that cannot stand in a path segment as it is.
    IllegalCharacter,
    /// The URL or a segment is longer than `PUSH_LIMIT` characters.
    TooLong,
    /// The base endpoint is a URL that has no path segments to append to.
    NotABase,
    /// The URL parser refused the base endpoint, the layout segment or the
    /// finished URL.
    Rejected(ParseError),
}

/// A `UrlError` without what the URL parser said.
pub enum UrlFault {
    EmptySegment,
    DotSegment,
    IllegalCharacter,
    TooLong,
    NotABase,
    Rejected,
}

impl View for UrlError {
    type V = UrlFault;

    open spec fn view(&self) -> UrlFault {
        match self {
            UrlError::EmptySegment => UrlFault::EmptySegment,
            UrlError::DotSegment => UrlFault::DotSegment,
            UrlError::IllegalCharacter => UrlFault::IllegalCharacter,
            UrlError::TooLong => UrlFault::TooLong,
            UrlError::NotABase => UrlFault::NotABase,
            UrlError::Rejected(_) => UrlFault::Rejected,
        }
    }
}

/// A part of a manifest that the library looks for by name.
#[derive(Debug, Clone, Copy, PartialEq, Eq, Structural)]
pub enum Part {
    /// The element `dependencies` of the project.
    Dependencies,
    /// The element `groupId` of a dependency.
    GroupId,
    /// The element `artifactId` of a dependency.
    ArtifactId,
    /// The element `version` of a dependency.
    Version,
}

/// Why a manifest gives no list of dependencies.
#[derive(Debug)]
pub enum ManifestError {
    /// The text is not a well-formed document.
    Malformed(Error),
    /// The events of the document are not one element with all the rest inside
    /// it.
    NotADocument,
    /// The part is not there: the project has no `dependencies`, or a
    /// dependency lacks a field.
    Missing(Part),
    /// The part is there more than once.
    Repeated(Part),
    /// The field of a dependency holds something other than text.
    NotText(Part),
}

/// A `ManifestError` without what the reader of the document said.
pub enum ManifestFault {
    Malformed,
    NotADocument,
    Missing(Part),
    Repeated(Part),
    NotText(Part),
}

impl View for ManifestError {
    type V = ManifestFault;

    open spec fn view(&self) -> ManifestFault {
        match self {
            ManifestError::Malformed(_) => ManifestFault::Malformed,
            ManifestError::NotADocument => ManifestFault::NotADocument,
            ManifestError::Missing(part) => ManifestFault::Missing(*part),
            ManifestError::Repeated(part) => ManifestFault::Repeated(*part),
            ManifestError::NotText(part) => ManifestFault::NotText(*part),
        }
    }
}

/// What ends the resolution of an artifact.
#[derive(Debug)]
pub enum RepositoryOperationError {
    /// An artifact could not be fetched; the text says what the transport
    /// reported.
    GetError(String),
    /// The coordinate, with the base endpoint, gives no URL.
    InvalidArtifactName(UrlError),
    /// The local repository could not be read or written; the text says what
    /// the file system reported.
    IoError(String),
    /// A manifest gives no list of dependencies.
    ManifestParseError(ManifestError),
}

} // verus!
