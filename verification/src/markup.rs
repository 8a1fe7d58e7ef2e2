//! The call into the `xml` crate that reads a document into tokens, and the name
//! under which the rest of the library speaks of what it returns. Nothing here
//! is proved.

use vstd::prelude::*;
use xml::reader::{Error, EventReader, ParserConfig, XmlEvent};

verus! {

/// `xml::reader::Error`: what the reader reports of a document that it cannot
/// read. The library carries it and never looks inside.
#[verifier::external_type_specification]
#[verifier::external_body]
pub struct ExXmlError(xml::reader::Error);

/// One event of a document, as far as the library reads it.
#[derive(Debug)]
pub enum Token {
    /// The start of an element, with its local name.
    Open(String),
    /// The end of the element that is open.
    Close,
    /// Text between tags, without the whitespace around it.
    Text(String),
    /// Anything else: the start and the end of the document, a processing
    /// instruction.
    Other,
}

/// The mathematical value of a [`Token`].
pub enum TokenView {
    Open(Seq<char>),
    Close,
    Text(Seq<char>),
    Other,
}

impl View for Token {
    type V = TokenView;

    open spec fn view(&self) -> TokenView {
        match self {
            Token::Open(name) => TokenView::Open(name@),
            Token::Close => TokenView::Close,
            Token::Text(text) => TokenView::Text(text@),
            Token::Other => TokenView::Other,
        }
    }
}

impl DeepView for Token {
    type V = TokenView;

    open spec fn deep_view(&self) -> TokenView {
        self@
    }
}

/// The events that `xml::reader::EventReader` reads from the document `text`, up
/// to and including the end of the document, each as a token; `None` where the
/// reader reports an error. The reader is set to trim the whitespace around
/// text, to drop text that is whitespace only, to hand out character data
/// sections as text, to join adjacent text, and to pass over comments.
pub uninterp spec fn xml_events(text: Seq<char>) -> Option<Seq<TokenView>>;

/// `EventReader::new_with_config` and the iteration over its events: reads the
/// whole document. Returns the tokens named by `xml_events`, or the reader's
/// error exactly where that is `None`.
#[verifier::external_body]
pub(crate) fn read_events(text: &str) -> (r: Result<Vec<Token>, Error>)
    ensures
        match r {
            Ok(tokens) => xml_events(text@) == Some(tokens.deep_view()),
            Err(_) => xml_events(text@) is None,
        },
{
    let config = ParserConfig::new().trim_whitespace(true).whitespace_to_characters(true);
    let config = config.cdata_to_characters(true).ignore_comments(true).coalesce_characters(true);
    let mut tokens = Vec::new();
    for event in EventReader::new_with_config(text.as_bytes(), config) {
        tokens.push(match event? {
            XmlEvent::StartElement { name, .. } => Token::Open(name.local_name),
            XmlEvent::EndElement { .. } => Token::Close,
            XmlEvent::Characters(text) => Token::Text(text),
            _ => Token::Other,
        });
    }
    Ok(tokens)
}

} // verus!
