//! The tokenizer: quick-xml's reader, and what it hands out as plain bytes.

use quick_xml::events::attributes::Attributes;
use quick_xml::events::Event as XmlEvent;
use quick_xml::Reader;
use vstd::prelude::*;

verus! {

/// One piece of a document as the tokenizer hands it out, before any of it is
/// decoded.
#[derive(Debug)]
pub enum Token {
    /// A start tag: its raw name, and the raw text that follows the name.
    Start { name: Vec<u8>, attributes: Vec<u8> },
    /// A self-closing tag: its raw name, and the raw text that follows the
    /// name.
    Empty { name: Vec<u8>, attributes: Vec<u8> },
    /// An end tag.
    End,
    /// Character data between tags, still escaped.
    Text { content: Vec<u8> },
    /// A comment, a CDATA section, a declaration, a processing instruction or
    /// a document type.
    Other,
    /// The end of the input.
    Eof,
    /// Markup that the tokenizer refuses, with its description of the fault.
    Malformed { detail: String },
}

/// The mathematical value of a [`Token`].
pub enum TokenView {
    Start { name: Seq<u8>, attributes: Seq<u8> },
    Empty { name: Seq<u8>, attributes: Seq<u8> },
    End,
    Text { content: Seq<u8> },
    Other,
    Eof,
    Malformed { detail: Seq<char> },
}

impl View for Token {
    type V = TokenView;

    open spec fn view(&self) -> TokenView {
        match self {
            Token::Start { name, attributes } => TokenView::Start {
                name: name@,
                attributes: attributes@,
            },
            Token::Empty { name, attributes } => TokenView::Empty {
                name: name@,
                attributes: attributes@,
            },
            Token::End => TokenView::End,
            Token::Text { content } => TokenView::Text { content: content@ },
            Token::Other => TokenView::Other,
            Token::Eof => TokenView::Eof,
            Token::Malformed { detail } => TokenView::Malformed { detail: detail@ },
        }
    }
}

/// One item of a tag's attribute text.
#[derive(Debug)]
pub enum RawAttribute {
    /// A key and its value, both raw; the value without its quotes and still
    /// escaped.
    Pair { key: Vec<u8>, value: Vec<u8> },
    /// Text that is no attribute, with the tokenizer's description of the
    /// fault.
    Malformed { detail: String },
}

/// The mathematical value of a [`RawAttribute`].
pub enum RawAttributeView {
    Pair { key: Seq<u8>, value: Seq<u8> },
    Malformed { detail: Seq<char> },
}

impl View for RawAttribute {
    type V = RawAttributeView;

    open spec fn view(&self) -> RawAttributeView {
        match self {
            RawAttribute::Pair { key, value } => RawAttributeView::Pair { key: key@, value: value@ },
            RawAttribute::Malformed { detail } => RawAttributeView::Malformed { detail: detail@ },
        }
    }
}

/// The values of a sequence of raw attributes.
pub open spec fn raw_attributes_view(items: Seq<RawAttribute>) -> Seq<RawAttributeView> {
    Seq::new(items.len(), |i: int| items[i]@)
}

/// quick-xml's `Reader`, which the verifier takes as it is: nothing inside it
/// is seen, and what it holds is spoken of through [`pending`].
#[verifier::external_type_specification]
#[verifier::external_body]
#[verifier::reject_recursive_types(R)]
pub struct ExReader<R>(Reader<R>);

/// The tokens that a reader has still to hand out before it reports the end
/// of its input. A malformed token, if there is one, is the last of them.
pub uninterp spec fn pending(reader: Reader<&[u8]>) -> Seq<TokenView>;

/// The tokens of a document, as a reader that trims the white space around
/// character data hands them out.
pub uninterp spec fn document_tokens(xml: Seq<char>) -> Seq<TokenView>;

/// The items that quick-xml's attribute iterator finds in the text that
/// follows a tag's name.
pub uninterp spec fn attribute_items(text: Seq<char>) -> Seq<RawAttributeView>;

/// What quick-xml's `unescape` makes of a text: the text with every entity
/// reference replaced, or its description of the reference that it refuses.
pub uninterp spec fn unescaped(text: Seq<char>) -> Result<Seq<char>, Seq<char>>;

/// The token that a reader hands out next.
pub open spec fn first_token(tokens: Seq<TokenView>) -> TokenView {
    if tokens.len() > 0 {
        tokens[0]
    } else {
        TokenView::Eof
    }
}

/// The tokens that are left once the next one is handed out.
pub open spec fn later_tokens(tokens: Seq<TokenView>) -> Seq<TokenView> {
    if tokens.len() > 0 {
        tokens.skip(1)
    } else {
        tokens
    }
}

/// `Reader::from_str` of quick-xml, followed by `trim_text(true)`: a reader
/// over `xml` that has the tokens of the document to hand out.
#[verifier::external_body]
pub(crate) fn open_reader<'a>(xml: &'a str) -> (reader: Reader<&'a [u8]>)
    ensures
        pending(reader) == document_tokens(xml@),
{
    let mut reader = Reader::from_str(xml);
    reader.trim_text(true);
    reader
}

/// `Reader::read_event` of quick-xml: hands out the first of the pending
/// tokens and keeps the rest; once nothing is pending it reports the end of
/// the input. An error of the reader comes out as a malformed token that holds
/// the error's message.
#[verifier::external_body]
pub(crate) fn read_event<'a>(reader: &mut Reader<&'a [u8]>) -> (token: Token)
    ensures
        token@ == first_token(pending(*old(reader))),
        pending(*final(reader)) == later_tokens(pending(*old(reader))),
{
    match reader.read_event() {
        Ok(XmlEvent::Start(e)) => Token::Start { name: e.name().0.to_vec(), attributes: e.attributes_raw().to_vec() },
        Ok(XmlEvent::Empty(e)) => Token::Empty { name: e.name().0.to_vec(), attributes: e.attributes_raw().to_vec() },
        Ok(XmlEvent::End(_)) => Token::End,
        Ok(XmlEvent::Text(e)) => Token::Text { content: e.to_vec() },
        Ok(XmlEvent::Eof) => Token::Eof,
        Ok(_) => Token::Other,
        Err(e) => Token::Malformed { detail: e.to_string() },
    }
}

/// `Attributes::new` of quick-xml and a walk over what it yields: every item
/// of the attribute text, in order, an error of the iterator as a malformed
/// item that holds the error's message.
#[verifier::external_body]
pub(crate) fn attribute_list(text: &str) -> (items: Vec<RawAttribute>)
    ensures
        raw_attributes_view(items@) == attribute_items(text@),
{
    Attributes::new(text, 0).map(|item| match item {
        Ok(a) => RawAttribute::Pair { key: a.key.0.to_vec(), value: a.value.into_owned() },
        Err(e) => RawAttribute::Malformed { detail: e.to_string() },
    }).collect()
}

/// `escape::unescape` of quick-xml: the text with its entity references
/// replaced, or the message of the error that it fails with.
#[verifier::external_body]
pub(crate) fn unescape(text: &str) -> (plain: Result<String, String>)
    ensures
        match plain {
            Ok(p) => unescaped(text@) == Ok::<Seq<char>, Seq<char>>(p@),
            Err(d) => unescaped(text@) == Err::<Seq<char>, Seq<char>>(d@),
        },
{
    match quick_xml::escape::unescape(text) {
        Ok(p) => Ok(p.into_owned()),
        Err(e) => Err(e.to_string()),
    }
}

} // verus!
