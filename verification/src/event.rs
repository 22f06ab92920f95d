//! The events that the converter works on: tokens with their names formed,
//! their attributes parsed and their text unescaped.

use crate::error::{invalid_text, structural, Fault, ParseError};
use crate::name::{qn, qualified_name, text_of, utf8};
use crate::token::{
    attribute_items, attribute_list, raw_attributes_view, unescape, unescaped, RawAttribute,
    RawAttributeView, Token, TokenView,
};
use vstd::prelude::*;

verus! {

/// An attribute: its qualified name and its value, unescaped.
#[derive(Debug)]
pub struct Attribute {
    pub key: String,
    pub value: String,
}

/// One step of a document.
#[derive(Debug)]
pub enum Event {
    /// A start tag, with the element's qualified name.
    Start { key: String, attributes: Vec<Attribute> },
    /// An end tag.
    End,
    /// A self-closing tag, with the element's qualified name.
    Empty { key: String, attributes: Vec<Attribute> },
    /// Character data, unescaped.
    Text { text: String },
}

/// The mathematical value of an [`Event`]; an attribute is a pair of its
/// qualified name and its value.
pub enum EventView {
    Start { key: Seq<char>, attributes: Seq<(Seq<char>, Seq<char>)> },
    End,
    Empty { key: Seq<char>, attributes: Seq<(Seq<char>, Seq<char>)> },
    Text { text: Seq<char> },
}

impl View for Attribute {
    type V = (Seq<char>, Seq<char>);

    open spec fn view(&self) -> (Seq<char>, Seq<char>) {
        (self.key@, self.value@)
    }
}

/// The values of a sequence of attributes.
pub open spec fn attributes_view(items: Seq<Attribute>) -> Seq<(Seq<char>, Seq<char>)> {
    Seq::new(items.len(), |i: int| items[i]@)
}

impl View for Event {
    type V = EventView;

    open spec fn view(&self) -> EventView {
        match self {
            Event::Start { key, attributes } => EventView::Start {
                key: key@,
                attributes: attributes_view(attributes@),
            },
            Event::End => EventView::End,
            Event::Empty { key, attributes } => EventView::Empty {
                key: key@,
                attributes: attributes_view(attributes@),
            },
            Event::Text { text } => EventView::Text { text: text@ },
        }
    }
}

/// The values of a sequence of events.
pub open spec fn events_view(events: Seq<Event>) -> Seq<EventView> {
    Seq::new(events.len(), |i: int| events[i]@)
}

/// Raw text, decoded and unescaped. Bytes that are not valid UTF-8 are a text
/// encoding fault, an entity reference that the tokenizer refuses is a
/// structural one.
pub open spec fn resolved_text(content: Seq<u8>) -> Result<Seq<char>, Fault> {
    match text_of(content) {
        None => Err(invalid_text()),
        Some(text) => match unescaped(text) {
            Ok(plain) => Ok(plain),
            Err(detail) => Err(structural(detail)),
        },
    }
}

/// A raw attribute with its name formed and its value unescaped.
pub open spec fn resolved_attribute(item: RawAttributeView) -> Result<
    (Seq<char>, Seq<char>),
    Fault,
> {
    match item {
        RawAttributeView::Malformed { detail } => Err(structural(detail)),
        RawAttributeView::Pair { key, value } => match qualified_name(key) {
            None => Err(invalid_text()),
            Some(k) => match resolved_text(value) {
                Err(fault) => Err(fault),
                Ok(v) => Ok((k, v)),
            },
        },
    }
}

/// The attributes of a tag, in order; the fault of the first item that has
/// one.
pub open spec fn resolved_attributes(items: Seq<RawAttributeView>) -> Result<
    Seq<(Seq<char>, Seq<char>)>,
    Fault,
>
    decreases items.len(),
{
    if items.len() == 0 {
        Ok(Seq::empty())
    } else {
        match resolved_attribute(items[0]) {
            Err(fault) => Err(fault),
            Ok(first) => match resolved_attributes(items.skip(1)) {
                Err(fault) => Err(fault),
                Ok(rest) => Ok(seq![first] + rest),
            },
        }
    }
}

/// A tag's qualified name and attributes, from its raw name and the raw text
/// that follows the name.
pub open spec fn resolved_tag(name: Seq<u8>, attributes: Seq<u8>) -> Result<
    (Seq<char>, Seq<(Seq<char>, Seq<char>)>),
    Fault,
> {
    match qualified_name(name) {
        None => Err(invalid_text()),
        Some(key) => match text_of(attributes) {
            None => Err(invalid_text()),
            Some(text) => match resolved_attributes(attribute_items(text)) {
                Err(fault) => Err(fault),
                Ok(list) => Ok((key, list)),
            },
        },
    }
}

/// The event that a token stands for, `None` for a token that carries nothing
/// to convert, or the fault found in it.
pub open spec fn resolved(token: TokenView) -> Result<Option<EventView>, Fault> {
    match token {
        TokenView::Start { name, attributes } => match resolved_tag(name, attributes) {
            Err(fault) => Err(fault),
            Ok((key, list)) => Ok(Some(EventView::Start { key, attributes: list })),
        },
        TokenView::Empty { name, attributes } => match resolved_tag(name, attributes) {
            Err(fault) => Err(fault),
            Ok((key, list)) => Ok(Some(EventView::Empty { key, attributes: list })),
        },
        TokenView::End => Ok(Some(EventView::End)),
        TokenView::Text { content } => match resolved_text(content) {
            Err(fault) => Err(fault),
            Ok(text) => Ok(Some(EventView::Text { text })),
        },
        TokenView::Other => Ok(None),
        TokenView::Eof => Ok(None),
        TokenView::Malformed { detail } => Err(structural(detail)),
    }
}

/// Decodes and unescapes raw text.
pub fn resolve_text(content: &[u8]) -> (text: Result<String, ParseError>)
    ensures
        match text {
            Ok(t) => resolved_text(content@) == Ok::<Seq<char>, Fault>(t@),
            Err(e) => resolved_text(content@) == Err::<Seq<char>, Fault>(e@),
        },
{
    match utf8(content) {
        None => Err(ParseError::invalid_text()),
        Some(text) => match unescape(text) {
            Ok(plain) => Ok(plain),
            Err(detail) => Err(ParseError::structural(detail)),
        },
    }
}

/// Forms the name and unescapes the value of one raw attribute.
pub fn resolve_attribute(item: &RawAttribute) -> (attribute: Result<Attribute, ParseError>)
    ensures
        match attribute {
            Ok(a) => resolved_attribute(item@) == Ok::<(Seq<char>, Seq<char>), Fault>(a@),
            Err(e) => resolved_attribute(item@) == Err::<(Seq<char>, Seq<char>), Fault>(e@),
        },
{
    match item {
        RawAttribute::Malformed { detail } => Err(ParseError::structural(detail.clone())),
        RawAttribute::Pair { key, value } => {
            let key = match qn(key.as_slice()) {
                Ok(key) => key,
                Err(e) => { return Err(e); },
            };
            match resolve_text(value.as_slice()) {
                Ok(value) => Ok(Attribute { key, value }),
                Err(e) => Err(e),
            }
        },
    }
}

/// Forms a tag's qualified name and parses its attributes.
pub fn resolve_tag(name: &[u8], attributes: &[u8]) -> (tag: Result<
    (String, Vec<Attribute>),
    ParseError,
>)
    ensures
        match tag {
            Ok((key, list)) => resolved_tag(name@, attributes@) == Ok::<
                (Seq<char>, Seq<(Seq<char>, Seq<char>)>),
                Fault,
            >((key@, attributes_view(list@))),
            Err(e) => resolved_tag(name@, attributes@) == Err::<
                (Seq<char>, Seq<(Seq<char>, Seq<char>)>),
                Fault,
            >(e@),
        },
{
    let key = match qn(name) {
        Ok(key) => key,
        Err(e) => { return Err(e); },
    };
    let text = match utf8(attributes) {
        Some(text) => text,
        None => { return Err(ParseError::invalid_text()); },
    };
    let items = attribute_list(text);
    let ghost all = raw_attributes_view(items@);
    let mut list: Vec<Attribute> = Vec::new();
    let mut i: usize = 0;
    assert(all.skip(0) =~= all);
    while i < items.len()
        invariant
            i <= items@.len(),
            qualified_name(name@) == Some(key@),
            text_of(attributes@) == Some(text@),
            all == attribute_items(text@),
            all == raw_attributes_view(items@),
            resolved_attributes(all) == match resolved_attributes(all.skip(i as int)) {
                Err(fault) => Err::<Seq<(Seq<char>, Seq<char>)>, Fault>(fault),
                Ok(rest) => Ok(attributes_view(list@) + rest),
            },
        decreases items@.len() - i,
    {
        proof {
            assert(all.skip(i as int)[0] == items@[i as int]@);
            assert(all.skip(i as int).skip(1) =~= all.skip(i + 1));
        }
        let ghost before = list@;
        match resolve_attribute(&items[i]) {
            Err(e) => { return Err(e); },
            Ok(attribute) => {
                list.push(attribute);
                proof {
                    assert(attributes_view(list@) =~= attributes_view(before) + seq![attribute@]);
                    match resolved_attributes(all.skip(i + 1)) {
                        Ok(rest) => {
                            assert(attributes_view(before) + (seq![attribute@] + rest)
                                =~= attributes_view(list@) + rest);
                        },
                        Err(_) => {},
                    }
                }
            },
        }
        i += 1;
    }
    proof {
        assert(attributes_view(list@) + Seq::<(Seq<char>, Seq<char>)>::empty() =~= attributes_view(
            list@,
        ));
    }
    Ok((key, list))
}

/// The event that a token stands for, nothing for a token that carries
/// nothing to convert, or the error found in the token.
pub fn resolve(token: Token) -> (event: Result<Option<Event>, ParseError>)
    ensures
        match event {
            Ok(Some(ev)) => resolved(token@) == Ok::<Option<EventView>, Fault>(Some(ev@)),
            Ok(None) => resolved(token@) == Ok::<Option<EventView>, Fault>(None),
            Err(e) => resolved(token@) == Err::<Option<EventView>, Fault>(e@),
        },
{
    match token {
        Token::Start { name, attributes } => match resolve_tag(
            name.as_slice(),
            attributes.as_slice(),
        ) {
            Ok((key, attributes)) => Ok(Some(Event::Start { key, attributes })),
            Err(e) => Err(e),
        },
        Token::Empty { name, attributes } => match resolve_tag(
            name.as_slice(),
            attributes.as_slice(),
        ) {
            Ok((key, attributes)) => Ok(Some(Event::Empty { key, attributes })),
            Err(e) => Err(e),
        },
        Token::End => Ok(Some(Event::End)),
        Token::Text { content } => match resolve_text(content.as_slice()) {
            Ok(text) => Ok(Some(Event::Text { text })),
            Err(e) => Err(e),
        },
        Token::Other => Ok(None),
        Token::Eof => Ok(None),
        Token::Malformed { detail } => Err(ParseError::structural(detail)),
    }
}

} // verus!
