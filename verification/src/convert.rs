//! The converter: from the events of a document to its mapping.

use crate::error::{invalid_text, structural, Fault, ParseError};
use crate::event::{attributes_view, events_view, resolve, resolved, Attribute, Event, EventView};
use crate::name::{text_of, utf8};
use crate::token::{document_tokens, open_reader, pending, read_event, Token, TokenView};
use crate::value::{
    collapsed, merged, merged_all, text_key, update_mapping, Mapping, Tree, Value,
};
use vstd::prelude::*;

verus! {

/// An element whose end tag has not come yet.
pub struct Open {
    /// The element's qualified name.
    pub key: Seq<char>,
    /// Its attributes, each under `@` and its qualified name.
    pub attributes: Map<Seq<char>, Tree>,
    /// What its content has come to so far.
    pub children: Map<Seq<char>, Tree>,
}

/// How far a conversion has come: the document's mapping so far, and the
/// elements that are open, the innermost last.
pub struct State {
    pub root: Map<Seq<char>, Tree>,
    pub open: Seq<Open>,
}

/// The state before the first event.
pub open spec fn initial() -> State {
    State { root: Map::empty(), open: Seq::empty() }
}

/// The key of an attribute: `@` and its qualified name.
pub open spec fn attribute_key(name: Seq<char>) -> Seq<char> {
    seq!['@'] + name
}

/// The mapping of a tag's attributes: each value as text under its key, a
/// later attribute in place of an earlier one of the same name.
pub open spec fn attribute_map(attributes: Seq<(Seq<char>, Seq<char>)>) -> Map<Seq<char>, Tree>
    decreases attributes.len(),
{
    if attributes.len() == 0 {
        Map::empty()
    } else {
        attribute_map(attributes.drop_last()).insert(
            attribute_key(attributes.last().0),
            Tree::Text(attributes.last().1),
        )
    }
}

/// The value of a self-closing element: absent without attributes, else the
/// mapping of its attributes.
pub open spec fn empty_element_value(attributes: Seq<(Seq<char>, Seq<char>)>) -> Tree {
    if attributes.len() == 0 {
        Tree::Absent
    } else {
        Tree::Mapping(attribute_map(attributes))
    }
}

/// The value of an element at its end tag: its children merged into its
/// attributes, collapsed to the text alone where there is nothing else.
pub open spec fn element_value(element: Open) -> Tree {
    collapsed(merged_all(element.attributes, element.children))
}

/// The state after `value` is merged in under `key` at the current level: the
/// innermost open element, or the document where none is open.
pub open spec fn with_child(state: State, key: Seq<char>, value: Tree) -> State {
    if state.open.len() == 0 {
        State { root: merged(state.root, key, value), open: state.open }
    } else {
        let top = state.open.last();
        State {
            root: state.root,
            open: state.open.drop_last().push(
                Open {
                    key: top.key,
                    attributes: top.attributes,
                    children: merged(top.children, key, value),
                },
            ),
        }
    }
}

/// The state after character data is assigned at the current level, in place
/// of what `#text` held there.
pub open spec fn with_text(state: State, text: Seq<char>) -> State {
    if state.open.len() == 0 {
        State { root: state.root.insert(text_key(), Tree::Text(text)), open: state.open }
    } else {
        let top = state.open.last();
        State {
            root: state.root,
            open: state.open.drop_last().push(
                Open {
                    key: top.key,
                    attributes: top.attributes,
                    children: top.children.insert(text_key(), Tree::Text(text)),
                },
            ),
        }
    }
}

/// The fault of an end tag where no element is open.
pub open spec fn unmatched_end() -> Fault {
    structural("end tag without a start tag"@)
}

/// The fault of a document that ends inside an element.
pub open spec fn unclosed_element() -> Fault {
    structural("end of input inside an element"@)
}

/// The state after one event, or the fault that the event brings.
pub open spec fn step(state: State, event: EventView) -> Result<State, Fault> {
    match event {
        EventView::Start { key, attributes } => Ok(
            State {
                root: state.root,
                open: state.open.push(
                    Open { key, attributes: attribute_map(attributes), children: Map::empty() },
                ),
            },
        ),
        EventView::Empty { key, attributes } => Ok(
            with_child(state, key, empty_element_value(attributes)),
        ),
        EventView::Text { text } => Ok(with_text(state, text)),
        EventView::End => if state.open.len() == 0 {
            Err(unmatched_end())
        } else {
            let top = state.open.last();
            Ok(
                with_child(
                    State { root: state.root, open: state.open.drop_last() },
                    top.key,
                    element_value(top),
                ),
            )
        },
    }
}

/// The result at the end of the events: the document's mapping, or a fault
/// where an element is still open.
pub open spec fn finished(state: State) -> Result<Map<Seq<char>, Tree>, Fault> {
    if state.open.len() == 0 {
        Ok(state.root)
    } else {
        Err(unclosed_element())
    }
}

/// The result of a conversion that goes on from `state` with `events`: the
/// first fault, or the mapping at the end.
pub open spec fn converted_from(state: State, events: Seq<EventView>) -> Result<
    Map<Seq<char>, Tree>,
    Fault,
>
    decreases events.len(),
{
    if events.len() == 0 {
        finished(state)
    } else {
        match step(state, events[0]) {
            Err(fault) => Err(fault),
            Ok(next) => converted_from(next, events.skip(1)),
        }
    }
}

/// The mapping that a sequence of events converts to.
pub open spec fn converted(events: Seq<EventView>) -> Result<Map<Seq<char>, Tree>, Fault> {
    converted_from(initial(), events)
}

/// The result of a conversion that goes on from `state` with the tokens that
/// a reader has pending.
pub open spec fn parsed_from(state: State, tokens: Seq<TokenView>) -> Result<
    Map<Seq<char>, Tree>,
    Fault,
>
    decreases tokens.len(),
{
    if tokens.len() == 0 || tokens[0] is Eof {
        finished(state)
    } else {
        match resolved(tokens[0]) {
            Err(fault) => Err(fault),
            Ok(None) => parsed_from(state, tokens.skip(1)),
            Ok(Some(event)) => match step(state, event) {
                Err(fault) => Err(fault),
                Ok(next) => parsed_from(next, tokens.skip(1)),
            },
        }
    }
}

/// The mapping that a document converts to.
pub open spec fn parsed(xml: Seq<char>) -> Result<Map<Seq<char>, Tree>, Fault> {
    parsed_from(initial(), document_tokens(xml))
}

/// The mathematical value of a conversion's outcome.
pub open spec fn outcome_view(outcome: Result<Mapping, ParseError>) -> Result<
    Map<Seq<char>, Tree>,
    Fault,
> {
    match outcome {
        Ok(mapping) => Ok(mapping@),
        Err(error) => Err(error@),
    }
}

struct Frame {
    key: String,
    attributes: Mapping,
    children: Mapping,
}

impl View for Frame {
    type V = Open;

    closed spec fn view(&self) -> Open {
        Open { key: self.key@, attributes: self.attributes@, children: self.children@ }
    }
}

/// A conversion in progress. Events are fed to it one by one, in document
/// order.
pub struct Converter {
    root: Mapping,
    open: Vec<Frame>,
}

impl View for Converter {
    type V = State;

    closed spec fn view(&self) -> State {
        State { root: self.root@, open: Seq::new(self.open@.len(), |i: int| self.open@[i]@) }
    }
}

/// The mapping of a tag's attributes.
pub fn attributes_mapping(attributes: Vec<Attribute>) -> (mapping: Mapping)
    ensures
        mapping@ == attribute_map(attributes_view(attributes@)),
{
    let ghost all = attributes_view(attributes@);
    let mut mapping = Mapping::new();
    assert(all.take(0) =~= Seq::empty());
    for attribute in it: attributes
        invariant
            attributes_view(it.seq()) == all,
            mapping@ == attribute_map(all.take(it.index() as int)),
    {
        proof {
            let i = it.index() as int;
            reveal_strlit("@");
            assert("@"@ =~= seq!['@']);
            assert(all.take(i + 1).drop_last() =~= all.take(i));
            assert(all.take(i + 1).last() == attribute@);
        }
        let key = "@".to_owned().concat(attribute.key.as_str());
        mapping.insert(key, Value::Text(attribute.value));
    }
    assert(all.take(all.len() as int) =~= all);
    mapping
}

impl Converter {
    /// A conversion that has seen no event yet.
    pub fn new() -> (converter: Converter)
        ensures
            converter@ == initial(),
    {
        let converter = Converter { root: Mapping::new(), open: Vec::new() };
        assert(converter@.open =~= Seq::empty());
        converter
    }

    fn add_child(&mut self, key: String, value: Value)
        ensures
            final(self)@ == with_child(old(self)@, key@, value@),
    {
        let ghost before = self@;
        match self.open.pop() {
            None => {
                update_mapping(&mut self.root, key, value);
                assert(self@.open =~= before.open);
            },
            Some(frame) => {
                let mut frame = frame;
                update_mapping(&mut frame.children, key, value);
                self.open.push(frame);
                assert(self@.open =~= with_child(before, key@, value@).open);
            },
        }
    }

    fn set_text(&mut self, text: String)
        ensures
            final(self)@ == with_text(old(self)@, text@),
    {
        let ghost before = self@;
        match self.open.pop() {
            None => {
                self.root.insert("#text".to_owned(), Value::Text(text));
                assert(self@.open =~= before.open);
            },
            Some(frame) => {
                let mut frame = frame;
                frame.children.insert("#text".to_owned(), Value::Text(text));
                self.open.push(frame);
                assert(self@.open =~= with_text(before, text@).open);
            },
        }
    }

    /// Takes the next event of the document. On an error the conversion is
    /// left as it was.
    pub fn feed(&mut self, event: Event) -> (result: Result<(), ParseError>)
        ensures
            match step(old(self)@, event@) {
                Ok(next) => result is Ok && final(self)@ == next,
                Err(fault) => result is Err && result->Err_0@ == fault && final(self)@ == old(
                    self,
                )@,
            },
    {
        let ghost before = self@;
        match event {
            Event::Start { key, attributes } => {
                let attributes = attributes_mapping(attributes);
                self.open.push(Frame { key, attributes, children: Mapping::new() });
                assert(self@.open =~= step(before, event@)->Ok_0.open);
                Ok(())
            },
            Event::Empty { key, attributes } => {
                let value = if attributes.len() == 0 {
                    Value::Absent
                } else {
                    Value::Mapping(attributes_mapping(attributes))
                };
                self.add_child(key, value);
                Ok(())
            },
            Event::Text { text } => {
                self.set_text(text);
                Ok(())
            },
            Event::End => match self.open.pop() {
                None => {
                    assert(self@.open =~= before.open);
                    Err(ParseError::structural("end tag without a start tag".to_owned()))
                },
                Some(frame) => {
                    assert(self@.open =~= before.open.drop_last());
                    let Frame { key, attributes, children } = frame;
                    let mut element = attributes;
                    element.merge_all(children);
                    self.add_child(key, element.into_value());
                    Ok(())
                },
            },
        }
    }

    /// Ends the conversion: the document's mapping, or a structural error
    /// where an element is still open.
    pub fn finish(self) -> (outcome: Result<Mapping, ParseError>)
        ensures
            outcome_view(outcome) == finished(self@),
    {
        if self.open.len() == 0 {
            Ok(self.root)
        } else {
            Err(ParseError::structural("end of input inside an element".to_owned()))
        }
    }
}

/// Converts the events of a document to its mapping. The first error ends the
/// conversion; no part of the mapping is returned then.
pub fn convert(events: Vec<Event>) -> (outcome: Result<Mapping, ParseError>)
    ensures
        outcome_view(outcome) == converted(events_view(events@)),
{
    let ghost all = events_view(events@);
    let mut converter = Converter::new();
    assert(all.skip(0) =~= all);
    for event in it: events
        invariant
            events_view(it.seq()) == all,
            converted(all) == converted_from(converter@, all.skip(it.index() as int)),
    {
        proof {
            let i = it.index() as int;
            assert(all.skip(i)[0] == event@);
            assert(all.skip(i).skip(1) =~= all.skip(i + 1));
        }
        match converter.feed(event) {
            Err(error) => { return Err(error); },
            Ok(()) => {},
        }
    }
    converter.finish()
}

/// Converts a document to its mapping: reads its tokens one by one and feeds
/// the converter with the event of each, up to the end of the input or the
/// first error.
pub fn _parse(xml: &str) -> (outcome: Result<Mapping, ParseError>)
    ensures
        outcome_view(outcome) == parsed(xml@),
{
    let mut reader = open_reader(xml);
    let mut converter = Converter::new();
    loop
        invariant
            parsed(xml@) == parsed_from(converter@, pending(reader)),
        decreases pending(reader).len(),
    {
        let token = read_event(&mut reader);
        if let Token::Eof = token {
            return converter.finish();
        }
        match resolve(token) {
            Err(error) => { return Err(error); },
            Ok(None) => {},
            Ok(Some(event)) => match converter.feed(event) {
                Err(error) => { return Err(error); },
                Ok(()) => {},
            },
        }
    }
}

/// Converts a document given as bytes: a text encoding error where the bytes
/// are not valid UTF-8, else the value of the document, which is a mapping.
pub fn parse(input: &[u8]) -> (outcome: Result<Value, ParseError>)
    ensures
        match text_of(input@) {
            None => outcome is Err && outcome->Err_0@ == invalid_text(),
            Some(xml) => match parsed(xml) {
                Ok(mapping) => outcome is Ok && outcome->Ok_0@ == Tree::Mapping(mapping),
                Err(fault) => outcome is Err && outcome->Err_0@ == fault,
            },
        },
{
    match utf8(input) {
        None => Err(ParseError::invalid_text()),
        Some(xml) => match _parse(xml) {
            Ok(mapping) => Ok(Value::Mapping(mapping)),
            Err(error) => Err(error),
        },
    }
}

} // verus!
