//! What holds of every conversion.

use crate::canonical::{is_attributes, is_canonical, lemma_converted_level, lemma_text_key, well_named};
use crate::convert::{
    converted, converted_from, element_value, initial, parsed_from, step, with_text, Open, State,
};
use crate::error::{ErrorKind, Fault};
use crate::event::{resolved, EventView};
use crate::forward::{lemma_mapping_events, mapping_events};
use crate::token::TokenView;
use crate::value::{collapses, merged, merged_all, text_key, Tree};
use vstd::prelude::*;

verus! {

/// The number of elements that are open after `events`, where `depth` were
/// open before them; `None` where an end tag comes while none is open.
pub open spec fn depth_after(depth: nat, events: Seq<EventView>) -> Option<nat>
    decreases events.len(),
{
    if events.len() == 0 {
        Some(depth)
    } else {
        match events[0] {
            EventView::Start { .. } => depth_after(depth + 1, events.skip(1)),
            EventView::End => if depth == 0 {
                None
            } else {
                depth_after((depth - 1) as nat, events.skip(1))
            },
            _ => depth_after(depth, events.skip(1)),
        }
    }
}

/// Events convert to a mapping exactly when their tags are balanced: every
/// end tag closes an open element, and none is open at the end. Where they
/// are not, the conversion ends in a structural error and gives no mapping.
pub proof fn law_balanced_events_convert(state: State, events: Seq<EventView>)
    ensures
        converted_from(state, events) is Ok <==> depth_after(state.open.len(), events) == Some(
            0nat,
        ),
        converted_from(state, events) is Err ==> converted_from(state, events)->Err_0.kind
            == ErrorKind::StructuralError,
    decreases events.len(),
{
    if events.len() > 0 {
        match step(state, events[0]) {
            Ok(next) => {
                law_balanced_events_convert(next, events.skip(1));
            },
            Err(_) => {},
        }
    }
}

/// A document in which the tokenizer finds malformed markup converts to no
/// mapping, whatever came before the fault.
pub proof fn law_malformed_token_fails(state: State, tokens: Seq<TokenView>, i: int)
    requires
        0 <= i < tokens.len(),
        tokens[i] is Malformed,
        forall|j: int| 0 <= j < i ==> !(tokens[j] is Eof),
    ensures
        parsed_from(state, tokens) is Err,
    decreases i,
{
    if i > 0 {
        assert(!(tokens[0] is Eof));
        assert(tokens.skip(1)[i - 1] == tokens[i]);
        assert forall|j: int| 0 <= j < i - 1 implies !(tokens.skip(1)[j] is Eof) by {
            assert(tokens.skip(1)[j] == tokens[j + 1]);
        }
        match resolved(tokens[0]) {
            Err(_) => {},
            Ok(None) => {
                law_malformed_token_fails(state, tokens.skip(1), i - 1);
            },
            Ok(Some(event)) => match step(state, event) {
                Err(_) => {},
                Ok(next) => {
                    law_malformed_token_fails(next, tokens.skip(1), i - 1);
                },
            },
        }
    }
}

/// What a document converts to, put back into events, converts to the same
/// mapping again. This holds of every document in which no element is named
/// like an attribute key or like the key of character data, and for the
/// order in which the events of the mapping's keys happen to come.
pub proof fn law_converted_mapping_converts_back(events: Seq<EventView>)
    requires
        well_named(events),
        converted(events) is Ok,
    ensures
        converted(mapping_events(converted(events)->Ok_0)) == converted(events),
{
    assert(is_canonical(initial()));
    lemma_converted_level(initial(), events);
    lemma_mapping_events(converted(events)->Ok_0);
}

/// The mapping after each of `values` is merged in under `key`, in order.
pub open spec fn merged_each(
    mapping: Map<Seq<char>, Tree>,
    key: Seq<char>,
    values: Seq<Tree>,
) -> Map<Seq<char>, Tree>
    decreases values.len(),
{
    if values.len() == 0 {
        mapping
    } else {
        merged(merged_each(mapping, key, values.drop_last()), key, values.last())
    }
}

/// Values that are merged in under a new key, none of them a list, end up
/// under that key in the order in which they came: the first alone as it is,
/// two or more as one list. No list is ever wrapped into another.
pub proof fn law_occurrences_in_order(
    mapping: Map<Seq<char>, Tree>,
    key: Seq<char>,
    values: Seq<Tree>,
)
    requires
        !mapping.dom().contains(key),
        values.len() >= 1,
        forall|i: int| 0 <= i < values.len() ==> !((#[trigger] values[i]) is List),
    ensures
        merged_each(mapping, key, values) == mapping.insert(
            key,
            if values.len() == 1 {
                values[0]
            } else {
                Tree::List(values)
            },
        ),
    decreases values.len(),
{
    let init = values.drop_last();
    if values.len() == 1 {
        assert(merged_each(mapping, key, init) == mapping);
    } else {
        assert forall|i: int| 0 <= i < init.len() implies !((#[trigger] init[i]) is List) by {
            assert(init[i] == values[i]);
        }
        law_occurrences_in_order(mapping, key, init);
        assert(!(values[0] is List));
        if init.len() == 1 {
            assert(seq![init[0], values.last()] =~= values);
        } else {
            assert(init.push(values.last()) =~= values);
        }
        assert(merged_each(mapping, key, values) =~= mapping.insert(key, Tree::List(values)));
    }
}

/// A merge touches no key but its own.
pub proof fn law_merge_keeps_other_keys(
    mapping: Map<Seq<char>, Tree>,
    key: Seq<char>,
    value: Tree,
    other: Seq<char>,
)
    requires
        other != key,
    ensures
        merged(mapping, key, value).dom().contains(other) == mapping.dom().contains(other),
        mapping.dom().contains(other) ==> merged(mapping, key, value)[other] == mapping[other],
{
}

/// An element that has an attribute keeps its mapping, whatever its content
/// is: text beside an attribute does not collapse.
pub proof fn law_attributes_prevent_collapse(element: Open, name: Seq<char>)
    requires
        is_attributes(element.attributes),
        element.attributes.dom().contains(name),
    ensures
        element_value(element) == Tree::Mapping(
            merged_all(element.attributes, element.children),
        ),
{
    lemma_text_key();
    let m = merged_all(element.attributes, element.children);
    assert(m.dom().contains(name));
    if collapses(m) {
        assert(set![text_key()].contains(name));
    }
}

/// Character data that comes again at one level takes the place of the
/// earlier: nothing is joined, and no list is made.
pub proof fn law_later_text_overwrites(state: State, first: Seq<char>, second: Seq<char>)
    ensures
        with_text(with_text(state, first), second) == with_text(state, second),
{
    let once = with_text(state, first);
    if state.open.len() == 0 {
        assert(with_text(once, second).root =~= with_text(state, second).root);
    } else {
        assert(once.open.last().children.insert(text_key(), Tree::Text(second))
            =~= state.open.last().children.insert(text_key(), Tree::Text(second)));
        assert(with_text(once, second).open =~= with_text(state, second).open);
    }
}

/// The events of the tokens up to the end of the input, or the fault of the
/// first token that has one.
pub open spec fn resolved_events(tokens: Seq<TokenView>) -> Result<Seq<EventView>, Fault>
    decreases tokens.len(),
{
    if tokens.len() == 0 || tokens[0] is Eof {
        Ok(Seq::empty())
    } else {
        match resolved(tokens[0]) {
            Err(fault) => Err(fault),
            Ok(None) => resolved_events(tokens.skip(1)),
            Ok(Some(event)) => match resolved_events(tokens.skip(1)) {
                Err(fault) => Err(fault),
                Ok(rest) => Ok(seq![event] + rest),
            },
        }
    }
}

/// Tokens that convert to a mapping all resolve to events, and the mapping
/// is the one that those events convert to.
pub proof fn law_tokens_convert_as_their_events(state: State, tokens: Seq<TokenView>)
    requires
        parsed_from(state, tokens) is Ok,
    ensures
        resolved_events(tokens) is Ok,
        converted_from(state, resolved_events(tokens)->Ok_0) == parsed_from(state, tokens),
    decreases tokens.len(),
{
    if tokens.len() == 0 || tokens[0] is Eof {
    } else {
        match resolved(tokens[0]) {
            Err(_) => {},
            Ok(None) => {
                law_tokens_convert_as_their_events(state, tokens.skip(1));
            },
            Ok(Some(event)) => {
                let next = step(state, event)->Ok_0;
                law_tokens_convert_as_their_events(next, tokens.skip(1));
                let rest = resolved_events(tokens.skip(1))->Ok_0;
                let events = seq![event] + rest;
                assert(events[0] == event);
                assert(events.skip(1) =~= rest);
            },
        }
    }
}

/// What the tokens of a document convert to, put back into events, converts
/// to the same mapping again, where no element of the document is named like
/// an attribute key or like the key of character data.
pub proof fn law_document_converts_back(tokens: Seq<TokenView>)
    requires
        parsed_from(initial(), tokens) is Ok,
        well_named(resolved_events(tokens)->Ok_0),
    ensures
        converted(mapping_events(parsed_from(initial(), tokens)->Ok_0)) == parsed_from(
            initial(),
            tokens,
        ),
{
    law_tokens_convert_as_their_events(initial(), tokens);
    law_converted_mapping_converts_back(resolved_events(tokens)->Ok_0);
}

} // verus!
