//! The shape of what a conversion produces, where no element is named like an
//! attribute key or like the key of character data.

use crate::convert::{
    attribute_map, converted_from, element_value, empty_element_value, step, with_child, Open,
    State,
};
use crate::event::EventView;
use crate::value::{collapses, merged, merged_all, text_key, Tree};
use vstd::prelude::*;

verus! {

/// The key is that of an attribute: it starts with `@`.
pub open spec fn is_attribute_key(key: Seq<char>) -> bool {
    key.len() > 0 && key[0] == '@'
}

/// The key can be that of an element: it is neither that of an attribute nor
/// that of character data.
pub open spec fn is_element_key(key: Seq<char>) -> bool {
    !is_attribute_key(key) && key != text_key()
}

/// Every element of `events` has a key that can be that of an element.
pub open spec fn well_named(events: Seq<EventView>) -> bool {
    forall|i: int| 0 <= i < events.len() ==> well_named_event(#[trigger] events[i])
}

/// The event's element, if it has one, has a key that can be that of an
/// element.
pub open spec fn well_named_event(event: EventView) -> bool {
    match event {
        EventView::Start { key, .. } => is_element_key(key),
        EventView::Empty { key, .. } => is_element_key(key),
        _ => true,
    }
}

/// The value is what an element converts to: absent, text, or a mapping that
/// does not collapse, with text under the keys of attributes and of character
/// data and with a slot under every other key.
pub open spec fn is_element_value(value: Tree) -> bool
    decreases value, 0nat,
{
    match value {
        Tree::Absent => true,
        Tree::Text(_) => true,
        Tree::List(_) => false,
        Tree::Mapping(m) => m.dom().finite() && !collapses(m) && forall|k: Seq<char>| #[trigger]
            m.dom().contains(k) ==> is_entry(k, m[k]),
    }
}

/// The value is what the occurrences of one element key come to: the value of
/// one element, or the list of those of two or more.
pub open spec fn is_slot(value: Tree) -> bool
    decreases value, 1nat,
{
    match value {
        Tree::List(items) => items.len() >= 2 && forall|i: int|
            0 <= i < items.len() ==> is_element_value(#[trigger] items[i]),
        _ => is_element_value(value),
    }
}

/// The value fits the key: text under the key of an attribute or of character
/// data, a slot under any other.
pub open spec fn is_entry(key: Seq<char>, value: Tree) -> bool
    decreases value, 2nat,
{
    if is_attribute_key(key) || key == text_key() {
        value is Text
    } else {
        is_slot(value)
    }
}

/// The mapping is what a document or the content of an element comes to: no
/// key of an attribute, and every value fits its key.
pub open spec fn is_level(m: Map<Seq<char>, Tree>) -> bool {
    m.dom().finite() && forall|k: Seq<char>| #[trigger]
        m.dom().contains(k) ==> !is_attribute_key(k) && is_entry(k, m[k])
}

/// The mapping is that of a tag's attributes: keys of attributes, with text.
pub open spec fn is_attributes(m: Map<Seq<char>, Tree>) -> bool {
    m.dom().finite() && forall|k: Seq<char>| #[trigger]
        m.dom().contains(k) ==> is_attribute_key(k) && m[k] is Text
}

/// The open element has the shape that a conversion gives it.
pub open spec fn is_open(element: Open) -> bool {
    is_element_key(element.key) && is_attributes(element.attributes) && is_level(
        element.children,
    )
}

/// The state has the shape that a conversion gives it.
pub open spec fn is_canonical(state: State) -> bool {
    is_level(state.root) && forall|i: int|
        0 <= i < state.open.len() ==> is_open(#[trigger] state.open[i])
}

/// The key of character data is no key of an attribute.
pub proof fn lemma_text_key()
    ensures
        !is_attribute_key(text_key()),
        text_key() == seq!['#', 't', 'e', 'x', 't'],
{
    reveal_strlit("#text");
    assert(text_key() =~= seq!['#', 't', 'e', 'x', 't']);
}

/// The attributes of a tag make a mapping of attributes.
pub proof fn lemma_attribute_map(attributes: Seq<(Seq<char>, Seq<char>)>)
    ensures
        is_attributes(attribute_map(attributes)),
    decreases attributes.len(),
{
    if attributes.len() > 0 {
        lemma_attribute_map(attributes.drop_last());
    }
}

/// A mapping of attributes does not collapse.
pub proof fn lemma_attributes_stay(m: Map<Seq<char>, Tree>)
    requires
        is_attributes(m),
    ensures
        !collapses(m),
        is_element_value(Tree::Mapping(m)),
{
    lemma_text_key();
    if collapses(m) {
        assert(set![text_key()].contains(text_key()));
    }
}

/// Merging the value of an element into a level gives a level.
pub proof fn lemma_merged_level(m: Map<Seq<char>, Tree>, key: Seq<char>, value: Tree)
    requires
        is_level(m),
        is_element_key(key),
        is_element_value(value),
    ensures
        is_level(merged(m, key, value)),
{
    let after = merged(m, key, value);
    assert(after.dom() =~= m.dom().insert(key));
    if m.dom().contains(key) {
        match m[key] {
            Tree::List(items) => {
                let longer = items.push(value);
                assert forall|i: int| 0 <= i < longer.len() implies is_element_value(
                    #[trigger] longer[i],
                ) by {
                    if i < items.len() {
                        assert(longer[i] == items[i]);
                    }
                }
                assert(is_slot(Tree::List(longer)));
            },
            _ => {
                let pair = seq![m[key], value];
                assert forall|i: int| 0 <= i < pair.len() implies is_element_value(
                    #[trigger] pair[i],
                ) by {}
                assert(is_slot(Tree::List(pair)));
            },
        }
    }
    assert forall|k: Seq<char>| #[trigger] after.dom().contains(k) implies !is_attribute_key(k)
        && is_entry(k, after[k]) by {
        if k != key {
            assert(after[k] == m[k]);
        }
    }
}

/// Assigning character data to a level gives a level.
pub proof fn lemma_text_level(m: Map<Seq<char>, Tree>, text: Seq<char>)
    requires
        is_level(m),
    ensures
        is_level(m.insert(text_key(), Tree::Text(text))),
{
    lemma_text_key();
    let after = m.insert(text_key(), Tree::Text(text));
    assert(after.dom() =~= m.dom().insert(text_key()));
    assert forall|k: Seq<char>| #[trigger] after.dom().contains(k) implies !is_attribute_key(k)
        && is_entry(k, after[k]) by {
        if k != text_key() {
            assert(after[k] == m[k]);
        }
    }
}

/// The children of an element merged into its attributes are the union of
/// the two, which have no key in common.
pub proof fn lemma_merged_all_disjoint(a: Map<Seq<char>, Tree>, c: Map<Seq<char>, Tree>)
    requires
        is_attributes(a),
        is_level(c),
    ensures
        merged_all(a, c) == a.union_prefer_right(c),
        merged_all(a, c).dom().finite(),
        forall|k: Seq<char>| #[trigger]
            merged_all(a, c).dom().contains(k) ==> is_entry(k, merged_all(a, c)[k]),
{
    assert(merged_all(a, c) =~= a.union_prefer_right(c));
    assert(merged_all(a, c).dom() =~= a.dom().union(c.dom()));
    vstd::set_lib::lemma_set_union_finite_iff(a.dom(), c.dom());
    assert forall|k: Seq<char>| #[trigger] merged_all(a, c).dom().contains(k) implies is_entry(
        k,
        merged_all(a, c)[k],
    ) by {
        if c.dom().contains(k) {
            assert(merged_all(a, c)[k] == c[k]);
        } else {
            assert(merged_all(a, c)[k] == a[k]);
        }
    }
}

/// An element's value at its end tag is the value of an element.
pub proof fn lemma_element_value(element: Open)
    requires
        is_open(element),
    ensures
        is_element_value(element_value(element)),
{
    lemma_merged_all_disjoint(element.attributes, element.children);
    let m = merged_all(element.attributes, element.children);
    if collapses(m) {
    } else {
        assert(is_element_value(Tree::Mapping(m)));
    }
}

/// One event keeps the shape of the state.
pub proof fn lemma_step_canonical(state: State, event: EventView)
    requires
        is_canonical(state),
        well_named_event(event),
        step(state, event) is Ok,
    ensures
        is_canonical(step(state, event)->Ok_0),
{
    let next = step(state, event)->Ok_0;
    match event {
        EventView::Start { key, attributes } => {
            lemma_attribute_map(attributes);
            assert(is_level(Map::<Seq<char>, Tree>::empty()));
            assert forall|i: int| 0 <= i < next.open.len() implies is_open(
                #[trigger] next.open[i],
            ) by {
                if i < state.open.len() {
                    assert(next.open[i] == state.open[i]);
                }
            }
        },
        EventView::Empty { key, attributes } => {
            lemma_attribute_map(attributes);
            if attributes.len() > 0 {
                lemma_attributes_stay(attribute_map(attributes));
            }
            lemma_child_canonical(state, key, empty_element_value(attributes));
        },
        EventView::Text { text } => {
            if state.open.len() == 0 {
                lemma_text_level(state.root, text);
            } else {
                let top = state.open.last();
                assert(is_open(top));
                lemma_text_level(top.children, text);
                assert forall|i: int| 0 <= i < next.open.len() implies is_open(
                    #[trigger] next.open[i],
                ) by {
                    if i < state.open.len() - 1 {
                        assert(next.open[i] == state.open[i]);
                    }
                }
            }
        },
        EventView::End => {
            let top = state.open.last();
            assert(is_open(top));
            lemma_element_value(top);
            let rest = State { root: state.root, open: state.open.drop_last() };
            assert forall|i: int| 0 <= i < rest.open.len() implies is_open(
                #[trigger] rest.open[i],
            ) by {
                assert(rest.open[i] == state.open[i]);
            }
            lemma_child_canonical(rest, top.key, element_value(top));
        },
    }
}

/// Merging the value of an element in at the current level keeps the shape
/// of the state.
pub proof fn lemma_child_canonical(state: State, key: Seq<char>, value: Tree)
    requires
        is_canonical(state),
        is_element_key(key),
        is_element_value(value),
    ensures
        is_canonical(with_child(state, key, value)),
{
    let next = with_child(state, key, value);
    if state.open.len() == 0 {
        lemma_merged_level(state.root, key, value);
    } else {
        let top = state.open.last();
        assert(is_open(top));
        lemma_merged_level(top.children, key, value);
        assert forall|i: int| 0 <= i < next.open.len() implies is_open(#[trigger] next.open[i]) by {
            if i < state.open.len() - 1 {
                assert(next.open[i] == state.open[i]);
            }
        }
    }
}

/// Events whose elements are well named convert, from a state of that shape,
/// to a level.
pub proof fn lemma_converted_level(state: State, events: Seq<EventView>)
    requires
        is_canonical(state),
        well_named(events),
        converted_from(state, events) is Ok,
    ensures
        is_level(converted_from(state, events)->Ok_0),
    decreases events.len(),
{
    if events.len() > 0 {
        assert(well_named_event(events[0]));
        lemma_step_canonical(state, events[0]);
        assert forall|i: int| 0 <= i < events.skip(1).len() implies well_named_event(
            #[trigger] events.skip(1)[i],
        ) by {
            assert(events.skip(1)[i] == events[i + 1]);
        }
        lemma_converted_level(step(state, events[0])->Ok_0, events.skip(1));
    }
}

} // verus!
