//! From a mapping back to events: the events that convert to it.

use crate::canonical::{is_attribute_key, is_element_value, is_entry, is_level};
use crate::convert::{
    attribute_key, attribute_map, converted_from, finished, initial, step, with_child, with_text,
    Open, State,
};
use crate::error::Fault;
use crate::event::EventView;
use crate::value::{collapses, merged, merged_all, promoted, text_key, Tree};
use vstd::prelude::*;

verus! {

/// The state after `events`, or the first fault.
pub open spec fn run(state: State, events: Seq<EventView>) -> Result<State, Fault>
    decreases events.len(),
{
    if events.len() == 0 {
        Ok(state)
    } else {
        match step(state, events[0]) {
            Err(fault) => Err(fault),
            Ok(next) => run(next, events.skip(1)),
        }
    }
}

/// The mapping of the current level: the children of the innermost open
/// element, or the document's where none is open.
pub open spec fn level_of(state: State) -> Map<Seq<char>, Tree> {
    if state.open.len() == 0 {
        state.root
    } else {
        state.open.last().children
    }
}

/// The state with `level` as the mapping of the current level.
pub open spec fn with_level(state: State, level: Map<Seq<char>, Tree>) -> State {
    if state.open.len() == 0 {
        State { root: level, open: state.open }
    } else {
        let top = state.open.last();
        State {
            root: state.root,
            open: state.open.drop_last().push(
                Open { key: top.key, attributes: top.attributes, children: level },
            ),
        }
    }
}

/// The text of a value that is text.
pub open spec fn text_in(value: Tree) -> Seq<char> {
    match value {
        Tree::Text(text) => text,
        _ => Seq::empty(),
    }
}

/// The attributes that stand under `keys` in `m`, by name.
pub open spec fn attribute_pairs(m: Map<Seq<char>, Tree>, keys: Seq<Seq<char>>) -> Seq<
    (Seq<char>, Seq<char>),
> {
    Seq::new(keys.len(), |i: int| (keys[i].skip(1), text_in(m[keys[i]])))
}

/// The keys of `m` that are keys of attributes, in some order.
pub open spec fn attribute_keys(m: Map<Seq<char>, Tree>) -> Seq<Seq<char>> {
    m.dom().filter(|k: Seq<char>| is_attribute_key(k)).to_seq()
}

/// The keys of `m` that are no keys of attributes, in some order.
pub open spec fn child_keys(m: Map<Seq<char>, Tree>) -> Seq<Seq<char>> {
    m.dom().filter(|k: Seq<char>| !is_attribute_key(k)).to_seq()
}

/// The events of an element with the given key and value.
pub open spec fn element_events(key: Seq<char>, value: Tree) -> Seq<EventView>
    decreases value, 0nat,
{
    match value {
        Tree::Absent => seq![EventView::Empty { key, attributes: Seq::empty() }],
        Tree::Text(text) => seq![
            EventView::Start { key, attributes: Seq::empty() },
            EventView::Text { text },
            EventView::End,
        ],
        Tree::Mapping(m) => seq![
            EventView::Start { key, attributes: attribute_pairs(m, attribute_keys(m)) },
        ] + level_events(m, child_keys(m)) + seq![EventView::End],
        Tree::List(_) => Seq::empty(),
    }
}

/// The events of the elements with the given key whose values are `items`.
pub open spec fn items_events(key: Seq<char>, items: Seq<Tree>) -> Seq<EventView>
    decreases items, 0nat,
{
    if items.len() == 0 {
        Seq::empty()
    } else {
        items_events(key, items.drop_last()) + element_events(key, items.last())
    }
}

/// The events that put `value` under `key` at a level that lacks the key.
pub open spec fn slot_events(key: Seq<char>, value: Tree) -> Seq<EventView>
    decreases value, 2nat,
{
    if key == text_key() {
        seq![EventView::Text { text: text_in(value) }]
    } else {
        match value {
            Tree::List(items) => items_events(key, items),
            _ => element_events(key, value),
        }
    }
}

/// The events that put what `m` holds under `keys` at a level that lacks
/// those keys.
pub open spec fn level_events(m: Map<Seq<char>, Tree>, keys: Seq<Seq<char>>) -> Seq<EventView>
    decreases m, keys.len(),
{
    if keys.len() == 0 {
        Seq::empty()
    } else if m.dom().finite() && m.dom().contains(keys[0]) {
        slot_events(keys[0], m[keys[0]]) + level_events(m, keys.skip(1))
    } else {
        level_events(m, keys.skip(1))
    }
}

/// The events of a document whose mapping is `m`.
pub open spec fn mapping_events(m: Map<Seq<char>, Tree>) -> Seq<EventView> {
    level_events(m, m.dom().to_seq())
}

/// A level with what `m` holds under `keys` added to it.
pub open spec fn joined(
    level: Map<Seq<char>, Tree>,
    m: Map<Seq<char>, Tree>,
    keys: Seq<Seq<char>>,
) -> Map<Seq<char>, Tree> {
    Map::new(
        |k: Seq<char>| level.dom().contains(k) || keys.contains(k),
        |k: Seq<char>|
            if keys.contains(k) {
                m[k]
            } else {
                level[k]
            },
    )
}

/// Events run one part after the other.
pub proof fn lemma_run_concat(state: State, first: Seq<EventView>, second: Seq<EventView>)
    ensures
        run(state, first + second) == match run(state, first) {
            Err(fault) => Err::<State, Fault>(fault),
            Ok(next) => run(next, second),
        },
    decreases first.len(),
{
    if first.len() == 0 {
        assert(first + second =~= second);
    } else {
        assert((first + second)[0] == first[0]);
        assert((first + second).skip(1) =~= first.skip(1) + second);
        match step(state, first[0]) {
            Err(_) => {},
            Ok(next) => {
                lemma_run_concat(next, first.skip(1), second);
            },
        }
    }
}

/// A conversion is a run of the events and the end.
pub proof fn lemma_converted_run(state: State, events: Seq<EventView>)
    ensures
        converted_from(state, events) == match run(state, events) {
            Err(fault) => Err::<Map<Seq<char>, Tree>, Fault>(fault),
            Ok(last) => finished(last),
        },
    decreases events.len(),
{
    if events.len() > 0 {
        match step(state, events[0]) {
            Err(_) => {},
            Ok(next) => {
                lemma_converted_run(next, events.skip(1));
            },
        }
    }
}

/// A finite set in sequence holds each of its elements once.
pub proof fn lemma_to_seq<A>(s: Set<A>)
    requires
        s.finite(),
    ensures
        s.to_seq().no_duplicates(),
        forall|a: A| #[trigger] s.to_seq().contains(a) <==> s.contains(a),
    decreases s.len(),
{
    s.lemma_to_seq_to_set_id();
    assert forall|a: A| #[trigger] s.to_seq().contains(a) <==> s.contains(a) by {
        assert(s.to_seq().to_set().contains(a) <==> s.contains(a));
    }
    if s.len() > 0 {
        let x = s.choose();
        let rest = s.remove(x).to_seq();
        lemma_to_seq(s.remove(x));
        assert(s.to_seq() =~= seq![x] + rest);
        assert(!rest.contains(x));
        assert forall|i: int, j: int|
            0 <= i < s.to_seq().len() && 0 <= j < s.to_seq().len() && i != j implies s.to_seq()[i]
            != s.to_seq()[j] by {
            if i > 0 && j > 0 {
                assert(rest[i - 1] != rest[j - 1]);
            } else if i == 0 {
                assert(rest.contains(rest[j - 1]));
            } else {
                assert(rest.contains(rest[i - 1]));
            }
        }
    }
}

/// What replacing the mapping of the current level does.
pub proof fn lemma_with_level(
    state: State,
    first: Map<Seq<char>, Tree>,
    second: Map<Seq<char>, Tree>,
)
    ensures
        level_of(with_level(state, first)) == first,
        with_level(state, first).open.len() == state.open.len(),
        with_level(with_level(state, first), second) == with_level(state, second),
        with_level(state, level_of(state)) == state,
{
    let once = with_level(state, first);
    assert(with_level(once, second).open =~= with_level(state, second).open);
    assert(with_level(state, level_of(state)).open =~= state.open);
}

/// The attributes that stand under `keys` in `m` make the mapping of those
/// keys.
pub proof fn lemma_attribute_pairs(m: Map<Seq<char>, Tree>, keys: Seq<Seq<char>>)
    requires
        forall|i: int|
            0 <= i < keys.len() ==> is_attribute_key(#[trigger] keys[i]) && m[keys[i]] is Text,
    ensures
        attribute_map(attribute_pairs(m, keys)) == Map::new(
            |k: Seq<char>| keys.contains(k),
            |k: Seq<char>| m[k],
        ),
    decreases keys.len(),
{
    let pairs = attribute_pairs(m, keys);
    let target = Map::new(|k: Seq<char>| keys.contains(k), |k: Seq<char>| m[k]);
    if keys.len() == 0 {
        assert(attribute_map(pairs) =~= target);
    } else {
        let init = keys.drop_last();
        let last = keys.last();
        assert(pairs.drop_last() =~= attribute_pairs(m, init));
        assert forall|i: int| 0 <= i < init.len() implies is_attribute_key(#[trigger] init[i])
            && m[init[i]] is Text by {
            assert(init[i] == keys[i]);
        }
        lemma_attribute_pairs(m, init);
        assert(is_attribute_key(keys[keys.len() - 1]));
        assert(attribute_key(last.skip(1)) =~= last);
        assert(Tree::Text(text_in(m[last])) == m[last]);
        assert forall|k: Seq<char>| keys.contains(k) <==> (init.contains(k) || k == last) by {
            if keys.contains(k) {
                let i = choose|i: int| 0 <= i < keys.len() && keys[i] == k;
                if i < init.len() {
                    assert(init[i] == k);
                }
            }
            if init.contains(k) {
                let i = choose|i: int| 0 <= i < init.len() && init[i] == k;
                assert(keys[i] == k);
            }
            if k == last {
                assert(keys[keys.len() - 1] == k);
            }
        }
        assert(attribute_map(pairs) =~= target);
    }
}

/// The events of an element put its value under its key at the current
/// level.
pub proof fn lemma_element_run(state: State, key: Seq<char>, value: Tree)
    requires
        is_element_value(value),
    ensures
        run(state, element_events(key, value)) == Ok::<State, Fault>(
            with_child(state, key, value),
        ),
    decreases value, 0nat,
{
    let events = element_events(key, value);
    match value {
        Tree::Absent => {
            reveal_with_fuel(run, 2);
            assert(events.skip(1) =~= Seq::empty());
        },
        Tree::Text(text) => {
            reveal_with_fuel(run, 4);
            let opened = State {
                root: state.root,
                open: state.open.push(
                    Open { key, attributes: attribute_map(Seq::empty()), children: Map::empty() },
                ),
            };
            assert(step(state, events[0]) == Ok::<State, Fault>(opened));
            assert(events.skip(1)[0] == EventView::Text { text });
            let filled = with_text(opened, text);
            assert(events.skip(1).skip(1)[0] == EventView::End);
            assert(events.skip(1).skip(1).skip(1) =~= Seq::empty());
            let children = Map::<Seq<char>, Tree>::empty().insert(text_key(), Tree::Text(text));
            assert(filled.open.last().children == children);
            assert(merged_all(Map::empty(), children) =~= children);
            assert(children.dom() =~= set![text_key()]);
            assert(collapses(children));
            assert(filled.open.drop_last() =~= state.open);
        },
        Tree::Mapping(m) => {
            let attribute_set = m.dom().filter(|k: Seq<char>| is_attribute_key(k));
            let child_set = m.dom().filter(|k: Seq<char>| !is_attribute_key(k));
            lemma_to_seq(attribute_set);
            lemma_to_seq(child_set);
            let akeys = attribute_keys(m);
            let ckeys = child_keys(m);
            assert forall|i: int| 0 <= i < akeys.len() implies is_attribute_key(
                #[trigger] akeys[i],
            ) && m[akeys[i]] is Text by {
                assert(akeys.contains(akeys[i]));
                assert(m.dom().contains(akeys[i]));
            }
            lemma_attribute_pairs(m, akeys);
            let pairs = attribute_pairs(m, akeys);
            let attributes = attribute_map(pairs);
            let start = seq![EventView::Start { key, attributes: pairs }];
            let body = level_events(m, ckeys);
            let end = seq![EventView::End];
            let opened = State {
                root: state.root,
                open: state.open.push(Open { key, attributes, children: Map::empty() }),
            };
            assert(run(state, start) == Ok::<State, Fault>(opened)) by {
                reveal_with_fuel(run, 2);
                assert(start.skip(1) =~= Seq::empty());
            }
            assert forall|i: int| 0 <= i < ckeys.len() implies m.dom().contains(
                #[trigger] ckeys[i],
            ) && !is_attribute_key(ckeys[i]) && is_entry(ckeys[i], m[ckeys[i]]) && !level_of(
                opened,
            ).dom().contains(ckeys[i]) by {
                assert(ckeys.contains(ckeys[i]));
                assert(m.dom().contains(ckeys[i]));
            }
            lemma_level_run(opened, m, ckeys);
            let children = joined(Map::empty(), m, ckeys);
            let filled = with_level(opened, children);
            assert(run(opened, body) == Ok::<State, Fault>(filled));
            assert(filled.open.last() == Open { key, attributes, children });
            assert(merged_all(attributes, children) =~= m) by {
                assert forall|k: Seq<char>| m.dom().contains(k) implies akeys.contains(k)
                    || ckeys.contains(k) by {
                    if is_attribute_key(k) {
                        assert(attribute_set.contains(k));
                    } else {
                        assert(child_set.contains(k));
                    }
                }
                assert forall|k: Seq<char>| akeys.contains(k) || ckeys.contains(k) implies
                    m.dom().contains(k) by {
                    if akeys.contains(k) {
                        assert(attribute_set.contains(k));
                    } else {
                        assert(child_set.contains(k));
                    }
                }
                assert forall|k: Seq<char>| !(akeys.contains(k) && ckeys.contains(k)) by {
                    if akeys.contains(k) && ckeys.contains(k) {
                        assert(attribute_set.contains(k));
                        assert(child_set.contains(k));
                    }
                }
            }
            assert(filled.open.drop_last() =~= state.open);
            assert(run(filled, end) == Ok::<State, Fault>(with_child(state, key, value))) by {
                reveal_with_fuel(run, 2);
                assert(end.skip(1) =~= Seq::empty());
            }
            lemma_run_concat(state, start, body);
            lemma_run_concat(state, start + body, end);
        },
        Tree::List(_) => {},
    }
}

/// The events of the elements with one key put the value of the one, or the
/// list of those of several, under that key at a level that lacks it.
pub proof fn lemma_items_run(state: State, key: Seq<char>, items: Seq<Tree>)
    requires
        items.len() >= 1,
        forall|i: int| 0 <= i < items.len() ==> is_element_value(#[trigger] items[i]),
        !level_of(state).dom().contains(key),
    ensures
        run(state, items_events(key, items)) == Ok::<State, Fault>(
            with_level(
                state,
                level_of(state).insert(
                    key,
                    if items.len() == 1 {
                        items[0]
                    } else {
                        Tree::List(items)
                    },
                ),
            ),
        ),
    decreases items, 0nat,
{
    let init = items.drop_last();
    let last = items.last();
    let level = level_of(state);
    assert(is_element_value(items[items.len() - 1]));
    if items.len() == 1 {
        assert(items_events(key, init) =~= Seq::empty());
        assert(items_events(key, items) =~= element_events(key, last));
        lemma_element_run(state, key, last);
    } else {
        assert forall|i: int| 0 <= i < init.len() implies is_element_value(#[trigger] init[i]) by {
            assert(init[i] == items[i]);
        }
        lemma_items_run(state, key, init);
        let previous = if init.len() == 1 {
            init[0]
        } else {
            Tree::List(init)
        };
        let between = with_level(state, level.insert(key, previous));
        lemma_element_run(between, key, last);
        lemma_run_concat(state, items_events(key, init), element_events(key, last));
        lemma_with_level(state, level.insert(key, previous), level.insert(key, Tree::List(items)));
        assert(is_element_value(init[0]));
        assert(promoted(previous, last) == Tree::List(items)) by {
            if init.len() == 1 {
                assert(seq![init[0], last] =~= items);
            } else {
                assert(init.push(last) =~= items);
            }
        }
        assert(merged(level.insert(key, previous), key, last) =~= level.insert(
            key,
            Tree::List(items),
        ));
    }
}

/// The events of a slot put its value under its key at a level that lacks
/// the key.
pub proof fn lemma_slot_run(state: State, key: Seq<char>, value: Tree)
    requires
        is_entry(key, value),
        !is_attribute_key(key),
        !level_of(state).dom().contains(key),
    ensures
        run(state, slot_events(key, value)) == Ok::<State, Fault>(
            with_level(state, level_of(state).insert(key, value)),
        ),
    decreases value, 2nat,
{
    let level = level_of(state);
    if key == text_key() {
        reveal_with_fuel(run, 2);
        assert(slot_events(key, value).skip(1) =~= Seq::empty());
    } else {
        match value {
            Tree::List(items) => {
                lemma_items_run(state, key, items);
            },
            _ => {
                lemma_element_run(state, key, value);
                assert(merged(level, key, value) =~= level.insert(key, value));
            },
        }
    }
}

/// The events of a level put what the mapping holds under the keys at a
/// level that lacks them.
pub proof fn lemma_level_run(state: State, m: Map<Seq<char>, Tree>, keys: Seq<Seq<char>>)
    requires
        m.dom().finite(),
        keys.no_duplicates(),
        forall|i: int|
            0 <= i < keys.len() ==> m.dom().contains(#[trigger] keys[i]) && !is_attribute_key(
                keys[i],
            ) && is_entry(keys[i], m[keys[i]]) && !level_of(state).dom().contains(keys[i]),
    ensures
        run(state, level_events(m, keys)) == Ok::<State, Fault>(
            with_level(state, joined(level_of(state), m, keys)),
        ),
    decreases m, keys.len(),
{
    let level = level_of(state);
    if keys.len() == 0 {
        assert(joined(level, m, keys) =~= level);
        lemma_with_level(state, level, level);
    } else {
        let key = keys[0];
        let rest = keys.skip(1);
        lemma_slot_run(state, key, m[key]);
        let next = with_level(state, level.insert(key, m[key]));
        lemma_with_level(state, level.insert(key, m[key]), joined(level, m, keys));
        assert(rest.no_duplicates()) by {
            assert forall|i: int, j: int|
                0 <= i < rest.len() && 0 <= j < rest.len() && i != j implies rest[i] != rest[j] by {
                assert(rest[i] == keys[i + 1] && rest[j] == keys[j + 1]);
            }
        }
        assert forall|i: int| 0 <= i < rest.len() implies m.dom().contains(#[trigger] rest[i])
            && !is_attribute_key(rest[i]) && is_entry(rest[i], m[rest[i]]) && !level_of(
            next,
        ).dom().contains(rest[i]) by {
            assert(rest[i] == keys[i + 1]);
            assert(keys[i + 1] != keys[0]);
        }
        lemma_level_run(next, m, rest);
        lemma_run_concat(state, slot_events(key, m[key]), level_events(m, rest));
        assert(joined(level.insert(key, m[key]), m, rest) =~= joined(level, m, keys)) by {
            assert forall|k: Seq<char>| keys.contains(k) <==> (k == key || rest.contains(k)) by {
                if keys.contains(k) {
                    let i = choose|i: int| 0 <= i < keys.len() && keys[i] == k;
                    if i > 0 {
                        assert(rest[i - 1] == k);
                    }
                }
                if rest.contains(k) {
                    let i = choose|i: int| 0 <= i < rest.len() && rest[i] == k;
                    assert(keys[i + 1] == k);
                }
                if k == key {
                    assert(keys[0] == k);
                }
            }
        }
    }
}

/// The events of a level's mapping convert to that mapping.
pub proof fn lemma_mapping_events(m: Map<Seq<char>, Tree>)
    requires
        is_level(m),
    ensures
        converted_from(initial(), mapping_events(m)) == Ok::<
            Map<Seq<char>, Tree>,
            Fault,
        >(m),
{
    let state = initial();
    let keys = m.dom().to_seq();
    lemma_to_seq(m.dom());
    assert forall|i: int| 0 <= i < keys.len() implies m.dom().contains(#[trigger] keys[i])
        && !is_attribute_key(keys[i]) && is_entry(keys[i], m[keys[i]]) && !level_of(
        state,
    ).dom().contains(keys[i]) by {
        assert(keys.contains(keys[i]));
    }
    lemma_level_run(state, m, keys);
    assert(joined(level_of(state), m, keys) =~= m);
    lemma_converted_run(state, mapping_events(m));
}

} // verus!
