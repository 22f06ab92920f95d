//! The generic value that a document is converted into, and the mapping that
//! holds an element's attributes and children.

use std::collections::hash_map::DefaultHasher;
use std::collections::HashMap;
use std::hash::Hasher;
use vstd::prelude::*;
use vstd::std_specs::hash::DefaultHasherAdditionalSpecFns;
use vstd::utf8::encode_utf8;

verus! {

/// The mathematical value of a [`Value`]: a tree of mappings, lists and text.
pub enum Tree {
    /// An element without attributes and without content.
    Absent,
    /// Character data.
    Text(Seq<char>),
    /// Attributes and children, by key.
    Mapping(Map<Seq<char>, Tree>),
    /// The occurrences of one key within one mapping, in document order.
    List(Seq<Tree>),
}

/// The key under which character data is kept.
pub open spec fn text_key() -> Seq<char> {
    "#text"@
}

/// What a slot holds after a further value arrives for its key: a list that
/// is one longer, or a new list of the previous value and the new one.
pub open spec fn promoted(previous: Tree, value: Tree) -> Tree {
    match previous {
        Tree::List(items) => Tree::List(items.push(value)),
        _ => Tree::List(seq![previous, value]),
    }
}

/// The mapping after `value` is merged in under `key`: a new key takes the
/// value as it is, a key that is present has its slot promoted. No other key
/// changes.
pub open spec fn merged(mapping: Map<Seq<char>, Tree>, key: Seq<char>, value: Tree) -> Map<
    Seq<char>,
    Tree,
> {
    if mapping.dom().contains(key) {
        mapping.insert(key, promoted(mapping[key], value))
    } else {
        mapping.insert(key, value)
    }
}

/// The mapping after every entry of `other` is merged into `mapping`.
pub open spec fn merged_all(mapping: Map<Seq<char>, Tree>, other: Map<Seq<char>, Tree>) -> Map<
    Seq<char>,
    Tree,
> {
    Map::new(
        |k: Seq<char>| mapping.dom().contains(k) || other.dom().contains(k),
        |k: Seq<char>|
            if other.dom().contains(k) {
                if mapping.dom().contains(k) {
                    promoted(mapping[k], other[k])
                } else {
                    other[k]
                }
            } else {
                mapping[k]
            },
    )
}

/// The mapping holds character data and nothing else.
pub open spec fn collapses(mapping: Map<Seq<char>, Tree>) -> bool {
    mapping.dom() == set![text_key()] && mapping[text_key()] is Text
}

/// The value of an element whose attributes and children are `mapping`: the
/// text alone where the mapping holds character data and nothing else, the
/// mapping otherwise.
pub open spec fn collapsed(mapping: Map<Seq<char>, Tree>) -> Tree {
    if collapses(mapping) {
        mapping[text_key()]
    } else {
        Tree::Mapping(mapping)
    }
}

/// One key of a mapping with its value.
#[derive(Debug)]
pub struct Entry {
    pub key: String,
    pub value: Value,
}

/// A map from keys to values in which no key occurs twice. The entries are
/// kept in the order in which their keys first arrived; their places are
/// filed by the hash of their keys, so that a key is found without a walk
/// over all entries.
#[derive(Debug)]
pub struct Mapping {
    entries: Vec<Entry>,
    places: HashMap<u64, Vec<usize>>,
}

/// A converted document or a part of one.
#[derive(Debug)]
pub enum Value {
    /// An element without attributes and without content.
    Absent,
    /// Character data.
    Text(String),
    /// Attributes and children, by key.
    Mapping(Mapping),
    /// The occurrences of one key within one mapping, in document order.
    List(Vec<Value>),
}

/// No two entries have the same key.
pub open spec fn distinct_keys(entries: Seq<Entry>) -> bool {
    forall|i: int, j: int|
        0 <= i < j < entries.len() ==> (#[trigger] entries[i]).key@ != (#[trigger] entries[j]).key@
}

/// Some entry has the key `k`.
pub open spec fn has_key(entries: Seq<Entry>, k: Seq<char>) -> bool {
    exists|i: int| 0 <= i < entries.len() && (#[trigger] entries[i]).key@ == k
}

/// The place of an entry with the key `k`.
pub open spec fn key_index(entries: Seq<Entry>, k: Seq<char>) -> int {
    choose|i: int| 0 <= i < entries.len() && (#[trigger] entries[i]).key@ == k
}

/// The map that a sequence of entries stands for.
pub open spec fn entries_map(entries: Seq<Entry>) -> Map<Seq<char>, Tree>
    decreases entries,
{
    Map::new(
        |k: Seq<char>| has_key(entries, k),
        |k: Seq<char>|
            {
                let i = key_index(entries, k);
                if 0 <= i < entries.len() {
                    entries[i].value@
                } else {
                    Tree::Absent
                }
            },
    )
}

/// The trees of a sequence of values.
pub open spec fn list_view(items: Seq<Value>) -> Seq<Tree>
    decreases items,
{
    Seq::new(
        items.len(),
        |i: int|
            if 0 <= i < items.len() {
                items[i]@
            } else {
                Tree::Absent
            },
    )
}

impl View for Mapping {
    type V = Map<Seq<char>, Tree>;

    closed spec fn view(&self) -> Map<Seq<char>, Tree>
        decreases self,
    {
        entries_map(self.entries@)
    }
}

impl View for Value {
    type V = Tree;

    open spec fn view(&self) -> Tree
        decreases self,
    {
        match self {
            Value::Absent => Tree::Absent,
            Value::Text(text) => Tree::Text(text@),
            Value::Mapping(mapping) => Tree::Mapping(mapping@),
            Value::List(items) => Tree::List(list_view(items@)),
        }
    }
}

/// With distinct keys, each entry's key maps to that entry's value.
pub proof fn lemma_entry_lookup(entries: Seq<Entry>, i: int)
    requires
        distinct_keys(entries),
        0 <= i < entries.len(),
    ensures
        entries_map(entries).dom().contains(entries[i].key@),
        entries_map(entries)[entries[i].key@] == entries[i].value@,
{
    let k = entries[i].key@;
    assert(has_key(entries, k));
    let j = key_index(entries, k);
    assert(0 <= j < entries.len() && entries[j].key@ == k);
    if j < i {
        assert(entries[j].key@ != entries[i].key@);
    }
    if i < j {
        assert(entries[i].key@ != entries[j].key@);
    }
}

/// With distinct keys, there are as many keys as entries.
pub proof fn lemma_entries_len(entries: Seq<Entry>)
    requires
        distinct_keys(entries),
    ensures
        entries_map(entries).dom().finite(),
        entries_map(entries).dom().len() == entries.len(),
    decreases entries.len(),
{
    if entries.len() == 0 {
        assert(entries_map(entries).dom() =~= Set::<Seq<char>>::empty());
    } else {
        let init = entries.drop_last();
        let last = entries.last();
        assert(distinct_keys(init)) by {
            assert forall|i: int, j: int| 0 <= i < j < init.len() implies (#[trigger] init[i]).key@
                != (#[trigger] init[j]).key@ by {
                assert(entries[i].key@ != entries[j].key@);
            }
        }
        lemma_entries_len(init);
        assert(!has_key(init, last.key@)) by {
            if has_key(init, last.key@) {
                let i = key_index(init, last.key@);
                assert(entries[i].key@ != entries[entries.len() - 1].key@);
            }
        }
        assert(entries_map(entries).dom() =~= entries_map(init).dom().insert(last.key@)) by {
            assert forall|k: Seq<char>| has_key(entries, k) <==> (has_key(init, k) || k
                == last.key@) by {
                if has_key(entries, k) {
                    let i = key_index(entries, k);
                    if i < init.len() {
                        assert(init[i].key@ == k);
                    }
                }
                if has_key(init, k) {
                    let i = key_index(init, k);
                    assert(entries[i].key@ == k);
                }
                if k == last.key@ {
                    assert(entries[entries.len() - 1].key@ == k);
                }
            }
        }
    }
}

/// Adding an entry under a new key keeps the keys distinct and inserts the
/// key into the map.
pub proof fn lemma_entries_push(entries: Seq<Entry>, entry: Entry)
    requires
        distinct_keys(entries),
        !has_key(entries, entry.key@),
    ensures
        distinct_keys(entries.push(entry)),
        entries_map(entries.push(entry)) == entries_map(entries).insert(entry.key@, entry.value@),
{
    let after = entries.push(entry);
    assert(distinct_keys(after)) by {
        assert forall|i: int, j: int| 0 <= i < j < after.len() implies (#[trigger] after[i]).key@
            != (#[trigger] after[j]).key@ by {
            if j < entries.len() {
                assert(entries[i].key@ != entries[j].key@);
            } else {
                assert(entries[i].key@ != entry.key@);
            }
        }
    }
    let map = entries_map(entries).insert(entry.key@, entry.value@);
    assert forall|k: Seq<char>| map.dom().contains(k) <==> has_key(after, k) by {
        if has_key(entries, k) {
            let i = key_index(entries, k);
            assert(after[i].key@ == k);
        }
        if k == entry.key@ {
            assert(after[after.len() - 1].key@ == k);
        }
        if has_key(after, k) {
            let i = key_index(after, k);
            if i < entries.len() {
                assert(entries[i].key@ == k);
            }
        }
    }
    assert forall|i: int| 0 <= i < after.len() implies map[(#[trigger] after[i]).key@]
        == after[i].value@ by {
        if i < entries.len() {
            lemma_entry_lookup(entries, i);
            assert(entries[i].key@ != entry.key@);
        }
    }
    lemma_entries_replace_map(after, map);
}

/// Two maps are equal where they have the keys of `entries` and agree with
/// each entry.
proof fn lemma_entries_replace_map(entries: Seq<Entry>, map: Map<Seq<char>, Tree>)
    requires
        distinct_keys(entries),
        forall|k: Seq<char>| map.dom().contains(k) <==> has_key(entries, k),
        forall|i: int| 0 <= i < entries.len() ==> map[(#[trigger] entries[i]).key@] == entries[i].value@,
    ensures
        entries_map(entries) == map,
{
    assert forall|k: Seq<char>| entries_map(entries).dom().contains(k) implies #[trigger] entries_map(entries)[k] == map[k] by {
        let i = key_index(entries, k);
        lemma_entry_lookup(entries, i);
    }
    assert(entries_map(entries) =~= map);
}

/// Replacing the value of an entry keeps the keys distinct and sets the
/// entry's key in the map.
pub proof fn lemma_entries_update(entries: Seq<Entry>, i: int, entry: Entry)
    requires
        distinct_keys(entries),
        0 <= i < entries.len(),
        entry.key@ == entries[i].key@,
    ensures
        distinct_keys(entries.update(i, entry)),
        entries_map(entries.update(i, entry)) == entries_map(entries).insert(
            entry.key@,
            entry.value@,
        ),
{
    let after = entries.update(i, entry);
    assert(distinct_keys(after)) by {
        assert forall|a: int, b: int| 0 <= a < b < after.len() implies (#[trigger] after[a]).key@
            != (#[trigger] after[b]).key@ by {
            assert(entries[a].key@ != entries[b].key@);
        }
    }
    let map = entries_map(entries).insert(entry.key@, entry.value@);
    assert forall|k: Seq<char>| map.dom().contains(k) <==> has_key(after, k) by {
        if has_key(entries, k) {
            let j = key_index(entries, k);
            assert(after[j].key@ == k);
        }
        if k == entry.key@ {
            assert(after[i].key@ == k);
        }
        if has_key(after, k) {
            let j = key_index(after, k);
            assert(entries[j].key@ == k);
        }
    }
    assert forall|j: int| 0 <= j < after.len() implies map[(#[trigger] after[j]).key@]
        == after[j].value@ by {
        if j != i {
            lemma_entry_lookup(entries, j);
            if j < i {
                assert(entries[j].key@ != entries[i].key@);
            } else {
                assert(entries[i].key@ != entries[j].key@);
            }
        }
    }
    lemma_entries_replace_map(after, map);
}

/// Merging one more entry, under a key that `other` lacks, is merging all of
/// `other` with that entry added.
pub proof fn lemma_merged_all_step(
    mapping: Map<Seq<char>, Tree>,
    other: Map<Seq<char>, Tree>,
    key: Seq<char>,
    value: Tree,
)
    requires
        !other.dom().contains(key),
    ensures
        merged(merged_all(mapping, other), key, value) == merged_all(
            mapping,
            other.insert(key, value),
        ),
{
    assert(merged(merged_all(mapping, other), key, value) =~= merged_all(
        mapping,
        other.insert(key, value),
    ));
}

/// The hash under which the place of a key is filed.
pub open spec fn key_hash(key: Seq<char>) -> u64 {
    DefaultHasher::spec_finish(seq![encode_utf8(key)])
}

/// The place of every entry is filed under the hash of its key, and nothing
/// else is filed.
spec fn placed(entries: Seq<Entry>, places: Map<u64, Vec<usize>>) -> bool {
    &&& forall|i: int|
        0 <= i < entries.len() ==> places.contains_key(key_hash((#[trigger] entries[i]).key@))
            && places[key_hash(entries[i].key@)]@.contains(i as usize)
    &&& forall|h: u64, t: int|
        places.contains_key(h) && 0 <= t < places[h]@.len() ==> (#[trigger] places[h]@[t])
            < entries.len() && key_hash(entries[places[h]@[t] as int].key@) == h
}

/// Filing the place of a new last entry keeps the places in order.
proof fn lemma_placed_push(
    entries: Seq<Entry>,
    places: Map<u64, Vec<usize>>,
    after: Map<u64, Vec<usize>>,
    entry: Entry,
)
    requires
        placed(entries, places),
        entries.len() <= usize::MAX,
        after.dom() == places.dom().insert(key_hash(entry.key@)),
        after[key_hash(entry.key@)]@ == (if places.contains_key(key_hash(entry.key@)) {
            places[key_hash(entry.key@)]@
        } else {
            Seq::empty()
        }).push(entries.len() as usize),
        forall|g: u64|
            g != key_hash(entry.key@) && places.contains_key(g) ==> #[trigger] after[g]
                == places[g],
    ensures
        placed(entries.push(entry), after),
{
    let h = key_hash(entry.key@);
    let longer = entries.push(entry);
    let before = if places.contains_key(h) {
        places[h]@
    } else {
        Seq::empty()
    };
    assert forall|i: int| 0 <= i < longer.len() implies after.contains_key(
        key_hash((#[trigger] longer[i]).key@),
    ) && after[key_hash(longer[i].key@)]@.contains(i as usize) by {
        let g = key_hash(longer[i].key@);
        if i < entries.len() {
            assert(longer[i] == entries[i]);
            assert(places[g]@.contains(i as usize));
            if g == h {
                let t = choose|t: int| 0 <= t < places[g]@.len() && places[g]@[t] == i as usize;
                assert(after[g]@[t] == i as usize);
            }
        } else {
            assert(after[h]@[before.len() as int] == i as usize);
        }
    }
    assert forall|g: u64, t: int| after.contains_key(g) && 0 <= t < after[g]@.len() implies (
    #[trigger] after[g]@[t]) < longer.len() && key_hash(longer[after[g]@[t] as int].key@)
        == g by {
        if g == h {
            if t < before.len() {
                assert(after[g]@[t] == places[g]@[t]);
            }
        } else {
            assert(after[g]@[t] == places[g]@[t]);
        }
    }
}

/// Replacing the value of an entry keeps the places in order.
proof fn lemma_placed_update(
    entries: Seq<Entry>,
    places: Map<u64, Vec<usize>>,
    i: int,
    entry: Entry,
)
    requires
        placed(entries, places),
        0 <= i < entries.len(),
        entry.key@ == entries[i].key@,
    ensures
        placed(entries.update(i, entry), places),
{
    let after = entries.update(i, entry);
    assert forall|j: int| 0 <= j < after.len() implies places.contains_key(
        key_hash((#[trigger] after[j]).key@),
    ) && places[key_hash(after[j].key@)]@.contains(j as usize) by {
        assert(after[j].key@ == entries[j].key@);
    }
    assert forall|h: u64, t: int| places.contains_key(h) && 0 <= t < places[h]@.len() implies (
    #[trigger] places[h]@[t]) < after.len() && key_hash(after[places[h]@[t] as int].key@)
        == h by {
        assert(after[places[h]@[t] as int].key@ == entries[places[h]@[t] as int].key@);
    }
}

/// The hash of a key.
fn hash_of(key: &str) -> (h: u64)
    ensures
        h == key_hash(key@),
{
    let mut hasher = DefaultHasher::new();
    hasher.write(key.as_bytes());
    assert(hasher@ =~= seq![encode_utf8(key@)]);
    hasher.finish()
}

/// Files the place `i` under the hash `h`.
fn file_place(places: &mut HashMap<u64, Vec<usize>>, h: u64, i: usize)
    ensures
        final(places)@.dom() == old(places)@.dom().insert(h),
        final(places)@[h]@ == (if old(places)@.contains_key(h) {
            old(places)@[h]@
        } else {
            Seq::empty()
        }).push(i),
        forall|g: u64|
            g != h && old(places)@.contains_key(g) ==> #[trigger] final(places)@[g] == old(
                places,
            )@[g],
{
    let mut bucket = match places.remove(&h) {
        Some(bucket) => bucket,
        None => Vec::new(),
    };
    bucket.push(i);
    places.insert(h, bucket);
    assert(places@.dom() =~= old(places)@.dom().insert(h));
}

impl Mapping {
    #[verifier::type_invariant]
    spec fn inv(self) -> bool {
        distinct_keys(self.entries@) && placed(self.entries@, self.places@)
    }

    /// A mapping without entries.
    pub fn new() -> (mapping: Mapping)
        ensures
            mapping@ == Map::<Seq<char>, Tree>::empty(),
    {
        let mapping = Mapping { entries: Vec::new(), places: HashMap::new() };
        assert(mapping@ =~= Map::<Seq<char>, Tree>::empty());
        mapping
    }

    /// The number of keys.
    pub fn len(&self) -> (n: usize)
        ensures
            self@.dom().finite(),
            n == self@.dom().len(),
    {
        proof {
            use_type_invariant(self);
            lemma_entries_len(self.entries@);
        }
        self.entries.len()
    }

    /// The entries, in the order in which their keys first arrived.
    pub fn entries(&self) -> (entries: &Vec<Entry>)
        ensures
            distinct_keys(entries@),
            entries_map(entries@) == self@,
    {
        proof {
            use_type_invariant(self);
        }
        &self.entries
    }

    fn position(&self, key: &String) -> (found: Option<usize>)
        ensures
            match found {
                Some(i) => i < self.entries@.len() && self.entries@[i as int].key@ == key@,
                None => !has_key(self.entries@, key@),
            },
    {
        proof {
            use_type_invariant(self);
        }
        let h = hash_of(key.as_str());
        match self.places.get(&h) {
            None => {
                assert(!has_key(self.entries@, key@)) by {
                    if has_key(self.entries@, key@) {
                        let i = key_index(self.entries@, key@);
                        assert(self.places@.contains_key(key_hash(self.entries@[i].key@)));
                    }
                }
                None
            },
            Some(bucket) => {
                let mut t: usize = 0;
                while t < bucket.len()
                    invariant
                        t <= bucket@.len(),
                        h == key_hash(key@),
                        self.places@.contains_key(h),
                        self.places@[h] == *bucket,
                        placed(self.entries@, self.places@),
                        forall|u: int|
                            0 <= u < t ==> self.entries@[(#[trigger] bucket@[u]) as int].key@
                                != key@,
                    decreases bucket@.len() - t,
                {
                    let i = bucket[t];
                    assert(self.places@[h]@[t as int] < self.entries@.len());
                    if self.entries[i].key == *key {
                        return Some(i);
                    }
                    t += 1;
                }
                assert(!has_key(self.entries@, key@)) by {
                    if has_key(self.entries@, key@) {
                        let i = key_index(self.entries@, key@);
                        assert(key_hash(self.entries@[i].key@) == h);
                        assert(self.entries.len() == self.entries@.len());
                        assert(bucket@.contains(i as usize));
                        let u = choose|u: int| 0 <= u < bucket@.len() && bucket@[u] == i as usize;
                        assert(bucket@[u] as int == i);
                        assert(self.entries@[bucket@[u] as int].key@ != key@);
                    }
                }
                None
            },
        }
    }

    /// The value under `key`, if the key is present.
    pub fn get(&self, key: &str) -> (found: Option<&Value>)
        ensures
            match found {
                Some(value) => self@.dom().contains(key@) && value@ == self@[key@],
                None => !self@.dom().contains(key@),
            },
    {
        proof {
            use_type_invariant(self);
        }
        match self.position(&key.to_owned()) {
            Some(i) => {
                proof {
                    lemma_entry_lookup(self.entries@, i as int);
                }
                Some(&self.entries[i].value)
            },
            None => None,
        }
    }

    /// Whether `key` is present.
    pub fn contains_key(&self, key: &str) -> (present: bool)
        ensures
            present == self@.dom().contains(key@),
    {
        self.position(&key.to_owned()).is_some()
    }

    /// Adds an entry under a key that is not present.
    fn push_entry(&mut self, key: String, value: Value)
        requires
            !has_key(old(self).entries@, key@),
        ensures
            final(self)@ == old(self)@.insert(key@, value@),
    {
        proof {
            use_type_invariant(&*self);
        }
        let mut taken = Mapping::new();
        core::mem::swap(self, &mut taken);
        let Mapping { entries, places } = taken;
        let mut entries = entries;
        let mut places = places;
        let ghost entry = Entry { key, value };
        proof {
            lemma_entries_push(entries@, entry);
        }
        let h = hash_of(key.as_str());
        let ghost before = places@;
        file_place(&mut places, h, entries.len());
        proof {
            lemma_placed_push(entries@, before, places@, entry);
        }
        entries.push(Entry { key, value });
        *self = Mapping { entries, places };
    }

    /// Puts `value` in the place of the value of the entry at `i`, and gives
    /// back what was there.
    fn replace_value(&mut self, i: usize, value: Value) -> (previous: Value)
        requires
            i < old(self).entries@.len(),
        ensures
            previous == old(self).entries@[i as int].value,
            final(self).entries@ == old(self).entries@.update(
                i as int,
                Entry { key: old(self).entries@[i as int].key, value: value },
            ),
            final(self)@ == old(self)@.insert(old(self).entries@[i as int].key@, value@),
    {
        proof {
            use_type_invariant(&*self);
        }
        let mut taken = Mapping::new();
        core::mem::swap(self, &mut taken);
        let Mapping { entries, places } = taken;
        let mut entries = entries;
        let ghost before = entries@;
        proof {
            lemma_entries_update(
                before,
                i as int,
                Entry { key: before[i as int].key, value: value },
            );
            lemma_placed_update(
                before,
                places@,
                i as int,
                Entry { key: before[i as int].key, value: value },
            );
        }
        let mut slot = value;
        core::mem::swap(&mut entries[i].value, &mut slot);
        assert(entries@ =~= before.update(
            i as int,
            Entry { key: before[i as int].key, value: value },
        ));
        *self = Mapping { entries, places };
        slot
    }

    /// Puts `value` under `key`, in place of what the key held.
    pub fn insert(&mut self, key: String, value: Value)
        ensures
            final(self)@ == old(self)@.insert(key@, value@),
    {
        match self.position(&key) {
            Some(i) => {
                self.replace_value(i, value);
            },
            None => {
                self.push_entry(key, value);
            },
        }
    }

    /// Merges `value` in under `key`: a new key takes the value as it is, a
    /// key that holds a list has the value appended to it, and any other key
    /// that is present comes to hold the list of its previous value and
    /// `value`.
    pub fn merge(&mut self, key: String, value: Value)
        ensures
            final(self)@ == merged(old(self)@, key@, value@),
    {
        proof {
            use_type_invariant(&*self);
        }
        match self.position(&key) {
            Some(i) => {
                proof {
                    lemma_entry_lookup(self.entries@, i as int);
                }
                let ghost start = self@;
                let previous = self.replace_value(i, Value::Absent);
                let list = match previous {
                    Value::List(items) => {
                        let mut items = items;
                        proof {
                            assert(list_view(items@).push(value@) =~= list_view(
                                items@.push(value),
                            ));
                        }
                        items.push(value);
                        Value::List(items)
                    },
                    first => {
                        proof {
                            assert(seq![first@, value@] =~= list_view(seq![first, value]));
                        }
                        let mut items: Vec<Value> = Vec::with_capacity(2);
                        items.push(first);
                        items.push(value);
                        assert(items@ =~= seq![first, value]);
                        Value::List(items)
                    },
                };
                assert(list@ == promoted(start[key@], value@));
                proof {
                    use_type_invariant(&*self);
                }
                self.replace_value(i, list);
                assert(self@ =~= merged(start, key@, value@));
            },
            None => {
                self.push_entry(key, value);
            },
        }
    }

    /// Merges every entry of `other` into this mapping, in the order of its
    /// entries.
    pub fn merge_all(&mut self, other: Mapping)
        ensures
            final(self)@ == merged_all(old(self)@, other@),
    {
        proof {
            use_type_invariant(&other);
        }
        let ghost start = self@;
        let ghost all = other.entries@;
        assert(self@ =~= merged_all(start, entries_map(all.take(0))));
        for entry in it: other.entries
            invariant
                it.seq() == all,
                distinct_keys(all),
                self@ == merged_all(start, entries_map(all.take(it.index() as int))),
        {
            proof {
                let i = it.index() as int;
                assert(all.take(i + 1) =~= all.take(i).push(all[i]));
                assert(distinct_keys(all.take(i))) by {
                    assert forall|a: int, b: int| 0 <= a < b < all.take(i).len() implies (
                    #[trigger] all.take(i)[a]).key@ != (#[trigger] all.take(i)[b]).key@ by {
                        assert(all[a].key@ != all[b].key@);
                    }
                }
                assert(!has_key(all.take(i), all[i].key@)) by {
                    if has_key(all.take(i), all[i].key@) {
                        let j = key_index(all.take(i), all[i].key@);
                        assert(all[j].key@ != all[i].key@);
                    }
                }
                lemma_entries_push(all.take(i), all[i]);
                lemma_merged_all_step(
                    start,
                    entries_map(all.take(i)),
                    all[i].key@,
                    all[i].value@,
                );
            }
            self.merge(entry.key, entry.value);
        }
        assert(all.take(all.len() as int) =~= all);
    }

    /// The value of an element whose attributes and children are this
    /// mapping: its text alone where it holds character data and nothing
    /// else, the mapping itself otherwise.
    pub fn into_value(self) -> (value: Value)
        ensures
            value@ == collapsed(self@),
    {
        proof {
            use_type_invariant(&self);
            lemma_entries_len(self.entries@);
            reveal_strlit("#text");
        }
        let ghost before = self.entries@;
        if self.entries.len() == 1 {
            proof {
                lemma_entry_lookup(before, 0);
                assert(entries_map(before).dom() =~= set![before[0].key@]) by {
                    assert forall|k: Seq<char>| has_key(before, k) implies k == before[0].key@ by {
                        let i = key_index(before, k);
                    }
                }
            }
            let is_text = match &self.entries[0].value {
                Value::Text(_) => true,
                _ => false,
            };
            if is_text && self.entries[0].key == "#text".to_owned() {
                let Mapping { entries, places } = self;
                let mut entries = entries;
                return match entries.pop() {
                    Some(entry) => entry.value,
                    None => Value::Absent,
                };
            }
            assert(!collapses(entries_map(before))) by {
                if entries_map(before).dom() == set![text_key()] {
                    assert(set![text_key()].contains(before[0].key@));
                }
            }
        }
        Value::Mapping(self)
    }
}

/// Whether the values of two sequences stand for the same trees, one by one.
fn same_items(items: &Vec<Value>, others: &Vec<Value>) -> (same: bool)
    ensures
        same == (list_view(items@) == list_view(others@)),
    decreases items,
{
    if items.len() != others.len() {
        assert(list_view(items@).len() != list_view(others@).len());
        return false;
    }
    let mut i: usize = 0;
    while i < items.len()
        invariant
            i <= items@.len(),
            items@.len() == others@.len(),
            forall|j: int| 0 <= j < i ==> (#[trigger] items@[j])@ == others@[j]@,
        decreases items@.len() - i,
    {
        if !items[i].same_as(&others[i]) {
            assert(list_view(items@)[i as int] != list_view(others@)[i as int]);
            return false;
        }
        i += 1;
    }
    assert(list_view(items@) =~= list_view(others@));
    true
}

impl Mapping {
    /// Whether the two mappings hold the same values under the same keys,
    /// whatever the order of their entries.
    pub fn same_as(&self, other: &Mapping) -> (same: bool)
        ensures
            same == (self@ == other@),
        decreases self,
    {
        proof {
            use_type_invariant(self);
        }
        if self.len() != other.len() {
            return false;
        }
        let mut i: usize = 0;
        while i < self.entries.len()
            invariant
                i <= self.entries@.len(),
                distinct_keys(self.entries@),
                forall|j: int|
                    0 <= j < i ==> other@.dom().contains((#[trigger] self.entries@[j]).key@)
                        && other@[self.entries@[j].key@] == self.entries@[j].value@,
            decreases self.entries@.len() - i,
        {
            proof {
                lemma_entry_lookup(self.entries@, i as int);
            }
            match other.get(self.entries[i].key.as_str()) {
                None => {
                    return false;
                },
                Some(value) => {
                    if !self.entries[i].value.same_as(value) {
                        return false;
                    }
                },
            }
            i += 1;
        }
        proof {
            assert forall|k: Seq<char>| self@.dom().contains(k) implies other@.dom().contains(k)
                && self@[k] == other@[k] by {
                let j = key_index(self.entries@, k);
                lemma_entry_lookup(self.entries@, j);
            }
            assert(self@.dom().subset_of(other@.dom()));
            vstd::set_lib::lemma_subset_equality(self@.dom(), other@.dom());
            assert(self@ =~= other@);
        }
        true
    }
}

impl Value {
    /// Whether the two values stand for the same tree: mappings with the same
    /// values under the same keys, lists with the same values in the same
    /// order, the same text.
    pub fn same_as(&self, other: &Value) -> (same: bool)
        ensures
            same == (self@ == other@),
        decreases self,
    {
        match (self, other) {
            (Value::Absent, Value::Absent) => true,
            (Value::Text(text), Value::Text(against)) => *text == *against,
            (Value::Mapping(mapping), Value::Mapping(against)) => mapping.same_as(against),
            (Value::List(items), Value::List(against)) => same_items(items, against),
            _ => false,
        }
    }
}

impl PartialEq for Mapping {
    fn eq(&self, other: &Mapping) -> (equal: bool) {
        self.same_as(other)
    }
}

impl vstd::std_specs::cmp::PartialEqSpecImpl for Mapping {
    open spec fn obeys_eq_spec() -> bool {
        true
    }

    open spec fn eq_spec(&self, other: &Mapping) -> bool {
        self@ == other@
    }
}

impl PartialEq for Value {
    fn eq(&self, other: &Value) -> (equal: bool) {
        self.same_as(other)
    }
}

impl vstd::std_specs::cmp::PartialEqSpecImpl for Value {
    open spec fn obeys_eq_spec() -> bool {
        true
    }

    open spec fn eq_spec(&self, other: &Value) -> bool {
        self@ == other@
    }
}

/// Merges `value` into `mapping` under `tag_name`. The first value for a key
/// is kept as it is; the second turns the slot into a list of the two, in the
/// order in which they came; every further one is appended to that list.
pub fn update_mapping(mapping: &mut Mapping, tag_name: String, value: Value)
    ensures
        final(mapping)@ == merged(old(mapping)@, tag_name@, value@),
{
    mapping.merge(tag_name, value)
}

} // verus!
