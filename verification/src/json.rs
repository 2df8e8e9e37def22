//! JSON values: the mathematical model [`Json`], the executable tree
//! [`JsonValue`], and insertion-ordered objects.
use crate::text::str_equal;
use vstd::prelude::*;

verus! {

/// A JSON number: a non-negative integer, a negative integer, or a binary64
/// float held by its IEEE-754 bit pattern.
#[derive(Clone, Copy, Debug)]
pub enum JsonNumber {
    PosInt(u64),
    NegInt(i64),
    Float(u64),
}

/// The bit pattern of the float `-0.0`; that of `0.0` is zero.
pub const NEGATIVE_ZERO: u64 = 0x8000_0000_0000_0000;

/// The bit pattern is one of the two zeros.
pub open spec fn is_zero_bits(bits: u64) -> bool {
    bits == 0 || bits == NEGATIVE_ZERO
}

/// Equality of numbers: the same kind and the same value, where the floats
/// `0.0` and `-0.0` are the same value.
pub open spec fn number_eq(a: JsonNumber, b: JsonNumber) -> bool {
    match (a, b) {
        (JsonNumber::PosInt(x), JsonNumber::PosInt(y)) => x == y,
        (JsonNumber::NegInt(x), JsonNumber::NegInt(y)) => x == y,
        (JsonNumber::Float(x), JsonNumber::Float(y)) => x == y || (is_zero_bits(x)
            && is_zero_bits(y)),
        _ => false,
    }
}

impl PartialEq for JsonNumber {
    fn eq(&self, other: &JsonNumber) -> (r: bool) {
        match (*self, *other) {
            (JsonNumber::PosInt(x), JsonNumber::PosInt(y)) => x == y,
            (JsonNumber::NegInt(x), JsonNumber::NegInt(y)) => x == y,
            (JsonNumber::Float(x), JsonNumber::Float(y)) => x == y || ((x == 0 || x
                == NEGATIVE_ZERO) && (y == 0 || y == NEGATIVE_ZERO)),
            _ => false,
        }
    }
}

impl vstd::std_specs::cmp::PartialEqSpecImpl for JsonNumber {
    open spec fn obeys_eq_spec() -> bool {
        true
    }

    open spec fn eq_spec(&self, other: &JsonNumber) -> bool {
        number_eq(*self, *other)
    }
}

impl Eq for JsonNumber {

}

/// The number that stands for a signed 64-bit integer: non-negative values are
/// `PosInt`, negative ones `NegInt`.
pub open spec fn number_of_int(n: i64) -> JsonNumber {
    if n >= 0 {
        JsonNumber::PosInt(n as u64)
    } else {
        JsonNumber::NegInt(n)
    }
}

impl JsonNumber {
    /// The number that stands for a signed 64-bit integer.
    pub fn from_i64(n: i64) -> (r: JsonNumber)
        ensures
            r == number_of_int(n),
    {
        if n >= 0 {
            JsonNumber::PosInt(n as u64)
        } else {
            JsonNumber::NegInt(n)
        }
    }
}

/// The entries of an object, in insertion order.
pub type Entries = Seq<(Seq<char>, Json)>;

/// Mathematical model of a JSON document.
#[verifier::ext_equal]
pub enum Json {
    Null,
    Bool(bool),
    Number(JsonNumber),
    String(Seq<char>),
    Array(Seq<Json>),
    Object(Entries),
}

/// `i` is the position of the first entry whose key is `key`.
pub open spec fn is_key_index(entries: Entries, key: Seq<char>, i: int) -> bool {
    &&& 0 <= i < entries.len()
    &&& entries[i].0 == key
    &&& forall|j: int| 0 <= j < i ==> (#[trigger] entries[j]).0 != key
}

/// Some entry has the key.
pub open spec fn has_key(entries: Entries, key: Seq<char>) -> bool {
    exists|i: int| is_key_index(entries, key, i)
}

/// Position of the first entry under `key`; meaningful when `has_key` holds.
pub open spec fn key_index(entries: Entries, key: Seq<char>) -> int {
    choose|i: int| is_key_index(entries, key, i)
}

/// The value of the first entry under `key`.
pub open spec fn obj_get(entries: Entries, key: Seq<char>) -> Option<Json> {
    let i = key_index(entries, key);
    if is_key_index(entries, key, i) {
        Some(entries[i].1)
    } else {
        None
    }
}

/// Replaces the value under `key` where it stands, or appends a new entry.
pub open spec fn obj_insert(entries: Entries, key: Seq<char>, value: Json) -> Entries {
    let i = key_index(entries, key);
    if is_key_index(entries, key, i) {
        entries.update(i, (key, value))
    } else {
        entries.push((key, value))
    }
}

/// Removes the entry under `key`; the other entries keep their order.
pub open spec fn obj_remove(entries: Entries, key: Seq<char>) -> Entries {
    let i = key_index(entries, key);
    if is_key_index(entries, key, i) {
        entries.remove(i)
    } else {
        entries
    }
}

/// No two entries have the same key.
pub open spec fn keys_distinct(entries: Entries) -> bool {
    forall|i: int, j: int|
        0 <= i < entries.len() && 0 <= j < entries.len() && i != j ==> (#[trigger] entries[i]).0
            != (#[trigger] entries[j]).0
}

impl Json {
    /// Every object of the document, on every level, holds each key once.
    pub open spec fn wf(self) -> bool
        decreases self,
    {
        match self {
            Json::Array(items) => forall|i: int| 0 <= i < items.len() ==> (#[trigger] items[i]).wf(),
            Json::Object(entries) => keys_distinct(entries) && forall|i: int|
                0 <= i < entries.len() ==> (#[trigger] entries[i]).1.wf(),
            _ => true,
        }
    }
}

/// Two first positions of one key are the same position.
pub proof fn lemma_key_index_unique(entries: Entries, key: Seq<char>, i: int, j: int)
    requires
        is_key_index(entries, key, i),
        is_key_index(entries, key, j),
    ensures
        i == j,
{
    if i < j {
        assert(entries[i].0 != key);
    } else if j < i {
        assert(entries[j].0 != key);
    }
}

/// A key that occurs anywhere has a first position.
pub proof fn lemma_has_key_from_any(entries: Entries, key: Seq<char>, j: int)
    requires
        0 <= j < entries.len(),
        entries[j].0 == key,
    ensures
        has_key(entries, key),
        0 <= key_index(entries, key) <= j,
    decreases j,
{
    if exists|k: int| 0 <= k < j && (#[trigger] entries[k]).0 == key {
        let k = choose|k: int| 0 <= k < j && (#[trigger] entries[k]).0 == key;
        lemma_has_key_from_any(entries, key, k);
    } else {
        assert(is_key_index(entries, key, j));
        lemma_key_index_unique(entries, key, j, key_index(entries, key));
    }
}

/// What is known of `key_index` once the first position is found.
pub proof fn lemma_key_index_is(entries: Entries, key: Seq<char>, i: int)
    requires
        is_key_index(entries, key, i),
    ensures
        has_key(entries, key),
        key_index(entries, key) == i,
        obj_get(entries, key) == Some(entries[i].1),
{
    lemma_key_index_unique(entries, key, i, key_index(entries, key));
}

/// The value under a key is a smaller term than the entries.
pub proof fn lemma_obj_get_smaller(entries: Entries, key: Seq<char>)
    requires
        obj_get(entries, key) is Some,
    ensures
        decreases_to!(entries => obj_get(entries, key)->0),
{
    let i = key_index(entries, key);
    assert(decreases_to!(entries => entries[i]));
    assert(decreases_to!(entries[i] => entries[i].1));
}

/// What is known when no entry has the key.
pub proof fn lemma_key_absent(entries: Entries, key: Seq<char>)
    requires
        forall|j: int| 0 <= j < entries.len() ==> (#[trigger] entries[j]).0 != key,
    ensures
        !has_key(entries, key),
        obj_get(entries, key) is None,
        obj_insert(entries, key, Json::Null).len() == entries.len() + 1,
        obj_remove(entries, key) == entries,
{
    if has_key(entries, key) {
        let i = key_index(entries, key);
        assert(entries[i].0 == key);
    }
}

/// A JSON document.
#[derive(Debug)]
pub enum JsonValue {
    Null,
    Bool(bool),
    Number(JsonNumber),
    String(String),
    Array(Vec<JsonValue>),
    Object(JsonObject),
}

/// A JSON object: keys with their values, in insertion order.
#[derive(Debug)]
pub struct JsonObject {
    entries: Vec<(String, JsonValue)>,
}

impl View for JsonValue {
    type V = Json;

    open spec fn view(&self) -> Json
        decreases self,
    {
        match self {
            JsonValue::Null => Json::Null,
            JsonValue::Bool(b) => Json::Bool(*b),
            JsonValue::Number(n) => Json::Number(*n),
            JsonValue::String(s) => Json::String(s@),
            JsonValue::Array(items) => Json::Array(items_view(items@)),
            JsonValue::Object(object) => Json::Object(object@),
        }
    }
}

impl View for JsonObject {
    type V = Entries;

    closed spec fn view(&self) -> Entries
        decreases self,
    {
        entries_view(self.entries@)
    }
}

/// The models of a sequence of values, one by one.
pub open spec fn items_view(items: Seq<JsonValue>) -> Seq<Json>
    decreases items,
{
    if items.len() == 0 {
        Seq::empty()
    } else {
        items_view(items.drop_last()).push(items.last()@)
    }
}

/// The models of a sequence of entries, one by one.
pub open spec fn entries_view(entries: Seq<(String, JsonValue)>) -> Entries
    decreases entries,
{
    if entries.len() == 0 {
        Seq::empty()
    } else {
        entries_view(entries.drop_last()).push((entries.last().0@, entries.last().1@))
    }
}

/// The model of a list of values has the model of each value at its place.
pub broadcast proof fn lemma_items_view(items: Seq<JsonValue>)
    ensures
        #![trigger items_view(items)]
        items_view(items).len() == items.len(),
        forall|i: int| 0 <= i < items.len() ==> (#[trigger] items_view(items)[i]) == items[i]@,
    decreases items.len(),
{
    if items.len() > 0 {
        lemma_items_view(items.drop_last());
        assert(items_view(items) == items_view(items.drop_last()).push(items.last()@));
    } else {
        assert(items_view(items).len() == 0);
    }
}

/// The model of a list of entries has the model of each entry at its place.
pub broadcast proof fn lemma_entries_view(entries: Seq<(String, JsonValue)>)
    ensures
        #![trigger entries_view(entries)]
        entries_view(entries).len() == entries.len(),
        forall|i: int|
            0 <= i < entries.len() ==> (#[trigger] entries_view(entries)[i]) == (
                entries[i].0@,
                entries[i].1@,
            ),
    decreases entries.len(),
{
    if entries.len() > 0 {
        lemma_entries_view(entries.drop_last());
        assert(entries_view(entries) == entries_view(entries.drop_last()).push(
            (entries.last().0@, entries.last().1@),
        ));
    } else {
        assert(entries_view(entries).len() == 0);
    }
}

impl JsonObject {
    /// The object holds each key once. An object that is built with `new`
    /// and changed through the methods of this type always does.
    pub open spec fn wf(&self) -> bool {
        keys_distinct(self@)
    }

    /// The object without entries.
    pub fn new() -> (r: JsonObject)
        ensures
            r@ == Seq::<(Seq<char>, Json)>::empty(),
            r.wf(),
    {
        let r = JsonObject { entries: Vec::new() };
        proof {
            lemma_entries_view(r.entries@);
            assert(r@ =~= Seq::<(Seq<char>, Json)>::empty());
        }
        r
    }

    /// The number of entries.
    pub fn len(&self) -> (r: usize)
        ensures
            r == self@.len(),
    {
        proof {
            lemma_entries_view(self.entries@);
        }
        self.entries.len()
    }

    /// The key of the entry at position `i`.
    pub fn key_at(&self, i: usize) -> (r: &String)
        requires
            i < self@.len(),
        ensures
            r@ == self@[i as int].0,
    {
        proof {
            lemma_entries_view(self.entries@);
        }
        &self.entries[i].0
    }

    /// The value of the entry at position `i`.
    pub fn value_at(&self, i: usize) -> (r: &JsonValue)
        requires
            i < self@.len(),
        ensures
            r@ == self@[i as int].1,
            decreases_to!(self => r),
    {
        proof {
            lemma_entries_view(self.entries@);
        }
        &self.entries[i].1
    }

    /// Position of the entry under `key`, if there is one.
    pub fn index_of(&self, key: &str) -> (r: Option<usize>)
        ensures
            match r {
                Some(i) => is_key_index(self@, key@, i as int),
                None => !has_key(self@, key@),
            },
    {
        proof {
            lemma_entries_view(self.entries@);
        }
        let mut i: usize = 0;
        while i < self.entries.len()
            invariant
                i <= self.entries.len(),
                self@.len() == self.entries.len(),
                forall|j: int| 0 <= j < self.entries.len() ==> (#[trigger] self@[j]) == (
                    self.entries[j].0@,
                    self.entries[j].1@,
                ),
                forall|j: int| 0 <= j < i ==> (#[trigger] self@[j]).0 != key@,
            decreases self.entries.len() - i,
        {
            if str_equal(self.entries[i].0.as_str(), key) {
                return Some(i);
            }
            i += 1;
        }
        proof {
            lemma_key_absent(self@, key@);
        }
        None
    }

    /// Whether some entry has the key.
    pub fn contains_key(&self, key: &str) -> (r: bool)
        ensures
            r == has_key(self@, key@),
    {
        self.index_of(key).is_some()
    }

    /// The value under `key`, if there is one.
    pub fn get(&self, key: &str) -> (r: Option<&JsonValue>)
        ensures
            match r {
                Some(v) => obj_get(self@, key@) == Some(v@),
                None => obj_get(self@, key@) is None,
            },
    {
        match self.index_of(key) {
            Some(i) => {
                proof {
                    lemma_key_index_is(self@, key@, i as int);
                }
                Some(self.value_at(i))
            },
            None => None,
        }
    }

    /// A mutable borrow of the value at position `i`; the key stays.
    pub fn value_at_mut(&mut self, i: usize) -> (r: &mut JsonValue)
        requires
            i < old(self)@.len(),
        ensures
            r@ == old(self)@[i as int].1,
            final(self)@ == old(self)@.update(i as int, (old(self)@[i as int].0, final(r)@)),
            old(self).wf() ==> final(self).wf(),
    {
        proof {
            lemma_entries_view(self.entries@);
        }
        let ghost before = self.entries@;
        let entry = &mut self.entries[i];
        let r = &mut entry.1;
        proof {
            let after = before.update(i as int, (before[i as int].0, *final(r)));
            lemma_entries_view(after);
            assert(entries_view(after) =~= entries_view(before).update(
                i as int,
                (entries_view(before)[i as int].0, final(r)@),
            ));
            lemma_update_value_keeps_keys(
                entries_view(before),
                i as int,
                final(r)@,
            );
        }
        r
    }

    /// A mutable borrow of the value under `key`, if there is one.
    pub fn get_mut(&mut self, key: &str) -> (r: Option<&mut JsonValue>)
        ensures
            match r {
                Some(v) => obj_get(old(self)@, key@) == Some(v@) && final(self)@ == old(
                    self,
                )@.update(key_index(old(self)@, key@), (key@, final(v)@)),
                None => obj_get(old(self)@, key@) is None && final(self)@ == old(self)@,
            },
            old(self).wf() ==> final(self).wf(),
    {
        match self.index_of(key) {
            Some(i) => {
                proof {
                    lemma_key_index_is(self@, key@, i as int);
                }
                Some(self.value_at_mut(i))
            },
            None => None,
        }
    }

    /// Sets the value under `key`: in place where the key stands, else as a
    /// new last entry. Returns the value that stood there.
    pub fn insert(&mut self, key: String, value: JsonValue) -> (r: Option<JsonValue>)
        ensures
            final(self)@ == obj_insert(old(self)@, key@, value@),
            match r {
                Some(v) => obj_get(old(self)@, key@) == Some(v@),
                None => obj_get(old(self)@, key@) is None,
            },
            old(self).wf() ==> final(self).wf(),
    {
        proof {
            lemma_entries_view(self.entries@);
            lemma_insert_then_get(self@, key@, value@, key@);
        }
        let ghost before = self.entries@;
        match self.index_of(key.as_str()) {
            Some(i) => {
                proof {
                    lemma_key_index_is(self@, key@, i as int);
                }
                let mut slot = value;
                std::mem::swap(&mut self.entries[i].1, &mut slot);
                proof {
                    lemma_entries_view(self.entries@);
                    assert(self@ =~= entries_view(before).update(i as int, (key@, value@)));
                }
                Some(slot)
            },
            None => {
                self.entries.push((key, value));
                proof {
                    lemma_entries_view(self.entries@);
                    assert(self@ =~= entries_view(before).push((key@, value@)));
                }
                None
            },
        }
    }

    /// Removes the entry under `key` and returns its value; the other entries
    /// keep their order.
    pub fn remove(&mut self, key: &str) -> (r: Option<JsonValue>)
        ensures
            final(self)@ == obj_remove(old(self)@, key@),
            match r {
                Some(v) => obj_get(old(self)@, key@) == Some(v@),
                None => obj_get(old(self)@, key@) is None,
            },
            old(self).wf() ==> final(self).wf(),
    {
        proof {
            lemma_entries_view(self.entries@);
            if self.wf() {
                lemma_remove_then_get(self@, key@, key@);
            }
        }
        let ghost before = self.entries@;
        match self.index_of(key) {
            Some(i) => {
                proof {
                    lemma_key_index_is(self@, key@, i as int);
                }
                let entry = self.entries.remove(i);
                proof {
                    lemma_entries_view(self.entries@);
                    assert(self@ =~= entries_view(before).remove(i as int));
                }
                Some(entry.1)
            },
            None => None,
        }
    }
}

/// Changing the value of an entry leaves the keys as they are.
pub proof fn lemma_update_value_keeps_keys(entries: Entries, i: int, value: Json)
    requires
        0 <= i < entries.len(),
    ensures
        keys_distinct(entries) ==> keys_distinct(entries.update(i, (entries[i].0, value))),
{
    let after = entries.update(i, (entries[i].0, value));
    if keys_distinct(entries) {
        assert forall|a: int, b: int|
            0 <= a < after.len() && 0 <= b < after.len() && a != b implies (#[trigger] after[a]).0
            != (#[trigger] after[b]).0 by {
            assert(after[a].0 == entries[a].0);
            assert(after[b].0 == entries[b].0);
        }
    }
}

/// Removing a key that stands once: the key is gone, every other key keeps
/// its value, and the keys stay distinct.
pub proof fn lemma_remove_then_get(entries: Entries, key: Seq<char>, other: Seq<char>)
    requires
        keys_distinct(entries),
    ensures
        keys_distinct(obj_remove(entries, key)),
        obj_get(obj_remove(entries, key), other) == if other == key {
            None
        } else {
            obj_get(entries, other)
        },
        !has_key(obj_remove(entries, key), key),
        has_key(entries, key) ==> obj_remove(entries, key).len() == entries.len() - 1,
        !has_key(entries, key) ==> obj_remove(entries, key) == entries,
{
    let after = obj_remove(entries, key);
    if has_key(entries, key) {
        let i = key_index(entries, key);
        assert(after == entries.remove(i));
        assert forall|a: int, b: int|
            0 <= a < after.len() && 0 <= b < after.len() && a != b implies (#[trigger] after[a]).0
            != (#[trigger] after[b]).0 by {
            let a0 = if a < i {
                a
            } else {
                a + 1
            };
            let b0 = if b < i {
                b
            } else {
                b + 1
            };
            assert(after[a] == entries[a0]);
            assert(after[b] == entries[b0]);
        }
        assert forall|j: int| 0 <= j < after.len() implies (#[trigger] after[j]).0 != key by {
            let j0 = if j < i {
                j
            } else {
                j + 1
            };
            assert(after[j] == entries[j0]);
            assert(entries[j0].0 != entries[i].0);
        }
        lemma_key_absent(after, key);
        if other != key {
            if has_key(entries, other) {
                let m = key_index(entries, other);
                let m1 = if m < i {
                    m
                } else {
                    m - 1
                };
                assert(after[m1] == entries[m]);
                lemma_has_key_from_any(after, other, m1);
                let found = key_index(after, other);
                let f0 = if found < i {
                    found
                } else {
                    found + 1
                };
                assert(after[found] == entries[f0]);
                assert(f0 == m);
            } else {
                if has_key(after, other) {
                    let found = key_index(after, other);
                    let f0 = if found < i {
                        found
                    } else {
                        found + 1
                    };
                    assert(after[found] == entries[f0]);
                    lemma_has_key_from_any(entries, other, f0);
                }
            }
        }
    }
}

/// Setting a key: the key holds the value, every other key keeps its value,
/// and distinct keys stay distinct.
pub proof fn lemma_insert_then_get(
    entries: Entries,
    key: Seq<char>,
    value: Json,
    other: Seq<char>,
)
    ensures
        keys_distinct(entries) ==> keys_distinct(obj_insert(entries, key, value)),
        obj_get(obj_insert(entries, key, value), other) == if other == key {
            Some(value)
        } else {
            obj_get(entries, other)
        },
        has_key(obj_insert(entries, key, value), key),
        obj_insert(entries, key, value).len() == if has_key(entries, key) {
            entries.len()
        } else {
            entries.len() + 1
        },
{
    let after = obj_insert(entries, key, value);
    if has_key(entries, key) {
        let i = key_index(entries, key);
        assert(after == entries.update(i, (key, value)));
        assert(is_key_index(after, key, i)) by {
            assert forall|j: int| 0 <= j < i implies (#[trigger] after[j]).0 != key by {
                assert(after[j] == entries[j]);
            }
        }
        lemma_key_index_is(after, key, i);
        if keys_distinct(entries) {
            assert forall|a: int, b: int|
                0 <= a < after.len() && 0 <= b < after.len() && a != b implies (
                #[trigger] after[a]).0 != (#[trigger] after[b]).0 by {
                assert(after[a].0 == entries[a].0);
                assert(after[b].0 == entries[b].0);
            }
        }
        if other != key {
            if has_key(entries, other) {
                let m = key_index(entries, other);
                assert(is_key_index(after, other, m)) by {
                    assert forall|j: int| 0 <= j < m implies (#[trigger] after[j]).0 != other by {
                        assert(after[j].0 == entries[j].0);
                    }
                }
                lemma_key_index_is(after, other, m);
            } else if has_key(after, other) {
                let found = key_index(after, other);
                assert(after[found].0 == entries[found].0);
                lemma_has_key_from_any(entries, other, found);
            }
        }
    } else {
        let n = entries.len() as int;
        assert(after == entries.push((key, value)));
        assert forall|j: int| 0 <= j < n implies (#[trigger] entries[j]).0 != key by {
            if entries[j].0 == key {
                lemma_has_key_from_any(entries, key, j);
            }
        }
        assert(is_key_index(after, key, n)) by {
            assert forall|j: int| 0 <= j < n implies (#[trigger] after[j]).0 != key by {
                assert(after[j] == entries[j]);
            }
        }
        lemma_key_index_is(after, key, n);
        if keys_distinct(entries) {
            assert forall|a: int, b: int|
                0 <= a < after.len() && 0 <= b < after.len() && a != b implies (
                #[trigger] after[a]).0 != (#[trigger] after[b]).0 by {
                if a < n {
                    assert(after[a] == entries[a]);
                }
                if b < n {
                    assert(after[b] == entries[b]);
                }
            }
        }
        if other != key {
            if has_key(entries, other) {
                let m = key_index(entries, other);
                assert(is_key_index(after, other, m)) by {
                    assert forall|j: int| 0 <= j < m implies (#[trigger] after[j]).0 != other by {
                        assert(after[j] == entries[j]);
                    }
                }
                lemma_key_index_is(after, other, m);
            } else if has_key(after, other) {
                let found = key_index(after, other);
                assert(found < n);
                assert(after[found] == entries[found]);
                lemma_has_key_from_any(entries, other, found);
            }
        }
    }
}

/// JSON equality: scalars by value (numbers by `number_eq`), arrays item by
/// item, objects key by key whatever the order of their entries.
pub open spec fn json_eq(a: Json, b: Json) -> bool
    decreases a,
{
    match (a, b) {
        (Json::Null, Json::Null) => true,
        (Json::Bool(x), Json::Bool(y)) => x == y,
        (Json::Number(x), Json::Number(y)) => number_eq(x, y),
        (Json::String(x), Json::String(y)) => x == y,
        (Json::Array(x), Json::Array(y)) => x.len() == y.len() && forall|i: int|
            0 <= i < x.len() ==> json_eq(#[trigger] x[i], y[i]),
        (Json::Object(x), Json::Object(y)) => x.len() == y.len() && forall|i: int|
            0 <= i < x.len() ==> match obj_get(y, (#[trigger] x[i]).0) {
                Some(v) => json_eq(x[i].1, v),
                None => false,
            },
        _ => false,
    }
}

impl JsonValue {
    /// JSON equality with `other`.
    pub fn equals(&self, other: &JsonValue) -> (r: bool)
        ensures
            r == json_eq(self@, other@),
        decreases self,
    {
        match (self, other) {
            (JsonValue::Null, JsonValue::Null) => true,
            (JsonValue::Bool(x), JsonValue::Bool(y)) => *x == *y,
            (JsonValue::Number(x), JsonValue::Number(y)) => x.eq(y),
            (JsonValue::String(x), JsonValue::String(y)) => str_equal(x.as_str(), y.as_str()),
            (JsonValue::Array(x), JsonValue::Array(y)) => {
                proof {
                    lemma_items_view(x@);
                    lemma_items_view(y@);
                }
                if x.len() != y.len() {
                    return false;
                }
                let mut i: usize = 0;
                while i < x.len()
                    invariant
                        i <= x.len(),
                        x.len() == y.len(),
                        decreases_to!(self => x),
                        *self == JsonValue::Array(*x),
                        *other == JsonValue::Array(*y),
                        forall|k: int| 0 <= k < i ==> json_eq(#[trigger] x@[k]@, y@[k]@),
                    decreases x.len() - i,
                {
                    proof {
                        vstd::std_specs::vec::axiom_vec_index_decreases(*x, i as int);
                    }
                    if !x[i].equals(&y[i]) {
                        proof {
                            lemma_items_view(x@);
                            lemma_items_view(y@);
                            assert(!json_eq(items_view(x@)[i as int], items_view(y@)[i as int]));
                        }
                        return false;
                    }
                    i += 1;
                }
                proof {
                    lemma_items_view(x@);
                    lemma_items_view(y@);
                    assert forall|k: int| 0 <= k < x@.len() implies json_eq(
                        #[trigger] items_view(x@)[k],
                        items_view(y@)[k],
                    ) by {
                        assert(json_eq(x@[k]@, y@[k]@));
                    }
                }
                true
            },
            (JsonValue::Object(x), JsonValue::Object(y)) => {
                if x.len() != y.len() {
                    return false;
                }
                let mut i: usize = 0;
                while i < x.len()
                    invariant
                        i <= x@.len(),
                        x@.len() == y@.len(),
                        decreases_to!(self => x),
                        *self == JsonValue::Object(*x),
                        *other == JsonValue::Object(*y),
                        forall|k: int|
                            0 <= k < i ==> match obj_get(y@, (#[trigger] x@[k]).0) {
                                Some(v) => json_eq(x@[k].1, v),
                                None => false,
                            },
                    decreases x@.len() - i,
                {
                    let matched = match y.get(x.key_at(i).as_str()) {
                        Some(v) => {
                            x.value_at(i).equals(v)
                        },
                        None => false,
                    };
                    if !matched {
                        assert(!match obj_get(y@, x@[i as int].0) {
                            Some(v) => json_eq(x@[i as int].1, v),
                            None => false,
                        });
                        return false;
                    }
                    i += 1;
                }
                true
            },
            _ => false,
        }
    }
}

impl PartialEq for JsonValue {
    fn eq(&self, other: &JsonValue) -> (r: bool) {
        self.equals(other)
    }
}

impl vstd::std_specs::cmp::PartialEqSpecImpl for JsonValue {
    open spec fn obeys_eq_spec() -> bool {
        true
    }

    open spec fn eq_spec(&self, other: &JsonValue) -> bool {
        json_eq(self@, other@)
    }
}

impl Clone for JsonValue {
    fn clone(&self) -> (r: JsonValue)
        ensures
            r@ == self@,
        decreases self,
    {
        match self {
            JsonValue::Null => JsonValue::Null,
            JsonValue::Bool(b) => JsonValue::Bool(*b),
            JsonValue::Number(n) => JsonValue::Number(*n),
            JsonValue::String(s) => JsonValue::String(s.clone()),
            JsonValue::Array(items) => {
                let mut out: Vec<JsonValue> = Vec::new();
                let mut i: usize = 0;
                while i < items.len()
                    invariant
                        i <= items.len(),
                        out.len() == i,
                        decreases_to!(self => items),
                        forall|k: int| 0 <= k < i ==> (#[trigger] out@[k])@ == items@[k]@,
                    decreases items.len() - i,
                {
                    proof {
                        vstd::std_specs::vec::axiom_vec_index_decreases(*items, i as int);
                    }
                    out.push(items[i].clone());
                    i += 1;
                }
                proof {
                    lemma_items_view(items@);
                    lemma_items_view(out@);
                    assert(items_view(out@) =~= items_view(items@));
                }
                JsonValue::Array(out)
            },
            JsonValue::Object(object) => JsonValue::Object(object.clone()),
        }
    }
}

impl Clone for JsonObject {
    fn clone(&self) -> (r: JsonObject)
        ensures
            r@ == self@,
        decreases self,
    {
        let mut out: Vec<(String, JsonValue)> = Vec::new();
        let mut i: usize = 0;
        while i < self.entries.len()
            invariant
                i <= self.entries.len(),
                out.len() == i,
                forall|k: int|
                    0 <= k < i ==> (#[trigger] out@[k]).0@ == self.entries@[k].0@ && out@[k].1@
                        == self.entries@[k].1@,
            decreases self.entries.len() - i,
        {
            proof {
                vstd::std_specs::vec::axiom_vec_index_decreases(self.entries, i as int);
            }
            let key = self.entries[i].0.clone();
            let value = self.entries[i].1.clone();
            out.push((key, value));
            i += 1;
        }
        let r = JsonObject { entries: out };
        proof {
            lemma_entries_view(self.entries@);
            lemma_entries_view(r.entries@);
            assert(r@ =~= self@);
        }
        r
    }
}

} // verus!
