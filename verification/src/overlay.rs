//! The default overlay, laid on twice: a transform of plain data, without
//! verbs and without arrays, changes nothing the second time.
use crate::identities::lemma_reserved_names;
use crate::json::{
    has_key, is_key_index, key_index, keys_distinct, lemma_insert_then_get, lemma_key_index_is,
    obj_get, obj_insert, Entries, Json,
};
use crate::transform::{
    apply_spec, is_jdt_syntax_spec, overlay_prefix, overlay_value, process_spec, recurse_prefix,
    TransformError, VERB_MERGE, VERB_REMOVE, VERB_RENAME, VERB_REPLACE,
};
use vstd::prelude::*;

verus! {

/// An entry of a transform of plain data: its key is no syntax, and its
/// value is a scalar or again an object of plain data.
pub open spec fn is_plain_entry(entry: (Seq<char>, Json)) -> bool
    decreases entry.1, 1nat,
{
    &&& !is_jdt_syntax_spec(entry.0)
    &&& !(entry.1 is Array)
    &&& entry.1 is Object ==> is_plain_overlay(entry.1)
}

/// A transform of plain data: an object that holds each key once, no key
/// that is syntax and no array, on every level.
pub open spec fn is_plain_overlay(transform: Json) -> bool
    decreases transform, 0nat,
{
    match transform {
        Json::Object(entries) => keys_distinct(entries) && forall|k: int|
            0 <= k < entries.len() ==> is_plain_entry(#[trigger] entries[k]),
        _ => false,
    }
}

/// What a document holds under the key of a transform's entry agrees with
/// the entry: the same scalar, or an object that holds the entry's object.
pub open spec fn holds_entry(document: Entries, entry: (Seq<char>, Json)) -> bool
    decreases entry.1, 1nat,
{
    match obj_get(document, entry.0) {
        Some(value) => if entry.1 is Object {
            holds_overlay(value, entry.1)
        } else {
            value == entry.1
        },
        None => false,
    }
}

/// The document already holds all that the transform would lay onto it.
pub open spec fn holds_overlay(document: Json, transform: Json) -> bool
    decreases transform, 0nat,
{
    match (document, transform) {
        (Json::Object(held), Json::Object(entries)) => forall|k: int|
            0 <= k < entries.len() ==> holds_entry(held, #[trigger] entries[k]),
        _ => false,
    }
}

/// The key of an entry stands first at the entry's position where the keys
/// are distinct.
proof fn lemma_distinct_key_index(entries: Entries, k: int)
    requires
        keys_distinct(entries),
        0 <= k < entries.len(),
    ensures
        is_key_index(entries, entries[k].0, k),
        key_index(entries, entries[k].0) == k,
        obj_get(entries, entries[k].0) == Some(entries[k].1),
{
    assert forall|j: int| 0 <= j < k implies (#[trigger] entries[j]).0 != entries[k].0 by {}
    lemma_key_index_is(entries, entries[k].0, k);
}

/// A transform of plain data has no verb.
proof fn lemma_plain_has_no_verb(entries: Entries)
    requires
        is_plain_overlay(Json::Object(entries)),
    ensures
        obj_get(entries, VERB_REMOVE@) is None,
        obj_get(entries, VERB_REPLACE@) is None,
        obj_get(entries, VERB_RENAME@) is None,
        obj_get(entries, VERB_MERGE@) is None,
{
    lemma_reserved_names();
    assert forall|name: Seq<char>| is_jdt_syntax_spec(name) implies !has_key(entries, name) by {
        if has_key(entries, name) {
            let i = key_index(entries, name);
            assert(is_plain_entry(entries[i]));
        }
    }
}

/// A transform of plain data holds itself.
pub proof fn lemma_plain_holds_itself(transform: Json)
    requires
        is_plain_overlay(transform),
    ensures
        holds_overlay(transform, transform),
    decreases transform,
{
    let entries = transform->Object_0;
    assert forall|k: int| 0 <= k < entries.len() implies holds_entry(
        entries,
        #[trigger] entries[k],
    ) by {
        lemma_distinct_key_index(entries, k);
        assert(is_plain_entry(entries[k]));
        if entries[k].1 is Object {
            lemma_plain_holds_itself(entries[k].1);
        }
    }
}

/// Step one of the pipeline changes nothing in a document that holds the
/// transform, and notes the key of every entry whose value is an object.
proof fn lemma_recurse_held(held: Entries, entries: Entries, n: nat)
    requires
        is_plain_overlay(Json::Object(entries)),
        holds_overlay(Json::Object(held), Json::Object(entries)),
        n <= entries.len(),
    ensures
        recurse_prefix(held, entries, n) matches Ok((after, recursed)) && after == held && (forall|
            k: int,
        | 0 <= k < n && (#[trigger] entries[k]).1 is Object ==> recursed.contains(entries[k].0)),
    decreases entries, n,
{
    if n > 0 {
        lemma_recurse_held(held, entries, (n - 1) as nat);
        let before = recurse_prefix(held, entries, (n - 1) as nat)->Ok_0;
        let entry = entries[n - 1];
        assert(is_plain_entry(entry));
        assert(holds_entry(held, entry));
        let value = obj_get(held, entry.0)->0;
        if entry.1 is Object {
            assert(value is Object);
            lemma_overlay_held(value, entry.1, false);
            let i = key_index(held, entry.0);
            assert(held.update(i, (entry.0, value)) =~= held);
            let recursed = before.1.push(entry.0);
            assert(recursed[recursed.len() - 1] == entry.0);
            assert forall|k: int| 0 <= k < n && (#[trigger] entries[k]).1 is Object implies recursed.contains(
                entries[k].0,
            ) by {
                if k < n - 1 {
                    let m = choose|m: int|
                        0 <= m < before.1.len() && before.1[m] == entries[k].0;
                    assert(recursed[m] == entries[k].0);
                }
            }
        }
    }
}

/// The overlay changes nothing in a document that holds the transform, once
/// the keys of the entries whose value is an object are noted.
proof fn lemma_overlay_prefix_held(
    held: Entries,
    entries: Entries,
    recursed: Seq<Seq<char>>,
    n: nat,
)
    requires
        is_plain_overlay(Json::Object(entries)),
        holds_overlay(Json::Object(held), Json::Object(entries)),
        n <= entries.len(),
        forall|k: int|
            0 <= k < entries.len() && (#[trigger] entries[k]).1 is Object ==> recursed.contains(
                entries[k].0,
            ),
    ensures
        overlay_prefix(held, entries, recursed, n) == held,
    decreases n,
{
    if n > 0 {
        lemma_overlay_prefix_held(held, entries, recursed, (n - 1) as nat);
        let entry = entries[n - 1];
        assert(is_plain_entry(entry));
        assert(holds_entry(held, entry));
        if !recursed.contains(entry.0) {
            let i = key_index(held, entry.0);
            assert(held.update(i, (entry.0, entry.1)) =~= held);
        }
    }
}

/// Processing a transform of plain data at a document that holds it changes
/// nothing.
pub proof fn lemma_overlay_held(document: Json, transform: Json, is_root: bool)
    requires
        is_plain_overlay(transform),
        holds_overlay(document, transform),
    ensures
        process_spec(document, transform, is_root) == Ok::<Json, TransformError>(document),
    decreases transform, 0nat,
{
    let held = document->Object_0;
    let entries = transform->Object_0;
    lemma_recurse_held(held, entries, entries.len());
    let recursed = recurse_prefix(held, entries, entries.len())->Ok_0.1;
    lemma_plain_has_no_verb(entries);
    lemma_overlay_prefix_held(held, entries, recursed, entries.len());
}

/// An entry whose value is an object meets an object under its key.
pub open spec fn meets_object(source: Entries, entry: (Seq<char>, Json)) -> bool {
    entry.1 is Object && match obj_get(source, entry.0) {
        Some(v) => v is Object,
        None => false,
    }
}

/// What step one of the pipeline leaves under each key: the processed
/// object, which holds the entry, where an entry with an object met an
/// object; else what stood there.
proof fn lemma_recurse_lookup(source: Entries, entries: Entries, n: nat)
    requires
        is_plain_overlay(Json::Object(entries)),
        n <= entries.len(),
    ensures
        recurse_prefix(source, entries, n) matches Ok((after, recursed)) && (forall|k: int|
            0 <= k < n ==> (recursed.contains((#[trigger] entries[k]).0) <==> meets_object(
                source,
                entries[k],
            ))) && (
        forall|k: int|
            0 <= k < n && recursed.contains((#[trigger] entries[k]).0) ==> holds_entry(
                after,
                entries[k],
            )) && (forall|key: Seq<char>|
            !recursed.contains(key) ==> #[trigger] obj_get(after, key) == obj_get(source, key)) && (
        forall|key: Seq<char>|
            recursed.contains(key) ==> exists|k: int|
                0 <= k < n && (#[trigger] entries[k]).0 == key),
    decreases entries, n,
{
    if n > 0 {
        lemma_recurse_lookup(source, entries, (n - 1) as nat);
        let before = recurse_prefix(source, entries, (n - 1) as nat)->Ok_0;
        let entry = entries[n - 1];
        assert(is_plain_entry(entry));
        assert(!before.1.contains(entry.0)) by {
            if before.1.contains(entry.0) {
                let k = choose|k: int| 0 <= k < n - 1 && (#[trigger] entries[k]).0 == entry.0;
                assert(entries[k].0 != entries[n - 1].0);
            }
        }
        assert(obj_get(before.0, entry.0) == obj_get(source, entry.0));
        let meets = meets_object(source, entry);
        if meets {
            let below = obj_get(before.0, entry.0)->0;
            lemma_overlay_takes_hold(below, entry.1, false);
            let processed = process_spec(below, entry.1, false)->Ok_0;
            let i = key_index(before.0, entry.0);
            let after = before.0.update(i, (entry.0, processed));
            assert(after == obj_insert(before.0, entry.0, processed));
            let recursed = before.1.push(entry.0);
            assert(recursed[recursed.len() - 1] == entry.0);
            assert(recurse_prefix(source, entries, n) == Ok::<
                (Entries, Seq<Seq<char>>),
                TransformError,
            >((after, recursed)));
            assert forall|key: Seq<char>| recursed.contains(key) <==> (key == entry.0
                || before.1.contains(key)) by {
                if recursed.contains(key) {
                    let m = choose|m: int| 0 <= m < recursed.len() && recursed[m] == key;
                    if m < before.1.len() {
                        assert(before.1[m] == key);
                    }
                }
                if before.1.contains(key) {
                    let m = choose|m: int| 0 <= m < before.1.len() && before.1[m] == key;
                    assert(recursed[m] == key);
                }
            }
            assert forall|key: Seq<char>| !recursed.contains(key) implies #[trigger] obj_get(
                after,
                key,
            ) == obj_get(source, key) by {
                lemma_insert_then_get(before.0, entry.0, processed, key);
            }
            assert forall|k: int|
                0 <= k < n && recursed.contains((#[trigger] entries[k]).0) implies holds_entry(
                after,
                entries[k],
            ) by {
                lemma_insert_then_get(before.0, entry.0, processed, entries[k].0);
                if k < n - 1 {
                    assert(entries[k].0 != entries[n - 1].0);
                    assert(holds_entry(before.0, entries[k]));
                }
            }
            assert forall|k: int| 0 <= k < n implies (recursed.contains((#[trigger] entries[k]).0)
                <==> meets_object(source, entries[k])) by {
                if k < n - 1 {
                    assert(entries[k].0 != entries[n - 1].0);
                }
            }
            assert forall|key: Seq<char>| recursed.contains(key) implies exists|k: int|
                0 <= k < n && (#[trigger] entries[k]).0 == key by {
                if key == entry.0 {
                    assert(entries[n - 1].0 == key);
                } else {
                    let k = choose|k: int| 0 <= k < n - 1 && (#[trigger] entries[k]).0 == key;
                    assert(entries[k].0 == key);
                }
            }
        } else {
            assert(recurse_prefix(source, entries, n) == Ok::<
                (Entries, Seq<Seq<char>>),
                TransformError,
            >(before));
            assert forall|key: Seq<char>| before.1.contains(key) implies exists|k: int|
                0 <= k < n && (#[trigger] entries[k]).0 == key by {
                let k = choose|k: int| 0 <= k < n - 1 && (#[trigger] entries[k]).0 == key;
                assert(entries[k].0 == key);
            }
        }
    }
}

/// What the overlay leaves under each key: the value of the entry with that
/// key, unless the key was noted; else what stood there.
proof fn lemma_overlay_lookup(
    source: Entries,
    entries: Entries,
    recursed: Seq<Seq<char>>,
    n: nat,
)
    requires
        is_plain_overlay(Json::Object(entries)),
        n <= entries.len(),
    ensures
        forall|k: int|
            0 <= k < n && !recursed.contains((#[trigger] entries[k]).0) ==> obj_get(
                overlay_prefix(source, entries, recursed, n),
                entries[k].0,
            ) == Some(entries[k].1),
        forall|key: Seq<char>|
            (recursed.contains(key) || forall|k: int|
                0 <= k < n ==> (#[trigger] entries[k]).0 != key) ==> #[trigger] obj_get(
                overlay_prefix(source, entries, recursed, n),
                key,
            ) == obj_get(source, key),
    decreases n,
{
    if n > 0 {
        lemma_overlay_lookup(source, entries, recursed, (n - 1) as nat);
        let done = overlay_prefix(source, entries, recursed, (n - 1) as nat);
        let entry = entries[n - 1];
        assert(is_plain_entry(entry));
        let after = overlay_prefix(source, entries, recursed, n);
        if recursed.contains(entry.0) {
            assert(after == done);
            assert forall|key: Seq<char>|
                (recursed.contains(key) || forall|k: int|
                    0 <= k < n ==> (#[trigger] entries[k]).0 != key) implies #[trigger] obj_get(
                after,
                key,
            ) == obj_get(source, key) by {
                if !recursed.contains(key) {
                    assert forall|k: int| 0 <= k < n - 1 implies (#[trigger] entries[k]).0
                        != key by {}
                }
            }
        } else {
            assert(overlay_value(obj_get(done, entry.0), entry.1) == entry.1);
            assert(after == obj_insert(done, entry.0, entry.1));
            assert forall|k: int|
                0 <= k < n && !recursed.contains((#[trigger] entries[k]).0) implies obj_get(
                after,
                entries[k].0,
            ) == Some(entries[k].1) by {
                lemma_insert_then_get(done, entry.0, entry.1, entries[k].0);
                if k < n - 1 {
                    assert(entries[k].0 != entries[n - 1].0);
                }
            }
            assert forall|key: Seq<char>|
                (recursed.contains(key) || forall|k: int|
                    0 <= k < n ==> (#[trigger] entries[k]).0 != key) implies #[trigger] obj_get(
                after,
                key,
            ) == obj_get(source, key) by {
                lemma_insert_then_get(done, entry.0, entry.1, key);
                if !recursed.contains(key) {
                    assert(entries[n - 1].0 != key);
                    assert forall|k: int| 0 <= k < n - 1 implies (#[trigger] entries[k]).0
                        != key by {}
                }
            }
        }
    }
}

/// Processing a transform of plain data at an object succeeds, and the
/// object then holds the transform.
pub proof fn lemma_overlay_takes_hold(source: Json, transform: Json, is_root: bool)
    requires
        source is Object,
        is_plain_overlay(transform),
    ensures
        process_spec(source, transform, is_root) matches Ok(after) && after is Object
            && holds_overlay(after, transform),
    decreases transform, 0nat,
{
    let entries = transform->Object_0;
    let held = source->Object_0;
    lemma_recurse_lookup(held, entries, entries.len());
    let (below, recursed) = recurse_prefix(held, entries, entries.len())->Ok_0;
    lemma_plain_has_no_verb(entries);
    lemma_overlay_lookup(below, entries, recursed, entries.len());
    let after = overlay_prefix(below, entries, recursed, entries.len());
    assert(process_spec(source, transform, is_root) == Ok::<Json, TransformError>(
        Json::Object(after),
    ));
    assert forall|k: int| 0 <= k < entries.len() implies holds_entry(
        after,
        #[trigger] entries[k],
    ) by {
        let entry = entries[k];
        assert(is_plain_entry(entry));
        if recursed.contains(entry.0) {
            assert(holds_entry(below, entry));
            assert(obj_get(after, entry.0) == obj_get(below, entry.0));
        } else {
            assert(obj_get(after, entry.0) == Some(entry.1));
            if entry.1 is Object {
                lemma_plain_holds_itself(entry.1);
            }
        }
    }
}

/// Applying a transform of plain data a second time changes nothing.
pub proof fn lemma_overlay_twice(source: Json, transform: Json)
    requires
        source is Object,
        is_plain_overlay(transform),
    ensures
        apply_spec(source, transform) matches Ok(once) && apply_spec(once, transform) == Ok::<
            Json,
            TransformError,
        >(once),
{
    lemma_overlay_takes_hold(source, transform, true);
    let once = apply_spec(source, transform)->Ok_0;
    lemma_overlay_held(once, transform, true);
}

} // verus!
