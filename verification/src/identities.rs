//! Identities of the interpreter: transforms that leave a document as it is,
//! and operators that do nothing the second time.
use crate::json::{
    has_key, key_index, keys_distinct, lemma_insert_then_get, lemma_key_absent, lemma_key_index_is,
    lemma_remove_then_get, obj_get, obj_remove, Entries, Json,
};
use crate::path::{child, lemma_replace_at_same, resolve, Path, Step};
use crate::transform::{
    apply_spec, has_data_key, is_attributed, is_jdt_syntax_spec, overlay_prefix, recurse_prefix,
    rename_direct, rename_key, replace_each, set_at, verb_remove_spec, verb_rename_spec,
    verb_replace_spec, with_set_child, Control, TransformError, ATTR_PATH, ATTR_VALUE, VERB_MERGE,
    VERB_REMOVE, VERB_RENAME, VERB_REPLACE,
};
use vstd::prelude::*;

verus! {

/// The names of the verbs and attributes are syntax, and no two of them are
/// the same.
pub proof fn lemma_reserved_names()
    ensures
        is_jdt_syntax_spec(VERB_REMOVE@),
        is_jdt_syntax_spec(VERB_REPLACE@),
        is_jdt_syntax_spec(VERB_RENAME@),
        is_jdt_syntax_spec(VERB_MERGE@),
        is_jdt_syntax_spec(ATTR_PATH@),
        is_jdt_syntax_spec(ATTR_VALUE@),
        VERB_REMOVE@ != VERB_REPLACE@,
        VERB_REMOVE@ != VERB_RENAME@,
        VERB_REMOVE@ != VERB_MERGE@,
        VERB_REPLACE@ != VERB_RENAME@,
        VERB_REPLACE@ != VERB_MERGE@,
        VERB_RENAME@ != VERB_MERGE@,
        ATTR_PATH@ != ATTR_VALUE@,
{
    reveal_strlit("@jdt.remove");
    reveal_strlit("@jdt.replace");
    reveal_strlit("@jdt.rename");
    reveal_strlit("@jdt.merge");
    reveal_strlit("@jdt.path");
    reveal_strlit("@jdt.value");
    assert(VERB_REMOVE@[7] != VERB_REPLACE@[7]);
    assert(VERB_REMOVE@[7] != VERB_RENAME@[7]);
    assert(VERB_REMOVE@[5] != VERB_MERGE@[5]);
    assert(VERB_REPLACE@.len() != VERB_RENAME@.len());
    assert(VERB_REPLACE@[5] != VERB_MERGE@[5]);
    assert(VERB_RENAME@[5] != VERB_MERGE@[5]);
    assert(ATTR_PATH@[5] != ATTR_VALUE@[5]);
}

/// The transform without entries gives every source back as it is.
pub proof fn lemma_empty_transform(source: Json)
    ensures
        apply_spec(source, Json::Object(Seq::empty())) == Ok::<Json, TransformError>(source),
{
    let t = Seq::<(Seq<char>, Json)>::empty();
    lemma_key_absent(t, VERB_REMOVE@);
    lemma_key_absent(t, VERB_REPLACE@);
    lemma_key_absent(t, VERB_RENAME@);
    lemma_key_absent(t, VERB_MERGE@);
    assert(!has_data_key(t));
}

/// Removing a key a second time changes nothing.
pub proof fn lemma_remove_key_twice(entries: Entries, key: Seq<char>)
    requires
        keys_distinct(entries),
    ensures
        obj_remove(obj_remove(entries, key), key) == obj_remove(entries, key),
        verb_remove_spec(Json::Object(entries), Json::String(key), true) matches Ok((once, _))
            && verb_remove_spec(once, Json::String(key), true) == Ok::<
            (Json, Control),
            TransformError,
        >((once, Control::Continue)),
{
    lemma_remove_then_get(entries, key, key);
    lemma_remove_then_get(obj_remove(entries, key), key, key);
}

/// What a transform of one entry has under each key.
proof fn lemma_single_entry(key: Seq<char>, value: Json)
    ensures
        obj_get(seq![(key, value)], key) == Some(value),
        forall|other: Seq<char>| other != key ==> #[trigger] obj_get(seq![(key, value)], other)
            is None,
{
    let t = seq![(key, value)];
    assert(t[0].0 == key);
    assert(crate::json::is_key_index(t, key, 0));
    lemma_key_index_is(t, key, 0);
    assert forall|other: Seq<char>| other != key implies #[trigger] obj_get(t, other) is None by {
        lemma_key_absent(t, other);
    }
}

/// A transform of one verb does nothing in step one of the pipeline and in
/// the overlay.
proof fn lemma_single_verb_steps(entries: Entries, after: Entries, key: Seq<char>, value: Json)
    requires
        is_jdt_syntax_spec(key),
    ensures
        recurse_prefix(entries, seq![(key, value)], 1) == Ok::<
            (Entries, Seq<Seq<char>>),
            TransformError,
        >((entries, Seq::empty())),
        overlay_prefix(after, seq![(key, value)], Seq::empty(), 1) == after,
{
    let t = seq![(key, value)];
    assert(t[0].0 == key);
    assert(recurse_prefix(entries, t, 0) == Ok::<(Entries, Seq<Seq<char>>), TransformError>(
        (entries, Seq::empty()),
    ));
    assert(overlay_prefix(after, t, Seq::empty(), 0) == after);
}

/// The transform that removes one key.
pub open spec fn remove_key_transform(key: Seq<char>) -> Json {
    Json::Object(seq![(VERB_REMOVE@, Json::String(key))])
}

/// What the transform that removes one key does.
pub proof fn lemma_remove_key_transform(entries: Entries, key: Seq<char>)
    ensures
        apply_spec(Json::Object(entries), remove_key_transform(key)) == Ok::<
            Json,
            TransformError,
        >(Json::Object(obj_remove(entries, key))),
{
    lemma_reserved_names();
    lemma_single_entry(VERB_REMOVE@, Json::String(key));
    lemma_single_verb_steps(entries, obj_remove(entries, key), VERB_REMOVE@, Json::String(key));
}

/// Applying the transform that removes one key a second time changes
/// nothing.
pub proof fn lemma_remove_transform_twice(source: Json, key: Seq<char>)
    requires
        source matches Json::Object(entries) && keys_distinct(entries),
    ensures
        apply_spec(source, remove_key_transform(key)) matches Ok(once) && apply_spec(
            once,
            remove_key_transform(key),
        ) == Ok::<Json, TransformError>(once),
{
    let entries = source->Object_0;
    lemma_remove_key_transform(entries, key);
    lemma_remove_key_transform(obj_remove(entries, key), key);
    lemma_remove_key_twice(entries, key);
}

/// Writing at a path the value that stands there changes nothing.
pub proof fn lemma_set_at_same(source: Json, path: Path)
    requires
        path.len() > 0,
        resolve(source, path) is Some,
    ensures
        set_at(source, path, resolve(source, path)->0) == source,
{
    let parent = resolve(source, path.drop_last())->0;
    let value = resolve(source, path)->0;
    assert(child(parent, path.last()) == Some(value));
    match (parent, path.last()) {
        (Json::Object(entries), Step::Key(k)) => {
            let i = key_index(entries, k);
            assert(entries.update(i, (k, value)) =~= entries);
        },
        (Json::Array(items), Step::Index(i)) => {
            assert(items.update(i as int, value) =~= items);
        },
        _ => {},
    }
    assert(with_set_child(parent, path.last(), value) == parent);
    lemma_replace_at_same(source, path.drop_last());
}

/// A replace by selector that writes at every match the value that stands
/// there leaves the document as it is.
pub proof fn lemma_replace_same_value(
    source: Json,
    paths: Seq<Path>,
    replacement: Json,
    is_root: bool,
    i: nat,
)
    requires
        forall|k: int|
            0 <= k < paths.len() ==> resolve(source, #[trigger] paths[k]) == Some(replacement),
        is_root ==> source is Object,
    ensures
        replace_each(source, paths, replacement, is_root, i) matches Ok((after, _)) && after
            == source,
    decreases paths.len() - i,
{
    if i < paths.len() {
        let path = paths[i as int];
        if path.len() > 0 {
            lemma_set_at_same(source, path);
            lemma_replace_same_value(source, paths, replacement, is_root, i + 1);
        }
    }
}

/// Replacing an object by itself leaves it as it is.
pub proof fn lemma_replace_by_itself(source: Json, is_root: bool)
    requires
        source matches Json::Object(entries) && !is_attributed(entries),
    ensures
        verb_replace_spec(source, source, is_root) == Ok::<(Json, Control), TransformError>(
            (source, Control::Halt),
        ),
{
}

/// Renaming a key to its own name keeps every key with its value: the
/// object holds the same keys, each once, with the same values.
pub proof fn lemma_rename_to_same_name(entries: Entries, name: Seq<char>, other: Seq<char>)
    requires
        keys_distinct(entries),
    ensures
        keys_distinct(rename_key(entries, name, name)),
        rename_key(entries, name, name).len() == entries.len(),
        obj_get(rename_key(entries, name, name), other) == obj_get(entries, other),
{
    if has_key(entries, name) {
        let value = obj_get(entries, name)->0;
        let without = obj_remove(entries, name);
        lemma_remove_then_get(entries, name, other);
        lemma_remove_then_get(entries, name, name);
        lemma_insert_then_get(without, name, value, other);
    }
}

/// The rename verb with the mapping `{ name: name }` keeps every key of an
/// object source with its value.
pub proof fn lemma_rename_verb_same_name(entries: Entries, name: Seq<char>, other: Seq<char>)
    requires
        keys_distinct(entries),
        name != ATTR_PATH@,
        name != ATTR_VALUE@,
    ensures
        verb_rename_spec(
            Json::Object(entries),
            Json::Object(seq![(name, Json::String(name))]),
        ) matches Ok((Json::Object(after), control)) && control == Control::Continue
            && keys_distinct(after) && after.len() == entries.len() && obj_get(after, other)
            == obj_get(entries, other),
{
    let mapping = seq![(name, Json::String(name))];
    assert(mapping[0].0 == name);
    lemma_key_absent(mapping, ATTR_PATH@);
    lemma_key_absent(mapping, ATTR_VALUE@);
    lemma_rename_to_same_name(entries, name, other);
    let renamed = rename_key(entries, name, name);
    assert(rename_direct(renamed, mapping, 1) == Ok::<Json, TransformError>(Json::Object(renamed)));
    assert(rename_direct(entries, mapping, 0) == rename_direct(renamed, mapping, 1));
}

/// The transform that replaces an object by itself gives the object back.
pub proof fn lemma_replace_transform_by_itself(source: Json)
    requires
        source matches Json::Object(entries) && !is_attributed(entries),
    ensures
        apply_spec(source, Json::Object(seq![(VERB_REPLACE@, source)])) == Ok::<
            Json,
            TransformError,
        >(source),
{
    lemma_reserved_names();
    lemma_single_entry(VERB_REPLACE@, source);
    let entries = source->Object_0;
    lemma_single_verb_steps(entries, entries, VERB_REPLACE@, source);
}

/// The transform that renames a key to its own name keeps every key of the
/// source with its value.
pub proof fn lemma_rename_transform_same_name(entries: Entries, name: Seq<char>, other: Seq<char>)
    requires
        keys_distinct(entries),
        name != ATTR_PATH@,
        name != ATTR_VALUE@,
    ensures
        apply_spec(
            Json::Object(entries),
            Json::Object(
                seq![(VERB_RENAME@, Json::Object(seq![(name, Json::String(name))]))],
            ),
        ) matches Ok(Json::Object(after)) && keys_distinct(after) && after.len() == entries.len()
            && obj_get(after, other) == obj_get(entries, other),
{
    lemma_reserved_names();
    let mapping = Json::Object(seq![(name, Json::String(name))]);
    lemma_single_entry(VERB_RENAME@, mapping);
    lemma_rename_verb_same_name(entries, name, other);
    let renamed = verb_rename_spec(Json::Object(entries), mapping)->Ok_0.0->Object_0;
    lemma_single_verb_steps(entries, renamed, VERB_RENAME@, mapping);
}

} // verus!
