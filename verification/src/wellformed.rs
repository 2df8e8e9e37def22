//! Well-formed documents stay well formed: where every object of the source
//! and of the transform holds each key once, so does every object of what the
//! interpreter gives.
use crate::json::{
    has_key, key_index, lemma_insert_then_get, lemma_remove_then_get, lemma_update_value_keeps_keys,
    obj_get, obj_insert, obj_remove, Entries, Json,
};
use crate::path::{child, replace_at, resolve, with_child, Path, Step};
use crate::transform::{
    apply_spec, delete_at, delete_each, merge_at_path_spec, merge_each, merge_into_spec,
    overlay_prefix, overlay_value, process_spec, recurse_prefix, rename_at_path_spec, rename_direct,
    rename_each, rename_key, replace_each, set_at, verb_merge_core_spec, verb_merge_each,
    verb_merge_spec, verb_remove_core_spec, verb_remove_each, verb_remove_spec,
    verb_rename_core_spec, verb_rename_each, verb_rename_spec, verb_replace_core_spec,
    verb_replace_each, verb_replace_spec, with_set_child, without_child, Control, TransformError,
    ATTR_VALUE, VERB_MERGE, VERB_REMOVE, VERB_RENAME, VERB_REPLACE,
};
use vstd::prelude::*;

verus! {

/// The entries are those of a well-formed object.
pub open spec fn entries_wf(entries: Entries) -> bool {
    Json::Object(entries).wf()
}

/// The value under a key of a well-formed object is well formed.
pub proof fn lemma_wf_get(entries: Entries, key: Seq<char>)
    requires
        entries_wf(entries),
    ensures
        obj_get(entries, key) matches Some(v) ==> v.wf(),
{
    if obj_get(entries, key) is Some {
        let i = key_index(entries, key);
        assert(entries[i].1.wf());
    }
}

/// Changing a value to a well-formed value keeps the object well formed.
pub proof fn lemma_wf_update(entries: Entries, i: int, value: Json)
    requires
        entries_wf(entries),
        value.wf(),
        0 <= i < entries.len(),
    ensures
        entries_wf(entries.update(i, (entries[i].0, value))),
{
    let after = entries.update(i, (entries[i].0, value));
    lemma_update_value_keeps_keys(entries, i, value);
    assert forall|j: int| 0 <= j < after.len() implies (#[trigger] after[j]).1.wf() by {
        if j != i {
            assert(after[j] == entries[j]);
        }
    }
}

/// Setting a key to a well-formed value keeps the object well formed.
pub proof fn lemma_wf_insert(entries: Entries, key: Seq<char>, value: Json)
    requires
        entries_wf(entries),
        value.wf(),
    ensures
        entries_wf(obj_insert(entries, key, value)),
{
    let after = obj_insert(entries, key, value);
    lemma_insert_then_get(entries, key, value, key);
    assert forall|j: int| 0 <= j < after.len() implies (#[trigger] after[j]).1.wf() by {
        if has_key(entries, key) {
            if j != key_index(entries, key) {
                assert(after[j] == entries[j]);
            }
        } else if j < entries.len() {
            assert(after[j] == entries[j]);
        }
    }
}

/// Removing a key keeps the object well formed.
pub proof fn lemma_wf_remove(entries: Entries, key: Seq<char>)
    requires
        entries_wf(entries),
    ensures
        entries_wf(obj_remove(entries, key)),
{
    let after = obj_remove(entries, key);
    lemma_remove_then_get(entries, key, key);
    if has_key(entries, key) {
        let i = key_index(entries, key);
        assert forall|j: int| 0 <= j < after.len() implies (#[trigger] after[j]).1.wf() by {
            if j < i {
                assert(after[j] == entries[j]);
            } else {
                assert(after[j] == entries[j + 1]);
            }
        }
    }
}

/// Moving a value to another key keeps the object well formed.
pub proof fn lemma_wf_rename_key(entries: Entries, name: Seq<char>, new_name: Seq<char>)
    requires
        entries_wf(entries),
    ensures
        entries_wf(rename_key(entries, name, new_name)),
{
    lemma_wf_get(entries, name);
    lemma_wf_remove(entries, name);
    if obj_get(entries, name) is Some {
        lemma_wf_insert(obj_remove(entries, name), new_name, obj_get(entries, name)->0);
    }
}

/// The items of a well-formed array are well formed.
pub proof fn lemma_wf_items(items: Seq<Json>)
    requires
        Json::Array(items).wf(),
    ensures
        forall|i: int| 0 <= i < items.len() ==> (#[trigger] items[i]).wf(),
{
    assert forall|i: int| 0 <= i < items.len() implies (#[trigger] items[i]).wf() by {
        lemma_wf_child(Json::Array(items), Step::Index(i as nat));
    }
}

/// Two well-formed arrays joined are a well-formed array.
pub proof fn lemma_wf_join(a: Seq<Json>, b: Seq<Json>)
    requires
        Json::Array(a).wf(),
        Json::Array(b).wf(),
    ensures
        Json::Array(a + b).wf(),
{
    lemma_wf_items(a);
    lemma_wf_items(b);
    assert forall|i: int| 0 <= i < (a + b).len() implies (#[trigger] (a + b)[i]).wf() by {
        if i < a.len() {
            assert((a + b)[i] == a[i]);
            assert(a[i].wf());
        } else {
            assert((a + b)[i] == b[i - a.len()]);
            assert(b[i - a.len()].wf());
        }
    }
}

/// A child of a well-formed node is well formed.
pub proof fn lemma_wf_child(node: Json, step: Step)
    requires
        node.wf(),
    ensures
        child(node, step) matches Some(c) ==> c.wf(),
{
    match (node, step) {
        (Json::Object(entries), Step::Key(k)) => {
            lemma_wf_get(entries, k);
        },
        (Json::Array(items), Step::Index(i)) => {
            if i < items.len() {
                assert(items[i as int].wf());
            }
        },
        _ => {},
    }
}

/// A node below a well-formed root is well formed.
pub proof fn lemma_wf_resolve(root: Json, path: Path)
    requires
        root.wf(),
    ensures
        resolve(root, path) matches Some(node) ==> node.wf(),
    decreases path.len(),
{
    if path.len() > 0 {
        lemma_wf_resolve(root, path.drop_last());
        if let Some(node) = resolve(root, path.drop_last()) {
            lemma_wf_child(node, path.last());
        }
    }
}

/// Putting a well-formed child in place keeps the node well formed.
pub proof fn lemma_wf_with_child(node: Json, step: Step, new: Json)
    requires
        node.wf(),
        new.wf(),
    ensures
        with_child(node, step, new).wf(),
{
    match (node, step) {
        (Json::Object(entries), Step::Key(k)) => {
            if has_key(entries, k) {
                lemma_wf_update(entries, key_index(entries, k), new);
            }
        },
        (Json::Array(items), Step::Index(i)) => {
            if i < items.len() {
                let after = items.update(i as int, new);
                assert forall|j: int| 0 <= j < after.len() implies (#[trigger] after[j]).wf() by {
                    if j != i {
                        assert(after[j] == items[j]);
                    }
                }
            }
        },
        _ => {},
    }
}

/// Putting a well-formed node at a path keeps the root well formed.
pub proof fn lemma_wf_replace_at(root: Json, path: Path, new: Json)
    requires
        root.wf(),
        new.wf(),
    ensures
        replace_at(root, path, new).wf(),
    decreases path.len(),
{
    if path.len() > 0 {
        lemma_wf_child(root, path[0]);
        if let Some(c) = child(root, path[0]) {
            lemma_wf_replace_at(c, path.drop_first(), new);
            lemma_wf_with_child(root, path[0], replace_at(c, path.drop_first(), new));
        }
    }
}

/// Taking a child out keeps the node well formed.
pub proof fn lemma_wf_without_child(parent: Json, step: Step)
    requires
        parent.wf(),
    ensures
        without_child(parent, step).wf(),
{
    match (parent, step) {
        (Json::Object(entries), Step::Key(k)) => {
            lemma_wf_remove(entries, k);
        },
        (Json::Array(items), Step::Index(i)) => {
            if i < items.len() {
                let after = items.remove(i as int);
                assert forall|j: int| 0 <= j < after.len() implies (#[trigger] after[j]).wf() by {
                    if j < i {
                        assert(after[j] == items[j]);
                    } else {
                        assert(after[j] == items[j + 1]);
                    }
                }
            }
        },
        _ => {},
    }
}

/// Setting a child to a well-formed value keeps the node well formed.
pub proof fn lemma_wf_with_set_child(parent: Json, step: Step, value: Json)
    requires
        parent.wf(),
        value.wf(),
    ensures
        with_set_child(parent, step, value).wf(),
{
    match (parent, step) {
        (Json::Object(entries), Step::Key(k)) => {
            lemma_wf_insert(entries, k, value);
        },
        (Json::Array(items), Step::Index(i)) => {
            if i < items.len() {
                let after = items.update(i as int, value);
                assert forall|j: int| 0 <= j < after.len() implies (#[trigger] after[j]).wf() by {
                    if j != i {
                        assert(after[j] == items[j]);
                    }
                }
            }
        },
        _ => {},
    }
}

/// Deleting at a path keeps the document well formed.
pub proof fn lemma_wf_delete_at(source: Json, path: Path)
    requires
        source.wf(),
    ensures
        delete_at(source, path).wf(),
{
    lemma_wf_resolve(source, path.drop_last());
    if let Some(parent) = resolve(source, path.drop_last()) {
        lemma_wf_without_child(parent, path.last());
        lemma_wf_replace_at(source, path.drop_last(), without_child(parent, path.last()));
    }
}

/// Writing a well-formed value at a path keeps the document well formed.
pub proof fn lemma_wf_set_at(source: Json, path: Path, value: Json)
    requires
        source.wf(),
        value.wf(),
    ensures
        set_at(source, path, value).wf(),
{
    lemma_wf_resolve(source, path.drop_last());
    if let Some(parent) = resolve(source, path.drop_last()) {
        lemma_wf_with_set_child(parent, path.last(), value);
        lemma_wf_replace_at(source, path.drop_last(), with_set_child(parent, path.last(), value));
    }
}

/// Deleting paths keeps the document well formed.
pub proof fn lemma_wf_delete_each(source: Json, paths: Seq<Path>, is_root: bool, i: nat)
    requires
        source.wf(),
    ensures
        delete_each(source, paths, is_root, i) matches Ok(after) ==> after.wf(),
    decreases paths.len() - i,
{
    if i < paths.len() {
        if paths[i as int].len() == 0 {
            if !is_root {
                lemma_wf_delete_each(Json::Null, paths, is_root, i + 1);
            }
        } else {
            lemma_wf_delete_at(source, paths[i as int]);
            lemma_wf_delete_each(delete_at(source, paths[i as int]), paths, is_root, i + 1);
        }
    }
}

/// Replacing at paths by a well-formed value keeps the document well formed.
pub proof fn lemma_wf_replace_each(
    source: Json,
    paths: Seq<Path>,
    replacement: Json,
    is_root: bool,
    i: nat,
)
    requires
        source.wf(),
        replacement.wf(),
    ensures
        replace_each(source, paths, replacement, is_root, i) matches Ok((after, _))
            ==> after.wf(),
    decreases paths.len() - i,
{
    if i < paths.len() && paths[i as int].len() > 0 {
        lemma_wf_set_at(source, paths[i as int], replacement);
        lemma_wf_replace_each(
            set_at(source, paths[i as int], replacement),
            paths,
            replacement,
            is_root,
            i + 1,
        );
    }
}

/// Renaming a property keeps the document well formed.
pub proof fn lemma_wf_rename_at_path(source: Json, path: Path, new_name: Seq<char>)
    requires
        source.wf(),
    ensures
        rename_at_path_spec(source, path, new_name) matches Ok(after) ==> after.wf(),
{
    if path.len() > 0 {
        lemma_wf_resolve(source, path.drop_last());
        if let Some(Json::Object(entries)) = resolve(source, path.drop_last()) {
            if let Step::Key(k) = path.last() {
                lemma_wf_rename_key(entries, k, new_name);
                lemma_wf_replace_at(
                    source,
                    path.drop_last(),
                    Json::Object(rename_key(entries, k, new_name)),
                );
            }
        }
    }
}

/// Renaming properties keeps the document well formed.
pub proof fn lemma_wf_rename_each(source: Json, paths: Seq<Path>, new_name: Seq<char>, i: nat)
    requires
        source.wf(),
    ensures
        rename_each(source, paths, new_name, i) matches Ok(after) ==> after.wf(),
    decreases paths.len() - i,
{
    if i < paths.len() {
        lemma_wf_rename_at_path(source, paths[i as int], new_name);
        if let Ok(after) = rename_at_path_spec(source, paths[i as int], new_name) {
            lemma_wf_rename_each(after, paths, new_name, i + 1);
        }
    }
}

/// A direct mapping keeps the object well formed.
pub proof fn lemma_wf_rename_direct(source: Entries, mapping: Entries, i: nat)
    requires
        entries_wf(source),
    ensures
        rename_direct(source, mapping, i) matches Ok(after) ==> after.wf(),
    decreases mapping.len() - i,
{
    if i < mapping.len() {
        if let Json::String(new_name) = mapping[i as int].1 {
            lemma_wf_rename_key(source, mapping[i as int].0, new_name);
            lemma_wf_rename_direct(
                rename_key(source, mapping[i as int].0, new_name),
                mapping,
                i + 1,
            );
        }
    }
}

/// The default overlay of well-formed values keeps the object well formed.
pub proof fn lemma_wf_overlay_prefix(
    source: Entries,
    transform: Entries,
    recursed: Seq<Seq<char>>,
    n: nat,
)
    requires
        entries_wf(source),
        entries_wf(transform),
    ensures
        entries_wf(overlay_prefix(source, transform, recursed, n)),
    decreases n,
{
    if n > 0 && n <= transform.len() {
        lemma_wf_overlay_prefix(source, transform, recursed, (n - 1) as nat);
        let done = overlay_prefix(source, transform, recursed, (n - 1) as nat);
        let key = transform[n - 1].0;
        let value = transform[n - 1].1;
        assert(value.wf());
        lemma_wf_get(done, key);
        let laid = overlay_value(obj_get(done, key), value);
        assert(laid.wf()) by {
            if let (Some(Json::Array(a)), Json::Array(b)) = (obj_get(done, key), value) {
                lemma_wf_join(a, b);
            }
        }
        lemma_wf_insert(done, key, laid);
    }
}

/// One argument of `@jdt.remove` keeps the node well formed.
pub proof fn lemma_wf_remove_core(source: Json, value: Json, is_root: bool)
    requires
        source.wf(),
    ensures
        verb_remove_core_spec(source, value, is_root) matches Ok((after, _)) ==> after.wf(),
{
    match value {
        Json::String(name) => {
            if let Json::Object(entries) = source {
                lemma_wf_remove(entries, name);
            }
        },
        Json::Object(argument) => {
            if let Ok(selector) = crate::transform::selector_required_spec(argument) {
                let paths = crate::jsonpath::select(source, selector);
                lemma_wf_delete_each(
                    source,
                    crate::transform::dedup_paths(crate::transform::sort_paths(paths)),
                    is_root,
                    0,
                );
            }
        },
        _ => {},
    }
}

/// The arguments of `@jdt.remove` keep the node well formed.
pub proof fn lemma_wf_remove_each(source: Json, items: Seq<Json>, is_root: bool, i: nat)
    requires
        source.wf(),
    ensures
        verb_remove_each(source, items, is_root, i) matches Ok((after, _)) ==> after.wf(),
    decreases items.len() - i,
{
    if i < items.len() {
        lemma_wf_remove_core(source, items[i as int], is_root);
        if let Ok((after, Control::Continue)) = verb_remove_core_spec(
            source,
            items[i as int],
            is_root,
        ) {
            lemma_wf_remove_each(after, items, is_root, i + 1);
        }
    }
}

/// One argument of `@jdt.replace` keeps the node well formed.
pub proof fn lemma_wf_replace_core(source: Json, value: Json, is_root: bool)
    requires
        source.wf(),
        value.wf(),
    ensures
        verb_replace_core_spec(source, value, is_root) matches Ok((after, _)) ==> after.wf(),
{
    if let Json::Object(argument) = value {
        lemma_wf_get(argument, ATTR_VALUE@);
        if let Ok(selector) = crate::transform::selector_required_spec(argument) {
            if let Some(replacement) = obj_get(argument, ATTR_VALUE@) {
                lemma_wf_replace_each(
                    source,
                    crate::jsonpath::select(source, selector),
                    replacement,
                    is_root,
                    0,
                );
            }
        }
    }
}

/// The arguments of `@jdt.replace` keep the node well formed.
pub proof fn lemma_wf_replace_all(source: Json, items: Seq<Json>, is_root: bool, i: nat)
    requires
        source.wf(),
        Json::Array(items).wf(),
    ensures
        verb_replace_each(source, items, is_root, i) matches Ok((after, _)) ==> after.wf(),
    decreases items.len() - i,
{
    if i < items.len() {
        lemma_wf_items(items);
        lemma_wf_replace_core(source, items[i as int], is_root);
        if let Ok((after, Control::Continue)) = verb_replace_core_spec(
            source,
            items[i as int],
            is_root,
        ) {
            lemma_wf_replace_all(after, items, is_root, i + 1);
        }
    }
}

/// One argument of `@jdt.rename` keeps the node well formed.
pub proof fn lemma_wf_rename_core(source: Json, value: Json)
    requires
        source.wf(),
    ensures
        verb_rename_core_spec(source, value) matches Ok(after) ==> after.wf(),
{
    if let Json::Object(argument) = value {
        if crate::transform::is_attributed(argument) {
            if let Ok(selector) = crate::transform::selector_required_spec(argument) {
                if let Some(Json::String(new_name)) = obj_get(argument, ATTR_VALUE@) {
                    lemma_wf_rename_each(
                        source,
                        crate::jsonpath::select(source, selector),
                        new_name,
                        0,
                    );
                }
            }
        } else if let Json::Object(entries) = source {
            lemma_wf_rename_direct(entries, argument, 0);
        }
    }
}

/// The arguments of `@jdt.rename` keep the node well formed.
pub proof fn lemma_wf_rename_all(source: Json, items: Seq<Json>, i: nat)
    requires
        source.wf(),
    ensures
        verb_rename_each(source, items, i) matches Ok(after) ==> after.wf(),
    decreases items.len() - i,
{
    if i < items.len() {
        lemma_wf_rename_core(source, items[i as int]);
        if let Ok(after) = verb_rename_core_spec(source, items[i as int]) {
            lemma_wf_rename_all(after, items, i + 1);
        }
    }
}

/// Processing a well-formed transform at a well-formed node gives a
/// well-formed node.
pub proof fn lemma_wf_process(source: Json, transform: Json, is_root: bool)
    requires
        source.wf(),
        transform.wf(),
    ensures
        process_spec(source, transform, is_root) matches Ok(after) ==> after.wf(),
    decreases transform, 0nat,
{
    if let Json::Object(t) = transform {
        lemma_wf_get(t, VERB_REMOVE@);
        lemma_wf_get(t, VERB_REPLACE@);
        lemma_wf_get(t, VERB_RENAME@);
        lemma_wf_get(t, VERB_MERGE@);
        let start = match source {
            Json::Object(s) => match recurse_prefix(s, t, t.len()) {
                Err(e) => Err(e),
                Ok((entries, recursed)) => Ok((Json::Object(entries), recursed)),
            },
            _ => if crate::transform::has_data_key(t) {
                Err(TransformError::SourceNotObject)
            } else {
                Ok((source, Seq::empty()))
            },
        };
        if let Json::Object(s) = source {
            lemma_wf_recurse(s, t, t.len());
        }
        if let Ok((s0, recursed)) = start {
            assert(s0.wf());
            let removed = match obj_get(t, VERB_REMOVE@) {
                Some(v) => verb_remove_spec(s0, v, is_root),
                None => Ok((s0, Control::Continue)),
            };
            if let Some(v) = obj_get(t, VERB_REMOVE@) {
                lemma_wf_remove_verb(s0, v, is_root);
            }
            if let Ok((s1, Control::Continue)) = removed {
                let replaced = match obj_get(t, VERB_REPLACE@) {
                    Some(v) => verb_replace_spec(s1, v, is_root),
                    None => Ok((s1, Control::Continue)),
                };
                if let Some(v) = obj_get(t, VERB_REPLACE@) {
                    lemma_wf_replace_verb(s1, v, is_root);
                }
                if let Ok((s2, Control::Continue)) = replaced {
                    let renamed = match obj_get(t, VERB_RENAME@) {
                        Some(v) => verb_rename_spec(s2, v),
                        None => Ok((s2, Control::Continue)),
                    };
                    if let Some(v) = obj_get(t, VERB_RENAME@) {
                        lemma_wf_rename_verb(s2, v);
                    }
                    if let Ok((s3, _)) = renamed {
                        let merged = match obj_get(t, VERB_MERGE@) {
                            Some(v) => verb_merge_spec(s3, v, is_root),
                            None => Ok((s3, Control::Continue)),
                        };
                        if let Some(v) = obj_get(t, VERB_MERGE@) {
                            crate::json::lemma_obj_get_smaller(t, VERB_MERGE@);
                            lemma_wf_merge_verb(s3, v, is_root);
                        }
                        if let Ok((s4, _)) = merged {
                            if let Json::Object(entries) = s4 {
                                lemma_wf_overlay_prefix(entries, t, recursed, t.len());
                            }
                        }
                    }
                }
            }
        }
    }
}

/// `@jdt.remove` keeps the node well formed.
pub proof fn lemma_wf_remove_verb(source: Json, value: Json, is_root: bool)
    requires
        source.wf(),
    ensures
        verb_remove_spec(source, value, is_root) matches Ok((after, _)) ==> after.wf(),
{
    if let Json::Array(items) = value {
        lemma_wf_remove_each(source, items, is_root, 0);
    } else {
        lemma_wf_remove_core(source, value, is_root);
    }
}

/// `@jdt.replace` keeps the node well formed.
pub proof fn lemma_wf_replace_verb(source: Json, value: Json, is_root: bool)
    requires
        source.wf(),
        value.wf(),
    ensures
        verb_replace_spec(source, value, is_root) matches Ok((after, _)) ==> after.wf(),
{
    if let Json::Array(items) = value {
        lemma_wf_replace_all(source, items, is_root, 0);
    } else {
        lemma_wf_replace_core(source, value, is_root);
    }
}

/// `@jdt.rename` keeps the node well formed.
pub proof fn lemma_wf_rename_verb(source: Json, value: Json)
    requires
        source.wf(),
    ensures
        verb_rename_spec(source, value) matches Ok((after, _)) ==> after.wf(),
{
    if let Json::Array(items) = value {
        lemma_wf_rename_all(source, items, 0);
    } else {
        lemma_wf_rename_core(source, value);
    }
}

/// Step one of the pipeline keeps the object well formed.
pub proof fn lemma_wf_recurse(source: Entries, transform: Entries, n: nat)
    requires
        entries_wf(source),
        entries_wf(transform),
    ensures
        recurse_prefix(source, transform, n) matches Ok((after, _)) ==> entries_wf(after),
    decreases transform, n,
{
    if n > 0 && n <= transform.len() {
        lemma_wf_recurse(source, transform, (n - 1) as nat);
        if let Ok((entries, recursed)) = recurse_prefix(source, transform, (n - 1) as nat) {
            let key = transform[n - 1].0;
            let value = transform[n - 1].1;
            assert(value.wf());
            lemma_wf_get(entries, key);
            if !crate::transform::is_jdt_syntax_spec(key) && value is Object {
                if let Some(Json::Object(below)) = obj_get(entries, key) {
                    lemma_wf_process(Json::Object(below), value, false);
                    if let Ok(after) = process_spec(Json::Object(below), value, false) {
                        lemma_wf_update(entries, key_index(entries, key), after);
                    }
                }
            }
        }
    }
}

/// Merging a well-formed value into a well-formed node gives a well-formed
/// node.
pub proof fn lemma_wf_merge_into(target: Json, value: Json, is_root: bool)
    requires
        target.wf(),
        value.wf(),
    ensures
        merge_into_spec(target, value, is_root) matches Ok(after) ==> after.wf(),
    decreases value, 1nat,
{
    match (target, value) {
        (Json::Object(_), Json::Object(_)) => {
            lemma_wf_process(target, value, is_root);
        },
        (Json::Array(a), Json::Array(b)) => {
            lemma_wf_join(a, b);
        },
        _ => {},
    }
}

/// Merging at a path keeps the document well formed.
pub proof fn lemma_wf_merge_at_path(source: Json, path: Path, value: Json, is_root: bool)
    requires
        source.wf(),
        value.wf(),
    ensures
        merge_at_path_spec(source, path, value, is_root) matches Ok(after) ==> after.wf(),
    decreases value, 2nat,
{
    if path.len() == 0 {
        lemma_wf_merge_into(source, value, is_root);
    } else {
        lemma_wf_resolve(source, path);
        if let Some(target) = resolve(source, path) {
            lemma_wf_merge_into(target, value, false);
            if let Ok(after) = merge_into_spec(target, value, false) {
                lemma_wf_replace_at(source, path, after);
            }
        }
    }
}

/// Merging at paths keeps the document well formed.
pub proof fn lemma_wf_merge_each(source: Json, paths: Seq<Path>, value: Json, is_root: bool, i: nat)
    requires
        source.wf(),
        value.wf(),
    ensures
        merge_each(source, paths, value, is_root, i) matches Ok(after) ==> after.wf(),
    decreases value, 3 + paths.len() - i,
{
    if i < paths.len() {
        lemma_wf_merge_at_path(source, paths[i as int], value, is_root);
        if let Ok(after) = merge_at_path_spec(source, paths[i as int], value, is_root) {
            lemma_wf_merge_each(after, paths, value, is_root, i + 1);
        }
    }
}

/// One argument of `@jdt.merge` keeps the node well formed.
pub proof fn lemma_wf_merge_core(source: Json, value: Json, is_root: bool)
    requires
        source.wf(),
        value.wf(),
    ensures
        verb_merge_core_spec(source, value, is_root) matches Ok(after) ==> after.wf(),
    decreases value, 1nat,
{
    if let Json::Object(argument) = value {
        if crate::transform::is_attributed(argument) {
            lemma_wf_get(argument, ATTR_VALUE@);
            if let Ok(selector) = crate::transform::selector_required_spec(argument) {
                if let Some(merge_value) = obj_get(argument, ATTR_VALUE@) {
                    crate::json::lemma_obj_get_smaller(argument, ATTR_VALUE@);
                    lemma_wf_merge_each(
                        source,
                        crate::jsonpath::select(source, selector),
                        merge_value,
                        is_root,
                        0,
                    );
                }
            }
        } else {
            lemma_wf_process(source, value, is_root);
        }
    }
}

/// The arguments of `@jdt.merge` keep the node well formed.
pub proof fn lemma_wf_merge_all(source: Json, items: Seq<Json>, is_root: bool, i: nat)
    requires
        source.wf(),
        Json::Array(items).wf(),
    ensures
        verb_merge_each(source, items, is_root, i) matches Ok(after) ==> after.wf(),
    decreases items, items.len() - i,
{
    if i < items.len() {
        lemma_wf_items(items);
        lemma_wf_merge_core(source, items[i as int], is_root);
        if let Ok(after) = verb_merge_core_spec(source, items[i as int], is_root) {
            lemma_wf_merge_all(after, items, is_root, i + 1);
        }
    }
}

/// `@jdt.merge` keeps the node well formed.
pub proof fn lemma_wf_merge_verb(source: Json, value: Json, is_root: bool)
    requires
        source.wf(),
        value.wf(),
    ensures
        verb_merge_spec(source, value, is_root) matches Ok((after, _)) ==> after.wf(),
    decreases value, 2nat,
{
    if let Json::Array(items) = value {
        lemma_wf_merge_all(source, items, is_root, 0);
    } else {
        lemma_wf_merge_core(source, value, is_root);
    }
}

/// Applying a well-formed transform to a well-formed source gives a
/// well-formed document.
pub proof fn lemma_apply_keeps_wf(source: Json, transform: Json)
    requires
        source.wf(),
        transform.wf(),
    ensures
        apply_spec(source, transform) matches Ok(after) ==> after.wf(),
{
    lemma_wf_process(source, transform, true);
}

} // verus!
