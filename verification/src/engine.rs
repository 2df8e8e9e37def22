//! The interpreter: folds a transform into a copy of a source document.
use crate::json::{
    items_view, lemma_items_view, lemma_key_index_is, obj_get, Entries, Json, JsonObject, JsonValue,
};
use crate::jsonpath::{select, JsonPath, SegmentModel};
use crate::parser::has_bytes_at;
use crate::path::{
    clone_path, get_mut_at, lemma_replace_at_same, path_view, paths_view, resolve, Path, PathItem,
    Step,
};
use crate::text::{lemma_ascii_prefix, lemma_same_code, str_equal};
use crate::transform::{
    apply_spec, bytes_order, dedup_paths, default_transform_spec, delete_each, delete_each_failed,
    has_data_key, insert_position, is_attributed, is_jdt_syntax_spec, lemma_recurse_error_stays,
    lemma_recurse_failed_stays, merge_at_path_failed, merge_at_path_spec, merge_each,
    merge_each_failed, merge_into_failed, merge_into_spec, overlay_prefix, overlay_value,
    process_failed, process_spec, recurse_failed, recurse_prefix, remove_order, remove_paths_failed,
    remove_paths_spec, rename_at_path_spec, rename_direct, rename_direct_failed, rename_each,
    rename_each_failed, rename_key, replace_each, replace_each_failed, selector_required_spec,
    sort_paths, step_agrees, verb_agrees, verb_merge_core_failed, verb_merge_core_spec,
    verb_merge_each, verb_merge_each_failed, verb_merge_failed, verb_merge_spec,
    verb_remove_core_failed, verb_remove_core_spec, verb_remove_each, verb_remove_each_failed,
    verb_remove_failed, verb_remove_spec, verb_rename_core_failed, verb_rename_core_spec,
    verb_rename_each, verb_rename_each_failed, verb_rename_failed, verb_rename_spec,
    verb_replace_core_failed, verb_replace_core_spec, verb_replace_each, verb_replace_each_failed,
    verb_replace_failed, verb_replace_spec, with_set_child, without_child, Control, JdtError,
    TransformError, ATTR_PATH, ATTR_VALUE, VERB_MERGE, VERB_REMOVE, VERB_RENAME, VERB_REPLACE,
};
use crate::wellformed::lemma_wf_process;
use std::cmp::Ordering;
use vstd::prelude::*;

verus! {

/// Whether a key is syntax of the transform language: it starts with `@jdt.`.
pub fn is_jdt_syntax(key: &str) -> (r: bool)
    ensures
        r == is_jdt_syntax_spec(key@),
{
    let prefix: [u8; 5] = [0x40, 0x6a, 0x64, 0x74, 0x2e];
    let prefix = prefix.as_slice();
    let bytes = key.as_bytes();
    let r = has_bytes_at(bytes, 0, prefix);
    proof {
        let pattern = seq![0x40u8, 0x6au8, 0x64u8, 0x74u8, 0x2eu8];
        assert(prefix@ =~= pattern);
        lemma_ascii_prefix(key@, 5);
        if r {
            assert forall|i: int| 0 <= i < 5 implies (#[trigger] bytes@[i]) < 0x80 by {
                assert(bytes@.subrange(0, 5)[i] == pattern[i]);
            }
            assert(bytes@.subrange(0, 5)[0] == pattern[0]);
            assert(bytes@.subrange(0, 5)[1] == pattern[1]);
            assert(bytes@.subrange(0, 5)[2] == pattern[2]);
            assert(bytes@.subrange(0, 5)[3] == pattern[3]);
            assert(bytes@.subrange(0, 5)[4] == pattern[4]);
            lemma_same_code(key@[0], '@');
            lemma_same_code(key@[1], 'j');
            lemma_same_code(key@[2], 'd');
            lemma_same_code(key@[3], 't');
            lemma_same_code(key@[4], '.');
        } else if is_jdt_syntax_spec(key@) {
            assert forall|i: int| 0 <= i < 5 implies (#[trigger] key@[i]) as u32 <= 0x7F by {}
            assert(bytes@.subrange(0, 5) =~= pattern);
        }
    }
    r
}

/// The texts of a list of strings.
pub open spec fn strings_view(names: Seq<String>) -> Seq<Seq<char>> {
    names.map_values(|s: String| s@)
}

fn contains_name(names: &Vec<String>, key: &str) -> (r: bool)
    ensures
        r == strings_view(names@).contains(key@),
{
    let mut i: usize = 0;
    while i < names.len()
        invariant
            i <= names.len(),
            forall|k: int| 0 <= k < i ==> (#[trigger] strings_view(names@)[k]) != key@,
        decreases names.len() - i,
    {
        if str_equal(names[i].as_str(), key) {
            assert(strings_view(names@)[i as int] == key@);
            return true;
        }
        i += 1;
    }
    false
}

/// Whether an argument is in attributed form.
pub fn is_attributed_call(argument: &JsonObject) -> (r: bool)
    ensures
        r == is_attributed(argument@),
{
    argument.contains_key(ATTR_PATH) || argument.contains_key(ATTR_VALUE)
}

/// The selector of an attributed argument.
pub fn parse_selector_required(argument: &JsonObject) -> (r: Result<JsonPath, JdtError>)
    ensures
        match r {
            Ok(selector) => selector_required_spec(argument@) == Ok::<
                Seq<SegmentModel>,
                TransformError,
            >(selector@),
            Err(e) => selector_required_spec(argument@) == Err::<
                Seq<SegmentModel>,
                TransformError,
            >(e@),
        },
{
    match argument.get(ATTR_PATH) {
        None => Err(JdtError::MissingAttribute(ATTR_PATH)),
        Some(JsonValue::String(text)) => match JsonPath::parse(text.as_str()) {
            Ok(selector) => Ok(selector),
            Err(e) => Err(JdtError::JsonPath(e)),
        },
        Some(_) => Err(JdtError::AttributeNotString(ATTR_PATH)),
    }
}

/// Appends copies of the items of `more` to `items`.
fn append_items(items: &mut Vec<JsonValue>, more: &Vec<JsonValue>)
    ensures
        items_view(final(items)@) == items_view(old(items)@) + items_view(more@),
{
    let mut i: usize = 0;
    proof {
        lemma_items_view(items@);
        lemma_items_view(more@);
        assert(items_view(items@) =~= items_view(old(items)@) + items_view(more@).subrange(0, 0));
    }
    while i < more.len()
        invariant
            i <= more.len(),
            items_view(items@) == items_view(old(items)@) + items_view(more@).subrange(0, i as int),
        decreases more.len() - i,
    {
        let ghost before = items@;
        let item = more[i].clone();
        items.push(item);
        proof {
            lemma_items_view(before);
            lemma_items_view(items@);
            lemma_items_view(more@);
            assert(items_view(items@) =~= items_view(before).push(item@));
            assert(items_view(items@) =~= items_view(old(items)@) + items_view(more@).subrange(
                0,
                i + 1,
            ));
        }
        i += 1;
    }
    proof {
        lemma_items_view(more@);
        assert(items_view(more@).subrange(0, i as int) =~= items_view(more@));
    }
}

/// Overlays `value` onto a value that stands in the source.
fn overlay_into(existing: &mut JsonValue, value: &JsonValue)
    ensures
        final(existing)@ == overlay_value(Some(old(existing)@), value@),
{
    if let JsonValue::Array(more) = value {
        if let JsonValue::Array(items) = existing {
            append_items(items, more);
            return ;
        }
    }
    *existing = value.clone();
}

/// The default overlay onto the entries of an object.
fn overlay_entries(source: &mut JsonObject, transform: &JsonObject, recursed: &Vec<String>)
    ensures
        final(source)@ == overlay_prefix(
            old(source)@,
            transform@,
            strings_view(recursed@),
            transform@.len(),
        ),
{
    let n = transform.len();
    let mut k: usize = 0;
    while k < n
        invariant
            k <= n,
            n == transform@.len(),
            source@ == overlay_prefix(old(source)@, transform@, strings_view(recursed@), k as nat),
        decreases n - k,
    {
        let key = transform.key_at(k);
        if !is_jdt_syntax(key.as_str()) && !contains_name(recursed, key.as_str()) {
            let value = transform.value_at(k);
            let ghost before = source@;
            match source.get_mut(key.as_str()) {
                Some(existing) => {
                    proof {
                        lemma_key_index_is(before, key@, crate::json::key_index(before, key@));
                    }
                    overlay_into(existing, value);
                },
                None => {
                    source.insert(key.clone(), value.clone());
                },
            }
        }
        k += 1;
    }
}

/// The default overlay: every entry of the transform whose key is no syntax
/// and was not recursed into is laid onto the source, where that is an
/// object.
pub fn default_transform(source: &mut JsonValue, transform: &JsonObject, recursed: &Vec<String>)
    ensures
        final(source)@ == default_transform_spec(
            old(source)@,
            transform@,
            strings_view(recursed@),
        ),
{
    if let JsonValue::Object(entries) = source {
        overlay_entries(entries, transform, recursed);
    }
}

/// Byte-wise lexicographic order of two byte strings: -1, 0 or 1.
fn bytes_rank(a: &[u8], b: &[u8]) -> (r: i8)
    ensures
        r == bytes_order(a@, b@),
        -1 <= r <= 1,
{
    let mut i: usize = 0;
    proof {
        assert(a@.subrange(0, a@.len() as int) =~= a@);
        assert(b@.subrange(0, b@.len() as int) =~= b@);
    }
    while i < a.len() && i < b.len()
        invariant
            i <= a.len(),
            i <= b.len(),
            bytes_order(a@.subrange(i as int, a@.len() as int), b@.subrange(i as int, b@.len() as int))
                == bytes_order(a@, b@),
        decreases a.len() - i,
    {
        let ghost x = a@.subrange(i as int, a@.len() as int);
        let ghost y = b@.subrange(i as int, b@.len() as int);
        proof {
            assert(x[0] == a@[i as int]);
            assert(y[0] == b@[i as int]);
            assert(x.drop_first() =~= a@.subrange(i + 1, a@.len() as int));
            assert(y.drop_first() =~= b@.subrange(i + 1, b@.len() as int));
        }
        if a[i] < b[i] {
            return -1;
        }
        if a[i] > b[i] {
            return 1;
        }
        i += 1;
    }
    if i < a.len() {
        1
    } else if i < b.len() {
        -1
    } else {
        0
    }
}

/// Where `a` stands to `b` in deletion order: -1 before, 0 together, 1 after.
fn removal_rank(a: &[PathItem], b: &[PathItem]) -> (r: i8)
    ensures
        r == remove_order(path_view(a@), path_view(b@)),
        -1 <= r <= 1,
{
    if a.len() != b.len() {
        return if b.len() < a.len() {
            -1
        } else {
            1
        };
    }
    if a.len() == 0 {
        return 0;
    }
    match (&a[a.len() - 1], &b[b.len() - 1]) {
        (PathItem::Index(x), PathItem::Index(y)) => if *y < *x {
            -1
        } else if *y == *x {
            0
        } else {
            1
        },
        (PathItem::Key(x), PathItem::Key(y)) => bytes_rank(
            y.as_str().as_bytes(),
            x.as_str().as_bytes(),
        ),
        _ => 0,
    }
}

/// Where `a` stands to `b` in deletion order: deeper paths first; at the
/// same depth a larger last index first, a later last key first.
pub fn remove_path_cmp(a: &[PathItem], b: &[PathItem]) -> (r: Ordering)
    ensures
        match r {
            Ordering::Less => remove_order(path_view(a@), path_view(b@)) < 0,
            Ordering::Equal => remove_order(path_view(a@), path_view(b@)) == 0,
            Ordering::Greater => remove_order(path_view(a@), path_view(b@)) > 0,
        },
{
    let rank = removal_rank(a, b);
    if rank < 0 {
        Ordering::Less
    } else if rank == 0 {
        Ordering::Equal
    } else {
        Ordering::Greater
    }
}

/// Whether two paths are the same path.
fn paths_equal(a: &Vec<PathItem>, b: &Vec<PathItem>) -> (r: bool)
    ensures
        r == (path_view(a@) == path_view(b@)),
{
    if a.len() != b.len() {
        assert(path_view(a@).len() != path_view(b@).len());
        return false;
    }
    let mut i: usize = 0;
    while i < a.len()
        invariant
            i <= a.len(),
            a.len() == b.len(),
            forall|k: int| 0 <= k < i ==> a@[k]@ == b@[k]@,
        decreases a.len() - i,
    {
        let same = match (&a[i], &b[i]) {
            (PathItem::Key(x), PathItem::Key(y)) => str_equal(x.as_str(), y.as_str()),
            (PathItem::Index(x), PathItem::Index(y)) => *x == *y,
            _ => false,
        };
        if !same {
            assert(path_view(a@)[i as int] != path_view(b@)[i as int]);
            return false;
        }
        i += 1;
    }
    assert(path_view(a@) =~= path_view(b@));
    true
}

/// The paths in deletion order.
fn sort_for_removal(paths: &[Vec<PathItem>]) -> (r: Vec<Vec<PathItem>>)
    ensures
        paths_view(r@) == sort_paths(paths_view(paths@)),
{
    let mut sorted: Vec<Vec<PathItem>> = Vec::new();
    let ghost all = paths_view(paths@);
    proof {
        assert(paths_view(sorted@) =~= Seq::<Path>::empty());
    }
    let mut i: usize = 0;
    while i < paths.len()
        invariant
            i <= paths.len(),
            all == paths_view(paths@),
            paths_view(sorted@) == sort_paths(all.subrange(0, i as int)),
        decreases paths.len() - i,
    {
        let p = clone_path(&paths[i]);
        let ghost before = paths_view(sorted@);
        proof {
            assert(all.subrange(0, i + 1).drop_last() =~= all.subrange(0, i as int));
            assert(all.subrange(0, i + 1).last() == path_view(p@));
            assert(before.subrange(0, before.len() as int) =~= before);
        }
        let mut j: usize = sorted.len();
        while j > 0 && removal_rank(p.as_slice(), sorted[j - 1].as_slice()) < 0
            invariant
                j <= sorted.len(),
                before == paths_view(sorted@),
                insert_position(before.subrange(0, j as int), path_view(p@)) == insert_position(
                    before,
                    path_view(p@),
                ),
            decreases j,
        {
            proof {
                assert(before.subrange(0, j as int).last() == path_view(sorted@[j - 1]@));
                assert(before.subrange(0, j as int).drop_last() =~= before.subrange(0, j - 1));
            }
            j -= 1;
        }
        proof {
            if j > 0 {
                assert(before.subrange(0, j as int).last() == path_view(sorted@[j - 1]@));
            }
            assert(insert_position(before, path_view(p@)) == j);
        }
        let ghost old_sorted = sorted@;
        sorted.insert(j, p);
        proof {
            assert(paths_view(old_sorted.insert(j as int, p)) =~= before.insert(
                j as int,
                path_view(p@),
            ));
        }
        i += 1;
    }
    proof {
        assert(all.subrange(0, i as int) =~= all);
    }
    sorted
}

/// Whether a path stands among the first `n` paths of a list.
fn contains_path(paths: &Vec<Vec<PathItem>>, n: usize, path: &Vec<PathItem>) -> (r: bool)
    requires
        n <= paths@.len(),
    ensures
        r == paths_view(paths@).subrange(0, n as int).contains(path_view(path@)),
{
    let ghost front = paths_view(paths@).subrange(0, n as int);
    let mut j: usize = 0;
    while j < n
        invariant
            j <= n <= paths@.len(),
            front == paths_view(paths@).subrange(0, n as int),
            forall|k: int| 0 <= k < j ==> (#[trigger] front[k]) != path_view(path@),
        decreases n - j,
    {
        if paths_equal(&paths[j], path) {
            assert(front[j as int] == path_view(path@));
            return true;
        }
        j += 1;
    }
    false
}

/// The list without repeats: of paths that are the same path, the first
/// stays.
fn dedup_sorted(paths: &Vec<Vec<PathItem>>) -> (r: Vec<Vec<PathItem>>)
    ensures
        paths_view(r@) == dedup_paths(paths_view(paths@)),
{
    let mut out: Vec<Vec<PathItem>> = Vec::new();
    let ghost all = paths_view(paths@);
    proof {
        assert(paths_view(out@) =~= Seq::<Path>::empty());
    }
    let mut i: usize = 0;
    while i < paths.len()
        invariant
            i <= paths.len(),
            all == paths_view(paths@),
            paths_view(out@) == dedup_paths(all.subrange(0, i as int)),
        decreases paths.len() - i,
    {
        let ghost part = all.subrange(0, i + 1);
        proof {
            assert(part.drop_last() =~= all.subrange(0, i as int));
            assert(part.last() == path_view(paths@[i as int]@));
        }
        if !contains_path(paths, i, &paths[i]) {
            let p = clone_path(&paths[i]);
            let ghost before = out@;
            out.push(p);
            proof {
                assert(paths_view(before.push(p)) =~= paths_view(before).push(path_view(p@)));
            }
        }
        i += 1;
    }
    proof {
        assert(all.subrange(0, i as int) =~= all);
    }
    out
}

/// Takes the child that a step names out of a node.
fn delete_child(parent: &mut JsonValue, last: &PathItem)
    ensures
        final(parent)@ == without_child(old(parent)@, last@),
{
    match (parent, last) {
        (JsonValue::Object(object), PathItem::Key(k)) => {
            object.remove(k.as_str());
        },
        (JsonValue::Array(items), PathItem::Index(i)) => {
            proof {
                lemma_items_view(items@);
            }
            if *i < items.len() {
                let ghost before = items@;
                items.remove(*i);
                proof {
                    lemma_items_view(items@);
                    assert(items_view(items@) =~= items_view(before).remove(*i as int));
                }
            }
        },
        _ => {},
    }
}

/// A path without its last step, and that step.
fn split_last(path: &Vec<PathItem>) -> (r: (Vec<PathItem>, PathItem))
    requires
        path@.len() > 0,
    ensures
        path_view(r.0@) == path_view(path@).drop_last(),
        r.1@ == path_view(path@).last(),
{
    let mut parent = clone_path(path);
    let ghost whole = parent@;
    let last = parent.pop();
    proof {
        assert(path_view(whole).len() == path_view(path@).len());
        assert(path_view(whole.drop_last()) =~= path_view(whole).drop_last());
    }
    (parent, last.unwrap())
}

/// Deletes every matched path from the source: deeper paths first, and
/// among siblings of an array the larger index first, so that no index
/// shifts under the deletions; a path matched more than once is deleted
/// once.
pub fn remove_paths(source: &mut JsonValue, paths: &[Vec<PathItem>], is_root: bool) -> (r: Result<
    (),
    JdtError,
>)
    ensures
        match r {
            Ok(_) => remove_paths_spec(old(source)@, paths_view(paths@), is_root) == Ok::<
                Json,
                TransformError,
            >(final(source)@),
            Err(e) => remove_paths_spec(old(source)@, paths_view(paths@), is_root) == Err::<
                Json,
                TransformError,
            >(e@),
        },
        r is Err ==> final(source)@ == remove_paths_failed(
            old(source)@,
            paths_view(paths@),
            is_root,
        ),
{
    let sorted = sort_for_removal(paths);
    let ordered = dedup_sorted(&sorted);
    let ghost goal = remove_paths_spec(source@, paths_view(paths@), is_root);
    let ghost left = remove_paths_failed(source@, paths_view(paths@), is_root);
    let mut i: usize = 0;
    while i < ordered.len()
        invariant
            i <= ordered.len(),
            goal == remove_paths_spec(old(source)@, paths_view(paths@), is_root),
            left == remove_paths_failed(old(source)@, paths_view(paths@), is_root),
            delete_each(source@, paths_view(ordered@), is_root, i as nat) == goal,
            delete_each_failed(source@, paths_view(ordered@), is_root, i as nat) == left,
        decreases ordered.len() - i,
    {
        let path = &ordered[i];
        proof {
            assert(paths_view(ordered@)[i as int] == path_view(path@));
        }
        if path.len() == 0 {
            if is_root {
                return Err(JdtError::RootOperationNotAllowed);
            }
            *source = JsonValue::Null;
        } else {
            let (parent_path, last) = split_last(path);
            match get_mut_at(source, parent_path.as_slice()) {
                Some(parent) => {
                    delete_child(parent, &last);
                },
                None => {},
            }
        }
        i += 1;
    }
    Ok(())
}

/// One argument of `@jdt.remove`: a key to delete, `true` to make the node
/// null, `false` for nothing, or an object with a selector of the nodes to
/// delete.
pub fn verb_remove_core(source: &mut JsonValue, value: &JsonValue, is_root: bool) -> (r: Result<
    Control,
    JdtError,
>)
    ensures
        verb_agrees(verb_remove_core_spec(old(source)@, value@, is_root), r, final(source)@),
        r is Err ==> final(source)@ == verb_remove_core_failed(old(source)@, value@, is_root),
{
    match value {
        JsonValue::String(name) => {
            match source {
                JsonValue::Object(object) => {
                    object.remove(name.as_str());
                    Ok(Control::Continue)
                },
                _ => Err(JdtError::SourceNotObject),
            }
        },
        JsonValue::Bool(b) => {
            if *b {
                if is_root {
                    return Err(JdtError::RootOperationNotAllowed);
                }
                *source = JsonValue::Null;
                return Ok(Control::Halt);
            }
            Ok(Control::Continue)
        },
        JsonValue::Object(argument) => {
            let selector = match parse_selector_required(argument) {
                Ok(selector) => selector,
                Err(e) => {
                    return Err(e);
                },
            };
            let paths = selector.select_paths(source);
            match remove_paths(source, paths.as_slice(), is_root) {
                Ok(_) => Ok(Control::Continue),
                Err(e) => Err(e),
            }
        },
        _ => Err(JdtError::TransformNotObject),
    }
}

/// `@jdt.remove`: one argument, or an array of arguments applied in order up
/// to the first that halts.
pub fn verb_remove(source: &mut JsonValue, value: &JsonValue, is_root: bool) -> (r: Result<
    Control,
    JdtError,
>)
    ensures
        verb_agrees(verb_remove_spec(old(source)@, value@, is_root), r, final(source)@),
        r is Err ==> final(source)@ == verb_remove_failed(old(source)@, value@, is_root),
{
    if let JsonValue::Array(items) = value {
        proof {
            lemma_items_view(items@);
        }
        let ghost all = items_view(items@);
        let ghost goal = verb_remove_each(source@, all, is_root, 0);
        let ghost left = verb_remove_each_failed(source@, all, is_root, 0);
        let mut i: usize = 0;
        while i < items.len()
            invariant
                i <= items.len(),
                all == items_view(items@),
                value@ == Json::Array(all),
                all.len() == items.len(),
                forall|k: int| 0 <= k < items.len() ==> (#[trigger] all[k]) == items@[k]@,
                goal == verb_remove_each(old(source)@, all, is_root, 0),
                left == verb_remove_each_failed(old(source)@, all, is_root, 0),
                verb_remove_each(source@, all, is_root, i as nat) == goal,
                verb_remove_each_failed(source@, all, is_root, i as nat) == left,
            decreases items.len() - i,
        {
            match verb_remove_core(source, &items[i], is_root) {
                Ok(Control::Halt) => {
                    return Ok(Control::Halt);
                },
                Ok(Control::Continue) => {},
                Err(e) => {
                    return Err(e);
                },
            }
            i += 1;
        }
        return Ok(Control::Continue);
    }
    verb_remove_core(source, value, is_root)
}

/// Sets the child that a step names.
fn set_child(parent: &mut JsonValue, last: PathItem, value: JsonValue)
    ensures
        final(parent)@ == with_set_child(old(parent)@, last@, value@),
{
    match (parent, last) {
        (JsonValue::Object(object), PathItem::Key(k)) => {
            object.insert(k, value);
        },
        (JsonValue::Array(items), PathItem::Index(i)) => {
            proof {
                lemma_items_view(items@);
            }
            if i < items.len() {
                let ghost before = items@;
                items[i] = value;
                proof {
                    lemma_items_view(items@);
                    assert(items_view(items@) =~= items_view(before).update(i as int, value@));
                }
            }
        },
        _ => {},
    }
}

/// Writes the replacement at every path that the selector matches. The root
/// path makes the replacement the node and halts.
pub fn apply_replace_selector(
    source: &mut JsonValue,
    selector: &JsonPath,
    replacement: &JsonValue,
    is_root: bool,
) -> (r: Result<Control, JdtError>)
    ensures
        verb_agrees(
            replace_each(
                old(source)@,
                select(old(source)@, selector@),
                replacement@,
                is_root,
                0,
            ),
            r,
            final(source)@,
        ),
        r is Err ==> final(source)@ == replace_each_failed(
            old(source)@,
            select(old(source)@, selector@),
            replacement@,
            is_root,
            0,
        ),
{
    let paths = selector.select_paths(source);
    let ghost goal = replace_each(source@, paths_view(paths@), replacement@, is_root, 0);
    let ghost left = replace_each_failed(source@, paths_view(paths@), replacement@, is_root, 0);
    let mut i: usize = 0;
    while i < paths.len()
        invariant
            i <= paths.len(),
            goal == replace_each(
                old(source)@,
                select(old(source)@, selector@),
                replacement@,
                is_root,
                0,
            ),
            left == replace_each_failed(
                old(source)@,
                select(old(source)@, selector@),
                replacement@,
                is_root,
                0,
            ),
            replace_each(source@, paths_view(paths@), replacement@, is_root, i as nat) == goal,
            replace_each_failed(source@, paths_view(paths@), replacement@, is_root, i as nat)
                == left,
        decreases paths.len() - i,
    {
        let path = &paths[i];
        proof {
            assert(paths_view(paths@)[i as int] == path_view(path@));
        }
        if path.len() == 0 {
            let is_object = match replacement {
                JsonValue::Object(_) => true,
                _ => false,
            };
            if is_root && !is_object {
                return Err(JdtError::RootOperationNotAllowed);
            }
            *source = replacement.clone();
            return Ok(Control::Halt);
        }
        let (parent_path, last) = split_last(path);
        match get_mut_at(source, parent_path.as_slice()) {
            Some(parent) => {
                set_child(parent, last, replacement.clone());
            },
            None => {},
        }
        i += 1;
    }
    Ok(Control::Continue)
}

/// One argument of `@jdt.replace`: an attributed object with a selector and
/// a value, or the value that takes the node's place.
pub fn verb_replace_core(source: &mut JsonValue, value: &JsonValue, is_root: bool) -> (r: Result<
    Control,
    JdtError,
>)
    ensures
        verb_agrees(verb_replace_core_spec(old(source)@, value@, is_root), r, final(source)@),
        r is Err ==> final(source)@ == verb_replace_core_failed(old(source)@, value@, is_root),
{
    match value {
        JsonValue::Object(argument) => {
            if is_attributed_call(argument) {
                let selector = match parse_selector_required(argument) {
                    Ok(selector) => selector,
                    Err(e) => {
                        return Err(e);
                    },
                };
                match argument.get(ATTR_VALUE) {
                    Some(replacement) => apply_replace_selector(
                        source,
                        &selector,
                        replacement,
                        is_root,
                    ),
                    None => Err(JdtError::MissingAttribute(ATTR_VALUE)),
                }
            } else {
                *source = value.clone();
                Ok(Control::Halt)
            }
        },
        _ => {
            if is_root {
                return Err(JdtError::RootOperationNotAllowed);
            }
            *source = value.clone();
            Ok(Control::Halt)
        },
    }
}

/// `@jdt.replace`: one argument, or an array of arguments applied in order
/// up to the first that halts.
pub fn verb_replace(source: &mut JsonValue, value: &JsonValue, is_root: bool) -> (r: Result<
    Control,
    JdtError,
>)
    ensures
        verb_agrees(verb_replace_spec(old(source)@, value@, is_root), r, final(source)@),
        r is Err ==> final(source)@ == verb_replace_failed(old(source)@, value@, is_root),
{
    if let JsonValue::Array(items) = value {
        proof {
            lemma_items_view(items@);
        }
        let ghost all = items_view(items@);
        let ghost goal = verb_replace_each(source@, all, is_root, 0);
        let ghost left = verb_replace_each_failed(source@, all, is_root, 0);
        let mut i: usize = 0;
        while i < items.len()
            invariant
                i <= items.len(),
                all == items_view(items@),
                value@ == Json::Array(all),
                all.len() == items.len(),
                forall|k: int| 0 <= k < items.len() ==> (#[trigger] all[k]) == items@[k]@,
                goal == verb_replace_each(old(source)@, all, is_root, 0),
                left == verb_replace_each_failed(old(source)@, all, is_root, 0),
                verb_replace_each(source@, all, is_root, i as nat) == goal,
                verb_replace_each_failed(source@, all, is_root, i as nat) == left,
            decreases items.len() - i,
        {
            match verb_replace_core(source, &items[i], is_root) {
                Ok(Control::Halt) => {
                    return Ok(Control::Halt);
                },
                Ok(Control::Continue) => {},
                Err(e) => {
                    return Err(e);
                },
            }
            i += 1;
        }
        return Ok(Control::Continue);
    }
    verb_replace_core(source, value, is_root)
}

/// Moves the value under `old` to `new_name`, where `old` is a key.
fn rename_in_object(object: &mut JsonObject, name: &str, new_name: &str)
    ensures
        final(object)@ == rename_key(old(object)@, name@, new_name@),
{
    if let Some(value) = object.remove(name) {
        object.insert(new_name.to_owned(), value);
    }
}

/// Renames the property at `path`. The root path and an array item are no
/// properties; a parent that does not resolve is passed over.
pub fn rename_at_path(source: &mut JsonValue, path: &Vec<PathItem>, new_name: &str) -> (r: Result<
    (),
    JdtError,
>)
    ensures
        step_agrees(
            rename_at_path_spec(old(source)@, path_view(path@), new_name@),
            r,
            final(source)@,
        ),
        r is Err ==> final(source)@ == old(source)@,
{
    if path.len() == 0 {
        return Err(JdtError::RenameNotProperty);
    }
    let (parent_path, last) = split_last(path);
    proof {
        if resolve(source@, path_view(parent_path@)) is Some {
            lemma_replace_at_same(source@, path_view(parent_path@));
        }
    }
    match get_mut_at(source, parent_path.as_slice()) {
        None => Ok(()),
        Some(parent) => match (parent, &last) {
            (JsonValue::Object(object), PathItem::Key(k)) => {
                rename_in_object(object, k.as_str(), new_name);
                Ok(())
            },
            _ => Err(JdtError::RenameNotProperty),
        },
    }
}

/// One argument of `@jdt.rename`: an attributed object with a selector and a
/// new name, or a mapping from old names to new names.
pub fn verb_rename_core(source: &mut JsonValue, value: &JsonValue) -> (r: Result<(), JdtError>)
    ensures
        step_agrees(verb_rename_core_spec(old(source)@, value@), r, final(source)@),
        r is Err ==> final(source)@ == verb_rename_core_failed(old(source)@, value@),
{
    let mapping = match value {
        JsonValue::Object(mapping) => mapping,
        _ => {
            return Err(JdtError::TransformNotObject);
        },
    };
    if is_attributed_call(mapping) {
        let selector = match parse_selector_required(mapping) {
            Ok(selector) => selector,
            Err(e) => {
                return Err(e);
            },
        };
        let new_name = match mapping.get(ATTR_VALUE) {
            None => {
                return Err(JdtError::MissingAttribute(ATTR_VALUE));
            },
            Some(JsonValue::String(name)) => name,
            Some(_) => {
                return Err(JdtError::AttributeNotString(ATTR_VALUE));
            },
        };
        let paths = selector.select_paths(source);
        let ghost goal = rename_each(source@, paths_view(paths@), new_name@, 0);
        let ghost left = rename_each_failed(source@, paths_view(paths@), new_name@, 0);
        let mut i: usize = 0;
        while i < paths.len()
            invariant
                i <= paths.len(),
                goal == verb_rename_core_spec(old(source)@, value@),
                left == verb_rename_core_failed(old(source)@, value@),
                rename_each(source@, paths_view(paths@), new_name@, i as nat) == goal,
                rename_each_failed(source@, paths_view(paths@), new_name@, i as nat) == left,
            decreases paths.len() - i,
        {
            proof {
                assert(paths_view(paths@)[i as int] == path_view(paths@[i as int]@));
            }
            match rename_at_path(source, &paths[i], new_name.as_str()) {
                Ok(_) => {},
                Err(e) => {
                    return Err(e);
                },
            }
            i += 1;
        }
        return Ok(());
    }
    let object = match source {
        JsonValue::Object(object) => object,
        _ => {
            return Err(JdtError::SourceNotObject);
        },
    };
    apply_mapping(object, mapping)
}

/// Applies a direct mapping `{ old: "new", .. }` to an object, entry by
/// entry; each new name must be a string.
fn apply_mapping(object: &mut JsonObject, mapping: &JsonObject) -> (r: Result<(), JdtError>)
    ensures
        step_agrees(
            rename_direct(old(object)@, mapping@, 0),
            r,
            Json::Object(final(object)@),
        ),
        r is Err ==> Json::Object(final(object)@) == rename_direct_failed(
            old(object)@,
            mapping@,
            0,
        ),
{
    let ghost goal = rename_direct(object@, mapping@, 0);
    let ghost left = rename_direct_failed(object@, mapping@, 0);
    let n = mapping.len();
    let mut i: usize = 0;
    while i < n
        invariant
            i <= n,
            n == mapping@.len(),
            goal == rename_direct(old(object)@, mapping@, 0),
            left == rename_direct_failed(old(object)@, mapping@, 0),
            rename_direct(object@, mapping@, i as nat) == goal,
            rename_direct_failed(object@, mapping@, i as nat) == left,
        decreases n - i,
    {
        let new_name = match mapping.value_at(i) {
            JsonValue::String(name) => name,
            _ => {
                return Err(JdtError::AttributeNotString(ATTR_VALUE));
            },
        };
        rename_in_object(object, mapping.key_at(i).as_str(), new_name.as_str());
        i += 1;
    }
    Ok(())
}

/// `@jdt.rename`: one argument, or an array of arguments applied in order.
/// It never halts.
pub fn verb_rename(source: &mut JsonValue, value: &JsonValue, _is_root: bool) -> (r: Result<
    Control,
    JdtError,
>)
    ensures
        verb_agrees(verb_rename_spec(old(source)@, value@), r, final(source)@),
        r matches Ok(control) ==> control == Control::Continue,
        r is Err ==> final(source)@ == verb_rename_failed(old(source)@, value@),
{
    if let JsonValue::Array(items) = value {
        proof {
            lemma_items_view(items@);
        }
        let ghost all = items_view(items@);
        let ghost goal = verb_rename_each(source@, all, 0);
        let ghost left = verb_rename_each_failed(source@, all, 0);
        let mut i: usize = 0;
        while i < items.len()
            invariant
                i <= items.len(),
                all == items_view(items@),
                value@ == Json::Array(all),
                all.len() == items.len(),
                forall|k: int| 0 <= k < items.len() ==> (#[trigger] all[k]) == items@[k]@,
                goal == verb_rename_each(old(source)@, all, 0),
                left == verb_rename_each_failed(old(source)@, all, 0),
                verb_rename_each(source@, all, i as nat) == goal,
                verb_rename_each_failed(source@, all, i as nat) == left,
            decreases items.len() - i,
        {
            match verb_rename_core(source, &items[i]) {
                Ok(_) => {},
                Err(e) => {
                    return Err(e);
                },
            }
            i += 1;
        }
        return Ok(Control::Continue);
    }
    match verb_rename_core(source, value) {
        Ok(_) => Ok(Control::Continue),
        Err(e) => Err(e),
    }
}

/// Merges a value into a node: two objects as a nested transform, two
/// arrays by joining them, anything else by overwriting, which the document
/// root does not allow.
pub fn merge_into_value(target: &mut JsonValue, merge_value: &JsonValue, is_root: bool) -> (r:
    Result<(), JdtError>)
    ensures
        step_agrees(
            merge_into_spec(old(target)@, merge_value@, is_root),
            r,
            final(target)@,
        ),
        r is Err ==> final(target)@ == merge_into_failed(old(target)@, merge_value@, is_root),
    decreases merge_value@, 1nat,
{
    let target_is_object = match target {
        JsonValue::Object(_) => true,
        _ => false,
    };
    let value_is_object = match merge_value {
        JsonValue::Object(_) => true,
        _ => false,
    };
    if target_is_object && value_is_object {
        return process_transform(target, merge_value, is_root);
    }
    if let JsonValue::Array(more) = merge_value {
        if let JsonValue::Array(items) = target {
            append_items(items, more);
            return Ok(());
        }
    }
    if is_root {
        return Err(JdtError::RootOperationNotAllowed);
    }
    *target = merge_value.clone();
    Ok(())
}

/// Merges a value into the node at `path`; a path that does not resolve is
/// passed over.
pub fn merge_at_path(
    source: &mut JsonValue,
    path: &Vec<PathItem>,
    merge_value: &JsonValue,
    is_root: bool,
) -> (r: Result<(), JdtError>)
    ensures
        step_agrees(
            merge_at_path_spec(old(source)@, path_view(path@), merge_value@, is_root),
            r,
            final(source)@,
        ),
        r is Err ==> final(source)@ == merge_at_path_failed(
            old(source)@,
            path_view(path@),
            merge_value@,
            is_root,
        ),
    decreases merge_value@, 2nat,
{
    if path.len() == 0 {
        return merge_into_value(source, merge_value, is_root);
    }
    match get_mut_at(source, path.as_slice()) {
        Some(target) => merge_into_value(target, merge_value, false),
        None => Ok(()),
    }
}

/// One argument of `@jdt.merge`: an attributed object with a selector and a
/// value to merge at each match, an object that is a nested transform, or a
/// value that takes the node's place.
pub fn verb_merge_core(source: &mut JsonValue, value: &JsonValue, is_root: bool) -> (r: Result<
    (),
    JdtError,
>)
    ensures
        step_agrees(verb_merge_core_spec(old(source)@, value@, is_root), r, final(source)@),
        r is Err ==> final(source)@ == verb_merge_core_failed(old(source)@, value@, is_root),
    decreases value@, 1nat,
{
    match value {
        JsonValue::Object(argument) => {
            if is_attributed_call(argument) {
                let selector = match parse_selector_required(argument) {
                    Ok(selector) => selector,
                    Err(e) => {
                        return Err(e);
                    },
                };
                let merge_value = match argument.get(ATTR_VALUE) {
                    Some(merge_value) => merge_value,
                    None => {
                        return Err(JdtError::MissingAttribute(ATTR_VALUE));
                    },
                };
                let paths = selector.select_paths(source);
                let ghost goal = merge_each(source@, paths_view(paths@), merge_value@, is_root, 0);
                let ghost left = merge_each_failed(
                    source@,
                    paths_view(paths@),
                    merge_value@,
                    is_root,
                    0,
                );
                let mut i: usize = 0;
                while i < paths.len()
                    invariant
                        i <= paths.len(),
                        value@ == Json::Object(argument@),
                        obj_get(argument@, ATTR_VALUE@) == Some(merge_value@),
                        goal == verb_merge_core_spec(old(source)@, value@, is_root),
                        left == verb_merge_core_failed(old(source)@, value@, is_root),
                        merge_each(source@, paths_view(paths@), merge_value@, is_root, i as nat)
                            == goal,
                        merge_each_failed(
                            source@,
                            paths_view(paths@),
                            merge_value@,
                            is_root,
                            i as nat,
                        ) == left,
                    decreases paths.len() - i,
                {
                    proof {
                        assert(paths_view(paths@)[i as int] == path_view(paths@[i as int]@));
                    }
                    match merge_at_path(source, &paths[i], merge_value, is_root) {
                        Ok(_) => {},
                        Err(e) => {
                            return Err(e);
                        },
                    }
                    i += 1;
                }
                Ok(())
            } else {
                process_transform(source, value, is_root)
            }
        },
        _ => {
            if is_root {
                return Err(JdtError::RootOperationNotAllowed);
            }
            *source = value.clone();
            Ok(())
        },
    }
}

/// `@jdt.merge`: one argument, or an array of arguments applied in order. It
/// never halts.
pub fn verb_merge(source: &mut JsonValue, value: &JsonValue, is_root: bool) -> (r: Result<
    Control,
    JdtError,
>)
    ensures
        verb_agrees(verb_merge_spec(old(source)@, value@, is_root), r, final(source)@),
        r matches Ok(control) ==> control == Control::Continue,
        r is Err ==> final(source)@ == verb_merge_failed(old(source)@, value@, is_root),
    decreases value@, 2nat,
{
    if let JsonValue::Array(items) = value {
        proof {
            lemma_items_view(items@);
        }
        let ghost all = items_view(items@);
        let ghost goal = verb_merge_each(source@, all, is_root, 0);
        let ghost left = verb_merge_each_failed(source@, all, is_root, 0);
        let mut i: usize = 0;
        while i < items.len()
            invariant
                i <= items.len(),
                all == items_view(items@),
                value@ == Json::Array(all),
                all.len() == items.len(),
                forall|k: int| 0 <= k < items.len() ==> (#[trigger] all[k]) == items@[k]@,
                goal == verb_merge_each(old(source)@, all, is_root, 0),
                left == verb_merge_each_failed(old(source)@, all, is_root, 0),
                verb_merge_each(source@, all, is_root, i as nat) == goal,
                verb_merge_each_failed(source@, all, is_root, i as nat) == left,
            decreases items.len() - i,
        {
            proof {
                assert(all[i as int] == items@[i as int]@);
            }
            match verb_merge_core(source, &items[i], is_root) {
                Ok(_) => {},
                Err(e) => {
                    return Err(e);
                },
            }
            i += 1;
        }
        return Ok(Control::Continue);
    }
    match verb_merge_core(source, value, is_root) {
        Ok(_) => Ok(Control::Continue),
        Err(e) => Err(e),
    }
}

/// Step one of the pipeline: each entry of the transform whose key is no
/// syntax and whose value is an object is processed into the source's value
/// under that key, where that is an object too. Returns the keys that were
/// processed.
fn recurse_children(source: &mut JsonObject, transform: &JsonObject) -> (r: Result<
    Vec<String>,
    JdtError,
>)
    ensures
        match r {
            Ok(recursed) => recurse_prefix(old(source)@, transform@, transform@.len()) == Ok::<
                (Entries, Seq<Seq<char>>),
                TransformError,
            >((final(source)@, strings_view(recursed@))),
            Err(e) => recurse_prefix(old(source)@, transform@, transform@.len()) == Err::<
                (Entries, Seq<Seq<char>>),
                TransformError,
            >(e@),
        },
        r is Err ==> final(source)@ == recurse_failed(
            old(source)@,
            transform@,
            transform@.len(),
        ),
    decreases transform@, transform@.len(),
{
    let mut recursed: Vec<String> = Vec::new();
    let n = transform.len();
    let mut k: usize = 0;
    proof {
        assert(strings_view(recursed@) =~= Seq::<Seq<char>>::empty());
    }
    while k < n
        invariant
            k <= n,
            n == transform@.len(),
            recurse_prefix(old(source)@, transform@, k as nat) == Ok::<
                (Entries, Seq<Seq<char>>),
                TransformError,
            >((source@, strings_view(recursed@))),
        decreases n - k,
    {
        let key = transform.key_at(k);
        let value = transform.value_at(k);
        let value_is_object = match value {
            JsonValue::Object(_) => true,
            _ => false,
        };
        let ghost before = source@;
        let ghost noted = strings_view(recursed@);
        if !is_jdt_syntax(key.as_str()) && value_is_object {
            if let Some(below) = source.get_mut(key.as_str()) {
                let below_is_object = match below {
                    JsonValue::Object(_) => true,
                    _ => false,
                };
                if below_is_object {
                    proof {
                        assert(decreases_to!(transform@ => transform@[k as int]));
                        assert(decreases_to!(transform@[k as int] => transform@[k as int].1));
                    }
                    match process_transform(below, value, false) {
                        Ok(_) => {},
                        Err(e) => {
                            proof {
                                lemma_recurse_error_stays(
                                    old(source)@,
                                    transform@,
                                    (k + 1) as nat,
                                    n as nat,
                                );
                                lemma_recurse_failed_stays(
                                    old(source)@,
                                    transform@,
                                    (k + 1) as nat,
                                    n as nat,
                                );
                            }
                            return Err(e);
                        },
                    }
                    recursed.push(key.clone());
                    proof {
                        assert(strings_view(recursed@) =~= noted.push(key@));
                    }
                } else {
                    proof {
                        let i = crate::json::key_index(before, key@);
                        assert(before.update(i, (key@, before[i].1)) =~= before);
                    }
                }
            }
        }
        k += 1;
    }
    Ok(recursed)
}

/// Whether some key of a transform is data, not syntax.
fn has_data(transform: &JsonObject) -> (r: bool)
    ensures
        r == has_data_key(transform@),
{
    let n = transform.len();
    let mut k: usize = 0;
    while k < n
        invariant
            k <= n,
            n == transform@.len(),
            forall|j: int| 0 <= j < k ==> is_jdt_syntax_spec((#[trigger] transform@[j]).0),
        decreases n - k,
    {
        if !is_jdt_syntax(transform.key_at(k).as_str()) {
            assert(!is_jdt_syntax_spec(transform@[k as int].0));
            return true;
        }
        k += 1;
    }
    false
}

/// Processes a transform at a node: recurse into object sub-transforms, run
/// the verbs that are present in the order remove, replace, rename, merge up
/// to the first that halts, then lay the remaining entries onto the node.
pub fn process_transform(source: &mut JsonValue, transform: &JsonValue, is_root: bool) -> (r:
    Result<(), JdtError>)
    ensures
        step_agrees(process_spec(old(source)@, transform@, is_root), r, final(source)@),
        r is Err ==> final(source)@ == process_failed(old(source)@, transform@, is_root),
        r is Ok && old(source)@.wf() && transform@.wf() ==> final(source)@.wf(),
    decreases transform@, 0nat,
{
    proof {
        if source@.wf() && transform@.wf() {
            lemma_wf_process(source@, transform@, is_root);
        }
    }
    let transform_obj = match transform {
        JsonValue::Object(object) => object,
        _ => {
            return Err(JdtError::TransformNotObject);
        },
    };
    let recursed = match source {
        JsonValue::Object(object) => match recurse_children(object, transform_obj) {
            Ok(recursed) => recursed,
            Err(e) => {
                return Err(e);
            },
        },
        _ => {
            if has_data(transform_obj) {
                return Err(JdtError::SourceNotObject);
            }
            let none: Vec<String> = Vec::new();
            proof {
                assert(strings_view(none@) =~= Seq::<Seq<char>>::empty());
            }
            none
        },
    };
    if let Some(v) = transform_obj.get(VERB_REMOVE) {
        match verb_remove(source, v, is_root) {
            Ok(Control::Halt) => {
                return Ok(());
            },
            Ok(Control::Continue) => {},
            Err(e) => {
                return Err(e);
            },
        }
    }
    if let Some(v) = transform_obj.get(VERB_REPLACE) {
        match verb_replace(source, v, is_root) {
            Ok(Control::Halt) => {
                return Ok(());
            },
            Ok(Control::Continue) => {},
            Err(e) => {
                return Err(e);
            },
        }
    }
    if let Some(v) = transform_obj.get(VERB_RENAME) {
        match verb_rename(source, v, is_root) {
            Ok(Control::Halt) => {
                return Ok(());
            },
            Ok(Control::Continue) => {},
            Err(e) => {
                return Err(e);
            },
        }
    }
    if let Some(v) = transform_obj.get(VERB_MERGE) {
        proof {
            crate::json::lemma_obj_get_smaller(transform_obj@, VERB_MERGE@);
        }
        match verb_merge(source, v, is_root) {
            Ok(Control::Halt) => {
                return Ok(());
            },
            Ok(Control::Continue) => {},
            Err(e) => {
                return Err(e);
            },
        }
    }
    default_transform(source, transform_obj, &recursed);
    Ok(())
}

/// Applies a transform to a source document and returns the transformed
/// copy; the source is left as it is.
pub fn apply(source: &JsonValue, transform: &JsonValue) -> (r: Result<JsonValue, JdtError>)
    ensures
        match r {
            Ok(out) => apply_spec(source@, transform@) == Ok::<Json, TransformError>(out@)
                && (source@.wf() && transform@.wf() ==> out@.wf()),
            Err(e) => apply_spec(source@, transform@) == Err::<Json, TransformError>(e@),
        },
{
    let mut out = source.clone();
    match process_transform(&mut out, transform, true) {
        Ok(_) => Ok(out),
        Err(e) => Err(e),
    }
}

} // verus!
