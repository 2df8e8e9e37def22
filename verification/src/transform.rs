//! The meaning of a transform: what folding a transform object into a source
//! document gives, stated over the model of JSON values.
use crate::json::{has_key, key_index, obj_get, obj_insert, obj_remove, Entries, Json};
use crate::jsonpath::{select, JsonPathError, PathError, SegmentModel};
use crate::parser::parse_spec;
use crate::path::{child, replace_at, resolve, Path, Step};
use crate::text::utf8;
use vstd::prelude::*;

verus! {

/// The keys of the verbs, in the order in which the verbs run.
pub const VERB_REMOVE: &'static str = "@jdt.remove";

pub const VERB_REPLACE: &'static str = "@jdt.replace";

pub const VERB_RENAME: &'static str = "@jdt.rename";

pub const VERB_MERGE: &'static str = "@jdt.merge";

/// The keys of the attributes of a verb's argument.
pub const ATTR_PATH: &'static str = "@jdt.path";

pub const ATTR_VALUE: &'static str = "@jdt.value";

/// Why a transform was not applied.
#[derive(Debug)]
pub enum JdtError {
    /// A transform, or the argument of a verb, is not of a shape it may have.
    TransformNotObject,
    /// The node that a transform or a verb works on is not an object.
    SourceNotObject,
    /// A selector was not accepted.
    JsonPath(JsonPathError),
    /// An attribute that a verb needs is missing.
    MissingAttribute(&'static str),
    /// An attribute that must be a string is something else.
    AttributeNotString(&'static str),
    /// A rename was aimed at the root or at an array item.
    RenameNotProperty,
    /// The document root would be removed or become a non-object.
    RootOperationNotAllowed,
    /// Kept for verbs yet to come.
    UnknownVerb(String),
}

/// Mathematical model of a transform error.
pub enum TransformError {
    TransformNotObject,
    SourceNotObject,
    JsonPath(PathError),
    MissingAttribute(Seq<char>),
    AttributeNotString(Seq<char>),
    RenameNotProperty,
    RootOperationNotAllowed,
    UnknownVerb(Seq<char>),
}

impl View for JdtError {
    type V = TransformError;

    open spec fn view(&self) -> TransformError {
        match self {
            JdtError::TransformNotObject => TransformError::TransformNotObject,
            JdtError::SourceNotObject => TransformError::SourceNotObject,
            JdtError::JsonPath(e) => TransformError::JsonPath(e@),
            JdtError::MissingAttribute(name) => TransformError::MissingAttribute(name@),
            JdtError::AttributeNotString(name) => TransformError::AttributeNotString(name@),
            JdtError::RenameNotProperty => TransformError::RenameNotProperty,
            JdtError::RootOperationNotAllowed => TransformError::RootOperationNotAllowed,
            JdtError::UnknownVerb(name) => TransformError::UnknownVerb(name@),
        }
    }
}

impl From<JsonPathError> for JdtError {
    fn from(e: JsonPathError) -> (r: JdtError) {
        JdtError::JsonPath(e)
    }
}

impl vstd::std_specs::convert::FromSpecImpl<JsonPathError> for JdtError {
    open spec fn obeys_from_spec() -> bool {
        true
    }

    open spec fn from_spec(e: JsonPathError) -> JdtError {
        JdtError::JsonPath(e)
    }
}

/// What an operator asks of the interpreter: to go on, or to skip the rest
/// of the verbs and the overlay at this node.
#[derive(Clone, Copy, Debug, PartialEq, Eq, Structural)]
pub enum Control {
    Continue,
    Halt,
}

/// A node after an operator, with what the operator asks.
pub type VerbResult = Result<(Json, Control), TransformError>;

/// A key is syntax, not data, when it starts with `@jdt.`; the four verbs and
/// the two attributes do.
pub open spec fn is_jdt_syntax_spec(key: Seq<char>) -> bool {
    &&& key.len() >= 5
    &&& key[0] == '@'
    &&& key[1] == 'j'
    &&& key[2] == 'd'
    &&& key[3] == 't'
    &&& key[4] == '.'
}

/// An argument in attributed form holds a path or a value attribute.
pub open spec fn is_attributed(argument: Entries) -> bool {
    has_key(argument, ATTR_PATH@) || has_key(argument, ATTR_VALUE@)
}

/// The selector under `@jdt.path`, which must be there, be a string, and
/// parse.
pub open spec fn selector_required_spec(argument: Entries) -> Result<
    Seq<SegmentModel>,
    TransformError,
> {
    match obj_get(argument, ATTR_PATH@) {
        None => Err(TransformError::MissingAttribute(ATTR_PATH@)),
        Some(Json::String(text)) => match parse_spec(text) {
            Ok(selector) => Ok(selector),
            Err(e) => Err(TransformError::JsonPath(e)),
        },
        Some(_) => Err(TransformError::AttributeNotString(ATTR_PATH@)),
    }
}

/// The value that the default overlay leaves under a key: the arrays joined
/// where both the source and the transform hold an array, else the
/// transform's value.
pub open spec fn overlay_value(existing: Option<Json>, value: Json) -> Json {
    match (existing, value) {
        (Some(Json::Array(a)), Json::Array(b)) => Json::Array(a + b),
        _ => value,
    }
}

/// The default overlay of the first `n` entries of a transform onto the
/// entries of a source: keys that are syntax or were recursed into are left
/// out.
pub open spec fn overlay_prefix(
    source: Entries,
    transform: Entries,
    recursed: Seq<Seq<char>>,
    n: nat,
) -> Entries
    decreases n,
{
    if n == 0 || n > transform.len() {
        source
    } else {
        let done = overlay_prefix(source, transform, recursed, (n - 1) as nat);
        let key = transform[n - 1].0;
        if is_jdt_syntax_spec(key) || recursed.contains(key) {
            done
        } else {
            obj_insert(done, key, overlay_value(obj_get(done, key), transform[n - 1].1))
        }
    }
}

/// The default overlay: nothing where the source is no object.
pub open spec fn default_transform_spec(
    source: Json,
    transform: Entries,
    recursed: Seq<Seq<char>>,
) -> Json {
    match source {
        Json::Object(entries) => Json::Object(
            overlay_prefix(entries, transform, recursed, transform.len()),
        ),
        _ => source,
    }
}

/// Byte-wise lexicographic order: negative, zero or positive as `a` is
/// before, equal to or after `b`.
pub open spec fn bytes_order(a: Seq<u8>, b: Seq<u8>) -> int
    decreases a.len(),
{
    if a.len() == 0 {
        if b.len() == 0 {
            0
        } else {
            -1
        }
    } else if b.len() == 0 {
        1
    } else if a[0] < b[0] {
        -1
    } else if a[0] > b[0] {
        1
    } else {
        bytes_order(a.drop_first(), b.drop_first())
    }
}

/// The order in which matched paths are deleted: deeper paths first; at the
/// same depth a larger last index first, a later last key first. Negative,
/// zero or positive as `a` comes before, together with or after `b`.
pub open spec fn remove_order(a: Path, b: Path) -> int {
    if a.len() != b.len() {
        if b.len() < a.len() {
            -1
        } else {
            1
        }
    } else if a.len() == 0 {
        0
    } else {
        match (a.last(), b.last()) {
            (Step::Index(x), Step::Index(y)) => if y < x {
                -1
            } else if y == x {
                0
            } else {
                1
            },
            (Step::Key(x), Step::Key(y)) => bytes_order(utf8(y), utf8(x)),
            _ => 0,
        }
    }
}

/// Where a path enters a sorted list: before the trailing paths that it
/// comes strictly before.
pub open spec fn insert_position(sorted: Seq<Path>, path: Path) -> nat
    decreases sorted.len(),
{
    if sorted.len() > 0 && remove_order(path, sorted.last()) < 0 {
        insert_position(sorted.drop_last(), path)
    } else {
        sorted.len()
    }
}

/// The paths in deletion order; paths that the order does not tell apart
/// stay in the order they came in.
pub open spec fn sort_paths(paths: Seq<Path>) -> Seq<Path>
    decreases paths.len(),
{
    if paths.len() == 0 {
        Seq::empty()
    } else {
        let sorted = sort_paths(paths.drop_last());
        sorted.insert(insert_position(sorted, paths.last()) as int, paths.last())
    }
}

/// The list without repeats: of paths that are the same path, the first
/// stays.
pub open spec fn dedup_paths(paths: Seq<Path>) -> Seq<Path>
    decreases paths.len(),
{
    if paths.len() == 0 {
        Seq::empty()
    } else if paths.drop_last().contains(paths.last()) {
        dedup_paths(paths.drop_last())
    } else {
        dedup_paths(paths.drop_last()).push(paths.last())
    }
}

/// A node without the child that a step names.
pub open spec fn without_child(parent: Json, step: Step) -> Json {
    match (parent, step) {
        (Json::Object(entries), Step::Key(k)) => Json::Object(obj_remove(entries, k)),
        (Json::Array(items), Step::Index(i)) => if i < items.len() {
            Json::Array(items.remove(i as int))
        } else {
            parent
        },
        _ => parent,
    }
}

/// The document without the node at `path`, a path of at least one step;
/// unchanged where the parent does not resolve.
pub open spec fn delete_at(source: Json, path: Path) -> Json {
    match resolve(source, path.drop_last()) {
        Some(parent) => replace_at(source, path.drop_last(), without_child(parent, path.last())),
        None => source,
    }
}

/// Deletes the paths from position `i` on, in the order given. The root path
/// makes the node null, and is an error at the document root.
pub open spec fn delete_each(source: Json, paths: Seq<Path>, is_root: bool, i: nat) -> Result<
    Json,
    TransformError,
>
    decreases paths.len() - i,
{
    if i >= paths.len() {
        Ok(source)
    } else if paths[i as int].len() == 0 {
        if is_root {
            Err(TransformError::RootOperationNotAllowed)
        } else {
            delete_each(Json::Null, paths, is_root, i + 1)
        }
    } else {
        delete_each(delete_at(source, paths[i as int]), paths, is_root, i + 1)
    }
}

/// Deletes every matched path: the paths are sorted into deletion order,
/// repeats are dropped, and each is deleted in turn.
pub open spec fn remove_paths_spec(source: Json, paths: Seq<Path>, is_root: bool) -> Result<
    Json,
    TransformError,
> {
    delete_each(source, dedup_paths(sort_paths(paths)), is_root, 0)
}

/// One argument of `@jdt.remove`.
pub open spec fn verb_remove_core_spec(source: Json, value: Json, is_root: bool) -> VerbResult {
    match value {
        Json::String(name) => match source {
            Json::Object(entries) => Ok((Json::Object(obj_remove(entries, name)), Control::Continue)),
            _ => Err(TransformError::SourceNotObject),
        },
        Json::Bool(b) => if b {
            if is_root {
                Err(TransformError::RootOperationNotAllowed)
            } else {
                Ok((Json::Null, Control::Halt))
            }
        } else {
            Ok((source, Control::Continue))
        },
        Json::Object(argument) => match selector_required_spec(argument) {
            Err(e) => Err(e),
            Ok(selector) => match remove_paths_spec(source, select(source, selector), is_root) {
                Err(e) => Err(e),
                Ok(after) => Ok((after, Control::Continue)),
            },
        },
        _ => Err(TransformError::TransformNotObject),
    }
}

/// The arguments of `@jdt.remove` from position `i` on, up to the first that
/// halts.
pub open spec fn verb_remove_each(source: Json, items: Seq<Json>, is_root: bool, i: nat) -> VerbResult
    decreases items.len() - i,
{
    if i >= items.len() {
        Ok((source, Control::Continue))
    } else {
        match verb_remove_core_spec(source, items[i as int], is_root) {
            Err(e) => Err(e),
            Ok((after, Control::Halt)) => Ok((after, Control::Halt)),
            Ok((after, Control::Continue)) => verb_remove_each(after, items, is_root, i + 1),
        }
    }
}

/// `@jdt.remove`: one argument, or an array of arguments applied in order.
pub open spec fn verb_remove_spec(source: Json, value: Json, is_root: bool) -> VerbResult {
    match value {
        Json::Array(items) => verb_remove_each(source, items, is_root, 0),
        _ => verb_remove_core_spec(source, value, is_root),
    }
}

/// A node with the child that a step names set to `value`: an object gets
/// the key if it has it not, an array is left alone where the index is past
/// its end.
pub open spec fn with_set_child(parent: Json, step: Step, value: Json) -> Json {
    match (parent, step) {
        (Json::Object(entries), Step::Key(k)) => Json::Object(obj_insert(entries, k, value)),
        (Json::Array(items), Step::Index(i)) => if i < items.len() {
            Json::Array(items.update(i as int, value))
        } else {
            parent
        },
        _ => parent,
    }
}

/// The document with `value` written at `path`, a path of at least one step;
/// unchanged where the parent does not resolve.
pub open spec fn set_at(source: Json, path: Path, value: Json) -> Json {
    match resolve(source, path.drop_last()) {
        Some(parent) => replace_at(
            source,
            path.drop_last(),
            with_set_child(parent, path.last(), value),
        ),
        None => source,
    }
}

/// Writes the replacement at the paths from position `i` on. The root path
/// makes the replacement the node and halts; at the document root the
/// replacement must then be an object.
pub open spec fn replace_each(
    source: Json,
    paths: Seq<Path>,
    replacement: Json,
    is_root: bool,
    i: nat,
) -> VerbResult
    decreases paths.len() - i,
{
    if i >= paths.len() {
        Ok((source, Control::Continue))
    } else if paths[i as int].len() == 0 {
        if is_root && !(replacement is Object) {
            Err(TransformError::RootOperationNotAllowed)
        } else {
            Ok((replacement, Control::Halt))
        }
    } else {
        replace_each(set_at(source, paths[i as int], replacement), paths, replacement, is_root, i + 1)
    }
}

/// One argument of `@jdt.replace`.
pub open spec fn verb_replace_core_spec(source: Json, value: Json, is_root: bool) -> VerbResult {
    match value {
        Json::Object(argument) => if is_attributed(argument) {
            match selector_required_spec(argument) {
                Err(e) => Err(e),
                Ok(selector) => match obj_get(argument, ATTR_VALUE@) {
                    None => Err(TransformError::MissingAttribute(ATTR_VALUE@)),
                    Some(replacement) => replace_each(
                        source,
                        select(source, selector),
                        replacement,
                        is_root,
                        0,
                    ),
                },
            }
        } else {
            Ok((value, Control::Halt))
        },
        _ => if is_root {
            Err(TransformError::RootOperationNotAllowed)
        } else {
            Ok((value, Control::Halt))
        },
    }
}

/// The arguments of `@jdt.replace` from position `i` on, up to the first
/// that halts.
pub open spec fn verb_replace_each(source: Json, items: Seq<Json>, is_root: bool, i: nat) -> VerbResult
    decreases items.len() - i,
{
    if i >= items.len() {
        Ok((source, Control::Continue))
    } else {
        match verb_replace_core_spec(source, items[i as int], is_root) {
            Err(e) => Err(e),
            Ok((after, Control::Halt)) => Ok((after, Control::Halt)),
            Ok((after, Control::Continue)) => verb_replace_each(after, items, is_root, i + 1),
        }
    }
}

/// `@jdt.replace`: one argument, or an array of arguments applied in order.
pub open spec fn verb_replace_spec(source: Json, value: Json, is_root: bool) -> VerbResult {
    match value {
        Json::Array(items) => verb_replace_each(source, items, is_root, 0),
        _ => verb_replace_core_spec(source, value, is_root),
    }
}

/// The entries with the value under `old` moved under `new`: taken out, and
/// set again as `obj_insert` sets it. Unchanged where `old` is no key.
pub open spec fn rename_key(entries: Entries, old: Seq<char>, new: Seq<char>) -> Entries {
    match obj_get(entries, old) {
        Some(v) => obj_insert(obj_remove(entries, old), new, v),
        None => entries,
    }
}

/// Renames the property at `path`. The root path and an array item are no
/// properties; a parent that does not resolve is passed over.
pub open spec fn rename_at_path_spec(source: Json, path: Path, new_name: Seq<char>) -> Result<
    Json,
    TransformError,
> {
    if path.len() == 0 {
        Err(TransformError::RenameNotProperty)
    } else {
        match resolve(source, path.drop_last()) {
            None => Ok(source),
            Some(parent) => match (parent, path.last()) {
                (Json::Object(entries), Step::Key(k)) => Ok(
                    replace_at(
                        source,
                        path.drop_last(),
                        Json::Object(rename_key(entries, k, new_name)),
                    ),
                ),
                _ => Err(TransformError::RenameNotProperty),
            },
        }
    }
}

/// Renames the properties at the paths from position `i` on.
pub open spec fn rename_each(source: Json, paths: Seq<Path>, new_name: Seq<char>, i: nat) -> Result<
    Json,
    TransformError,
>
    decreases paths.len() - i,
{
    if i >= paths.len() {
        Ok(source)
    } else {
        match rename_at_path_spec(source, paths[i as int], new_name) {
            Err(e) => Err(e),
            Ok(after) => rename_each(after, paths, new_name, i + 1),
        }
    }
}

/// Applies the entries of a direct mapping `{ old: "new", .. }` from
/// position `i` on; each new name must be a string.
pub open spec fn rename_direct(source: Entries, mapping: Entries, i: nat) -> Result<
    Json,
    TransformError,
>
    decreases mapping.len() - i,
{
    if i >= mapping.len() {
        Ok(Json::Object(source))
    } else {
        match mapping[i as int].1 {
            Json::String(new_name) => rename_direct(
                rename_key(source, mapping[i as int].0, new_name),
                mapping,
                i + 1,
            ),
            _ => Err(TransformError::AttributeNotString(ATTR_VALUE@)),
        }
    }
}

/// One argument of `@jdt.rename`.
pub open spec fn verb_rename_core_spec(source: Json, value: Json) -> Result<Json, TransformError> {
    match value {
        Json::Object(argument) => if is_attributed(argument) {
            match selector_required_spec(argument) {
                Err(e) => Err(e),
                Ok(selector) => match obj_get(argument, ATTR_VALUE@) {
                    None => Err(TransformError::MissingAttribute(ATTR_VALUE@)),
                    Some(Json::String(new_name)) => rename_each(
                        source,
                        select(source, selector),
                        new_name,
                        0,
                    ),
                    Some(_) => Err(TransformError::AttributeNotString(ATTR_VALUE@)),
                },
            }
        } else {
            match source {
                Json::Object(entries) => rename_direct(entries, argument, 0),
                _ => Err(TransformError::SourceNotObject),
            }
        },
        _ => Err(TransformError::TransformNotObject),
    }
}

/// The arguments of `@jdt.rename` from position `i` on.
pub open spec fn verb_rename_each(source: Json, items: Seq<Json>, i: nat) -> Result<
    Json,
    TransformError,
>
    decreases items.len() - i,
{
    if i >= items.len() {
        Ok(source)
    } else {
        match verb_rename_core_spec(source, items[i as int]) {
            Err(e) => Err(e),
            Ok(after) => verb_rename_each(after, items, i + 1),
        }
    }
}

/// `@jdt.rename`: one argument, or an array of arguments applied in order.
/// It never halts.
pub open spec fn verb_rename_spec(source: Json, value: Json) -> VerbResult {
    let renamed = match value {
        Json::Array(items) => verb_rename_each(source, items, 0),
        _ => verb_rename_core_spec(source, value),
    };
    match renamed {
        Ok(after) => Ok((after, Control::Continue)),
        Err(e) => Err(e),
    }
}

/// Some key of the transform is data, not syntax: a key to recurse into or
/// to lay over the source.
pub open spec fn has_data_key(transform: Entries) -> bool {
    exists|k: int| 0 <= k < transform.len() && !is_jdt_syntax_spec((#[trigger] transform[k]).0)
}

/// What processing a transform at a node gives. The pipeline: recurse into
/// object sub-transforms; run the verbs that are present, in the order
/// remove, replace, rename, merge, up to the first that halts; then the
/// default overlay. A node that is no object cannot take data: a transform
/// with a data key is refused there, and a transform of syntax alone goes on
/// to its verbs.
pub open spec fn process_spec(source: Json, transform: Json, is_root: bool) -> Result<
    Json,
    TransformError,
>
    decreases transform, 0nat,
{
    match transform {
        Json::Object(t) => {
            let start = match source {
                Json::Object(s) => match recurse_prefix(s, t, t.len()) {
                    Err(e) => Err(e),
                    Ok((entries, recursed)) => Ok((Json::Object(entries), recursed)),
                },
                _ => if has_data_key(t) {
                    Err(TransformError::SourceNotObject)
                } else {
                    Ok((source, Seq::empty()))
                },
            };
            match start {
                Err(e) => Err(e),
                Ok((s0, recursed)) => {
                    let removed = match obj_get(t, VERB_REMOVE@) {
                        Some(v) => verb_remove_spec(s0, v, is_root),
                        None => Ok((s0, Control::Continue)),
                    };
                    match removed {
                        Err(e) => Err(e),
                        Ok((after, Control::Halt)) => Ok(after),
                        Ok((s1, Control::Continue)) => {
                            let replaced = match obj_get(t, VERB_REPLACE@) {
                                Some(v) => verb_replace_spec(s1, v, is_root),
                                None => Ok((s1, Control::Continue)),
                            };
                            match replaced {
                                Err(e) => Err(e),
                                Ok((after, Control::Halt)) => Ok(after),
                                Ok((s2, Control::Continue)) => {
                                    let renamed = match obj_get(t, VERB_RENAME@) {
                                        Some(v) => verb_rename_spec(s2, v),
                                        None => Ok((s2, Control::Continue)),
                                    };
                                    match renamed {
                                        Err(e) => Err(e),
                                        Ok((s3, _)) => {
                                            let merged = match obj_get(t, VERB_MERGE@) {
                                                Some(v) => verb_merge_spec(s3, v, is_root),
                                                None => Ok((s3, Control::Continue)),
                                            };
                                            match merged {
                                                Err(e) => Err(e),
                                                Ok((s4, _)) => Ok(
                                                    default_transform_spec(s4, t, recursed),
                                                ),
                                            }
                                        },
                                    }
                                },
                            }
                        },
                    }
                },
            }
        },
        _ => Err(TransformError::TransformNotObject),
    }
}

/// Step one of the pipeline over the first `n` entries of a transform: an
/// entry whose key is no syntax and whose value is an object is processed
/// into the source's value under that key where that is an object too, and
/// its key is noted.
pub open spec fn recurse_prefix(source: Entries, transform: Entries, n: nat) -> Result<
    (Entries, Seq<Seq<char>>),
    TransformError,
>
    decreases transform, n,
{
    if n == 0 || n > transform.len() {
        Ok((source, Seq::empty()))
    } else {
        match recurse_prefix(source, transform, (n - 1) as nat) {
            Err(e) => Err(e),
            Ok((entries, recursed)) => {
                let key = transform[n - 1].0;
                if !is_jdt_syntax_spec(key) && transform[n - 1].1 is Object {
                    match obj_get(entries, key) {
                        Some(Json::Object(below)) => match process_spec(
                            Json::Object(below),
                            transform[n - 1].1,
                            false,
                        ) {
                            Err(e) => Err(e),
                            Ok(after) => Ok(
                                (
                                    entries.update(key_index(entries, key), (key, after)),
                                    recursed.push(key),
                                ),
                            ),
                        },
                        _ => Ok((entries, recursed)),
                    }
                } else {
                    Ok((entries, recursed))
                }
            },
        }
    }
}

/// An error in step one of the pipeline stays the result whatever entries
/// follow.
pub proof fn lemma_recurse_error_stays(source: Entries, transform: Entries, m: nat, n: nat)
    requires
        m <= n <= transform.len(),
        recurse_prefix(source, transform, m) is Err,
    ensures
        recurse_prefix(source, transform, n) == recurse_prefix(source, transform, m),
    decreases n - m,
{
    if m < n {
        lemma_recurse_error_stays(source, transform, m, (n - 1) as nat);
    }
}

/// Merges a value into a node: two objects as a nested transform, two
/// arrays by joining them, anything else by overwriting, which the document
/// root does not allow.
pub open spec fn merge_into_spec(target: Json, value: Json, is_root: bool) -> Result<
    Json,
    TransformError,
>
    decreases value, 1nat,
{
    match (target, value) {
        (Json::Object(_), Json::Object(_)) => process_spec(target, value, is_root),
        (Json::Array(a), Json::Array(b)) => Ok(Json::Array(a + b)),
        _ => if is_root {
            Err(TransformError::RootOperationNotAllowed)
        } else {
            Ok(value)
        },
    }
}

/// Merges a value into the node at `path`; a path that does not resolve is
/// passed over.
pub open spec fn merge_at_path_spec(source: Json, path: Path, value: Json, is_root: bool) -> Result<
    Json,
    TransformError,
>
    decreases value, 2nat,
{
    if path.len() == 0 {
        merge_into_spec(source, value, is_root)
    } else {
        match resolve(source, path) {
            None => Ok(source),
            Some(target) => match merge_into_spec(target, value, false) {
                Err(e) => Err(e),
                Ok(after) => Ok(replace_at(source, path, after)),
            },
        }
    }
}

/// Merges a value into the nodes at the paths from position `i` on.
pub open spec fn merge_each(source: Json, paths: Seq<Path>, value: Json, is_root: bool, i: nat) -> Result<
    Json,
    TransformError,
>
    decreases value, 3 + paths.len() - i,
{
    if i >= paths.len() {
        Ok(source)
    } else {
        match merge_at_path_spec(source, paths[i as int], value, is_root) {
            Err(e) => Err(e),
            Ok(after) => merge_each(after, paths, value, is_root, i + 1),
        }
    }
}

/// One argument of `@jdt.merge`.
pub open spec fn verb_merge_core_spec(source: Json, value: Json, is_root: bool) -> Result<
    Json,
    TransformError,
>
    decreases value, 1nat,
{
    match value {
        Json::Object(argument) => if is_attributed(argument) {
            match selector_required_spec(argument) {
                Err(e) => Err(e),
                Ok(selector) => match obj_get(argument, ATTR_VALUE@) {
                    None => Err(TransformError::MissingAttribute(ATTR_VALUE@)),
                    Some(merge_value) => merge_each(
                        source,
                        select(source, selector),
                        merge_value,
                        is_root,
                        0,
                    ),
                },
            }
        } else {
            process_spec(source, value, is_root)
        },
        _ => if is_root {
            Err(TransformError::RootOperationNotAllowed)
        } else {
            Ok(value)
        },
    }
}

/// The arguments of `@jdt.merge` from position `i` on.
pub open spec fn verb_merge_each(source: Json, items: Seq<Json>, is_root: bool, i: nat) -> Result<
    Json,
    TransformError,
>
    decreases items, items.len() - i,
{
    if i >= items.len() {
        Ok(source)
    } else {
        match verb_merge_core_spec(source, items[i as int], is_root) {
            Err(e) => Err(e),
            Ok(after) => verb_merge_each(after, items, is_root, i + 1),
        }
    }
}

/// `@jdt.merge`: one argument, or an array of arguments applied in order.
/// It never halts.
pub open spec fn verb_merge_spec(source: Json, value: Json, is_root: bool) -> VerbResult
    decreases value, 2nat,
{
    let merged = match value {
        Json::Array(items) => verb_merge_each(source, items, is_root, 0),
        _ => verb_merge_core_spec(source, value, is_root),
    };
    match merged {
        Ok(after) => Ok((after, Control::Continue)),
        Err(e) => Err(e),
    }
}

/// What applying a transform to a source document gives.
pub open spec fn apply_spec(source: Json, transform: Json) -> Result<Json, TransformError> {
    process_spec(source, transform, true)
}

/// An operator that returned `got` and left the node as `after` did what
/// `expected` says.
pub open spec fn verb_agrees(expected: VerbResult, got: Result<Control, JdtError>, after: Json) -> bool {
    match got {
        Ok(control) => expected == Ok::<(Json, Control), TransformError>((after, control)),
        Err(e) => expected == Err::<(Json, Control), TransformError>(e@),
    }
}

/// A step that returned `got` and left the node as `after` did what
/// `expected` says.
pub open spec fn step_agrees(
    expected: Result<Json, TransformError>,
    got: Result<(), JdtError>,
    after: Json,
) -> bool {
    match got {
        Ok(_) => expected == Ok::<Json, TransformError>(after),
        Err(e) => expected == Err::<Json, TransformError>(e@),
    }
}

/// The node as a failing delete of the paths from position `i` on leaves it:
/// what came before the root path at the document root is deleted.
pub open spec fn delete_each_failed(source: Json, paths: Seq<Path>, is_root: bool, i: nat) -> Json
    decreases paths.len() - i,
{
    if i >= paths.len() {
        source
    } else if paths[i as int].len() == 0 {
        if is_root {
            source
        } else {
            delete_each_failed(Json::Null, paths, is_root, i + 1)
        }
    } else {
        delete_each_failed(delete_at(source, paths[i as int]), paths, is_root, i + 1)
    }
}

/// The node as a failing `remove_paths` leaves it.
pub open spec fn remove_paths_failed(source: Json, paths: Seq<Path>, is_root: bool) -> Json {
    delete_each_failed(source, dedup_paths(sort_paths(paths)), is_root, 0)
}

/// The node as one failing argument of `@jdt.remove` leaves it: untouched,
/// but for a selector whose matches were deleted up to the root path.
pub open spec fn verb_remove_core_failed(source: Json, value: Json, is_root: bool) -> Json {
    match value {
        Json::Object(argument) => match selector_required_spec(argument) {
            Err(_) => source,
            Ok(selector) => remove_paths_failed(source, select(source, selector), is_root),
        },
        _ => source,
    }
}

/// The node as failing arguments of `@jdt.remove` from position `i` on leave
/// it: the arguments before the failing one are applied.
pub open spec fn verb_remove_each_failed(source: Json, items: Seq<Json>, is_root: bool, i: nat) -> Json
    decreases items.len() - i,
{
    if i >= items.len() {
        source
    } else {
        match verb_remove_core_spec(source, items[i as int], is_root) {
            Err(_) => verb_remove_core_failed(source, items[i as int], is_root),
            Ok((after, Control::Halt)) => after,
            Ok((after, Control::Continue)) => verb_remove_each_failed(after, items, is_root, i + 1),
        }
    }
}

/// The node as a failing `@jdt.remove` leaves it.
pub open spec fn verb_remove_failed(source: Json, value: Json, is_root: bool) -> Json {
    match value {
        Json::Array(items) => verb_remove_each_failed(source, items, is_root, 0),
        _ => verb_remove_core_failed(source, value, is_root),
    }
}

/// The node as a failing replace at the paths from position `i` on leaves
/// it: the replacement is written at the paths before the root path.
pub open spec fn replace_each_failed(
    source: Json,
    paths: Seq<Path>,
    replacement: Json,
    is_root: bool,
    i: nat,
) -> Json
    decreases paths.len() - i,
{
    if i >= paths.len() || paths[i as int].len() == 0 {
        source
    } else {
        replace_each_failed(
            set_at(source, paths[i as int], replacement),
            paths,
            replacement,
            is_root,
            i + 1,
        )
    }
}

/// The node as one failing argument of `@jdt.replace` leaves it.
pub open spec fn verb_replace_core_failed(source: Json, value: Json, is_root: bool) -> Json {
    match value {
        Json::Object(argument) => if is_attributed(argument) {
            match selector_required_spec(argument) {
                Err(_) => source,
                Ok(selector) => match obj_get(argument, ATTR_VALUE@) {
                    None => source,
                    Some(replacement) => replace_each_failed(
                        source,
                        select(source, selector),
                        replacement,
                        is_root,
                        0,
                    ),
                },
            }
        } else {
            source
        },
        _ => source,
    }
}

/// The node as failing arguments of `@jdt.replace` from position `i` on
/// leave it.
pub open spec fn verb_replace_each_failed(source: Json, items: Seq<Json>, is_root: bool, i: nat) -> Json
    decreases items.len() - i,
{
    if i >= items.len() {
        source
    } else {
        match verb_replace_core_spec(source, items[i as int], is_root) {
            Err(_) => verb_replace_core_failed(source, items[i as int], is_root),
            Ok((after, Control::Halt)) => after,
            Ok((after, Control::Continue)) => verb_replace_each_failed(after, items, is_root, i + 1),
        }
    }
}

/// The node as a failing `@jdt.replace` leaves it.
pub open spec fn verb_replace_failed(source: Json, value: Json, is_root: bool) -> Json {
    match value {
        Json::Array(items) => verb_replace_each_failed(source, items, is_root, 0),
        _ => verb_replace_core_failed(source, value, is_root),
    }
}

/// The document as a failing rename at the paths from position `i` on leaves
/// it: the properties before the failing path are renamed.
pub open spec fn rename_each_failed(source: Json, paths: Seq<Path>, new_name: Seq<char>, i: nat) -> Json
    decreases paths.len() - i,
{
    if i >= paths.len() {
        source
    } else {
        match rename_at_path_spec(source, paths[i as int], new_name) {
            Err(_) => source,
            Ok(after) => rename_each_failed(after, paths, new_name, i + 1),
        }
    }
}

/// The object as a failing direct mapping from position `i` on leaves it:
/// the entries before the one whose new name is no string are applied.
pub open spec fn rename_direct_failed(source: Entries, mapping: Entries, i: nat) -> Json
    decreases mapping.len() - i,
{
    if i >= mapping.len() {
        Json::Object(source)
    } else {
        match mapping[i as int].1 {
            Json::String(new_name) => rename_direct_failed(
                rename_key(source, mapping[i as int].0, new_name),
                mapping,
                i + 1,
            ),
            _ => Json::Object(source),
        }
    }
}

/// The node as one failing argument of `@jdt.rename` leaves it.
pub open spec fn verb_rename_core_failed(source: Json, value: Json) -> Json {
    match value {
        Json::Object(argument) => if is_attributed(argument) {
            match selector_required_spec(argument) {
                Err(_) => source,
                Ok(selector) => match obj_get(argument, ATTR_VALUE@) {
                    Some(Json::String(new_name)) => rename_each_failed(
                        source,
                        select(source, selector),
                        new_name,
                        0,
                    ),
                    _ => source,
                },
            }
        } else {
            match source {
                Json::Object(entries) => rename_direct_failed(entries, argument, 0),
                _ => source,
            }
        },
        _ => source,
    }
}

/// The node as failing arguments of `@jdt.rename` from position `i` on leave
/// it.
pub open spec fn verb_rename_each_failed(source: Json, items: Seq<Json>, i: nat) -> Json
    decreases items.len() - i,
{
    if i >= items.len() {
        source
    } else {
        match verb_rename_core_spec(source, items[i as int]) {
            Err(_) => verb_rename_core_failed(source, items[i as int]),
            Ok(after) => verb_rename_each_failed(after, items, i + 1),
        }
    }
}

/// The node as a failing `@jdt.rename` leaves it.
pub open spec fn verb_rename_failed(source: Json, value: Json) -> Json {
    match value {
        Json::Array(items) => verb_rename_each_failed(source, items, 0),
        _ => verb_rename_core_failed(source, value),
    }
}

/// The node as a failing `process_spec` leaves it: what was done before the
/// failing step stays done, and the failing step leaves what it leaves.
pub open spec fn process_failed(source: Json, transform: Json, is_root: bool) -> Json
    decreases transform, 0nat,
{
    match transform {
        Json::Object(t) => {
            let start = match source {
                Json::Object(s) => match recurse_prefix(s, t, t.len()) {
                    Err(_) => Err(Json::Object(recurse_failed(s, t, t.len()))),
                    Ok((entries, recursed)) => Ok((Json::Object(entries), recursed)),
                },
                _ => if has_data_key(t) {
                    Err(source)
                } else {
                    Ok((source, Seq::empty()))
                },
            };
            match start {
                Err(stopped) => stopped,
                Ok((s0, recursed)) => {
                    let removed = match obj_get(t, VERB_REMOVE@) {
                        Some(v) => verb_remove_spec(s0, v, is_root),
                        None => Ok((s0, Control::Continue)),
                    };
                    match removed {
                        Err(_) => verb_remove_failed(s0, obj_get(t, VERB_REMOVE@)->0, is_root),
                        Ok((after, Control::Halt)) => after,
                        Ok((s1, Control::Continue)) => {
                            let replaced = match obj_get(t, VERB_REPLACE@) {
                                Some(v) => verb_replace_spec(s1, v, is_root),
                                None => Ok((s1, Control::Continue)),
                            };
                            match replaced {
                                Err(_) => verb_replace_failed(
                                    s1,
                                    obj_get(t, VERB_REPLACE@)->0,
                                    is_root,
                                ),
                                Ok((after, Control::Halt)) => after,
                                Ok((s2, Control::Continue)) => {
                                    let renamed = match obj_get(t, VERB_RENAME@) {
                                        Some(v) => verb_rename_spec(s2, v),
                                        None => Ok((s2, Control::Continue)),
                                    };
                                    match renamed {
                                        Err(_) => verb_rename_failed(
                                            s2,
                                            obj_get(t, VERB_RENAME@)->0,
                                        ),
                                        Ok((s3, _)) => match obj_get(t, VERB_MERGE@) {
                                            Some(v) => match verb_merge_spec(s3, v, is_root) {
                                                Err(_) => verb_merge_failed(s3, v, is_root),
                                                Ok((s4, _)) => default_transform_spec(
                                                    s4,
                                                    t,
                                                    recursed,
                                                ),
                                            },
                                            None => default_transform_spec(s3, t, recursed),
                                        },
                                    }
                                },
                            }
                        },
                    }
                },
            }
        },
        _ => source,
    }
}

/// The entries as a failing step one of the pipeline leaves them: the
/// entries before the failing one are processed, and the value that the
/// failing one worked on is left as its processing left it.
pub open spec fn recurse_failed(source: Entries, transform: Entries, n: nat) -> Entries
    decreases transform, n,
{
    if n == 0 || n > transform.len() {
        source
    } else {
        match recurse_prefix(source, transform, (n - 1) as nat) {
            Err(_) => recurse_failed(source, transform, (n - 1) as nat),
            Ok((entries, _)) => {
                let key = transform[n - 1].0;
                if !is_jdt_syntax_spec(key) && transform[n - 1].1 is Object {
                    match obj_get(entries, key) {
                        Some(Json::Object(below)) => entries.update(
                            key_index(entries, key),
                            (key, process_failed(Json::Object(below), transform[n - 1].1, false)),
                        ),
                        _ => entries,
                    }
                } else {
                    entries
                }
            },
        }
    }
}

/// The node as a failing `merge_into_spec` leaves it.
pub open spec fn merge_into_failed(target: Json, value: Json, is_root: bool) -> Json
    decreases value, 1nat,
{
    match (target, value) {
        (Json::Object(_), Json::Object(_)) => process_failed(target, value, is_root),
        _ => target,
    }
}

/// The document as a failing merge at `path` leaves it.
pub open spec fn merge_at_path_failed(source: Json, path: Path, value: Json, is_root: bool) -> Json
    decreases value, 2nat,
{
    if path.len() == 0 {
        merge_into_failed(source, value, is_root)
    } else {
        match resolve(source, path) {
            None => source,
            Some(target) => replace_at(source, path, merge_into_failed(target, value, false)),
        }
    }
}

/// The document as a failing merge at the paths from position `i` on leaves
/// it: the paths before the failing one are merged.
pub open spec fn merge_each_failed(
    source: Json,
    paths: Seq<Path>,
    value: Json,
    is_root: bool,
    i: nat,
) -> Json
    decreases value, 3 + paths.len() - i,
{
    if i >= paths.len() {
        source
    } else {
        match merge_at_path_spec(source, paths[i as int], value, is_root) {
            Err(_) => merge_at_path_failed(source, paths[i as int], value, is_root),
            Ok(after) => merge_each_failed(after, paths, value, is_root, i + 1),
        }
    }
}

/// The node as one failing argument of `@jdt.merge` leaves it.
pub open spec fn verb_merge_core_failed(source: Json, value: Json, is_root: bool) -> Json
    decreases value, 1nat,
{
    match value {
        Json::Object(argument) => if is_attributed(argument) {
            match selector_required_spec(argument) {
                Err(_) => source,
                Ok(selector) => match obj_get(argument, ATTR_VALUE@) {
                    None => source,
                    Some(merge_value) => merge_each_failed(
                        source,
                        select(source, selector),
                        merge_value,
                        is_root,
                        0,
                    ),
                },
            }
        } else {
            process_failed(source, value, is_root)
        },
        _ => source,
    }
}

/// The node as failing arguments of `@jdt.merge` from position `i` on leave
/// it.
pub open spec fn verb_merge_each_failed(source: Json, items: Seq<Json>, is_root: bool, i: nat) -> Json
    decreases items, items.len() - i,
{
    if i >= items.len() {
        source
    } else {
        match verb_merge_core_spec(source, items[i as int], is_root) {
            Err(_) => verb_merge_core_failed(source, items[i as int], is_root),
            Ok(after) => verb_merge_each_failed(after, items, is_root, i + 1),
        }
    }
}

/// The node as a failing `@jdt.merge` leaves it.
pub open spec fn verb_merge_failed(source: Json, value: Json, is_root: bool) -> Json
    decreases value, 2nat,
{
    match value {
        Json::Array(items) => verb_merge_each_failed(source, items, is_root, 0),
        _ => verb_merge_core_failed(source, value, is_root),
    }
}

/// Where step one of the pipeline has failed, later entries change nothing
/// of what it leaves.
pub proof fn lemma_recurse_failed_stays(source: Entries, transform: Entries, m: nat, n: nat)
    requires
        m <= n <= transform.len(),
        recurse_prefix(source, transform, m) is Err,
    ensures
        recurse_failed(source, transform, n) == recurse_failed(source, transform, m),
    decreases n - m,
{
    if m < n {
        lemma_recurse_error_stays(source, transform, m, (n - 1) as nat);
        lemma_recurse_failed_stays(source, transform, m, (n - 1) as nat);
    }
}

} // verus!
