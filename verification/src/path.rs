//! Paths: a located node is an ordered sequence of steps from the root, each
//! an object key or an array index.
use crate::json::{
    has_key, is_key_index, items_view, key_index, lemma_items_view, lemma_key_index_is, obj_get,
    Json, JsonValue,
};
use crate::text::{decimal, push_decimal, str_equal};
use vstd::prelude::*;
use vstd::string::StringExecFns;

verus! {

/// One step of a path.
#[derive(Debug, Hash, PartialOrd, Ord)]
pub enum PathItem {
    Key(String),
    Index(usize),
}

/// Mathematical model of a step.
pub enum Step {
    Key(Seq<char>),
    Index(nat),
}

/// Mathematical model of a path; the empty path is the root.
pub type Path = Seq<Step>;

impl View for PathItem {
    type V = Step;

    open spec fn view(&self) -> Step {
        match self {
            PathItem::Key(k) => Step::Key(k@),
            PathItem::Index(i) => Step::Index(*i as nat),
        }
    }
}

/// The model of a sequence of steps.
pub open spec fn path_view(items: Seq<PathItem>) -> Path {
    items.map_values(|item: PathItem| item@)
}

/// The models of a list of paths.
pub open spec fn paths_view(paths: Seq<Vec<PathItem>>) -> Seq<Path> {
    paths.map_values(|p: Vec<PathItem>| path_view(p@))
}

impl PartialEq for PathItem {
    fn eq(&self, other: &PathItem) -> (r: bool) {
        match (self, other) {
            (PathItem::Key(a), PathItem::Key(b)) => str_equal(a.as_str(), b.as_str()),
            (PathItem::Index(a), PathItem::Index(b)) => *a == *b,
            _ => false,
        }
    }
}

impl vstd::std_specs::cmp::PartialEqSpecImpl for PathItem {
    open spec fn obeys_eq_spec() -> bool {
        true
    }

    open spec fn eq_spec(&self, other: &PathItem) -> bool {
        self@ == other@
    }
}

impl Eq for PathItem {

}

impl Clone for PathItem {
    fn clone(&self) -> (r: PathItem)
        ensures
            r@ == self@,
    {
        match self {
            PathItem::Key(k) => PathItem::Key(k.clone()),
            PathItem::Index(i) => PathItem::Index(*i),
        }
    }
}

/// How a step is written: `.key` or `[index]`.
pub open spec fn step_text(step: Step) -> Seq<char> {
    match step {
        Step::Key(k) => seq!['.'] + k,
        Step::Index(i) => seq!['['] + decimal(i) + seq![']'],
    }
}

impl PathItem {
    /// The step as text: `.key` for a key, `[index]` for an index.
    pub fn to_string(&self) -> (r: String)
        ensures
            r@ == step_text(self@),
    {
        proof {
            reveal_strlit(".");
            reveal_strlit("[");
            reveal_strlit("]");
        }
        match self {
            PathItem::Key(k) => {
                let mut out = String::from_str(".");
                out.append(k.as_str());
                assert(out@ =~= step_text(self@));
                out
            },
            PathItem::Index(i) => {
                let mut out = String::from_str("[");
                push_decimal(&mut out, *i);
                out.append("]");
                assert(out@ =~= step_text(self@));
                out
            },
        }
    }
}

/// A copy of a path.
pub fn clone_path(path: &Vec<PathItem>) -> (r: Vec<PathItem>)
    ensures
        path_view(r@) == path_view(path@),
{
    let mut out: Vec<PathItem> = Vec::new();
    let mut i: usize = 0;
    while i < path.len()
        invariant
            i <= path.len(),
            out.len() == i,
            forall|k: int| 0 <= k < i ==> (#[trigger] out@[k])@ == path@[k]@,
        decreases path.len() - i,
    {
        out.push(path[i].clone());
        i += 1;
    }
    assert(path_view(out@) =~= path_view(path@));
    out
}

/// The node one step below `node`, if the step exists there.
pub open spec fn child(node: Json, step: Step) -> Option<Json> {
    match (node, step) {
        (Json::Object(entries), Step::Key(k)) => obj_get(entries, k),
        (Json::Array(items), Step::Index(i)) => if i < items.len() {
            Some(items[i as int])
        } else {
            None
        },
        _ => None,
    }
}

/// `node` with the node one step below it replaced; `node` itself where the
/// step does not exist.
pub open spec fn with_child(node: Json, step: Step, new: Json) -> Json {
    match (node, step) {
        (Json::Object(entries), Step::Key(k)) => if has_key(entries, k) {
            Json::Object(entries.update(key_index(entries, k), (k, new)))
        } else {
            node
        },
        (Json::Array(items), Step::Index(i)) => if i < items.len() {
            Json::Array(items.update(i as int, new))
        } else {
            node
        },
        _ => node,
    }
}

/// The node that `path` leads to from `root`, if every step exists.
pub open spec fn resolve(root: Json, path: Path) -> Option<Json>
    decreases path.len(),
{
    if path.len() == 0 {
        Some(root)
    } else {
        match resolve(root, path.drop_last()) {
            Some(node) => child(node, path.last()),
            None => None,
        }
    }
}

/// `root` with the node at `path` replaced by `new`; `root` itself where the
/// path does not resolve.
pub open spec fn replace_at(root: Json, path: Path, new: Json) -> Json
    decreases path.len(),
{
    if path.len() == 0 {
        new
    } else {
        match child(root, path[0]) {
            Some(c) => with_child(root, path[0], replace_at(c, path.drop_first(), new)),
            None => root,
        }
    }
}

/// Resolving a path is taking its first step and resolving the rest.
pub proof fn lemma_resolve_front(root: Json, path: Path)
    requires
        path.len() > 0,
    ensures
        resolve(root, path) == match child(root, path[0]) {
            Some(c) => resolve(c, path.drop_first()),
            None => None,
        },
    decreases path.len(),
{
    if path.len() == 1 {
        assert(path.drop_last() =~= Seq::<Step>::empty());
        assert(path.drop_first() =~= Seq::<Step>::empty());
        assert(resolve(root, path.drop_last()) == Some(root));
        assert(path.last() == path[0]);
    } else {
        let front = path.drop_last();
        lemma_resolve_front(root, front);
        assert(front[0] == path[0]);
        assert(front.drop_first() =~= path.drop_first().drop_last());
        assert(path.drop_first().last() == path.last());
        match child(root, path[0]) {
            Some(c) => {
                assert(resolve(c, path.drop_first()) == match resolve(
                    c,
                    path.drop_first().drop_last(),
                ) {
                    Some(node) => child(node, path.drop_first().last()),
                    None => None,
                });
            },
            None => {},
        }
    }
}

/// Extending a path by one step resolves to the child of what it resolved to.
pub proof fn lemma_resolve_push(root: Json, path: Path, step: Step)
    ensures
        resolve(root, path.push(step)) == match resolve(root, path) {
            Some(node) => child(node, step),
            None => None,
        },
{
    assert(path.push(step).drop_last() =~= path);
    assert(path.push(step).last() == step);
}

/// The node one step below `node`.
pub fn child_of<'a>(node: &'a JsonValue, item: &PathItem) -> (r: Option<&'a JsonValue>)
    ensures
        match r {
            Some(c) => child(node@, item@) == Some(c@),
            None => child(node@, item@) is None,
        },
{
    match (node, item) {
        (JsonValue::Object(object), PathItem::Key(k)) => object.get(k.as_str()),
        (JsonValue::Array(items), PathItem::Index(i)) => {
            proof {
                lemma_items_view(items@);
            }
            if *i < items.len() {
                Some(&items[*i])
            } else {
                None
            }
        },
        _ => None,
    }
}

/// A mutable borrow of the node one step below `node`.
pub fn child_mut<'a>(node: &'a mut JsonValue, item: &PathItem) -> (r: Option<&'a mut JsonValue>)
    ensures
        match r {
            Some(c) => child(old(node)@, item@) == Some(c@) && final(node)@ == with_child(
                old(node)@,
                item@,
                final(c)@,
            ),
            None => child(old(node)@, item@) is None && final(node)@ == old(node)@,
        },
{
    match (node, item) {
        (JsonValue::Object(object), PathItem::Key(k)) => {
            let r = object.get_mut(k.as_str());
            r
        },
        (JsonValue::Array(items), PathItem::Index(i)) => {
            proof {
                lemma_items_view(items@);
            }
            if *i < items.len() {
                let ghost before = items@;
                let c = &mut items[*i];
                proof {
                    let after = before.update(*i as int, *final(c));
                    lemma_items_view(after);
                    assert(items_view(after) =~= items_view(before).update(*i as int, final(c)@));
                }
                Some(c)
            } else {
                None
            }
        },
        _ => None,
    }
}

/// The node at `path` below `root`.
pub fn get_at<'a>(root: &'a JsonValue, path: &[PathItem]) -> (r: Option<&'a JsonValue>)
    ensures
        match r {
            Some(node) => resolve(root@, path_view(path@)) == Some(node@),
            None => resolve(root@, path_view(path@)) is None,
        },
{
    let mut cur = root;
    let mut i: usize = 0;
    while i < path.len()
        invariant
            i <= path.len(),
            resolve(root@, path_view(path@.subrange(0, i as int))) == Some(cur@),
        decreases path.len() - i,
    {
        proof {
            let done = path_view(path@.subrange(0, i as int));
            lemma_resolve_push(root@, done, path@[i as int]@);
            assert(done.push(path@[i as int]@) =~= path_view(path@.subrange(0, i + 1)));
        }
        match child_of(cur, &path[i]) {
            Some(c) => {
                cur = c;
            },
            None => {
                proof {
                    assert(path_view(path@).subrange(0, i + 1) =~= path_view(
                        path@.subrange(0, i + 1),
                    ));
                    lemma_resolve_prefix_fails(root@, path_view(path@), i + 1);
                }
                return None;
            },
        }
        i += 1;
    }
    assert(path@.subrange(0, i as int) =~= path@);
    Some(cur)
}

/// A path of which a prefix does not resolve does not resolve.
pub proof fn lemma_resolve_prefix_fails(root: Json, path: Path, n: int)
    requires
        0 <= n <= path.len(),
        resolve(root, path.subrange(0, n)) is None,
    ensures
        resolve(root, path) is None,
    decreases path.len() - n,
{
    if n == path.len() {
        assert(path.subrange(0, n) =~= path);
    } else {
        lemma_resolve_push(root, path.subrange(0, n), path[n]);
        assert(path.subrange(0, n).push(path[n]) =~= path.subrange(0, n + 1));
        lemma_resolve_prefix_fails(root, path, n + 1);
    }
}

/// Putting a child back where it stands changes nothing.
pub proof fn lemma_with_child_same(node: Json, step: Step)
    requires
        child(node, step) is Some,
    ensures
        with_child(node, step, child(node, step)->0) == node,
{
    match (node, step) {
        (Json::Object(entries), Step::Key(k)) => {
            let i = key_index(entries, k);
            assert(entries.update(i, (k, entries[i].1)) =~= entries);
        },
        (Json::Array(items), Step::Index(i)) => {
            assert(items.update(i as int, items[i as int]) =~= items);
        },
        _ => {},
    }
}

/// Putting the node at a path in its own place changes nothing.
pub proof fn lemma_replace_at_same(source: Json, path: Path)
    requires
        resolve(source, path) is Some,
    ensures
        replace_at(source, path, resolve(source, path)->0) == source,
    decreases path.len(),
{
    if path.len() > 0 {
        lemma_resolve_front(source, path);
        let below = child(source, path[0])->0;
        lemma_replace_at_same(below, path.drop_first());
        lemma_with_child_same(source, path[0]);
    }
}

/// A child that was put in place is the child, and putting another in its
/// place is as if the first had never been put.
pub proof fn lemma_with_child_twice(node: Json, step: Step, first: Json, second: Json)
    requires
        child(node, step) is Some,
    ensures
        child(with_child(node, step, first), step) == Some(first),
        with_child(with_child(node, step, first), step, second) == with_child(node, step, second),
{
    match (node, step) {
        (Json::Object(entries), Step::Key(k)) => {
            let i = key_index(entries, k);
            let once = entries.update(i, (k, first));
            assert(is_key_index(once, k, i)) by {
                assert forall|j: int| 0 <= j < i implies (#[trigger] once[j]).0 != k by {
                    assert(once[j] == entries[j]);
                }
            }
            lemma_key_index_is(once, k, i);
            assert(once.update(i, (k, second)) =~= entries.update(i, (k, second)));
        },
        (Json::Array(items), Step::Index(i)) => {
            assert(items.update(i as int, first).update(i as int, second) =~= items.update(
                i as int,
                second,
            ));
        },
        _ => {},
    }
}

/// A node that was put at a path is the node at that path, and putting
/// another in its place is as if the first had never been put.
pub proof fn lemma_replace_at_twice(root: Json, path: Path, first: Json, second: Json)
    requires
        resolve(root, path) is Some,
    ensures
        resolve(replace_at(root, path, first), path) == Some(first),
        replace_at(replace_at(root, path, first), path, second) == replace_at(root, path, second),
    decreases path.len(),
{
    if path.len() > 0 {
        lemma_resolve_front(root, path);
        let below = child(root, path[0])->0;
        let rest = path.drop_first();
        lemma_replace_at_twice(below, rest, first, second);
        let once = replace_at(root, path, first);
        lemma_with_child_twice(root, path[0], replace_at(below, rest, first), replace_at(
            below,
            rest,
            second,
        ));
        lemma_resolve_front(once, path);
    }
}

/// A mutable borrow of the node at `path` below `root`. What is written
/// through it replaces that node in `root`.
pub fn get_mut_at<'a>(root: &'a mut JsonValue, path: &[PathItem]) -> (r: Option<&'a mut JsonValue>)
    ensures
        match r {
            Some(node) => resolve(old(root)@, path_view(path@)) == Some(node@) && final(root)@
                == replace_at(old(root)@, path_view(path@), final(node)@),
            None => resolve(old(root)@, path_view(path@)) is None && final(root)@ == old(root)@,
        },
{
    let r = get_mut_from(root, path, 0);
    proof {
        assert(path@.subrange(0, path@.len() as int) =~= path@);
    }
    r
}

fn get_mut_from<'a>(root: &'a mut JsonValue, path: &[PathItem], from: usize) -> (r: Option<
    &'a mut JsonValue,
>)
    requires
        from <= path@.len(),
    ensures
        match r {
            Some(node) => resolve(old(root)@, path_view(path@.subrange(from as int, path@.len() as int)))
                == Some(node@) && final(root)@ == replace_at(
                old(root)@,
                path_view(path@.subrange(from as int, path@.len() as int)),
                final(node)@,
            ),
            None => resolve(
                old(root)@,
                path_view(path@.subrange(from as int, path@.len() as int)),
            ) is None && final(root)@ == old(root)@,
        },
    decreases path@.len() - from,
{
    let ghost rest = path_view(path@.subrange(from as int, path@.len() as int));
    if from == path.len() {
        assert(rest.len() == 0);
        return Some(root);
    }
    proof {
        lemma_resolve_front(root@, rest);
        assert(rest[0] == path@[from as int]@);
        assert(rest.drop_first() =~= path_view(
            path@.subrange(from as int + 1, path@.len() as int),
        ));
    }
    match child_mut(root, &path[from]) {
        Some(c) => {
            let ghost below = c@;
            let r = get_mut_from(c, path, from + 1);
            proof {
                assert forall|new: Json| #[trigger]
                    replace_at(old(root)@, rest, new) == with_child(
                        old(root)@,
                        rest[0],
                        replace_at(below, rest.drop_first(), new),
                    ) by {}
                lemma_with_child_same(old(root)@, rest[0]);
            }
            r
        },
        None => None,
    }
}

} // verus!
