//! Selectors: a restricted JSONPath dialect, evaluated to the paths of the
//! nodes it matches.
use crate::json::{
    items_view, json_eq, lemma_has_key_from_any, lemma_items_view, obj_get, Entries, Json,
    JsonValue,
};
use crate::path::{
    child, clone_path, get_at, lemma_resolve_push, path_view, paths_view, resolve, Path, PathItem,
    Step,
};
use crate::text::str_equal;
use vstd::prelude::*;

verus! {

/// A test on a candidate node, written `?(@.name)` or `?(@.name == literal)`.
#[derive(Debug)]
pub enum FilterExpr {
    Exists(String),
    Equals(String, JsonValue),
}

/// One segment of a selector.
#[derive(Debug)]
pub enum Segment {
    Child(String),
    Index(i64),
    UnionIndices(Vec<i64>),
    Filter(FilterExpr),
}

/// A parsed selector.
#[derive(Debug)]
pub struct JsonPath {
    segments: Vec<Segment>,
}

/// Why a selector was not accepted.
#[derive(Debug)]
pub enum JsonPathError {
    /// Nothing is left once a byte order mark and surrounding whitespace are
    /// taken away.
    Empty,
    /// The text leaves the grammar at byte offset `at`.
    Invalid { at: usize, msg: &'static str },
    /// The text asks for a feature outside the dialect.
    Unsupported(&'static str),
    /// More segments than `MAX_SEGMENTS`.
    TooDeep,
}

/// Mathematical model of a selector error.
pub enum PathError {
    Empty,
    Invalid { at: nat, msg: Seq<char> },
    Unsupported(Seq<char>),
    TooDeep,
}

impl View for JsonPathError {
    type V = PathError;

    open spec fn view(&self) -> PathError {
        match self {
            JsonPathError::Empty => PathError::Empty,
            JsonPathError::Invalid { at, msg } => PathError::Invalid { at: *at as nat, msg: msg@ },
            JsonPathError::Unsupported(feature) => PathError::Unsupported(feature@),
            JsonPathError::TooDeep => PathError::TooDeep,
        }
    }
}

/// The most segments that a selector may have.
pub const MAX_SEGMENTS: usize = 256;

/// Mathematical model of a filter.
pub enum FilterModel {
    Exists(Seq<char>),
    Equals(Seq<char>, Json),
}

/// Mathematical model of a segment.
pub enum SegmentModel {
    Child(Seq<char>),
    Index(int),
    UnionIndices(Seq<int>),
    Filter(FilterModel),
}

impl View for FilterExpr {
    type V = FilterModel;

    open spec fn view(&self) -> FilterModel {
        match self {
            FilterExpr::Exists(name) => FilterModel::Exists(name@),
            FilterExpr::Equals(name, literal) => FilterModel::Equals(name@, literal@),
        }
    }
}

/// A list of machine integers as mathematical integers.
pub open spec fn ints(values: Seq<i64>) -> Seq<int> {
    values.map_values(|i: i64| i as int)
}

impl View for Segment {
    type V = SegmentModel;

    open spec fn view(&self) -> SegmentModel {
        match self {
            Segment::Child(name) => SegmentModel::Child(name@),
            Segment::Index(i) => SegmentModel::Index(*i as int),
            Segment::UnionIndices(indices) => SegmentModel::UnionIndices(ints(indices@)),
            Segment::Filter(expr) => SegmentModel::Filter(expr@),
        }
    }
}

/// The models of a list of segments.
pub open spec fn segments_view(segments: Seq<Segment>) -> Seq<SegmentModel> {
    segments.map_values(|s: Segment| s@)
}

impl View for JsonPath {
    type V = Seq<SegmentModel>;

    closed spec fn view(&self) -> Seq<SegmentModel> {
        segments_view(self.segments@)
    }
}

impl JsonPath {
    /// The selector made of the given segments.
    pub fn from_segments(segments: Vec<Segment>) -> (r: JsonPath)
        ensures
            r@ == segments_view(segments@),
    {
        JsonPath { segments }
    }
}

/// The position that `index` names in an array of `len` items: itself where
/// it is not negative, `len + index` where it is; nothing out of range.
pub open spec fn normalize_index_spec(index: int, len: nat) -> Option<nat> {
    if index >= 0 {
        if index < len {
            Some(index as nat)
        } else {
            None
        }
    } else {
        if -index <= len {
            Some((len + index) as nat)
        } else {
            None
        }
    }
}

/// The position that `index` names in an array of `len` items: a negative
/// index counts from the end; an index out of range names none.
pub fn normalize_index(index: i64, len: usize) -> (r: Option<usize>)
    ensures
        match r {
            Some(i) => normalize_index_spec(index as int, len as nat) == Some(i as nat),
            None => normalize_index_spec(index as int, len as nat) is None,
        },
{
    if index >= 0 {
        if (index as u64) < (len as u64) {
            Some(index as usize)
        } else {
            None
        }
    } else {
        let back: u64 = if index == i64::MIN {
            0x8000_0000_0000_0000u64
        } else {
            (-index) as u64
        };
        if back <= len as u64 {
            Some(len - back as usize)
        } else {
            None
        }
    }
}

/// Whether a candidate passes a filter: it is an object, holds the name, and
/// the value there is not null (`Exists`) or equals the literal (`Equals`).
pub open spec fn filter_matches_spec(expr: FilterModel, candidate: Json) -> bool {
    match candidate {
        Json::Object(entries) => match expr {
            FilterModel::Exists(name) => match obj_get(entries, name) {
                Some(v) => !(v is Null),
                None => false,
            },
            FilterModel::Equals(name, literal) => match obj_get(entries, name) {
                Some(v) => json_eq(v, literal),
                None => false,
            },
        },
        _ => false,
    }
}

/// The steps of the in-range indices of a union, in the order written.
pub open spec fn union_steps(indices: Seq<int>, len: nat) -> Seq<Step>
    decreases indices.len(),
{
    if indices.len() == 0 {
        Seq::empty()
    } else {
        let front = union_steps(indices.drop_last(), len);
        match normalize_index_spec(indices.last(), len) {
            Some(i) => front.push(Step::Index(i)),
            None => front,
        }
    }
}

/// The positions of the items that pass the filter, ascending.
pub open spec fn filter_array_steps(expr: FilterModel, items: Seq<Json>) -> Seq<Step>
    decreases items.len(),
{
    if items.len() == 0 {
        Seq::empty()
    } else {
        let front = filter_array_steps(expr, items.drop_last());
        if filter_matches_spec(expr, items.last()) {
            front.push(Step::Index((items.len() - 1) as nat))
        } else {
            front
        }
    }
}

/// The keys of the entries whose value passes the filter, in entry order.
pub open spec fn filter_object_steps(expr: FilterModel, entries: Entries) -> Seq<Step>
    decreases entries.len(),
{
    if entries.len() == 0 {
        Seq::empty()
    } else {
        let front = filter_object_steps(expr, entries.drop_last());
        if filter_matches_spec(expr, entries.last().1) {
            front.push(Step::Key(entries.last().0))
        } else {
            front
        }
    }
}

/// The steps by which a segment leads on from `node`, in order.
pub open spec fn segment_steps(segment: SegmentModel, node: Json) -> Seq<Step> {
    match segment {
        SegmentModel::Child(name) => match node {
            Json::Object(entries) => if obj_get(entries, name) is Some {
                seq![Step::Key(name)]
            } else {
                Seq::empty()
            },
            _ => Seq::empty(),
        },
        SegmentModel::Index(index) => match node {
            Json::Array(items) => match normalize_index_spec(index, items.len()) {
                Some(i) => seq![Step::Index(i)],
                None => Seq::empty(),
            },
            _ => Seq::empty(),
        },
        SegmentModel::UnionIndices(indices) => match node {
            Json::Array(items) => union_steps(indices, items.len()),
            _ => Seq::empty(),
        },
        SegmentModel::Filter(expr) => match node {
            Json::Array(items) => filter_array_steps(expr, items),
            Json::Object(entries) => filter_object_steps(expr, entries),
            _ => Seq::empty(),
        },
    }
}

/// `path` extended by each of `steps`.
pub open spec fn extend_path(path: Path, steps: Seq<Step>) -> Seq<Path> {
    steps.map_values(|s: Step| path.push(s))
}

/// The paths that a segment makes of one path: none where the path does not
/// resolve.
pub open spec fn segment_paths(root: Json, segment: SegmentModel, path: Path) -> Seq<Path> {
    match resolve(root, path) {
        Some(node) => extend_path(path, segment_steps(segment, node)),
        None => Seq::empty(),
    }
}

/// The paths that a segment makes of a list of paths, in order.
pub open spec fn apply_segment(root: Json, segment: SegmentModel, paths: Seq<Path>) -> Seq<Path>
    decreases paths.len(),
{
    if paths.len() == 0 {
        Seq::empty()
    } else {
        apply_segment(root, segment, paths.drop_last()) + segment_paths(
            root,
            segment,
            paths.last(),
        )
    }
}

/// The paths that a selector matches below `root`: the root path, led on by
/// each segment in turn.
pub open spec fn select(root: Json, selector: Seq<SegmentModel>) -> Seq<Path>
    decreases selector.len(),
{
    if selector.len() == 0 {
        seq![Seq::<Step>::empty()]
    } else {
        apply_segment(root, selector.last(), select(root, selector.drop_last()))
    }
}

/// Whether a candidate passes a filter.
pub fn filter_matches(expr: &FilterExpr, candidate: &JsonValue) -> (r: bool)
    ensures
        r == filter_matches_spec(expr@, candidate@),
{
    match candidate {
        JsonValue::Object(object) => match expr {
            FilterExpr::Exists(name) => match object.get(name.as_str()) {
                Some(v) => match v {
                    JsonValue::Null => false,
                    _ => true,
                },
                None => false,
            },
            FilterExpr::Equals(name, literal) => match object.get(name.as_str()) {
                Some(v) => v.equals(literal),
                None => false,
            },
        },
        _ => false,
    }
}

/// A copy of `path` with one more step.
fn extended(path: &Vec<PathItem>, item: PathItem) -> (r: Vec<PathItem>)
    ensures
        path_view(r@) == path_view(path@).push(item@),
{
    let mut p = clone_path(path);
    let ghost before = p@;
    p.push(item);
    proof {
        assert(path_view(before.push(item)) =~= path_view(before).push(item@));
    }
    p
}

/// Appends `path`, extended by one step, to `next`.
fn push_extended(next: &mut Vec<Vec<PathItem>>, path: &Vec<PathItem>, item: PathItem)
    ensures
        paths_view(final(next)@) == paths_view(old(next)@).push(path_view(path@).push(item@)),
{
    let p = extended(path, item);
    let ghost before = next@;
    next.push(p);
    proof {
        assert(paths_view(before.push(p)) =~= paths_view(before).push(path_view(p@)));
    }
}

/// Appends to `next` the paths by which `segment` leads on from `node`, the
/// node at `path`.
fn push_segment_paths(
    segment: &Segment,
    node: &JsonValue,
    path: &Vec<PathItem>,
    next: &mut Vec<Vec<PathItem>>,
)
    ensures
        paths_view(final(next)@) == paths_view(old(next)@) + extend_path(
            path_view(path@),
            segment_steps(segment@, node@),
        ),
{
    let ghost base = paths_view(next@);
    let ghost p = path_view(path@);
    proof {
        assert(base + extend_path(p, Seq::<Step>::empty()) =~= base);
    }
    match segment {
        Segment::Child(name) => {
            if let JsonValue::Object(object) = node {
                if object.contains_key(name.as_str()) {
                    push_extended(next, path, PathItem::Key(name.clone()));
                    proof {
                        assert(base.push(p.push(Step::Key(name@))) =~= base + extend_path(
                            p,
                            seq![Step::Key(name@)],
                        ));
                    }
                }
            }
        },
        Segment::Index(index) => {
            if let JsonValue::Array(items) = node {
                proof {
                    lemma_items_view(items@);
                }
                if let Some(i) = normalize_index(*index, items.len()) {
                    push_extended(next, path, PathItem::Index(i));
                    proof {
                        assert(base.push(p.push(Step::Index(i as nat))) =~= base + extend_path(
                            p,
                            seq![Step::Index(i as nat)],
                        ));
                    }
                }
            }
        },
        Segment::UnionIndices(indices) => {
            if let JsonValue::Array(items) = node {
                proof {
                    lemma_items_view(items@);
                }
                let ghost all = ints(indices@);
                let ghost len = items@.len();
                let mut k: usize = 0;
                while k < indices.len()
                    invariant
                        k <= indices.len(),
                        len == items.len(),
                        all == ints(indices@),
                        p == path_view(path@),
                        paths_view(next@) == base + extend_path(
                            p,
                            union_steps(all.subrange(0, k as int), len),
                        ),
                    decreases indices.len() - k,
                {
                    let ghost done = union_steps(all.subrange(0, k as int), len);
                    proof {
                        assert(all.subrange(0, k + 1).drop_last() =~= all.subrange(0, k as int));
                        assert(all.subrange(0, k + 1).last() == indices@[k as int] as int);
                    }
                    if let Some(i) = normalize_index(indices[k], items.len()) {
                        push_extended(next, path, PathItem::Index(i));
                        proof {
                            assert((base + extend_path(p, done)).push(p.push(Step::Index(i as nat)))
                                =~= base + extend_path(p, done.push(Step::Index(i as nat))));
                        }
                    }
                    k += 1;
                }
                proof {
                    assert(all.subrange(0, k as int) =~= all);
                }
            }
        },
        Segment::Filter(expr) => match node {
            JsonValue::Array(items) => {
                proof {
                    lemma_items_view(items@);
                }
                let ghost all = items_view(items@);
                let mut k: usize = 0;
                while k < items.len()
                    invariant
                        k <= items.len(),
                        all == items_view(items@),
                        all.len() == items.len(),
                        forall|j: int| 0 <= j < items.len() ==> (#[trigger] all[j]) == items@[j]@,
                        p == path_view(path@),
                        paths_view(next@) == base + extend_path(
                            p,
                            filter_array_steps(expr@, all.subrange(0, k as int)),
                        ),
                    decreases items.len() - k,
                {
                    let ghost done = filter_array_steps(expr@, all.subrange(0, k as int));
                    proof {
                        assert(all.subrange(0, k + 1).drop_last() =~= all.subrange(0, k as int));
                        assert(all.subrange(0, k + 1).last() == items@[k as int]@);
                    }
                    if filter_matches(expr, &items[k]) {
                        push_extended(next, path, PathItem::Index(k));
                        proof {
                            assert((base + extend_path(p, done)).push(p.push(Step::Index(k as nat)))
                                =~= base + extend_path(p, done.push(Step::Index(k as nat))));
                        }
                    }
                    k += 1;
                }
                proof {
                    assert(all.subrange(0, k as int) =~= all);
                }
            },
            JsonValue::Object(object) => {
                let ghost all = object@;
                let n = object.len();
                let mut k: usize = 0;
                while k < n
                    invariant
                        k <= n,
                        n == all.len(),
                        all == object@,
                        p == path_view(path@),
                        paths_view(next@) == base + extend_path(
                            p,
                            filter_object_steps(expr@, all.subrange(0, k as int)),
                        ),
                    decreases n - k,
                {
                    let ghost done = filter_object_steps(expr@, all.subrange(0, k as int));
                    proof {
                        assert(all.subrange(0, k + 1).drop_last() =~= all.subrange(0, k as int));
                        assert(all.subrange(0, k + 1).last() == all[k as int]);
                    }
                    if filter_matches(expr, object.value_at(k)) {
                        let key = object.key_at(k).clone();
                        push_extended(next, path, PathItem::Key(key));
                        proof {
                            assert((base + extend_path(p, done)).push(p.push(Step::Key(key@)))
                                =~= base + extend_path(p, done.push(Step::Key(key@))));
                        }
                    }
                    k += 1;
                }
                proof {
                    assert(all.subrange(0, k as int) =~= all);
                }
            },
            _ => {},
        },
    }
}

impl JsonPath {
    /// The paths of the nodes that the selector matches below `root`, in a
    /// fixed order; a union may yield a path more than once.
    pub fn select_paths(&self, root: &JsonValue) -> (r: Vec<Vec<PathItem>>)
        ensures
            paths_view(r@) == select(root@, self@),
    {
        let mut current: Vec<Vec<PathItem>> = Vec::new();
        current.push(Vec::new());
        proof {
            assert(path_view(current@[0]@) =~= Seq::<Step>::empty());
            assert(paths_view(current@) =~= seq![Seq::<Step>::empty()]);
            assert(self@.subrange(0, 0) =~= Seq::<SegmentModel>::empty());
        }
        let mut s: usize = 0;
        while s < self.segments.len()
            invariant
                s <= self.segments.len(),
                self@.len() == self.segments.len(),
                forall|j: int| 0 <= j < self.segments.len() ==> (#[trigger] self@[j])
                    == self.segments@[j]@,
                paths_view(current@) == select(root@, self@.subrange(0, s as int)),
            decreases self.segments.len() - s,
        {
            let segment = &self.segments[s];
            let mut next: Vec<Vec<PathItem>> = Vec::new();
            let ghost before = paths_view(current@);
            proof {
                assert(paths_view(next@) =~= Seq::<Path>::empty());
                assert(before.subrange(0, 0) =~= Seq::<Path>::empty());
            }
            let mut i: usize = 0;
            while i < current.len()
                invariant
                    i <= current.len(),
                    before == paths_view(current@),
                    paths_view(next@) == apply_segment(root@, segment@, before.subrange(0, i as int)),
                decreases current.len() - i,
            {
                proof {
                    assert(before.subrange(0, i + 1).drop_last() =~= before.subrange(0, i as int));
                    assert(before.subrange(0, i + 1).last() == path_view(current@[i as int]@));
                }
                let ghost done = paths_view(next@);
                match get_at(root, current[i].as_slice()) {
                    Some(node) => {
                        push_segment_paths(segment, node, &current[i], &mut next);
                    },
                    None => {
                        assert(done + Seq::<Path>::empty() =~= done);
                    },
                }
                i += 1;
            }
            proof {
                assert(before.subrange(0, i as int) =~= before);
                assert(self@.subrange(0, s + 1).drop_last() =~= self@.subrange(0, s as int));
                assert(self@.subrange(0, s + 1).last() == segment@);
            }
            current = next;
            s += 1;
        }
        proof {
            assert(self@.subrange(0, s as int) =~= self@);
        }
        current
    }
}

/// Every step of a union is an index inside the array.
pub proof fn lemma_union_steps_in_range(indices: Seq<int>, len: nat, k: int)
    requires
        0 <= k < union_steps(indices, len).len(),
    ensures
        union_steps(indices, len)[k] matches Step::Index(i) && i < len,
    decreases indices.len(),
{
    if indices.len() > 0 {
        let front = union_steps(indices.drop_last(), len);
        if k < front.len() {
            lemma_union_steps_in_range(indices.drop_last(), len, k);
        }
    }
}

/// Every step of a filter on an array is an index inside the array.
pub proof fn lemma_filter_array_steps_in_range(expr: FilterModel, items: Seq<Json>, k: int)
    requires
        0 <= k < filter_array_steps(expr, items).len(),
    ensures
        filter_array_steps(expr, items)[k] matches Step::Index(i) && i < items.len(),
    decreases items.len(),
{
    if items.len() > 0 {
        let front = filter_array_steps(expr, items.drop_last());
        if k < front.len() {
            lemma_filter_array_steps_in_range(expr, items.drop_last(), k);
        }
    }
}

/// Every step of a filter on an object is a key of one of its entries.
pub proof fn lemma_filter_object_steps_are_keys(expr: FilterModel, entries: Entries, k: int)
    requires
        0 <= k < filter_object_steps(expr, entries).len(),
    ensures
        filter_object_steps(expr, entries)[k] matches Step::Key(key) && exists|j: int|
            0 <= j < entries.len() && (#[trigger] entries[j]).0 == key,
    decreases entries.len(),
{
    if entries.len() > 0 {
        let front = filter_object_steps(expr, entries.drop_last());
        if k < front.len() {
            lemma_filter_object_steps_are_keys(expr, entries.drop_last(), k);
            let key = front[k]->Key_0;
            let j = choose|j: int|
                0 <= j < entries.drop_last().len() && (#[trigger] entries.drop_last()[j]).0 == key;
            assert(entries[j].0 == key);
        } else {
            assert(entries[entries.len() - 1].0 == entries.last().0);
        }
    }
}

/// Every step by which a segment leads on from a node exists below that node.
pub proof fn lemma_segment_steps_exist(segment: SegmentModel, node: Json, k: int)
    requires
        0 <= k < segment_steps(segment, node).len(),
    ensures
        child(node, segment_steps(segment, node)[k]) is Some,
{
    match segment {
        SegmentModel::Child(name) => {},
        SegmentModel::Index(index) => {},
        SegmentModel::UnionIndices(indices) => {
            if let Json::Array(items) = node {
                lemma_union_steps_in_range(indices, items.len(), k);
            }
        },
        SegmentModel::Filter(expr) => match node {
            Json::Array(items) => {
                lemma_filter_array_steps_in_range(expr, items, k);
            },
            Json::Object(entries) => {
                lemma_filter_object_steps_are_keys(expr, entries, k);
                let key = filter_object_steps(expr, entries)[k]->Key_0;
                let j = choose|j: int| 0 <= j < entries.len() && (#[trigger] entries[j]).0 == key;
                lemma_has_key_from_any(entries, key, j);
            },
            _ => {},
        },
    }
}

/// Where every path of a list resolves, so does every path that a segment
/// makes of the list.
pub proof fn lemma_apply_segment_resolves(
    root: Json,
    segment: SegmentModel,
    paths: Seq<Path>,
    k: int,
)
    requires
        0 <= k < apply_segment(root, segment, paths).len(),
    ensures
        resolve(root, apply_segment(root, segment, paths)[k]) is Some,
    decreases paths.len(),
{
    if paths.len() > 0 {
        let front = apply_segment(root, segment, paths.drop_last());
        if k < front.len() {
            lemma_apply_segment_resolves(root, segment, paths.drop_last(), k);
        } else {
            let path = paths.last();
            let node = resolve(root, path)->0;
            let steps = segment_steps(segment, node);
            let step = steps[k - front.len()];
            lemma_segment_steps_exist(segment, node, k - front.len());
            lemma_resolve_push(root, path, step);
        }
    }
}

/// Each path that a selector returns resolves to a node below the root.
pub proof fn lemma_selected_paths_resolve(root: Json, selector: Seq<SegmentModel>, k: int)
    requires
        0 <= k < select(root, selector).len(),
    ensures
        resolve(root, select(root, selector)[k]) is Some,
{
    if selector.len() > 0 {
        lemma_apply_segment_resolves(
            root,
            selector.last(),
            select(root, selector.drop_last()),
            k,
        );
    }
}

/// The selector without segments returns the root path, once.
pub proof fn lemma_select_root(root: Json)
    ensures
        select(root, Seq::empty()) == seq![Seq::<Step>::empty()],
{
}

/// A negative index `-k` that is in range names the position `len - k`, and
/// leads to the same path as the index `len - k` does.
pub proof fn lemma_negative_index_normalizes(items: Seq<Json>, k: int)
    requires
        1 <= k <= items.len(),
    ensures
        normalize_index_spec(-k, items.len()) == Some((items.len() - k) as nat),
        normalize_index_spec(-k, items.len()) == normalize_index_spec(
            items.len() - k,
            items.len(),
        ),
        segment_steps(SegmentModel::Index(-k), Json::Array(items)) == segment_steps(
            SegmentModel::Index(items.len() - k),
            Json::Array(items),
        ),
        select(Json::Array(items), seq![SegmentModel::Index(-k)]) == seq![
            seq![Step::Index((items.len() - k) as nat)],
        ],
        select(Json::Array(items), seq![SegmentModel::Index(-k)]) == select(
            Json::Array(items),
            seq![SegmentModel::Index(items.len() - k)],
        ),
{
    let root = Json::Array(items);
    let step = Step::Index((items.len() - k) as nat);
    lemma_select_single(root, SegmentModel::Index(-k));
    lemma_select_single(root, SegmentModel::Index(items.len() - k));
    assert(extend_path(Seq::<Step>::empty(), seq![step]) =~= seq![seq![step]]);
}

/// A selector of one segment returns the root path extended by the segment's
/// steps at the root.
pub proof fn lemma_select_single(root: Json, segment: SegmentModel)
    ensures
        select(root, seq![segment]) == extend_path(Seq::empty(), segment_steps(segment, root)),
{
    let selector = seq![segment];
    assert(selector.drop_last() =~= Seq::<SegmentModel>::empty());
    assert(selector.last() == segment);
    let start = seq![Seq::<Step>::empty()];
    assert(select(root, selector.drop_last()) == start);
    assert(start.drop_last() =~= Seq::<Path>::empty());
    assert(start.last() == Seq::<Step>::empty());
    assert(apply_segment(root, segment, start.drop_last()) == Seq::<Path>::empty());
    assert(apply_segment(root, segment, start) =~= segment_paths(
        root,
        segment,
        Seq::<Step>::empty(),
    ));
}

/// The index one before the first item of an array names no position: it
/// does not wrap around.
pub proof fn lemma_index_below_range(items: Seq<Json>)
    ensures
        normalize_index_spec(-(items.len() + 1), items.len()) is None,
        segment_steps(SegmentModel::Index(-(items.len() + 1)), Json::Array(items)).len() == 0,
        select(Json::Array(items), seq![SegmentModel::Index(-(items.len() + 1))]).len() == 0,
{
    lemma_select_single(Json::Array(items), SegmentModel::Index(-(items.len() + 1)));
}

/// A union whose indices are all in range yields one step for each index, in
/// the order written; an index written twice yields two steps.
pub proof fn lemma_union_keeps_order(indices: Seq<int>, len: nat)
    requires
        forall|j: int| 0 <= j < indices.len() ==> normalize_index_spec(#[trigger] indices[j], len)
            is Some,
    ensures
        union_steps(indices, len) == indices.map_values(
            |i: int| Step::Index(normalize_index_spec(i, len)->0),
        ),
    decreases indices.len(),
{
    let f = |i: int| Step::Index(normalize_index_spec(i, len)->0);
    if indices.len() > 0 {
        let front = indices.drop_last();
        assert forall|j: int| 0 <= j < front.len() implies normalize_index_spec(
            #[trigger] front[j],
            len,
        ) is Some by {
            assert(front[j] == indices[j]);
        }
        lemma_union_keeps_order(front, len);
        assert(normalize_index_spec(indices[indices.len() - 1], len) is Some);
        assert(front.map_values(f).push(f(indices.last())) =~= indices.map_values(f));
    } else {
        assert(union_steps(indices, len) =~= indices.map_values(f));
    }
}

impl Clone for FilterExpr {
    fn clone(&self) -> (r: FilterExpr)
        ensures
            r@ == self@,
    {
        match self {
            FilterExpr::Exists(name) => FilterExpr::Exists(name.clone()),
            FilterExpr::Equals(name, literal) => FilterExpr::Equals(name.clone(), literal.clone()),
        }
    }
}

impl Clone for Segment {
    fn clone(&self) -> (r: Segment)
        ensures
            r@ == self@,
    {
        match self {
            Segment::Child(name) => Segment::Child(name.clone()),
            Segment::Index(i) => Segment::Index(*i),
            Segment::UnionIndices(indices) => {
                let mut out: Vec<i64> = Vec::new();
                let mut k: usize = 0;
                while k < indices.len()
                    invariant
                        k <= indices.len(),
                        out@ == indices@.subrange(0, k as int),
                    decreases indices.len() - k,
                {
                    out.push(indices[k]);
                    assert(out@ =~= indices@.subrange(0, k + 1));
                    k += 1;
                }
                assert(out@ =~= indices@);
                Segment::UnionIndices(out)
            },
            Segment::Filter(expr) => Segment::Filter(expr.clone()),
        }
    }
}

impl Clone for JsonPath {
    fn clone(&self) -> (r: JsonPath)
        ensures
            r@ == self@,
    {
        let mut out: Vec<Segment> = Vec::new();
        let mut k: usize = 0;
        while k < self.segments.len()
            invariant
                k <= self.segments.len(),
                out.len() == k,
                forall|j: int| 0 <= j < k ==> (#[trigger] out@[j])@ == self.segments@[j]@,
            decreases self.segments.len() - k,
        {
            out.push(self.segments[k].clone());
            k += 1;
        }
        assert(segments_view(out@) =~= segments_view(self.segments@));
        JsonPath { segments: out }
    }
}

/// Two filters are the same test: the same name and, for `Equals`, equal
/// literals.
pub open spec fn filter_eq(a: FilterModel, b: FilterModel) -> bool {
    match (a, b) {
        (FilterModel::Exists(x), FilterModel::Exists(y)) => x == y,
        (FilterModel::Equals(x, l), FilterModel::Equals(y, m)) => x == y && json_eq(l, m),
        _ => false,
    }
}

/// Two segments are the same segment.
pub open spec fn segment_eq(a: SegmentModel, b: SegmentModel) -> bool {
    match (a, b) {
        (SegmentModel::Child(x), SegmentModel::Child(y)) => x == y,
        (SegmentModel::Index(x), SegmentModel::Index(y)) => x == y,
        (SegmentModel::UnionIndices(x), SegmentModel::UnionIndices(y)) => x == y,
        (SegmentModel::Filter(x), SegmentModel::Filter(y)) => filter_eq(x, y),
        _ => false,
    }
}

/// Two selectors are the same selector: the same segments in the same order.
pub open spec fn selector_eq(a: Seq<SegmentModel>, b: Seq<SegmentModel>) -> bool {
    a.len() == b.len() && forall|i: int| 0 <= i < a.len() ==> segment_eq(#[trigger] a[i], b[i])
}

impl PartialEq for FilterExpr {
    fn eq(&self, other: &FilterExpr) -> (r: bool) {
        match (self, other) {
            (FilterExpr::Exists(x), FilterExpr::Exists(y)) => str_equal(x.as_str(), y.as_str()),
            (FilterExpr::Equals(x, l), FilterExpr::Equals(y, m)) => str_equal(
                x.as_str(),
                y.as_str(),
            ) && l.equals(m),
            _ => false,
        }
    }
}

impl vstd::std_specs::cmp::PartialEqSpecImpl for FilterExpr {
    open spec fn obeys_eq_spec() -> bool {
        true
    }

    open spec fn eq_spec(&self, other: &FilterExpr) -> bool {
        filter_eq(self@, other@)
    }
}

impl PartialEq for Segment {
    fn eq(&self, other: &Segment) -> (r: bool) {
        match (self, other) {
            (Segment::Child(x), Segment::Child(y)) => str_equal(x.as_str(), y.as_str()),
            (Segment::Index(x), Segment::Index(y)) => *x == *y,
            (Segment::UnionIndices(x), Segment::UnionIndices(y)) => {
                if x.len() != y.len() {
                    assert(ints(x@).len() != ints(y@).len());
                    return false;
                }
                let mut i: usize = 0;
                while i < x.len()
                    invariant
                        i <= x.len(),
                        x.len() == y.len(),
                        self@ == SegmentModel::UnionIndices(ints(x@)),
                        other@ == SegmentModel::UnionIndices(ints(y@)),
                        forall|k: int| 0 <= k < i ==> x@[k] == y@[k],
                    decreases x.len() - i,
                {
                    if x[i] != y[i] {
                        assert(ints(x@)[i as int] != ints(y@)[i as int]);
                        return false;
                    }
                    i += 1;
                }
                assert(ints(x@) =~= ints(y@));
                true
            },
            (Segment::Filter(x), Segment::Filter(y)) => x.eq(y),
            _ => false,
        }
    }
}

impl vstd::std_specs::cmp::PartialEqSpecImpl for Segment {
    open spec fn obeys_eq_spec() -> bool {
        true
    }

    open spec fn eq_spec(&self, other: &Segment) -> bool {
        segment_eq(self@, other@)
    }
}

impl PartialEq for JsonPath {
    fn eq(&self, other: &JsonPath) -> (r: bool) {
        if self.segments.len() != other.segments.len() {
            return false;
        }
        let mut i: usize = 0;
        while i < self.segments.len()
            invariant
                i <= self.segments.len(),
                self.segments.len() == other.segments.len(),
                forall|k: int|
                    0 <= k < i ==> segment_eq(
                        #[trigger] self.segments@[k]@,
                        other.segments@[k]@,
                    ),
            decreases self.segments.len() - i,
        {
            if !self.segments[i].eq(&other.segments[i]) {
                assert(!segment_eq(self@[i as int], other@[i as int]));
                return false;
            }
            i += 1;
        }
        assert forall|k: int| 0 <= k < self@.len() implies segment_eq(
            #[trigger] self@[k],
            other@[k],
        ) by {
            assert(segment_eq(self.segments@[k]@, other.segments@[k]@));
        }
        true
    }
}

impl vstd::std_specs::cmp::PartialEqSpecImpl for JsonPath {
    open spec fn obeys_eq_spec() -> bool {
        true
    }

    open spec fn eq_spec(&self, other: &JsonPath) -> bool {
        selector_eq(self@, other@)
    }
}

} // verus!
