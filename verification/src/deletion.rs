//! Deleting several items of one array, wherever it stands in the document:
//! whatever the order in which the matched indices came, what is left is the
//! array without those items, the rest in their old order.
use crate::json::Json;
use crate::path::{lemma_replace_at_same, lemma_replace_at_twice, replace_at, resolve, Path, Step};
use crate::transform::{
    dedup_paths, delete_at, delete_each, insert_position, remove_order, remove_paths_spec,
    sort_paths, TransformError,
};
use vstd::prelude::*;

verus! {

/// The path of the item at position `i` of the array at `base`.
pub open spec fn index_path(base: Path, i: nat) -> Path {
    base.push(Step::Index(i))
}

/// `path` is the path of an item of the array at `base`, an array of `len`
/// items.
pub open spec fn is_item_path(base: Path, path: Path, len: nat) -> bool {
    &&& path.len() == base.len() + 1
    &&& path.drop_last() == base
    &&& path.last() is Index
    &&& path.last()->Index_0 < len
}

/// The position that an item path names.
pub open spec fn item_of(path: Path) -> nat {
    path.last()->Index_0
}

/// The items whose paths are not among `paths`, in their old order.
pub open spec fn without_items(base: Path, items: Seq<Json>, paths: Seq<Path>) -> Seq<Json>
    decreases items.len(),
{
    if items.len() == 0 {
        Seq::empty()
    } else {
        let front = without_items(base, items.drop_last(), paths);
        if paths.contains(index_path(base, (items.len() - 1) as nat)) {
            front
        } else {
            front.push(items.last())
        }
    }
}

/// Every path of the list is the path of an item.
pub open spec fn all_item_paths(base: Path, paths: Seq<Path>, len: nat) -> bool {
    forall|k: int| 0 <= k < paths.len() ==> is_item_path(base, #[trigger] paths[k], len)
}

/// The indices never go up along the list.
pub open spec fn descending(paths: Seq<Path>) -> bool {
    forall|a: int, b: int|
        0 <= a < b < paths.len() ==> item_of(#[trigger] paths[a]) >= item_of(#[trigger] paths[b])
}

/// The indices go down at every step of the list.
pub open spec fn strictly_descending(paths: Seq<Path>) -> bool {
    forall|a: int, b: int|
        0 <= a < b < paths.len() ==> item_of(#[trigger] paths[a]) > item_of(#[trigger] paths[b])
}

/// An item path is the path of its index.
proof fn lemma_item_path(base: Path, path: Path, len: nat)
    requires
        is_item_path(base, path, len),
    ensures
        path == index_path(base, item_of(path)),
{
    assert(path =~= index_path(base, item_of(path)));
}

/// Among item paths the deletion order is by index, larger first.
proof fn lemma_item_order(base: Path, a: Path, b: Path, len: nat)
    requires
        is_item_path(base, a, len),
        is_item_path(base, b, len),
    ensures
        remove_order(a, b) < 0 <==> item_of(b) < item_of(a),
{
}

/// Where a path enters a sorted list: what stands from there on comes
/// strictly after it, what stands right before does not.
proof fn lemma_insert_position(sorted: Seq<Path>, path: Path)
    ensures
        insert_position(sorted, path) <= sorted.len(),
        forall|j: int|
            insert_position(sorted, path) <= j < sorted.len() ==> remove_order(
                path,
                #[trigger] sorted[j],
            ) < 0,
        insert_position(sorted, path) > 0 ==> remove_order(
            path,
            sorted[insert_position(sorted, path) - 1],
        ) >= 0,
    decreases sorted.len(),
{
    if sorted.len() > 0 && remove_order(path, sorted.last()) < 0 {
        lemma_insert_position(sorted.drop_last(), path);
        let pos = insert_position(sorted.drop_last(), path);
        assert forall|j: int| pos <= j < sorted.len() implies remove_order(
            path,
            #[trigger] sorted[j],
        ) < 0 by {
            if j < sorted.len() - 1 {
                assert(sorted.drop_last()[j] == sorted[j]);
            }
        }
        if pos > 0 {
            assert(sorted.drop_last()[pos - 1] == sorted[pos - 1]);
        }
    }
}

/// Sorting item paths gives the same paths with the indices never going up.
proof fn lemma_sort_item_paths(base: Path, paths: Seq<Path>, len: nat)
    requires
        all_item_paths(base, paths, len),
    ensures
        all_item_paths(base, sort_paths(paths), len),
        descending(sort_paths(paths)),
        sort_paths(paths).len() == paths.len(),
        forall|p: Path| sort_paths(paths).contains(p) <==> paths.contains(p),
    decreases paths.len(),
{
    if paths.len() > 0 {
        let front = paths.drop_last();
        let last = paths.last();
        assert forall|k: int| 0 <= k < front.len() implies is_item_path(
            base,
            #[trigger] front[k],
            len,
        ) by {
            assert(front[k] == paths[k]);
        }
        lemma_sort_item_paths(base, front, len);
        let sorted = sort_paths(front);
        let pos = insert_position(sorted, last) as int;
        lemma_insert_position(sorted, last);
        let out = sorted.insert(pos, last);
        assert(sort_paths(paths) == out);
        assert forall|k: int| 0 <= k < out.len() implies is_item_path(
            base,
            #[trigger] out[k],
            len,
        ) by {
            if k < pos {
                assert(out[k] == sorted[k]);
            } else if k > pos {
                assert(out[k] == sorted[k - 1]);
            }
        }
        assert forall|a: int, b: int| 0 <= a < b < out.len() implies item_of(#[trigger] out[a])
            >= item_of(#[trigger] out[b]) by {
            let a0 = if a < pos {
                a
            } else {
                a - 1
            };
            let b0 = if b < pos {
                b
            } else {
                b - 1
            };
            if a != pos {
                assert(out[a] == sorted[a0]);
            }
            if b != pos {
                assert(out[b] == sorted[b0]);
            }
            if a == pos {
                lemma_item_order(base, last, sorted[b0], len);
            } else if b == pos {
                if pos > 0 {
                    lemma_item_order(base, last, sorted[pos - 1], len);
                    if a0 < pos - 1 {
                        assert(item_of(sorted[a0]) >= item_of(sorted[pos - 1]));
                    }
                }
            }
        }
        assert forall|p: Path| out.contains(p) <==> paths.contains(p) by {
            if out.contains(p) {
                let k = choose|k: int| 0 <= k < out.len() && out[k] == p;
                if k == pos {
                    assert(paths[paths.len() - 1] == p);
                } else {
                    let k0 = if k < pos {
                        k
                    } else {
                        k - 1
                    };
                    assert(sorted[k0] == p);
                    assert(sorted.contains(p));
                    assert(front.contains(p));
                    let m = choose|m: int| 0 <= m < front.len() && front[m] == p;
                    assert(paths[m] == p);
                }
            }
            if paths.contains(p) {
                let m = choose|m: int| 0 <= m < paths.len() && paths[m] == p;
                if m == paths.len() - 1 {
                    assert(out[pos] == p);
                } else {
                    assert(front[m] == p);
                    assert(front.contains(p));
                    assert(sorted.contains(p));
                    let k0 = choose|k0: int| 0 <= k0 < sorted.len() && sorted[k0] == p;
                    let k = if k0 < pos {
                        k0
                    } else {
                        k0 + 1
                    };
                    assert(out[k] == p);
                }
            }
        }
    }
}

/// Dropping repeats from a list whose indices never go up gives the same
/// paths with the indices going down at every step.
proof fn lemma_dedup_item_paths(base: Path, paths: Seq<Path>, len: nat)
    requires
        all_item_paths(base, paths, len),
        descending(paths),
    ensures
        all_item_paths(base, dedup_paths(paths), len),
        strictly_descending(dedup_paths(paths)),
        forall|p: Path| dedup_paths(paths).contains(p) <==> paths.contains(p),
    decreases paths.len(),
{
    if paths.len() > 0 {
        let front = paths.drop_last();
        let last = paths.last();
        assert forall|k: int| 0 <= k < front.len() implies is_item_path(
            base,
            #[trigger] front[k],
            len,
        ) by {
            assert(front[k] == paths[k]);
        }
        assert forall|a: int, b: int| 0 <= a < b < front.len() implies item_of(
            #[trigger] front[a],
        ) >= item_of(#[trigger] front[b]) by {
            assert(front[a] == paths[a]);
            assert(front[b] == paths[b]);
        }
        lemma_dedup_item_paths(base, front, len);
        let d = dedup_paths(front);
        let out = dedup_paths(paths);
        let repeats = front.contains(last);
        if !repeats {
            assert(out == d.push(last));
            assert forall|k: int| 0 <= k < out.len() implies is_item_path(
            base,
            #[trigger] out[k],
            len,
        ) by {
                if k < d.len() {
                    assert(out[k] == d[k]);
                }
            }
            assert forall|a: int, b: int| 0 <= a < b < out.len() implies item_of(
                #[trigger] out[a],
            ) > item_of(#[trigger] out[b]) by {
                assert(out[a] == d[a]);
                if b < d.len() {
                    assert(out[b] == d[b]);
                } else {
                    assert(d.contains(d[a]));
                    assert(front.contains(d[a]));
                    let m = choose|m: int| 0 <= m < front.len() && front[m] == d[a];
                    assert(paths[m] == d[a]);
                    assert(item_of(paths[m]) >= item_of(paths[paths.len() - 1]));
                    lemma_item_path(base, paths[m], len);
                    lemma_item_path(base, last, len);
                }
            }
        }
        assert forall|p: Path| out.contains(p) <==> paths.contains(p) by {
            if out.contains(p) {
                let k = choose|k: int| 0 <= k < out.len() && out[k] == p;
                if !repeats && k == d.len() {
                    assert(paths[paths.len() - 1] == p);
                } else {
                    assert(d[k] == p);
                    assert(d.contains(p));
                    assert(front.contains(p));
                    let m = choose|m: int| 0 <= m < front.len() && front[m] == p;
                    assert(paths[m] == p);
                }
            }
            if paths.contains(p) {
                let m = choose|m: int| 0 <= m < paths.len() && paths[m] == p;
                if m == paths.len() - 1 && !repeats {
                    assert(out[d.len() as int] == p);
                } else {
                    if m < paths.len() - 1 {
                        assert(front[m] == p);
                    }
                    assert(front.contains(p));
                    assert(d.contains(p));
                    let k = choose|k: int| 0 <= k < d.len() && d[k] == p;
                    assert(out[k] == p);
                }
            }
        }
    }
}

/// What is left depends on the paths only by which positions they name.
proof fn lemma_without_items_same_paths(base: Path, items: Seq<Json>, a: Seq<Path>, b: Seq<Path>)
    requires
        forall|i: nat| i < items.len() ==> (a.contains(#[trigger] index_path(base, i)) <==> b.contains(
            index_path(base, i),
        )),
    ensures
        without_items(base, items, a) == without_items(base, items, b),
    decreases items.len(),
{
    if items.len() > 0 {
        lemma_without_items_same_paths(base, items.drop_last(), a, b);
        assert(a.contains(index_path(base, (items.len() - 1) as nat)) <==> b.contains(
            index_path(base, (items.len() - 1) as nat),
        ));
    }
}

/// Taking out the item at `d` and then the items below `d` that `rest`
/// names is taking out all of them at once.
proof fn lemma_without_one_more(
    base: Path,
    items: Seq<Json>,
    d: nat,
    rest: Seq<Path>,
    all: Seq<Path>,
)
    requires
        d < items.len(),
        forall|i: nat| d <= i ==> !rest.contains(#[trigger] index_path(base, i)),
        forall|i: nat|
            all.contains(#[trigger] index_path(base, i)) <==> (i == d || rest.contains(
                index_path(base, i),
            )),
    ensures
        without_items(base, items.remove(d as int), rest) == without_items(base, items, all),
    decreases items.len(),
{
    let n = items.len();
    let shorter = items.remove(d as int);
    assert(all.contains(index_path(base, d)));
    if d == n - 1 {
        assert(shorter =~= items.drop_last());
        lemma_without_items_same_paths(base, items.drop_last(), rest, all);
    } else {
        assert(shorter.last() == items.last());
        assert(shorter.drop_last() =~= items.drop_last().remove(d as int));
        lemma_without_one_more(base, items.drop_last(), d, rest, all);
        assert(!rest.contains(index_path(base, (n - 2) as nat)));
        assert(shorter.len() - 1 == n - 2);
        assert(!rest.contains(index_path(base, (n - 1) as nat)));
        assert(!all.contains(index_path(base, (n - 1) as nat)));
    }
}

/// Deleting item paths whose indices go down at every step leaves the array
/// without the items they name, where it stands in the document.
proof fn lemma_delete_descending(
    base: Path,
    source: Json,
    items: Seq<Json>,
    paths: Seq<Path>,
    is_root: bool,
    i: nat,
)
    requires
        i <= paths.len(),
        resolve(source, base) == Some(Json::Array(items)),
        forall|k: int|
            i <= k < paths.len() ==> is_item_path(base, #[trigger] paths[k], items.len()),
        forall|a: int, b: int|
            i <= a < b < paths.len() ==> item_of(#[trigger] paths[a]) > item_of(
                #[trigger] paths[b],
            ),
    ensures
        delete_each(source, paths, is_root, i) == Ok::<Json, TransformError>(
            replace_at(
                source,
                base,
                Json::Array(
                    without_items(base, items, paths.subrange(i as int, paths.len() as int)),
                ),
            ),
        ),
    decreases paths.len() - i,
{
    let tail = paths.subrange(i as int, paths.len() as int);
    if i >= paths.len() {
        assert(tail.len() == 0);
        lemma_without_nothing(base, items, tail);
        lemma_replace_at_same(source, base);
    } else {
        let path = paths[i as int];
        let d = item_of(path);
        lemma_item_path(base, path, items.len());
        assert(path.last() == Step::Index(d));
        let shorter = items.remove(d as int);
        let next = replace_at(source, base, Json::Array(shorter));
        assert(delete_at(source, path) == next);
        let rest = paths.subrange(i as int + 1, paths.len() as int);
        assert forall|k: int| i + 1 <= k < paths.len() implies is_item_path(
            base,
            #[trigger] paths[k],
            shorter.len(),
        ) by {
            assert(item_of(paths[i as int]) > item_of(paths[k]));
        }
        let left = Json::Array(without_items(base, shorter, rest));
        lemma_replace_at_twice(source, base, Json::Array(shorter), left);
        lemma_delete_descending(base, next, shorter, paths, is_root, i + 1);
        assert forall|j: nat| d <= j implies !rest.contains(#[trigger] index_path(base, j)) by {
            if rest.contains(index_path(base, j)) {
                let k = choose|k: int| 0 <= k < rest.len() && rest[k] == index_path(base, j);
                assert(rest[k] == paths[i + 1 + k]);
                assert(item_of(paths[i as int]) > item_of(paths[i + 1 + k]));
                assert(index_path(base, j).last() == Step::Index(j));
            }
        }
        assert forall|j: nat|
            tail.contains(#[trigger] index_path(base, j)) <==> (j == d || rest.contains(
                index_path(base, j),
            )) by {
            if tail.contains(index_path(base, j)) {
                let k = choose|k: int| 0 <= k < tail.len() && tail[k] == index_path(base, j);
                if k > 0 {
                    assert(rest[k - 1] == tail[k]);
                } else {
                    assert(index_path(base, j).last() == Step::Index(j));
                }
            }
            if j == d {
                assert(tail[0] == index_path(base, j));
            }
            if rest.contains(index_path(base, j)) {
                let k = choose|k: int| 0 <= k < rest.len() && rest[k] == index_path(base, j);
                assert(tail[k + 1] == rest[k]);
            }
        }
        lemma_without_one_more(base, items, d, rest, tail);
    }
}

/// With no paths, every item is left.
proof fn lemma_without_nothing(base: Path, items: Seq<Json>, paths: Seq<Path>)
    requires
        paths.len() == 0,
    ensures
        without_items(base, items, paths) == items,
    decreases items.len(),
{
    if items.len() > 0 {
        lemma_without_nothing(base, items.drop_last(), paths);
        assert(items.drop_last().push(items.last()) =~= items);
    }
}

/// Deleting items of an array by their paths, in whatever order and however
/// often each is named, leaves the array without those items, where it
/// stands in the document: the items that are left stand in their old order.
pub proof fn lemma_remove_items_keeps_order(
    base: Path,
    source: Json,
    items: Seq<Json>,
    paths: Seq<Path>,
    is_root: bool,
)
    requires
        resolve(source, base) == Some(Json::Array(items)),
        all_item_paths(base, paths, items.len()),
    ensures
        remove_paths_spec(source, paths, is_root) == Ok::<Json, TransformError>(
            replace_at(source, base, Json::Array(without_items(base, items, paths))),
        ),
{
    lemma_sort_item_paths(base, paths, items.len());
    let sorted = sort_paths(paths);
    lemma_dedup_item_paths(base, sorted, items.len());
    let ordered = dedup_paths(sorted);
    lemma_delete_descending(base, source, items, ordered, is_root, 0);
    assert(ordered.subrange(0, ordered.len() as int) =~= ordered);
    lemma_without_items_same_paths(base, items, ordered, paths);
}

/// Deleting items of an array that is the document leaves the array without
/// those items.
pub proof fn lemma_remove_items_of_root(items: Seq<Json>, paths: Seq<Path>, is_root: bool)
    requires
        all_item_paths(Seq::empty(), paths, items.len()),
    ensures
        remove_paths_spec(Json::Array(items), paths, is_root) == Ok::<Json, TransformError>(
            Json::Array(without_items(Seq::empty(), items, paths)),
        ),
{
    lemma_remove_items_keeps_order(Seq::empty(), Json::Array(items), items, paths, is_root);
}

/// The positions, ascending, of the items that are left.
pub open spec fn left_positions(base: Path, len: nat, paths: Seq<Path>) -> Seq<int>
    decreases len,
{
    if len == 0 {
        Seq::empty()
    } else {
        let front = left_positions(base, (len - 1) as nat, paths);
        if paths.contains(index_path(base, (len - 1) as nat)) {
            front
        } else {
            front.push(len - 1)
        }
    }
}

/// What is left is a part of the array in its old order: each item left is
/// the item of a position that no path names, and of two items left the one
/// that stands first stood first.
pub proof fn lemma_without_items_is_ordered_part(base: Path, items: Seq<Json>, paths: Seq<Path>)
    ensures
        left_positions(base, items.len(), paths).len() == without_items(base, items, paths).len(),
        forall|k: int|
            0 <= k < without_items(base, items, paths).len() ==> {
                let at = #[trigger] left_positions(base, items.len(), paths)[k];
                0 <= at < items.len() && without_items(base, items, paths)[k] == items[at]
                    && !paths.contains(index_path(base, at as nat))
            },
        forall|a: int, b: int|
            0 <= a < b < without_items(base, items, paths).len() ==> (#[trigger] left_positions(base,
                items.len(),
                paths,
            )[a]) < (#[trigger] left_positions(base, items.len(), paths)[b]),
        forall|at: nat|
            at < items.len() && !paths.contains(index_path(base, at)) ==> left_positions(base,
                items.len(),
                paths,
            ).contains(at as int),
    decreases items.len(),
{
    let left = without_items(base, items, paths);
    let from = left_positions(base, items.len(), paths);
    if items.len() > 0 {
        let n = items.len();
        lemma_without_items_is_ordered_part(base, items.drop_last(), paths);
        let from0 = left_positions(base, (n - 1) as nat, paths);
        let front = without_items(base, items.drop_last(), paths);
        assert forall|k: int| 0 <= k < left.len() implies {
            let at = #[trigger] from[k];
            0 <= at < items.len() && left[k] == items[at] && !paths.contains(index_path(base, at as nat))
        } by {
            if k < from0.len() {
                assert(from[k] == from0[k]);
                assert(items.drop_last()[from0[k]] == items[from0[k]]);
                assert(left[k] == front[k]);
            }
        }
        assert forall|a: int, b: int| 0 <= a < b < left.len() implies (#[trigger] from[a]) < (
        #[trigger] from[b]) by {
            assert(from[a] == from0[a]);
            if b < from0.len() {
                assert(from[b] == from0[b]);
            }
        }
        assert forall|at: nat|
            at < items.len() && !paths.contains(index_path(base, at)) implies from.contains(
            at as int,
        ) by {
            if at < n - 1 {
                assert(from0.contains(at as int));
                let k = choose|k: int| 0 <= k < from0.len() && from0[k] == at as int;
                assert(from[k] == at as int);
            } else {
                assert(from[from.len() - 1] == at as int);
            }
        }
    }
}

} // verus!
