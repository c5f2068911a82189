//! Whether a sequence of paths is in order, and if it is not, which item is
//! out of place and in front of which item it belongs.

use crate::compare::{
    cmp, lemma_path_order_antisymmetric, lemma_path_order_reflexive, lemma_path_order_transitive,
    path_order, Path, PathView, UnderscoreOrder,
};
use crate::order::pos;
use std::cmp::Ordering;
use vstd::prelude::*;
use vstd::string::StringExecFns;

verus! {

/// The paths of a slice as mathematics.
pub open spec fn views(paths: Seq<Path>) -> Seq<PathView> {
    paths.map_values(|p: Path| p@)
}

/// The item at place `k` is not before the item in front of it.
pub open spec fn follows(items: Seq<PathView>, mode: UnderscoreOrder, k: int) -> bool {
    path_order(items[k], items[k - 1], mode) != Ordering::Less
}

/// No item is before the item in front of it. Items that are equal may
/// follow one another.
pub open spec fn in_order(items: Seq<PathView>, mode: UnderscoreOrder) -> bool {
    forall|k: int| 1 <= k < items.len() ==> #[trigger] follows(items, mode, k)
}

/// `i` is the first place whose item is before the item in front of it.
pub open spec fn first_misordered(items: Seq<PathView>, mode: UnderscoreOrder, i: int) -> bool {
    &&& 1 <= i < items.len()
    &&& !follows(items, mode, i)
    &&& in_order(items.take(i), mode)
}

/// The first place whose item is before the item in front of it, or `None`
/// where the paths are in order.
pub fn find_misordered(paths: &[Path], mode: UnderscoreOrder) -> (r: Option<usize>)
    ensures
        match r {
            None => in_order(views(paths@), mode),
            Some(i) => first_misordered(views(paths@), mode, pos(i)),
        },
{
    let mut i: usize = 1;
    while i < paths.len()
        invariant
            1 <= i,
            forall|k: int|
                1 <= k < i && k < paths@.len() ==> #[trigger] follows(views(paths@), mode, k),
        decreases paths@.len() - i,
    {
        match cmp(&paths[i], &paths[i - 1], mode) {
            Ordering::Less => {
                proof {
                    let items = views(paths@);
                    let front = items.take(pos(i));
                    assert forall|k: int| 1 <= k < front.len() implies #[trigger] follows(
                        front,
                        mode,
                        k,
                    ) by {
                        assert(follows(items, mode, k));
                    }
                }
                return Some(i);
            },
            _ => {},
        }
        i += 1;
    }
    None
}

/// An item that is out of place, and the item in front of which it belongs,
/// each by its place in the sequence that was checked.
#[derive(Copy, Clone, Debug, PartialEq, Eq)]
pub struct Violation {
    /// The place of the first item that is before the item in front of it.
    pub lesser: usize,
    /// The place of an earlier item that should come after it.
    pub greater: usize,
}

/// Where a search by halving ends that looks, among the items at the places
/// from `lo` up to but without `hi`, for the first one that is after `target`.
/// It looks at the item in the middle: where that one is after `target` it
/// goes on in front of it, else behind it.
pub open spec fn search(
    items: Seq<PathView>,
    target: PathView,
    mode: UnderscoreOrder,
    lo: int,
    hi: int,
) -> int
    decreases hi - lo,
{
    if lo >= hi {
        lo
    } else {
        let mid = lo + (hi - lo) / 2;
        if path_order(items[mid], target, mode) == Ordering::Greater {
            search(items, target, mode, lo, mid)
        } else {
            search(items, target, mode, mid + 1, hi)
        }
    }
}

/// All of the items carry a bucket, or none of them does.
pub open spec fn uniform(items: Seq<PathView>) -> bool {
    forall|p: int, q: int|
        0 <= p < items.len() && 0 <= q < items.len() ==> ((#[trigger] items[p]).category is Some
            <==> (#[trigger] items[q]).category is Some)
}

/// The item at place `k` is after `target`.
pub open spec fn after(
    items: Seq<PathView>,
    target: PathView,
    mode: UnderscoreOrder,
    k: int,
) -> bool {
    path_order(items[k], target, mode) == Ordering::Greater
}

/// The item at place `j` is the first item of the sequence that is after
/// `target`.
pub open spec fn first_after(
    items: Seq<PathView>,
    target: PathView,
    mode: UnderscoreOrder,
    j: int,
) -> bool {
    &&& 0 <= j < items.len()
    &&& after(items, target, mode, j)
    &&& forall|k: int| 0 <= k < j ==> !#[trigger] after(items, target, mode, k)
}

/// Checks that the paths are in order, with underscores wanted first or with
/// underscores wanted last. If they are in order neither way, the result
/// names the first item that, with underscores last, is before the item in
/// front of it, and the item at which a search by halving among the items
/// that come before those two ends. Where all of the items carry a bucket or
/// none of them does, that is the first item of the sequence that is after
/// the misplaced one.
pub fn sorted(paths: &[Path]) -> (r: Result<(), Violation>)
    ensures
        r is Ok <==> in_order(views(paths@), UnderscoreOrder::First) || in_order(
            views(paths@),
            UnderscoreOrder::Last,
        ),
        match r {
            Ok(_) => true,
            Err(v) => {
                &&& v.greater < v.lesser < paths@.len()
                &&& first_misordered(views(paths@), UnderscoreOrder::Last, pos(v.lesser))
                &&& pos(v.greater) == search(
                    views(paths@),
                    views(paths@)[pos(v.lesser)],
                    UnderscoreOrder::Last,
                    0,
                    pos(v.lesser) - 1,
                )
                &&& uniform(views(paths@)) ==> first_after(
                    views(paths@),
                    views(paths@)[pos(v.lesser)],
                    UnderscoreOrder::Last,
                    pos(v.greater),
                )
            },
        },
{
    let mode = UnderscoreOrder::First;
    match find_misordered(paths, mode) {
        None => return Ok(()),
        Some(_) => {},
    }

    let mode = UnderscoreOrder::Last;
    let wrong = match find_misordered(paths, mode) {
        Some(wrong) => wrong,
        None => return Ok(()),
    };

    let lesser = &paths[wrong];
    let mut lo: usize = 0;
    let mut hi: usize = wrong - 1;
    while lo < hi
        invariant
            lo <= hi < wrong < paths@.len(),
            *lesser == paths@[pos(wrong)],
            search(views(paths@), lesser@, mode, 0, pos(wrong) - 1) == search(
                views(paths@),
                lesser@,
                mode,
                pos(lo),
                pos(hi),
            ),
        decreases hi - lo,
    {
        let mid = lo + (hi - lo) / 2;
        match cmp(&paths[mid], lesser, mode) {
            Ordering::Greater => {
                hi = mid;
            },
            _ => {
                lo = mid + 1;
            },
        }
    }
    proof {
        if uniform(views(paths@)) {
            lemma_violation_greater(views(paths@), mode, pos(wrong));
        }
    }
    Err(Violation { lesser: wrong, greater: lo })
}

/// Among items that are uniform, where no item up to place `n` is before
/// the item in front of it, no item up to there is before any earlier item.
proof fn lemma_in_order_all_pairs(
    items: Seq<PathView>,
    mode: UnderscoreOrder,
    n: int,
    p: int,
    q: int,
)
    requires
        uniform(items),
        0 <= n <= items.len(),
        in_order(items.take(n), mode),
        0 <= p <= q < n,
    ensures
        path_order(items[p], items[q], mode) != Ordering::Greater,
    decreases q - p,
{
    if p == q {
        lemma_path_order_reflexive(items[p], mode);
    } else {
        lemma_in_order_all_pairs(items, mode, n, p, q - 1);
        assert(follows(items.take(n), mode, q));
        lemma_path_order_antisymmetric(items[q], items[q - 1], mode);
        lemma_path_order_transitive(items[p], items[q - 1], items[q], mode);
    }
}

/// Among items in order, a search by halving ends at the first item that is
/// after the target, or at `hi` where there is none before `hi`.
proof fn lemma_search(
    items: Seq<PathView>,
    target: PathView,
    mode: UnderscoreOrder,
    n: int,
    lo: int,
    hi: int,
)
    requires
        uniform(items),
        0 <= n <= items.len(),
        in_order(items.take(n), mode),
        0 <= lo <= hi < n,
        target.category is Some <==> items[0].category is Some,
    ensures
        lo <= search(items, target, mode, lo, hi) <= hi,
        forall|k: int|
            lo <= k < search(items, target, mode, lo, hi) ==> !#[trigger] after(
                items,
                target,
                mode,
                k,
            ),
        search(items, target, mode, lo, hi) < hi ==> after(
            items,
            target,
            mode,
            search(items, target, mode, lo, hi),
        ),
    decreases hi - lo,
{
    if lo < hi {
        let mid = lo + (hi - lo) / 2;
        if path_order(items[mid], target, mode) == Ordering::Greater {
            lemma_search(items, target, mode, n, lo, mid);
            assert(after(items, target, mode, mid));
        } else {
            lemma_search(items, target, mode, n, mid + 1, hi);
            assert forall|k: int| lo <= k <= mid implies !#[trigger] after(
                items,
                target,
                mode,
                k,
            ) by {
                lemma_in_order_all_pairs(items, mode, n, k, mid);
                if after(items, target, mode, k) {
                    lemma_path_order_antisymmetric(items[k], target, mode);
                    lemma_path_order_transitive(target, items[k], items[mid], mode);
                    lemma_path_order_antisymmetric(items[mid], target, mode);
                }
            }
        }
    }
}

/// What a violation names, where all of the items carry a bucket or none of
/// them does: the item in front of which the misplaced item belongs is the
/// first item of the sequence that is after it. It stands before the
/// misplaced item, and no item in front of it is after the misplaced item.
pub proof fn lemma_violation_greater(items: Seq<PathView>, mode: UnderscoreOrder, i: int)
    requires
        uniform(items),
        first_misordered(items, mode, i),
    ensures
        search(items, items[i], mode, 0, i - 1) < i,
        first_after(items, items[i], mode, search(items, items[i], mode, 0, i - 1)),
{
    lemma_search(items, items[i], mode, i, 0, i - 1);
    lemma_path_order_antisymmetric(items[i], items[i - 1], mode);
}

/// One variant, field or arm: the paths of its attributes, each as its tokens
/// are printed with a space between them, and the path by which the item is
/// ordered, where it has one.
#[derive(Clone, Debug, PartialEq, Eq)]
pub struct Item {
    pub attrs: Vec<String>,
    pub path: Option<Path>,
}

/// The item at this place is to be ordered and has no path.
#[derive(Copy, Clone, Debug, PartialEq, Eq)]
pub struct Unsupported {
    pub index: usize,
}

/// Whether the path of an attribute marks its item as exempt.
pub open spec fn is_marker(path: Seq<char>) -> bool {
    path == "unsorted"@ || path == "remain :: unsorted"@
}

/// The place of the first attribute that is a marker, or the number of
/// attributes where none is.
pub open spec fn marker_at(attrs: Seq<String>) -> int
    decreases attrs.len(),
{
    if attrs.len() == 0 {
        0
    } else if is_marker(attrs[0]@) {
        0
    } else {
        1 + marker_at(attrs.drop_first())
    }
}

/// The attributes without the first marker among them.
pub open spec fn without_marker(attrs: Seq<String>) -> Seq<String> {
    if marker_at(attrs) < attrs.len() {
        attrs.remove(marker_at(attrs))
    } else {
        attrs
    }
}

/// The first marker is at place `k` where that attribute is a marker and
/// none in front of it is; where no attribute is a marker, `k` is their
/// number.
pub proof fn lemma_marker_at(attrs: Seq<String>, k: int)
    requires
        0 <= k <= attrs.len(),
        forall|j: int| 0 <= j < k ==> !is_marker(#[trigger] attrs[j]@),
        k < attrs.len() ==> is_marker(attrs[k]@),
    ensures
        marker_at(attrs) == k,
    decreases k,
{
    if k > 0 {
        let rest = attrs.drop_first();
        assert(!is_marker(attrs[0]@));
        assert forall|j: int| 0 <= j < k - 1 implies !is_marker(#[trigger] rest[j]@) by {
            assert(rest[j] == attrs[j + 1]);
        }
        lemma_marker_at(rest, k - 1);
    }
}

/// The place of the first attribute that is a marker, or `None` where no
/// attribute is one.
pub fn find_unsorted_attr(attrs: &Vec<String>) -> (r: Option<usize>)
    ensures
        match r {
            Some(i) => i == marker_at(attrs@) && i < attrs@.len(),
            None => marker_at(attrs@) == attrs@.len(),
        },
{
    let short = String::from_str("unsorted");
    let long = String::from_str("remain :: unsorted");
    let mut i: usize = 0;
    while i < attrs.len()
        invariant
            short@ == "unsorted"@,
            long@ == "remain :: unsorted"@,
            i <= attrs@.len(),
            forall|j: int| 0 <= j < i ==> !is_marker(#[trigger] attrs@[j]@),
        decreases attrs@.len() - i,
    {
        if attrs[i] == short || attrs[i] == long {
            proof {
                lemma_marker_at(attrs@, i as int);
            }
            return Some(i);
        }
        i += 1;
    }
    proof {
        lemma_marker_at(attrs@, i as int);
    }
    None
}

/// Takes the first marker out of the attributes of an item, and says whether
/// there was one.
pub fn remove_unsorted_attr(attrs: &mut Vec<String>) -> (removed: bool)
    ensures
        removed == (marker_at(old(attrs)@) < old(attrs)@.len()),
        final(attrs)@ == without_marker(old(attrs)@),
{
    match find_unsorted_attr(attrs) {
        Some(i) => {
            attrs.remove(i);
            true
        },
        None => false,
    }
}

/// The item carries a marker, so it is left out of the check.
pub open spec fn exempt(item: Item) -> bool {
    marker_at(item.attrs@) < item.attrs@.len()
}

/// The item is to be ordered and has no path.
pub open spec fn unsupported(item: Item) -> bool {
    !exempt(item) && item.path is None
}

/// The place of the first item that is to be ordered and has no path, or the
/// number of items where there is none.
pub open spec fn unsupported_at(items: Seq<Item>) -> int
    decreases items.len(),
{
    if items.len() == 0 {
        0
    } else if unsupported(items[0]) {
        0
    } else {
        1 + unsupported_at(items.drop_first())
    }
}

/// The paths of the items that carry no marker, in the order of the items.
/// An item without a path adds nothing.
pub open spec fn collected(items: Seq<Item>) -> Seq<Path>
    decreases items.len(),
{
    if items.len() == 0 {
        Seq::empty()
    } else {
        let before = collected(items.drop_last());
        match items.last().path {
            Some(path) if !exempt(items.last()) => before.push(path),
            _ => before,
        }
    }
}

/// Path by path, `a` holds what `b` holds.
pub open spec fn copies(a: Seq<Path>, b: Seq<Path>) -> bool {
    a.len() == b.len() && forall|i: int| 0 <= i < a.len() ==> (#[trigger] a[i]).same(b[i])
}

/// The first item that is to be ordered and has no path is at place `k`
/// where that item is one and none in front of it is.
pub proof fn lemma_unsupported_at(items: Seq<Item>, k: int)
    requires
        0 <= k <= items.len(),
        forall|j: int| 0 <= j < k ==> !unsupported(#[trigger] items[j]),
        k < items.len() ==> unsupported(items[k]),
    ensures
        unsupported_at(items) == k,
    decreases k,
{
    if k > 0 {
        let rest = items.drop_first();
        assert(!unsupported(items[0]));
        assert forall|j: int| 0 <= j < k - 1 implies !unsupported(#[trigger] rest[j]) by {
            assert(rest[j] == items[j + 1]);
        }
        lemma_unsupported_at(rest, k - 1);
    }
}

/// Goes through the items in order. An item that carries a marker loses it
/// and is left out. Every other item hands in its path. The first item that
/// has none ends the walk with an error that names its place; the items
/// behind it keep their markers.
pub fn collect_comparables(items: &mut Vec<Item>) -> (r: Result<Vec<Path>, Unsupported>)
    ensures
        final(items)@.len() == old(items)@.len(),
        forall|j: int|
            0 <= j < old(items)@.len() ==> (#[trigger] final(items)@[j]).path
                == old(items)@[j].path,
        forall|j: int|
            0 <= j < old(items)@.len() ==> (#[trigger] final(items)@[j]).attrs@ == if j
                <= unsupported_at(old(items)@) {
                without_marker(old(items)@[j].attrs@)
            } else {
                old(items)@[j].attrs@
            },
        match r {
            Ok(paths) => unsupported_at(old(items)@) == old(items)@.len() && copies(
                paths@,
                collected(old(items)@),
            ),
            Err(e) => e.index == unsupported_at(old(items)@) && e.index < old(items)@.len(),
        },
{
    let mut paths: Vec<Path> = Vec::new();
    let mut i: usize = 0;
    while i < items.len()
        invariant
            i <= items@.len(),
            items@.len() == old(items)@.len(),
            forall|j: int|
                0 <= j < items@.len() ==> (#[trigger] items@[j]).path == old(items)@[j].path,
            forall|j: int|
                0 <= j < items@.len() ==> (#[trigger] items@[j]).attrs@ == if j < i {
                    without_marker(old(items)@[j].attrs@)
                } else {
                    old(items)@[j].attrs@
                },
            forall|j: int| 0 <= j < i ==> !unsupported(#[trigger] old(items)@[j]),
            copies(paths@, collected(old(items)@.take(i as int))),
        decreases items@.len() - i,
    {
        let ghost before = items@;
        let removed = remove_unsorted_attr(&mut items[i].attrs);
        proof {
            assert(old(items)@.take(i + 1).drop_last() =~= old(items)@.take(i as int));
            assert(exempt(old(items)@[i as int]) == removed);
        }
        if !removed {
            match &items[i].path {
                Some(path) => {
                    paths.push(path.copy());
                },
                None => {
                    proof {
                        lemma_unsupported_at(old(items)@, i as int);
                    }
                    return Err(Unsupported { index: i });
                },
            }
        }
        i += 1;
    }
    proof {
        lemma_unsupported_at(old(items)@, i as int);
        assert(old(items)@.take(i as int) =~= old(items)@);
    }
    Ok(paths)
}

} // verus!
