//! What compiled programs select from arrays and change in them.

use vstd::prelude::*;

use crate::eval::select::{in_range, positions_from, range_left};
use crate::runtime::access::{read_as, with_cell};
use crate::runtime::array::{listed_from, picked, ranged_from, ArrayView, CellView, PickView};

verus! {

proof fn lemma_listed(acc: Seq<u64>, list: Seq<i128>, k: int, dim: int, extent: u64)
    requires
        0 <= k <= list.len(),
        acc.len() == k,
        forall|j: int| 0 <= j < k ==> #[trigger] acc[j] == list[j] - 1,
    ensures
        listed_from(acc, list, k, dim, extent) matches Ok(ps) ==> ps.len() == list.len() && (forall|j: int|
            0 <= j < list.len() ==> #[trigger] ps[j] == list[j] - 1) && (forall|j: int| k <= j < list.len() ==> 1 <= #[trigger] list[j] <= extent),
        (forall|j: int| k <= j < list.len() ==> 1 <= #[trigger] list[j] <= extent) ==> listed_from(acc, list, k, dim, extent) is Ok,
    decreases list.len() - k,
{
    if k < list.len() {
        if 1 <= list[k] <= extent {
            let more = acc.push((list[k] - 1) as u64);
            assert forall|j: int| 0 <= j < k + 1 implies #[trigger] more[j] == list[j] - 1 by {
                if j < k {
                    assert(acc[j] == list[j] - 1);
                }
            }
            lemma_listed(more, list, k + 1, dim, extent);
        }
    }
}

proof fn lemma_ranged(acc: Seq<u64>, other: Seq<i128>, i: int, to: int, by: int, dim: int, extent: u64)
    requires
        by != 0,
        acc.len() == other.len(),
        forall|j: int| 0 <= j < acc.len() ==> #[trigger] acc[j] == other[j],
    ensures
        ranged_from(acc, i, to, by, dim, extent) matches Ok(ps) ==> (positions_from(other, i, to, by) matches Ok(qs) && ps.len() == qs.len()
            && (forall|j: int| 0 <= j < ps.len() ==> #[trigger] ps[j] == qs[j]) && (forall|j: int| acc.len() <= j < ps.len() ==> #[trigger] ps[j]
            < extent)),
    decreases range_left(i, to, by),
{
    if in_range(i, to, by) && 1 <= i <= extent {
        let a = acc.push((i - 1) as u64);
        let b = other.push((i - 1) as i128);
        assert forall|j: int| 0 <= j < a.len() implies #[trigger] a[j] == b[j] by {
            if j < acc.len() {
                assert(acc[j] == other[j]);
            }
        }
        lemma_ranged(a, b, i + by, to, by, dim, extent);
        if let Ok(ps) = ranged_from(a, i + by, to, by, dim, extent) {
            lemma_ranged_keeps(a, i + by, to, by, dim, extent);
            assert(ps[acc.len() as int] == a[acc.len() as int]);
        }
    }
}

proof fn lemma_ranged_keeps(acc: Seq<u64>, i: int, to: int, by: int, dim: int, extent: u64)
    requires
        by != 0,
    ensures
        ranged_from(acc, i, to, by, dim, extent) matches Ok(ps) ==> ps.len() >= acc.len() && forall|j: int|
            0 <= j < acc.len() ==> #[trigger] ps[j] == acc[j],
    decreases range_left(i, to, by),
{
    if in_range(i, to, by) && 1 <= i <= extent {
        let a = acc.push((i - 1) as u64);
        lemma_ranged_keeps(a, i + by, to, by, dim, extent);
        if let Ok(ps) = ranged_from(a, i + by, to, by, dim, extent) {
            assert forall|j: int| 0 <= j < acc.len() implies #[trigger] ps[j] == acc[j] by {
                assert(ps[j] == a[j]);
            }
        }
    }
}

/// Indices pick the positions one below them, where all of them lie in the dimension; one
/// index takes the dimension away.
pub proof fn indices_pick_positions(list: Seq<i128>, dim: int, extent: u64)
    ensures
        picked(PickView::Indices(list), dim, extent) is Ok <==> forall|j: int| 0 <= j < list.len() ==> 1 <= #[trigger] list[j] <= extent,
        picked(PickView::Indices(list), dim, extent) matches Ok((ps, one)) ==> ps.len() == list.len() && (one <==> list.len() == 1) && forall|j: int|
            0 <= j < list.len() ==> #[trigger] ps[j] == list[j] - 1,
{
    lemma_listed(Seq::empty(), list, 0, dim, extent);
}

/// A range picks the positions that the interpreter picks, all of them in the dimension, and
/// `:all;` every position.
pub proof fn ranges_pick_the_same_positions(from: i128, to: i128, by: i128, dim: int, extent: u64)
    requires
        by != 0,
    ensures
        picked(PickView::Range { from, to, by }, dim, extent) matches Ok((ps, one)) ==> !one && (positions_from(
            Seq::empty(),
            from as int,
            to as int,
            by as int,
        ) matches Ok(qs) && ps.len() == qs.len() && (forall|j: int| 0 <= j < ps.len() ==> #[trigger] ps[j] == qs[j]) && (forall|j: int|
            0 <= j < ps.len() ==> #[trigger] ps[j] < extent)),
        picked(PickView::All, dim, extent) matches Ok((ps, one)) && !one && ps.len() == extent && forall|j: int|
            0 <= j < extent ==> #[trigger] ps[j] == j,
{
    lemma_ranged(Seq::empty(), Seq::empty(), from as int, to as int, by as int, dim, extent);
}

/// An element that is changed is read as it was changed, and the others as before; an index
/// outside the array is refused.
pub proof fn a_changed_element_is_read_back(a: ArrayView, i: int, j: int, c: CellView)
    ensures
        1 <= i <= a.items.len() ==> (read_as(with_cell(a, i, c), i, |x: CellView| x) matches Ok(x) && x == c),
        1 <= i <= a.items.len() && i != j ==> read_as(with_cell(a, i, c), j, |x: CellView| x) == read_as(a, j, |x: CellView| x),
        !(1 <= i <= a.items.len()) ==> read_as(a, i, |x: CellView| x) is Err,
        with_cell(a, i, c).shape == a.shape,
        with_cell(a, i, c).items.len() == a.items.len(),
        1 <= i <= a.items.len() ==> (read_as(a, i, |x: CellView| x) matches Ok(x) && x == a.items[i - 1]),
{
}

} // verus!
