//! Selecting from arrays: the runtime's selections and the interpreter's are the same.

use vstd::prelude::*;

use crate::codegen::boxes::{array_rep, cell_rep};
use crate::codegen::meeting::cells_rep;
use crate::codegen::native::Native;
use crate::eval::select;
use crate::eval::semantics::{whole_picks, whole_single};
use crate::eval::value::Val;
use crate::runtime::array;
use crate::runtime::array::{
    extent_from, every, listed_from, picked, picks_upto, ArrayView, CellView, PickView,
};
use crate::runtime::exact::FailureView;

verus! {

/// Whether the two sides have the same dimensions.
pub open spec fn same_shape(a: Seq<u64>, b: Seq<usize>) -> bool {
    &&& a.len() == b.len()
    &&& forall|i: int| 0 <= i < b.len() ==> #[trigger] a[i] == b[i]
}

pub(crate) proof fn lemma_same_extent(a: Seq<u64>, b: Seq<usize>, d: int)
    requires
        same_shape(a, b),
        0 <= d,
    ensures
        extent_from(a, d) == select::extent_from(b, d),
    decreases a.len() - d,
{
    if d < a.len() {
        lemma_same_extent(a, b, d + 1);
        assert(a[d] == b[d]);
    }
}

/// Whether positions are the same on both sides.
pub open spec fn same_positions(p: Seq<u64>, q: Seq<i128>) -> bool {
    &&& p.len() == q.len()
    &&& forall|i: int| 0 <= i < q.len() ==> #[trigger] p[i] == q[i]
}

pub open spec fn same_picks(ps: Seq<Seq<u64>>, qs: Seq<Seq<i128>>) -> bool {
    &&& ps.len() == qs.len()
    &&& forall|i: int| 0 <= i < qs.len() ==> same_positions(#[trigger] ps[i], qs[i])
}

/// How many combinations the picks from dimension `d` on make.
pub open spec fn combinations(ps: Seq<Seq<u64>>, d: int) -> nat
    decreases ps.len() - d,
{
    if d < 0 || d >= ps.len() {
        1
    } else {
        ps[d].len() * combinations(ps, d + 1)
    }
}

#[verifier::spinoff_prover]
pub(crate) proof fn gathered_meets(x: Seq<CellView>, xs: Seq<Val>, sx: Seq<u64>, ss: Seq<usize>, ps: Seq<Seq<u64>>, qs: Seq<Seq<i128>>, d: int, base: int, k: Native)
    requires
        cells_rep(x, xs, k),
        same_shape(sx, ss),
        same_picks(ps, qs),
        0 <= d,
        select::gathered(xs, ss, qs, d, base) is Some,
    ensures
        array::gathered(x, sx, ps, d, base) matches Some(cs) && cells_rep(cs, select::gathered(xs, ss, qs, d, base)->0, k)
            && cs.len() == combinations(ps, d),
    decreases ps.len() - d, 1int, 0int,
{
    if d >= ps.len() {
        assert(cell_rep(x[base], xs[base]));
    } else {
        gathered_from_meets(x, xs, sx, ss, ps, qs, d, base, 0, k);
    }
}

#[verifier::spinoff_prover]
proof fn gathered_from_meets(x: Seq<CellView>, xs: Seq<Val>, sx: Seq<u64>, ss: Seq<usize>, ps: Seq<Seq<u64>>, qs: Seq<Seq<i128>>, d: int, base: int, j: int, k: Native)
    requires
        cells_rep(x, xs, k),
        same_shape(sx, ss),
        same_picks(ps, qs),
        0 <= d < ps.len(),
        0 <= j <= ps[d].len(),
        select::gathered_from(xs, ss, qs, d, base, j) is Some,
    ensures
        array::gathered_from(x, sx, ps, d, base, j) matches Some(cs) && cells_rep(
            cs,
            select::gathered_from(xs, ss, qs, d, base, j)->0,
            k,
        ) && cs.len() == (ps[d].len() - j) * combinations(ps, d + 1),
    decreases ps.len() - d, 0int, ps[d].len() - j,
{
    assert(same_positions(ps[d], qs[d]));
    let n = combinations(ps, d + 1) as int;
    if j < ps[d].len() {
        assert(ps[d][j] == qs[d][j]);
        lemma_same_extent(sx, ss, d + 1);
        let next = base + qs[d][j] * select::stride(ss, d);
        assert(array::stride(sx, d) == select::stride(ss, d));
        gathered_meets(x, xs, sx, ss, ps, qs, d + 1, next, k);
        gathered_from_meets(x, xs, sx, ss, ps, qs, d, base, j + 1, k);
        assert((ps[d].len() - j) * n == n + (ps[d].len() - (j + 1)) * n) by (nonlinear_arith);
    } else {
        assert(0 * n == 0) by (nonlinear_arith);
    }
}

/// The dimensions left hold what was gathered.
pub(crate) proof fn lemma_kept(ps: Seq<Seq<u64>>, single: Seq<bool>, n: nat, d: int)
    requires
        n <= ps.len(),
        single.len() == ps.len(),
        forall|i: int| 0 <= i < ps.len() ==> (#[trigger] ps[i]).len() <= u64::MAX && (single[i] ==> ps[i].len() == 1),
    ensures
        extent_from(array::kept_shape(ps, single, n), 0) == prefix(ps, n),
        array::kept_shape(ps, single, n).len() <= n,
    decreases n,
{
    let s = array::kept_shape(ps, single, n);
    if n > 0 {
        lemma_kept(ps, single, (n - 1) as nat, d);
        let before = array::kept_shape(ps, single, (n - 1) as nat);
        assert(ps[n - 1].len() <= u64::MAX);
        if !single[n - 1] {
            assert(s =~= before + seq![ps[n - 1].len() as u64]);
            crate::codegen::vectors::lemma_extent_sum(before, seq![ps[n - 1].len() as u64], 0);
            reveal_with_fuel(extent_from, 3);
            assert(extent_from(seq![ps[n - 1].len() as u64], 0) == ps[n - 1].len() * 1);
        } else {
            assert(prefix(ps, (n - 1) as nat) * 1 == prefix(ps, (n - 1) as nat));
        }
    } else {
        assert(s.len() == 0);
    }
}

/// How many combinations the first picks make.
pub open spec fn prefix(ps: Seq<Seq<u64>>, n: nat) -> nat
    decreases n,
{
    if n == 0 {
        1
    } else {
        prefix(ps, (n - 1) as nat) * ps[n - 1].len()
    }
}

pub(crate) proof fn lemma_combinations(ps: Seq<Seq<u64>>, d: nat)
    requires
        d <= ps.len(),
    ensures
        prefix(ps, d) * combinations(ps, d as int) == prefix(ps, ps.len()),
    decreases ps.len() - d,
{
    if d < ps.len() {
        lemma_combinations(ps, d + 1);
        let a = prefix(ps, d) as int;
        let b = ps[d as int].len() as int;
        let c = combinations(ps, d as int + 1) as int;
        assert(a * (b * c) == (a * b) * c) by (nonlinear_arith);
        assert(prefix(ps, d + 1) == a * b);
        assert(combinations(ps, d as int) == b * c);
    } else {
        assert(combinations(ps, d as int) == 1);
        assert(prefix(ps, d) * 1 == prefix(ps, d)) by (nonlinear_arith);
    }
}

#[verifier::spinoff_prover]
pub(crate) proof fn kept_meets(ps: Seq<Seq<u64>>, qs: Seq<Seq<i128>>, single: Seq<bool>, n: nat)
    requires
        same_picks(ps, qs),
        single.len() == ps.len(),
        n <= ps.len(),
        forall|i: int| 0 <= i < ps.len() ==> (#[trigger] ps[i]).len() <= usize::MAX,
    ensures
        same_shape(array::kept_shape(ps, single, n), select::kept_shape(qs, single, n)),
        array::kept_shape(ps, single, n).len() + ones(single, n) == n,
    decreases n,
{
    if n > 0 {
        kept_meets(ps, qs, single, (n - 1) as nat);
        assert(same_positions(ps[n - 1], qs[n - 1]));
        assert(ps[n - 1].len() <= usize::MAX);
    }
}

/// How many of the first dimensions are picked by one index.
pub open spec fn ones(single: Seq<bool>, n: nat) -> nat
    decreases n,
{
    if n == 0 {
        0
    } else {
        ones(single, (n - 1) as nat) + (if single[n - 1] {
            1nat
        } else {
            0nat
        })
    }
}

/// A list of indices that all lie in a dimension.
pub(crate) proof fn lemma_listed(acc: Seq<u64>, list: Seq<i128>, j: int, dim: int, extent: u64)
    requires
        0 <= j <= list.len(),
        forall|i: int| 0 <= i < list.len() ==> 1 <= #[trigger] list[i] <= extent,
    ensures
        listed_from(acc, list, j, dim, extent) == Ok::<Seq<u64>, FailureView>(
            acc + Seq::new((list.len() - j) as nat, |i: int| (list[j + i] - 1) as u64),
        ),
    decreases list.len() - j,
{
    if j < list.len() {
        lemma_listed(acc.push((list[j] - 1) as u64), list, j + 1, dim, extent);
        assert(acc.push((list[j] - 1) as u64) + Seq::new((list.len() - (j + 1)) as nat, |i: int| (list[j + 1 + i] - 1) as u64)
            =~= acc + Seq::new((list.len() - j) as nat, |i: int| (list[j + i] - 1) as u64));
    } else {
        assert(acc + Seq::new(0nat, |i: int| (list[j + i] - 1) as u64) =~= acc);
    }
}

/// The picks of the runtime, where those of the interpreter are known.
#[verifier::spinoff_prover]
pub(crate) proof fn picks_meet(a: ArrayView, sels: Seq<PickView>, shape: Seq<usize>, picks: Seq<Seq<i128>>, single: Seq<bool>, n: nat)
    requires
        same_shape(a.shape, shape),
        sels.len() <= shape.len(),
        picks.len() == sels.len(),
        single.len() == sels.len(),
        n <= shape.len(),
        forall|i: int| 0 <= i < sels.len() ==> (picked(#[trigger] sels[i], i, a.shape[i]) matches Ok((p, one)) && same_positions(
            p,
            picks[i],
        ) && one == single[i]),
    ensures
        picks_upto(a, sels, n) matches Ok((ps, ones)) && {
            &&& ps.len() == n
            &&& ones.len() == n
            &&& forall|i: int| 0 <= i < n ==> same_positions(#[trigger] ps[i], whole_picks(picks, shape)[i])
            &&& forall|i: int| 0 <= i < n ==> #[trigger] ones[i] == whole_single(single, shape)[i]
        },
    decreases n,
{
    if n > 0 {
        picks_meet(a, sels, shape, picks, single, (n - 1) as nat);
        let d = n - 1;
        assert(a.shape[d] == shape[d]);
        if d >= sels.len() {
            assert(same_positions(every(a.shape[d]), select::all_positions(shape[d])));
        }
    }
}

/// A whole selection.
#[verifier::spinoff_prover]
#[verifier::rlimit(40)]
pub(crate) proof fn selections_meet(a: ArrayView, v: Val, k: Native, sels: Seq<PickView>, picks: Seq<Seq<i128>>, single: Seq<bool>)
    requires
        array_rep(a, v, k),
        0 < sels.len() <= a.shape.len(),
        picks.len() == sels.len(),
        single.len() == sels.len(),
        forall|i: int| 0 <= i < sels.len() ==> (picked(#[trigger] sels[i], i, a.shape[i]) matches Ok((p, one)) && same_positions(
            p,
            picks[i],
        ) && one == single[i] && p.len() <= usize::MAX && (one ==> p.len() == 1)),
        ones(single, single.len()) < a.shape.len(),
        select::selected(
            v->Array_items,
            v->Array_shape,
            whole_picks(picks, v->Array_shape),
            whole_single(single, v->Array_shape),
        ) is Some,
    ensures
        ({
            let out = select::selected(
                v->Array_items,
                v->Array_shape,
                whole_picks(picks, v->Array_shape),
                whole_single(single, v->Array_shape),
            )->0;
            &&& array::run_selected(a, sels) matches Ok(b) && {
                &&& array_rep(b, out, k)
                &&& b.shape.len() == a.shape.len() - ones(single, single.len())
                &&& b.items.len() == extent_from(b.shape, 0)
            }
        }),
{
    let items = v->Array_items;
    let shape = v->Array_shape;
    assert(same_shape(a.shape, shape));
    assert(cells_rep(a.items, items, k));
    picks_meet(a, sels, shape, picks, single, shape.len());
    let (ps, os) = picks_upto(a, sels, a.shape.len())->Ok_0;
    let qs = whole_picks(picks, shape);
    let ws = whole_single(single, shape);
    assert(same_picks(ps, qs));
    assert(os =~= ws);
    gathered_meets(a.items, items, a.shape, shape, ps, qs, 0, 0, k);
    lemma_picked_lengths(a, sels, a.shape.len());
    assert forall|i: int| 0 <= i < ps.len() implies (#[trigger] ps[i]).len() <= usize::MAX && (os[i] ==> ps[i].len() == 1) by {
        assert(same_positions(ps[i], qs[i]));
        if i < sels.len() {
            assert(picked(sels[i], i, a.shape[i]) is Ok);
            assert(same_positions(picked(sels[i], i, a.shape[i])->Ok_0.0, picks[i]));
        } else {
            assert(a.shape[i] == shape[i]);
        }
    }
    kept_meets(ps, qs, os, ps.len());
    lemma_kept(ps, os, ps.len(), 0);
    lemma_combinations(ps, 0);
    lemma_ones(single, ws, single.len(), ws.len());
    let b = array::run_selected(a, sels)->Ok_0;
    let left = select::kept_shape(qs, ws, qs.len());
    assert(left.len() > 0);
}

proof fn lemma_picked_lengths(a: ArrayView, sels: Seq<PickView>, n: nat)
    requires
        n <= a.shape.len(),
        picks_upto(a, sels, n) is Ok,
    ensures
        picks_upto(a, sels, n)->Ok_0.0.len() == n,
        picks_upto(a, sels, n)->Ok_0.1.len() == n,
    decreases n,
{
    if n > 0 {
        lemma_picked_lengths(a, sels, (n - 1) as nat);
    }
}

proof fn lemma_ones(single: Seq<bool>, whole: Seq<bool>, n: nat, m: nat)
    requires
        n == single.len(),
        n <= m <= whole.len(),
        forall|i: int| 0 <= i < whole.len() ==> #[trigger] whole[i] == (i < single.len() && single[i]),
    ensures
        ones(whole, m) == ones(single, n),
    decreases m,
{
    if m > n {
        lemma_ones(single, whole, n, (m - 1) as nat);
    } else {
        lemma_ones_same(single, whole, n);
    }
}

proof fn lemma_ones_same(a: Seq<bool>, b: Seq<bool>, n: nat)
    requires
        n <= a.len(),
        n <= b.len(),
        forall|i: int| 0 <= i < n ==> #[trigger] a[i] == b[i],
    ensures
        ones(a, n) == ones(b, n),
    decreases n,
{
    if n > 0 {
        lemma_ones_same(a, b, (n - 1) as nat);
    }
}

} // verus!
