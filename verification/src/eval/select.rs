//! Selecting elements of arrays, and putting arrays together out of parts.
//!
//! Elements are stored in row-major order: the last dimension runs fastest.

use vstd::arithmetic::mul::*;
use vstd::prelude::*;
use vstd::string::*;

use crate::eval::arrays::copied_shape;
use crate::eval::value::{lemma_array_view, lemma_vals_push, val_of, vals_of, Array, Val, Value};

verus! {

// ── where an element lies ───────────────────────────────────────────────────

/// The product of the dimensions from `d` on.
pub open spec fn extent_from(shape: Seq<usize>, d: int) -> nat
    decreases shape.len() - d,
{
    if d < 0 || d >= shape.len() {
        1
    } else {
        shape[d] as nat * extent_from(shape, d + 1)
    }
}

/// How far apart neighbours along dimension `d` lie.
pub open spec fn stride(shape: Seq<usize>, d: int) -> nat {
    let p = extent_from(shape, d + 1);
    if p == 0 {
        1
    } else {
        p
    }
}

fn extent(shape: &Vec<usize>, d: usize) -> (r: Option<usize>)
    requires
        d <= shape.len(),
    ensures
        match r {
            Some(p) => p == extent_from(shape@, d as int),
            None => extent_from(shape@, d as int) > usize::MAX,
        },
    decreases shape.len() - d,
{
    if d == shape.len() {
        Some(1)
    } else {
        let rest: Option<usize> = extent(shape, d + 1);
        let n: usize = shape[d];
        let ghost p = extent_from(shape@, d + 1);
        if n == 0 {
            assert(0 * p == 0);
            Some(0)
        } else {
            match rest {
                Some(q) => n.checked_mul(q),
                None => {
                    assert(n * p >= p) by (nonlinear_arith)
                        requires
                            n >= 1,
                            p >= 0,
                    ;
                    None
                },
            }
        }
    }
}

fn stride_at(shape: &Vec<usize>, d: usize) -> (r: Option<usize>)
    requires
        d < shape.len(),
    ensures
        match r {
            Some(p) => p == stride(shape@, d as int),
            None => stride(shape@, d as int) > usize::MAX,
        },
{
    match extent(shape, d + 1) {
        Some(p) => Some(
            if p == 0 {
                1
            } else {
                p
            },
        ),
        None => None,
    }
}

/// `base + p * stride`, or nothing where that lies beyond every array.
pub fn moved(base: Option<usize>, p: usize, step: Option<usize>) -> (r: Option<usize>)
    ensures
        forall|b: int, s: int|
            b >= 0 && s >= 1 && (match base {
                Some(v) => v == b,
                None => b > usize::MAX,
            }) && (match step {
                Some(v) => v == s,
                None => s > usize::MAX,
            }) ==> #[trigger] reached(r, b + p * s),
{
    let ghost pp = p as int;
    match base {
        None => {
            proof {
                assert forall|b: int, s: int| b > usize::MAX && s >= 1 implies #[trigger] reached(None, b + p * s) by {
                    assert(pp * s >= 0) by (nonlinear_arith)
                        requires
                            pp >= 0,
                            s >= 1,
                    ;
                }
            }
            None
        },
        Some(b) => {
            if p == 0 {
                proof {
                    assert forall|c: int, s: int| c == b implies #[trigger] reached(Some(b), c + p * s) by {
                        assert(0 * s == 0);
                    }
                }
                Some(b)
            } else {
                match step {
                    None => {
                        proof {
                            assert forall|c: int, s: int| c == b && s > usize::MAX implies #[trigger] reached(
                                None,
                                c + p * s,
                            ) by {
                                assert(pp * s >= s) by (nonlinear_arith)
                                    requires
                                        pp >= 1,
                                        s >= 1,
                                ;
                            }
                        }
                        None
                    },
                    Some(s) => match p.checked_mul(s) {
                        None => None,
                        Some(m) => b.checked_add(m),
                    },
                }
            }
        },
    }
}

/// An offset that was reached: exactly, or beyond every array.
pub open spec fn reached(r: Option<usize>, offset: int) -> bool {
    match r {
        Some(v) => v == offset,
        None => offset > usize::MAX,
    }
}

// ── changing one element ────────────────────────────────────────────────────

/// Whether each index lies in its dimension; indices start at 1.
pub open spec fn indices_valid(shape: Seq<usize>, indices: Seq<i128>) -> bool {
    &&& indices.len() > 0
    &&& indices.len() <= shape.len()
    &&& forall|d: int| 0 <= d < indices.len() ==> 1 <= #[trigger] indices[d] <= shape[d]
}

/// The row-major offset of an element. Indices are 1-based; dimensions without one are
/// taken at their first position.
pub open spec fn offset_of(shape: Seq<usize>, indices: Seq<i128>, n: nat) -> int
    decreases n,
{
    if n == 0 {
        0
    } else {
        offset_of(shape, indices, (n - 1) as nat) + (indices[n - 1] - 1) * stride(shape, n - 1)
    }
}

/// Where in an array's elements the indices lead, if anywhere.
pub open spec fn element_at(len: nat, shape: Seq<usize>, indices: Seq<i128>) -> Option<int> {
    let o = offset_of(shape, indices, indices.len());
    if indices_valid(shape, indices) && o < len {
        Some(o)
    } else {
        None
    }
}

/// Row-major flat offset of an element of an array.
pub fn flat_index(arr: &Array, indices: &Vec<i128>) -> (r: Option<usize>)
    ensures
        match r {
            Some(o) => element_at(arr.items@.len(), arr.shape@, indices@) == Some(o as int) && o < arr.items@.len(),
            None => element_at(arr.items@.len(), arr.shape@, indices@) is None,
        },
{
    if indices.len() == 0 || indices.len() > arr.shape.len() {
        return None;
    }
    let mut at: Option<usize> = Some(0);
    let mut d: usize = 0;
    while d < indices.len()
        invariant
            d <= indices.len() <= arr.shape.len(),
            indices.len() > 0,
            forall|k: int| 0 <= k < d ==> 1 <= #[trigger] indices@[k] <= arr.shape@[k],
            reached(at, offset_of(arr.shape@, indices@, d as nat)),
            offset_of(arr.shape@, indices@, d as nat) >= 0,
        decreases indices.len() - d,
    {
        let i: i128 = indices[d];
        if i < 1 || i > arr.shape[d] as i128 {
            assert(!(1 <= indices@[d as int] <= arr.shape@[d as int]));
            return None;
        }
        let step: Option<usize> = stride_at(&arr.shape, d);
        let next: Option<usize> = moved(at, (i - 1) as usize, step);
        proof {
            let b = offset_of(arr.shape@, indices@, d as nat);
            let s = stride(arr.shape@, d as int) as int;
            let p = (i - 1) as usize;
            assert(reached(next, b + p * s));
            assert(p * s >= 0) by (nonlinear_arith)
                requires
                    p >= 0,
                    s >= 1,
            ;
        }
        at = next;
        d = d + 1;
    }
    match at {
        Some(o) => if o < arr.items.len() {
            Some(o)
        } else {
            None
        },
        None => {
            assert(arr.items@.len() == arr.items.len());
            None
        },
    }
}

// ── selecting ───────────────────────────────────────────────────────────────

/// The elements at every combination of the chosen positions, the last dimension running
/// fastest; nothing where one of them lies outside the array.
pub open spec fn gathered(items: Seq<Val>, shape: Seq<usize>, picks: Seq<Seq<i128>>, d: int, base: int) -> Option<
    Seq<Val>,
>
    decreases picks.len() - d, 1int, 0int,
{
    if d < 0 || d >= picks.len() {
        if 0 <= base < items.len() {
            Some(seq![items[base]])
        } else {
            None
        }
    } else {
        gathered_from(items, shape, picks, d, base, 0)
    }
}

/// The same, from the `k`-th chosen position of one dimension on.
pub open spec fn gathered_from(
    items: Seq<Val>,
    shape: Seq<usize>,
    picks: Seq<Seq<i128>>,
    d: int,
    base: int,
    k: int,
) -> Option<Seq<Val>>
    decreases picks.len() - d, 0int, picks[d].len() - k,
{
    if d < 0 || d >= picks.len() || k < 0 || k >= picks[d].len() {
        Some(Seq::empty())
    } else {
        match (
            gathered(items, shape, picks, d + 1, base + picks[d][k] * stride(shape, d)),
            gathered_from(items, shape, picks, d, base, k + 1),
        ) {
            (Some(a), Some(b)) => Some(a + b),
            _ => None,
        }
    }
}

pub open spec fn picks_view(picks: Seq<Vec<i128>>) -> Seq<Seq<i128>> {
    Seq::new(picks.len(), |i: int| picks[i]@)
}

/// Whether every chosen position lies in its dimension.
pub open spec fn picks_valid(shape: Seq<usize>, picks: Seq<Seq<i128>>) -> bool {
    &&& picks.len() <= shape.len()
    &&& forall|d: int, k: int|
        0 <= d < picks.len() && 0 <= k < picks[d].len() ==> 0 <= #[trigger] picks[d][k] < shape[d]
}

fn gather(arr: &Array, picks: &Vec<Vec<i128>>, d: usize, base: Option<usize>, Ghost(b): Ghost<int>, out: &mut Vec<Value>) -> (r: bool)
    requires
        d <= picks.len(),
        picks_valid(arr.shape@, picks_view(picks@)),
        reached(base, b),
        b >= 0,
    ensures
        match gathered(vals_of(arr.items@), arr.shape@, picks_view(picks@), d as int, b) {
            Some(s) => r && vals_of(final(out)@) == vals_of(old(out)@) + s,
            None => !r,
        },
    decreases picks.len() - d,
{
    let ghost items = vals_of(arr.items@);
    let ghost pv = picks_view(picks@);
    if d == picks.len() {
        return match base {
            Some(o) => if o < arr.items.len() {
                let v: Value = arr.items[o].copied();
                proof {
                    lemma_vals_push(out@, v);
                    assert(vals_of(out@) + seq![v@] =~= vals_of(out@).push(v@));
                }
                out.push(v);
                true
            } else {
                false
            },
            None => {
                assert(arr.items@.len() == arr.items.len());
                false
            },
        };
    }
    let ghost start = vals_of(out@);
    let ghost whole = gathered_from(items, arr.shape@, pv, d as int, b, 0);
    let step: Option<usize> = stride_at(&arr.shape, d);
    let mut k: usize = 0;
    let ghost mut done: Seq<Val> = Seq::empty();
    assert(start + done =~= start);
    proof {
        let rest = gathered_from(items, arr.shape@, pv, d as int, b, 0);
        if let Some(s) = rest {
            assert(done + s =~= s);
        }
    }
    while k < picks[d].len()
        invariant
            d < picks.len(),
            k <= picks@[d as int].len(),
            items == vals_of(arr.items@),
            pv == picks_view(picks@),
            picks_valid(arr.shape@, pv),
            reached(base, b),
            b >= 0,
            match step {
                Some(p) => p == stride(arr.shape@, d as int),
                None => stride(arr.shape@, d as int) > usize::MAX,
            },
            vals_of(out@) == start + done,
            whole == gathered(items, arr.shape@, pv, d as int, b),
            whole == (match gathered_from(items, arr.shape@, pv, d as int, b, k as int) {
                Some(s) => Some(done + s),
                None => None,
            }),
        decreases picks@[d as int].len() - k,
    {
        let p: i128 = picks[d][k];
        proof {
            assert(pv[d as int][k as int] == p);
            assert(0 <= pv[d as int][k as int] < arr.shape@[d as int]);
        }
        let at: Option<usize> = moved(base, p as usize, step);
        let ghost s = stride(arr.shape@, d as int) as int;
        let ghost o = b + p * s;
        proof {
            let q = p as usize;
            assert(reached(at, b + q * s));
            assert(q * s >= 0) by (nonlinear_arith)
                requires
                    q >= 0,
                    s >= 1,
            ;
        }
        let ok: bool = gather(arr, picks, d + 1, at, Ghost(o), out);
        if !ok {
            return false;
        }
        proof {
            let part = gathered(items, arr.shape@, pv, d as int + 1, o)->0;
            assert(start + done + part =~= start + (done + part));
            let rest = gathered_from(items, arr.shape@, pv, d as int, b, k as int + 1);
            if let Some(t) = rest {
                assert(done + (part + t) =~= done + part + t);
            }
            done = done + part;
        }
        k = k + 1;
    }
    proof {
        assert(done + Seq::<Val>::empty() =~= done);
    }
    true
}

/// The dimensions that selecting leaves: one for each that was not picked by one index.
pub open spec fn kept_shape(picks: Seq<Seq<i128>>, single: Seq<bool>, n: nat) -> Seq<usize>
    decreases n,
{
    if n == 0 {
        Seq::empty()
    } else if single[n - 1] {
        kept_shape(picks, single, (n - 1) as nat)
    } else {
        kept_shape(picks, single, (n - 1) as nat).push(picks[n - 1].len() as usize)
    }
}

/// What selecting positions along each dimension gives: a plain value where every
/// dimension was picked by one index, else an array of the dimensions left.
pub open spec fn selected(items: Seq<Val>, shape: Seq<usize>, picks: Seq<Seq<i128>>, single: Seq<bool>) -> Option<Val> {
    match gathered(items, shape, picks, 0, 0) {
        Some(vs) => {
            let left = kept_shape(picks, single, picks.len());
            if left.len() == 0 && vs.len() > 0 {
                Some(vs[0])
            } else {
                Some(Val::Array { items: vs, shape: left })
            }
        },
        None => None,
    }
}

/// Select the chosen positions along each dimension.
pub fn select_positions(arr: &Array, picks: &Vec<Vec<i128>>, single: &Vec<bool>) -> (r: Option<Value>)
    requires
        picks_valid(arr.shape@, picks_view(picks@)),
        picks.len() == single.len(),
    ensures
        match r {
            Some(v) => selected(vals_of(arr.items@), arr.shape@, picks_view(picks@), single@) == Some(v@),
            None => selected(vals_of(arr.items@), arr.shape@, picks_view(picks@), single@) is None,
        },
{
    broadcast use lemma_array_view;

    let mut items: Vec<Value> = Vec::new();
    assert(vals_of(items@) =~= Seq::empty());
    let ok: bool = gather(arr, picks, 0, Some(0), Ghost(0), &mut items);
    if !ok {
        return None;
    }
    let ghost vs = gathered(vals_of(arr.items@), arr.shape@, picks_view(picks@), 0, 0)->0;
    assert(Seq::<Val>::empty() + vs =~= vs);
    let mut shape: Vec<usize> = Vec::new();
    let mut d: usize = 0;
    while d < picks.len()
        invariant
            d <= picks.len(),
            picks.len() == single.len(),
            shape@ == kept_shape(picks_view(picks@), single@, d as nat),
        decreases picks.len() - d,
    {
        if !single[d] {
            shape.push(picks[d].len());
        }
        d = d + 1;
    }
    if shape.len() == 0 && items.len() > 0 {
        let v: Value = items[0].copied();
        assert(vs[0] == v@);
        Some(v)
    } else {
        Some(Value::Array(Array { items, shape }))
    }
}

// ── positions ───────────────────────────────────────────────────────────────

/// Whether a counter that moves by `step` has not yet passed its end.
pub open spec fn in_range(i: int, to: int, step: int) -> bool {
    (step > 0 && i <= to) || (step < 0 && i >= to)
}

/// How far a counter still is from passing its end.
pub open spec fn range_left(i: int, to: int, step: int) -> nat {
    if step > 0 && i <= to {
        (to - i + 1) as nat
    } else if step < 0 && i >= to {
        (i - to + 1) as nat
    } else {
        0
    }
}

/// The zero-based positions from `i` to `to`, added to those in `acc`; or the first that
/// is no index.
pub open spec fn positions_from(acc: Seq<i128>, i: int, to: int, step: int) -> Result<Seq<i128>, int>
    decreases range_left(i, to, step),
{
    if !in_range(i, to, step) {
        Ok(acc)
    } else if i < 1 {
        Err(i)
    } else {
        positions_from(acc.push((i - 1) as i128), i + step, to, step)
    }
}

/// The zero-based positions that a range picks, or the first that is no index.
pub fn range_positions(from: i128, to: i128, step: i128) -> (r: Result<Vec<i128>, i128>)
    requires
        step != 0,
    ensures
        match r {
            Ok(v) => positions_from(Seq::empty(), from as int, to as int, step as int) == Ok::<Seq<i128>, int>(v@)
                && forall|k: int| 0 <= k < v@.len() ==> 0 <= #[trigger] v@[k],
            Err(i) => positions_from(Seq::empty(), from as int, to as int, step as int) == Err::<Seq<i128>, int>(
                i as int,
            ),
        },
{
    let mut out: Vec<i128> = Vec::new();
    let mut i: i128 = from;
    while (step > 0 && i <= to) || (step < 0 && i >= to)
        invariant
            step != 0,
            forall|k: int| 0 <= k < out@.len() ==> 0 <= #[trigger] out@[k],
            positions_from(Seq::empty(), from as int, to as int, step as int) == positions_from(
                out@,
                i as int,
                to as int,
                step as int,
            ),
        decreases range_left(i as int, to as int, step as int),
    {
        if i < 1 {
            return Err(i);
        }
        out.push(i - 1);
        match i.checked_add(step) {
            Some(next) => {
                i = next;
            },
            None => {
                proof {
                    assert(!in_range(i + step, to as int, step as int));
                    assert(positions_from(out@, i + step, to as int, step as int) == Ok::<Seq<i128>, int>(out@));
                }
                return Ok(out);
            },
        }
    }
    Ok(out)
}

/// The positions of a whole dimension.
pub open spec fn all_positions(n: usize) -> Seq<i128> {
    Seq::new(n as nat, |i: int| i as i128)
}

pub fn every_position(n: usize) -> (r: Vec<i128>)
    ensures
        r@ == all_positions(n),
{
    let mut out: Vec<i128> = Vec::new();
    let mut i: usize = 0;
    while i < n
        invariant
            i <= n,
            out@ =~= all_positions(i),
        decreases n - i,
    {
        out.push(i as i128);
        i = i + 1;
    }
    assert(out@ =~= all_positions(n));
    out
}

// ── putting arrays together ─────────────────────────────────────────────────

/// The elements of a list of values, an array counting as its elements.
pub open spec fn flattened(vs: Seq<Val>, n: nat) -> Seq<Val>
    decreases n,
{
    if n == 0 {
        Seq::empty()
    } else {
        match vs[n - 1] {
            Val::Array { items, .. } => flattened(vs, (n - 1) as nat) + items,
            v => flattened(vs, (n - 1) as nat).push(v),
        }
    }
}

/// The shape of the first array in a list of values.
pub open spec fn inner_shape(vs: Seq<Val>, n: nat) -> Option<Seq<usize>>
    decreases n,
{
    if n == 0 {
        None
    } else {
        match inner_shape(vs, (n - 1) as nat) {
            Some(s) => Some(s),
            None => match vs[n - 1] {
                Val::Array { shape, .. } => Some(shape),
                _ => None,
            },
        }
    }
}

/// The shape of the first array among the first `n` values whose shape is not that of the
/// first array.
pub open spec fn odd_shape(vs: Seq<Val>, n: nat) -> Option<(Seq<usize>, Seq<usize>)>
    decreases n,
{
    if n == 0 {
        None
    } else {
        match odd_shape(vs, (n - 1) as nat) {
            Some(p) => Some(p),
            None => match (inner_shape(vs, (n - 1) as nat), vs[n - 1]) {
                (Some(first), Val::Array { shape, .. }) => if first != shape {
                    Some((first, shape))
                } else {
                    None
                },
                _ => None,
            },
        }
    }
}

/// An array made of values: nesting builds higher rank.
pub open spec fn assembled(vs: Seq<Val>) -> Val {
    Val::Array {
        items: flattened(vs, vs.len()),
        shape: match inner_shape(vs, vs.len()) {
            Some(s) => seq![vs.len() as usize] + s,
            None => seq![vs.len() as usize],
        },
    }
}

pub open spec fn shape_view(s: Option<Vec<usize>>) -> Option<Seq<usize>> {
    match s {
        Some(v) => Some(v@),
        None => None,
    }
}

fn append_copies(out: &mut Vec<Value>, items: &Vec<Value>)
    ensures
        vals_of(final(out)@) == vals_of(old(out)@) + vals_of(items@),
{
    let ghost start = vals_of(out@);
    let ghost all = vals_of(items@);
    let mut i: usize = 0;
    assert(start + all.take(0) =~= start);
    while i < items.len()
        invariant
            i <= items.len(),
            all == vals_of(items@),
            vals_of(out@) == start + all.take(i as int),
        decreases items.len() - i,
    {
        let v: Value = items[i].copied();
        proof {
            lemma_vals_push(out@, v);
            assert((start + all.take(i as int)).push(v@) =~= start + all.take(i as int + 1));
        }
        out.push(v);
        i = i + 1;
    }
    assert(all.take(all.len() as int) =~= all);
}

/// Whether two shapes are the same.
pub fn same_shape(a: &Vec<usize>, b: &Vec<usize>) -> (r: bool)
    ensures
        r == (a@ == b@),
{
    if a.len() != b.len() {
        return false;
    }
    let mut i: usize = 0;
    while i < a.len()
        invariant
            i <= a.len(),
            a.len() == b.len(),
            forall|j: int| 0 <= j < i ==> a@[j] == b@[j],
        decreases a.len() - i,
    {
        if a[i] != b[i] {
            assert(a@[i as int] != b@[i as int]);
            return false;
        }
        i = i + 1;
    }
    assert(a@ =~= b@);
    true
}

/// The two shapes that disagree among a list of values, if any do.
pub fn disagreeing_shapes(vs: &Vec<Value>) -> (r: Option<(Vec<usize>, Vec<usize>)>)
    ensures
        match r {
            Some((a, b)) => odd_shape(vals_of(vs@), vs@.len()) == Some((a@, b@)),
            None => odd_shape(vals_of(vs@), vs@.len()) is None,
        },
{
    broadcast use lemma_array_view;

    let ghost all = vals_of(vs@);
    let mut first: Option<Vec<usize>> = None;
    let mut i: usize = 0;
    while i < vs.len()
        invariant
            i <= vs.len(),
            all == vals_of(vs@),
            shape_view(first) == inner_shape(all, i as nat),
            odd_shape(all, i as nat) is None,
        decreases vs.len() - i,
    {
        assert(all[i as int] == val_of(vs@[i as int]));
        if let Value::Array(a) = &vs[i] {
            let next: Option<Vec<usize>> = match first {
                Some(s) => {
                    if !same_shape(&s, &a.shape) {
                        proof {
                            lemma_odd_stays(all, (i + 1) as nat, all.len());
                        }
                        return Some((s, copied_shape(&a.shape)));
                    }
                    Some(s)
                },
                None => Some(copied_shape(&a.shape)),
            };
            first = next;
        }
        i = i + 1;
    }
    None
}

proof fn lemma_odd_stays(vs: Seq<Val>, k: nat, n: nat)
    requires
        k <= n,
        odd_shape(vs, k) is Some,
    ensures
        odd_shape(vs, n) == odd_shape(vs, k),
    decreases n,
{
    if k < n {
        lemma_odd_stays(vs, k, (n - 1) as nat);
    }
}

/// Put values together into an array.
pub fn assemble(vs: &Vec<Value>) -> (r: Value)
    ensures
        r@ == assembled(vals_of(vs@)),
{
    broadcast use lemma_array_view;

    let ghost all = vals_of(vs@);
    let mut items: Vec<Value> = Vec::new();
    let mut inner: Option<Vec<usize>> = None;
    assert(vals_of(items@) =~= Seq::empty());
    let mut i: usize = 0;
    while i < vs.len()
        invariant
            i <= vs.len(),
            all == vals_of(vs@),
            vals_of(items@) == flattened(all, i as nat),
            shape_view(inner) == inner_shape(all, i as nat),
        decreases vs.len() - i,
    {
        assert(all[i as int] == val_of(vs@[i as int]));
        match &vs[i] {
            Value::Array(a) => {
                append_copies(&mut items, &a.items);
                if inner.is_none() {
                    inner = Some(copied_shape(&a.shape));
                }
            },
            other => {
                let v: Value = other.copied();
                proof {
                    lemma_vals_push(items@, v);
                }
                items.push(v);
            },
        }
        i = i + 1;
    }
    let mut shape: Vec<usize> = Vec::new();
    shape.push(vs.len());
    assert(shape@ =~= seq![vs@.len() as usize]);
    if let Some(s) = &inner {
        let ghost head = shape@;
        let mut j: usize = 0;
        assert(head + s@.take(0) =~= head);
        while j < s.len()
            invariant
                j <= s.len(),
                shape@ == head + s@.take(j as int),
            decreases s.len() - j,
        {
            shape.push(s[j]);
            j = j + 1;
            assert(shape@ =~= head + s@.take(j as int));
        }
        assert(s@.take(s@.len() as int) =~= s@);
    }
    Value::Array(Array { items, shape })
}

} // verus!
