//! The runtime's arrays and the interpreter's: operation by operation, they come to the same.

use vstd::prelude::*;

use crate::ast::{BinOp, UnOp};
use crate::codegen::boxes::{cell_native, cell_rep};
use crate::codegen::exactly::{as_decimal, as_rational, decimals_meet, rationals_meet};
use crate::codegen::native::Native;
use crate::codegen::steps::{arithmetic_tag, relation_of, relation_tag, unary_tag};
use crate::diagnostics::position::Span;
use crate::eval::arrays;
use crate::eval::numeric::Numeric;
use crate::eval::ops::{arith, compared, sum_of, unary_val, StopView};
use crate::eval::semantics::{broadcast_item, pair_result, pairs_from, World};
use crate::eval::value::Val;
use crate::runtime::array::CellView;
use crate::runtime::exact::HaltView;
use crate::runtime::num;
use crate::runtime::num::{cell_arith, cell_unary, combined, pairwise};

verus! {

/// Whether cells stand for values, all in one representation.
pub open spec fn cells_rep(cs: Seq<CellView>, vs: Seq<Val>, k: Native) -> bool {
    &&& cs.len() == vs.len()
    &&& forall|i: int| 0 <= i < vs.len() ==> cell_rep(#[trigger] cs[i], vs[i]) && cell_native(cs[i]) == k
}

/// The representations that arithmetic on arrays keeps.
pub open spec fn numeric(k: Native) -> bool {
    k is Int || k is Deci || k is Rat
}

pub open spec fn plain_operation(op: BinOp) -> bool {
    op == BinOp::Add || op == BinOp::Sub || op == BinOp::Mul
}

/// Arithmetic on two elements.
#[verifier::spinoff_prover]
pub(crate) proof fn cells_meet(op: BinOp, a: CellView, b: CellView, x: Val, y: Val, k: Native, span: Span, hint: Option<Numeric>)
    requires
        plain_operation(op),
        numeric(k),
        cell_rep(a, x) && cell_native(a) == k,
        cell_rep(b, y) && cell_native(b) == k,
        arith(op, x, y, span, hint) is Ok,
    ensures
        cell_arith(arithmetic_tag(op)->0, a, b) matches Ok(c) && cell_rep(c, arith(op, x, y, span, hint)->Ok_0) && cell_native(c)
            == k,
{
    reveal(cell_arith);
    if k is Int {
        reveal(arith);
    } else if k is Deci {
        decimals_meet(op, x, y, as_decimal(x)->0, as_decimal(y)->0, span, hint);
    } else {
        rationals_meet(op, x, y, as_rational(x)->0, as_rational(y)->0, span, hint);
    }
}

/// A comparison of two elements.
#[verifier::spinoff_prover]
pub(crate) proof fn orders_meet(op: BinOp, a: CellView, b: CellView, x: Val, y: Val, k: Native, span: Span)
    requires
        relation_of(op) is Some,
        k is Int || k is Rat || k is Str,
        cell_rep(a, x) && cell_native(a) == k,
        cell_rep(b, y) && cell_native(b) == k,
        compared(op, x, y, span) is Ok,
    ensures
        Val::Bool(num::cell_satisfies(relation_tag(relation_of(op)->0), num::cell_sign(a, b))) == compared(op, x, y, span)->Ok_0,
{
    reveal(compared);
}

/// Neither asks anybody.
proof fn never_asks(op: BinOp, x: Val, y: Val, span: Span, hint: Option<Numeric>)
    ensures
        plain_operation(op) ==> !(arith(op, x, y, span, hint) matches Err(StopView::Ask(_))),
        !(compared(op, x, y, span) matches Err(StopView::Ask(_))),
{
    reveal(arith);
    reveal(compared);
}

/// Whether cells are what an operand is, spread where it is a single value.
pub open spec fn side_rep(cs: Seq<CellView>, v: Val, n: nat, k: Native) -> bool {
    match v {
        Val::Array { items, .. } => cells_rep(cs, items, k) && items.len() == n,
        _ => cs.len() == 1 && cell_rep(cs[0], v) && cell_native(cs[0]) == k,
    }
}

/// An operation position by position.
#[verifier::spinoff_prover]
pub(crate) proof fn pairs_meet(
    w: World,
    op: BinOp,
    a: Val,
    b: Val,
    x: Seq<CellView>,
    y: Seq<CellView>,
    n: nat,
    acc: Seq<Val>,
    cs: Seq<CellView>,
    k: Native,
    span: Span,
    hint: Option<Numeric>,
)
    requires
        plain_operation(op) && numeric(k) || (relation_of(op) is Some && (k is Int || k is Rat || k is Str)),
        side_rep(x, a, n, k),
        side_rep(y, b, n, k),
        acc.len() <= n,
        cells_rep(cs, acc, if relation_of(op) is Some { Native::Bool } else { k }),
        ({
            let compares = relation_of(op) is Some;
            let tag = if compares { relation_tag(relation_of(op)->0) } else { arithmetic_tag(op)->0 };
            pairwise(tag, compares, x, y, acc.len()) == Ok::<Seq<CellView>, HaltView>(cs)
        }),
        pairs_from(w, op, a, b, n, acc, span, hint).1 is Ok,
    ensures
        ({
            let compares = relation_of(op) is Some;
            let tag = if compares { relation_tag(relation_of(op)->0) } else { arithmetic_tag(op)->0 };
            let r = pairs_from(w, op, a, b, n, acc, span, hint);
            &&& r.0 == w
            &&& pairwise(tag, compares, x, y, n) matches Ok(all) && cells_rep(
                all,
                r.1->Ok_0,
                if compares { Native::Bool } else { k },
            )
            &&& r.1->Ok_0.len() == n
        }),
    decreases n - acc.len(),
{
    if acc.len() < n {
        let i = acc.len() as int;
        let compares = relation_of(op) is Some;
        let p = broadcast_item(a, i);
        let q = broadcast_item(b, i);
        let r = pair_result(w, op, p, q, span, hint);
        assert(crate::eval::ops::is_comparison(op) == compares);
        never_asks(op, p, q, span, hint);
        assert(r.1 is Ok && r.0 == w);
        let c = num::spread(x, i);
        let d = num::spread(y, i);
        assert(cell_rep(c, p) && cell_native(c) == k);
        assert(cell_rep(d, q) && cell_native(d) == k);
        if compares {
            orders_meet(op, c, d, p, q, k, span);
        } else {
            cells_meet(op, c, d, p, q, k, span, hint);
        }
        let tag = if compares { relation_tag(relation_of(op)->0) } else { arithmetic_tag(op)->0 };
        let out = combined(tag, compares, c, d)->Ok_0;
        let v = r.1->Ok_0;
        let acc1 = acc.push(v);
        let cs1 = cs.push(out);
        assert(pairwise(tag, compares, x, y, acc1.len()) == Ok::<Seq<CellView>, HaltView>(cs1));
        pairs_meet(w, op, a, b, x, y, n, acc1, cs1, k, span, hint);
    }
}

/// Products, pair by pair.
#[verifier::spinoff_prover]
pub(crate) proof fn products_meet(xs: Seq<Val>, ys: Seq<Val>, x: Seq<CellView>, y: Seq<CellView>, n: nat, k: Native, span: Span)
    requires
        numeric(k),
        cells_rep(x, xs, k),
        cells_rep(y, ys, k),
        n <= xs.len(),
        n <= ys.len(),
        arrays::products(xs, ys, n, span) is Ok,
    ensures
        num::products(x, y, n) matches Ok(cs) && cells_rep(cs, arrays::products(xs, ys, n, span)->Ok_0, k),
        arrays::products(xs, ys, n, span)->Ok_0.len() == n,
    decreases n,
{
    if n > 0 {
        products_meet(xs, ys, x, y, (n - 1) as nat, k, span);
        assert(cell_rep(x[n - 1], xs[n - 1]) && cell_rep(y[n - 1], ys[n - 1]));
        cells_meet(BinOp::Mul, x[n - 1], y[n - 1], xs[n - 1], ys[n - 1], k, span, None);
    }
}

/// A cross product.
#[verifier::spinoff_prover]
pub(crate) proof fn cross_meets(u: Seq<Val>, v: Seq<Val>, x: Seq<CellView>, y: Seq<CellView>, k: Native, span: Span)
    requires
        numeric(k),
        cells_rep(x, u, k),
        cells_rep(y, v, k),
        arrays::cross_product(u, v, span) is Ok,
    ensures
        num::cross_arrays(x, y) matches Ok(a) && (arrays::cross_product(u, v, span)->Ok_0 matches Val::Array { items, shape } && {
            &&& cells_rep(a.items, items, k)
            &&& items.len() == 3
            &&& shape == seq![3usize]
            &&& a.shape == seq![3u64]
        }),
{
    part_meets(u, v, x, y, 1, 2, k, span);
    part_meets(u, v, x, y, 2, 0, k, span);
    part_meets(u, v, x, y, 0, 1, k, span);
}

#[verifier::spinoff_prover]
proof fn part_meets(u: Seq<Val>, v: Seq<Val>, x: Seq<CellView>, y: Seq<CellView>, i: int, j: int, k: Native, span: Span)
    requires
        numeric(k),
        cells_rep(x, u, k),
        cells_rep(y, v, k),
        0 <= i < u.len() && 0 <= j < u.len() && u.len() == v.len(),
    ensures
        arrays::cross_part(u, v, i, j, span) matches Ok(t) ==> (num::cross_part(x, y, i, j) matches Ok(c) && cell_rep(c, t)
            && cell_native(c) == k),
{
    if arrays::cross_part(u, v, i, j, span) is Ok {
        assert(cell_rep(x[i], u[i]) && cell_rep(y[j], v[j]) && cell_rep(x[j], u[j]) && cell_rep(y[i], v[i]));
        cells_meet(BinOp::Mul, x[i], y[j], u[i], v[j], k, span, None);
        cells_meet(BinOp::Mul, x[j], y[i], u[j], v[i], k, span, None);
        let l = cell_arith(crate::runtime::exact::OP_MUL, x[i], y[j])->Ok_0;
        let r = cell_arith(crate::runtime::exact::OP_MUL, x[j], y[i])->Ok_0;
        let p = arith(BinOp::Mul, u[i], v[j], span, None)->Ok_0;
        let q = arith(BinOp::Mul, u[j], v[i], span, None)->Ok_0;
        cells_meet(BinOp::Sub, l, r, p, q, k, span, None);
    }
}

/// A dot product of whole numbers.
#[verifier::spinoff_prover]
pub(crate) proof fn dot_meets(xs: Seq<Val>, ys: Seq<Val>, x: Seq<CellView>, y: Seq<CellView>, n: nat, span: Span)
    requires
        cells_rep(x, xs, Native::Int),
        cells_rep(y, ys, Native::Int),
        n <= xs.len(),
        n <= ys.len(),
        arrays::dot(xs, ys, n, span) is Ok,
    ensures
        num::dot(x, y, n) matches Ok(c) && cell_rep(c, arrays::dot(xs, ys, n, span)->Ok_0) && cell_native(c) == Native::Int,
    decreases n,
{
    if n > 0 {
        dot_meets(xs, ys, x, y, (n - 1) as nat, span);
        assert(cell_rep(x[n - 1], xs[n - 1]) && cell_rep(y[n - 1], ys[n - 1]));
        cells_meet(BinOp::Mul, x[n - 1], y[n - 1], xs[n - 1], ys[n - 1], Native::Int, span, None);
        let c = num::dot(x, y, (n - 1) as nat)->Ok_0;
        let t = arrays::dot(xs, ys, (n - 1) as nat, span)->Ok_0;
        let p = cell_arith(crate::runtime::exact::OP_MUL, x[n - 1], y[n - 1])->Ok_0;
        let q = arith(BinOp::Mul, xs[n - 1], ys[n - 1], span, None)->Ok_0;
        cells_meet(BinOp::Add, c, p, t, q, Native::Int, span, None);
    }
}

/// A sum of whole numbers.
#[verifier::spinoff_prover]
pub(crate) proof fn sums_meet(items: Seq<Val>, cs: Seq<CellView>, n: nat)
    requires
        cells_rep(cs, items, Native::Int),
        n <= items.len(),
        sum_of(items, n) is Some,
    ensures
        sum_of(items, n)->0 matches Val::Int(t) && num::total_of(cs, n) == Ok::<CellView, HaltView>(CellView::Int(t)),
    decreases n,
{
    if n > 0 {
        sums_meet(items, cs, (n - 1) as nat);
        assert(cell_rep(cs[n - 1], items[n - 1]));
        reveal(cell_arith);
    }
}

pub open spec fn sign_change(op: UnOp) -> bool {
    op == UnOp::Neg || op == UnOp::Abs
}

/// `-` and `|..|` of an element.
#[verifier::spinoff_prover]
pub(crate) proof fn signs_meet(op: UnOp, c: CellView, v: Val, k: Native, digits: u32, span: Span, hint: Option<Numeric>)
    requires
        sign_change(op),
        numeric(k),
        cell_rep(c, v) && cell_native(c) == k,
        unary_val(op, v, span, hint) is Ok,
    ensures
        cell_unary(unary_tag(op), c, digits) matches Ok(d) && cell_rep(d, unary_val(op, v, span, hint)->Ok_0) && cell_native(d)
            == k,
{
    reveal(cell_unary);
    reveal(unary_val);
    assert(-0int == 0);
}

} // verus!
