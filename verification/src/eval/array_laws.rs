//! What is done to arrays, said of their elements.

use vstd::arithmetic::div_mod::*;
use vstd::arithmetic::mul::*;
use vstd::prelude::*;

use crate::ast::{BinOp, ChangeTarget, Precision, Selector, Sign, TypeRef};
use crate::diagnostics::position::Span;
use crate::eval::arrays::{
    array_operation, cells, column_of, cross_part, dot, lemma_within, products, row_of, spread_left,
    spread_right,
};
use crate::eval::number_laws::{
    arithmetic_is_exact, holds_of, has_fraction, is_number, number, numbers_compare_as_numbers,
};
use crate::eval::numeric::Numeric;
use crate::eval::ops::{arith, compared, is_comparison, StopView};
use crate::eval::select::{
    assembled, element_at, extent_from, flattened, gathered, gathered_from, in_range, inner_shape, kept_shape,
    offset_of, positions_from, range_left, selected, stride,
};
use crate::eval::semantics::{
    broadcast_item, elementwise, looked_up, pairs_from, queried, refinement_kept, width_kept, with_element,
    World,
};
use crate::eval::value::Val;

verus! {

/// Whether every element is a whole number or a decimal.
pub open spec fn plain(items: Seq<Val>) -> bool {
    forall|i: int| 0 <= i < items.len() ==> (#[trigger] items[i]) is Int || items[i] is Deci
}

/// The numbers of the first `n` pairs multiplied and added up.
pub open spec fn sum_of_products(xs: Seq<Val>, ys: Seq<Val>, n: nat) -> real
    decreases n,
{
    if n == 0 {
        0 as real
    } else {
        sum_of_products(xs, ys, (n - 1) as nat) + number(xs[n - 1]) * number(ys[n - 1])
    }
}

proof fn lemma_dot(xs: Seq<Val>, ys: Seq<Val>, n: nat, span: Span)
    requires
        n <= xs.len(),
        n <= ys.len(),
        plain(xs),
        plain(ys),
    ensures
        dot(xs, ys, n, span) matches Ok(v) ==> (v is Int || v is Deci) && number(v) == sum_of_products(xs, ys, n),
    decreases n,
{
    if n > 0 {
        lemma_dot(xs, ys, (n - 1) as nat, span);
        if let Ok(total) = dot(xs, ys, (n - 1) as nat, span) {
            let x = xs[n - 1];
            let y = ys[n - 1];
            arithmetic_is_exact(BinOp::Mul, x, y, span, None);
            if let Ok(p) = arith(BinOp::Mul, x, y, span, None) {
                arithmetic_is_exact(BinOp::Add, total, p, span, None);
            }
        }
    }
}

/// A dot product of vectors is the sum of the products of their elements; vectors of
/// different lengths have none.
pub proof fn a_dot_product_adds_up_products(x: Seq<Val>, y: Seq<Val>, span: Span)
    requires
        plain(x),
        plain(y),
    ensures
        ({
            let a = Val::Array { items: x, shape: seq![x.len() as usize] };
            let b = Val::Array { items: y, shape: seq![y.len() as usize] };
            &&& array_operation(BinOp::Dot, a, b, span) matches Ok(v) ==> x.len() == y.len() && number(v) == sum_of_products(x, y, x.len())
        }),
{
    if x.len() == y.len() {
        lemma_dot(x, y, x.len(), span);
    }
}

proof fn lemma_cells(x: Seq<Val>, y: Seq<Val>, k: nat, n: nat, count: nat, m: nat, span: Span)
    requires
        plain(x),
        plain(y),
        n > 0,
        count <= m * n,
        m * k <= x.len(),
        k * n <= y.len(),
    ensures
        cells(x, y, k, n, count, span) matches Ok(items) ==> items.len() == count && forall|c: int|
            0 <= c < count ==> number(#[trigger] items[c]) == sum_of_products(row_of(x, c / n as int, k), column_of(y, c % n as int, k, n), k),
    decreases count,
{
    if count > 0 {
        lemma_cells(x, y, k, n, (count - 1) as nat, m, span);
        let c = count - 1;
        let i = c / n as int;
        let j = c % n as int;
        lemma_fundamental_div_mod(c, n as int);
        lemma_mod_bound(c, n as int);
        lemma_mul_is_commutative(m as int, n as int);
        lemma_multiply_divide_lt(c, n as int, m as int);
        lemma_div_pos_is_pos(c, n as int);
        let row = row_of(x, i, k);
        let col = column_of(y, j, k, n);
        assert forall|t: int| 0 <= t < row.len() implies (#[trigger] row[t]) is Int || row[t] is Deci by {
            lemma_within(i, k as int, t, m as int);
            assert(x[i * k + t] is Int || x[i * k + t] is Deci);
        }
        assert forall|t: int| 0 <= t < col.len() implies (#[trigger] col[t]) is Int || col[t] is Deci by {
            lemma_within(t, n as int, j, k as int);
            assert(y[t * n + j] is Int || y[t * n + j] is Deci);
        }
        lemma_dot(row, col, k, span);
    }
}

/// Each cell of a product of matrices is the sum of the products of a row of the first and a
/// column of the second.
pub proof fn a_matrix_product_multiplies_rows_by_columns(
    x: Seq<Val>,
    y: Seq<Val>,
    m: usize,
    k: usize,
    k2: usize,
    n: usize,
    i: int,
    j: int,
    span: Span,
)
    requires
        plain(x),
        plain(y),
        x.len() == m * k,
        y.len() == k2 * n,
        0 <= i < m,
        0 <= j < n,
    ensures
        ({
            let a = Val::Array { items: x, shape: seq![m, k] };
            let b = Val::Array { items: y, shape: seq![k2, n] };
            array_operation(BinOp::Dot, a, b, span) matches Ok(v) ==> k == k2 && (v matches Val::Array { items, shape } && shape == seq![m, n]
                && items.len() == m * n && number(items[i * n + j]) == sum_of_products(
                Seq::new(k as nat, |t: int| x[i * k + t]),
                Seq::new(k as nat, |t: int| y[t * n + j]),
                k as nat,
            ))
        }),
{
    if k == k2 {
        lemma_cells(x, y, k as nat, n as nat, (m * n) as nat, m as nat, span);
        let c = i * n + j;
        lemma_within(i, n as int, j, m as int);
        lemma_fundamental_div_mod_converse(c, n as int, i, j);
        assert(Seq::new(k as nat, |t: int| x[i * k + t]) =~= row_of(x, i, k as nat));
        assert(Seq::new(k as nat, |t: int| y[t * n + j]) =~= column_of(y, j, k as nat, n as nat));
    }
}

proof fn lemma_cross_part(u: Seq<Val>, v: Seq<Val>, i: int, j: int, span: Span)
    requires
        plain(u),
        plain(v),
        u.len() == 3,
        v.len() == 3,
        0 <= i < 3,
        0 <= j < 3,
    ensures
        cross_part(u, v, i, j, span) matches Ok(r) ==> number(r) == number(u[i]) * number(v[j]) - number(u[j]) * number(v[i]),
{
    arithmetic_is_exact(BinOp::Mul, u[i], v[j], span, None);
    arithmetic_is_exact(BinOp::Mul, u[j], v[i], span, None);
    if let Ok(l) = arith(BinOp::Mul, u[i], v[j], span, None) {
        if let Ok(r) = arith(BinOp::Mul, u[j], v[i], span, None) {
            arithmetic_is_exact(BinOp::Sub, l, r, span, None);
        }
    }
}

/// A cross product is perpendicular to both vectors, and turned as the right hand is.
pub proof fn a_cross_product_is_perpendicular(u: Seq<Val>, v: Seq<Val>, us: Seq<usize>, vs: Seq<usize>, span: Span)
    requires
        plain(u),
        plain(v),
    ensures
        array_operation(BinOp::Cross, Val::Array { items: u, shape: us }, Val::Array { items: v, shape: vs }, span) matches Ok(r) ==> {
            &&& u.len() == 3 && v.len() == 3
            &&& r matches Val::Array { items, shape } && shape == seq![3usize] && items.len() == 3 && number(items[0]) == number(u[1]) * number(
                v[2],
            ) - number(u[2]) * number(v[1]) && number(items[1]) == number(u[2]) * number(v[0]) - number(u[0]) * number(v[2]) && number(
                items[2],
            ) == number(u[0]) * number(v[1]) - number(u[1]) * number(v[0]) && sum_of_products(u, items, 3) == 0 as real && sum_of_products(
                v,
                items,
                3,
            ) == 0 as real
        },
{
    if u.len() == 3 && v.len() == 3 {
        lemma_cross_part(u, v, 1, 2, span);
        lemma_cross_part(u, v, 2, 0, span);
        lemma_cross_part(u, v, 0, 1, span);
        if let Ok(Val::Array { items, shape }) = array_operation(
            BinOp::Cross,
            Val::Array { items: u, shape: us },
            Val::Array { items: v, shape: vs },
            span,
        ) {
            reveal_with_fuel(sum_of_products, 4);
            let (a, b, c) = (number(u[0]), number(u[1]), number(u[2]));
            let (x, y, z) = (number(v[0]), number(v[1]), number(v[2]));
            lemma_perpendicular(a, b, c, x, y, z);
            lemma_perpendicular_too(a, b, c, x, y, z);
        }
    }
}

proof fn lemma_spread(a: real, p: real, q: real, z: real, y: real)
    ensures
        a * (p * z - q * y) == (a * p) * z - (a * q) * y,
{
    let u = p * z;
    let v = q * y;
    assert(a * (u - v) == a * u - a * v) by (nonlinear_arith);
    assert(a * (p * z) == (a * p) * z) by (nonlinear_arith);
    assert(a * (q * y) == (a * q) * y) by (nonlinear_arith);
}

proof fn lemma_swap(a: real, b: real)
    ensures
        a * b == b * a,
{
    assert(a * b == b * a) by (nonlinear_arith);
}

proof fn lemma_perpendicular(a: real, b: real, c: real, x: real, y: real, z: real)
    ensures
        a * (b * z - c * y) + b * (c * x - a * z) + c * (a * y - b * x) == 0 as real,
{
    lemma_spread(a, b, c, z, y);
    lemma_spread(b, c, a, x, z);
    lemma_spread(c, a, b, y, x);
    lemma_swap(a, b);
    lemma_swap(a, c);
    lemma_swap(b, c);
}

proof fn lemma_perpendicular_too(a: real, b: real, c: real, x: real, y: real, z: real)
    ensures
        x * (b * z - c * y) + y * (c * x - a * z) + z * (a * y - b * x) == 0 as real,
{
    lemma_swap(b, z);
    lemma_swap(c, y);
    lemma_swap(c, x);
    lemma_swap(a, z);
    lemma_swap(a, y);
    lemma_swap(b, x);
    lemma_spread(x, z, y, b, c);
    lemma_spread(y, x, z, c, a);
    lemma_spread(z, y, x, a, b);
    lemma_swap(x, y);
    lemma_swap(x, z);
    lemma_swap(y, z);
}

proof fn lemma_products(xs: Seq<Val>, ys: Seq<Val>, n: nat, span: Span)
    requires
        n <= xs.len(),
        n <= ys.len(),
        plain(xs),
        plain(ys),
    ensures
        products(xs, ys, n, span) matches Ok(items) ==> items.len() == n && forall|i: int|
            0 <= i < n ==> number(#[trigger] items[i]) == number(xs[i]) * number(ys[i]),
    decreases n,
{
    if n > 0 {
        lemma_products(xs, ys, (n - 1) as nat, span);
        arithmetic_is_exact(BinOp::Mul, xs[n - 1], ys[n - 1], span, None);
    }
}

/// `⊙` multiplies position by position, and keeps the shape that both must have.
pub proof fn a_hadamard_product_multiplies_each(x: Seq<Val>, y: Seq<Val>, xs: Seq<usize>, ys: Seq<usize>, i: int, span: Span)
    requires
        plain(x),
        plain(y),
        0 <= i < x.len(),
    ensures
        array_operation(BinOp::Hadamard, Val::Array { items: x, shape: xs }, Val::Array { items: y, shape: ys }, span) matches Ok(v) ==> xs == ys
            && x.len() == y.len() && (v matches Val::Array { items, shape } && shape == xs && items.len() == x.len() && number(items[i])
            == number(x[i]) * number(y[i])),
{
    if xs == ys && x.len() == y.len() {
        lemma_products(x, y, x.len(), span);
    }
}

/// `⊗` multiplies each element of one array by each of the other, and puts their shapes one
/// behind the other.
pub proof fn a_tensor_product_multiplies_all(x: Seq<Val>, y: Seq<Val>, xs: Seq<usize>, ys: Seq<usize>, i: int, j: int, span: Span)
    requires
        plain(x),
        plain(y),
        0 <= i < x.len(),
        0 <= j < y.len(),
    ensures
        array_operation(BinOp::Tensor, Val::Array { items: x, shape: xs }, Val::Array { items: y, shape: ys }, span) matches Ok(v) ==> (v matches Val::Array {
            items,
            shape,
        } && shape == xs + ys && items.len() == x.len() * y.len() && number(items[i * y.len() + j]) == number(x[i]) * number(y[j])),
{
    let n = y.len();
    let l = spread_left(x, n);
    let r = spread_right(y, x.len());
    assert forall|t: int| 0 <= t < l.len() implies (#[trigger] l[t]) is Int || l[t] is Deci by {
        lemma_fundamental_div_mod(t, n as int);
        lemma_mod_bound(t, n as int);
        let q = t / n as int;
        lemma_multiply_divide_lt(t, n as int, x.len() as int);
        lemma_div_pos_is_pos(t, n as int);
        assert(x[q] is Int || x[q] is Deci);
    }
    assert forall|t: int| 0 <= t < r.len() implies (#[trigger] r[t]) is Int || r[t] is Deci by {
        lemma_mod_bound(t, n as int);
        assert(y[t % n as int] is Int || y[t % n as int] is Deci);
    }
    lemma_products(l, r, x.len() * n, span);
    let c = i * n + j;
    lemma_within(i, n as int, j, x.len() as int);
    lemma_fundamental_div_mod_converse(c, n as int, i, j);
    assert(l[c] == x[i]);
    assert(r[c] == y[j]);
}

// ── position by position ────────────────────────────────────────────────────

proof fn lemma_pairs(w: World, op: BinOp, a: Val, b: Val, n: nat, acc: Seq<Val>, span: Span, hint: Option<Numeric>)
    requires
        acc.len() <= n,
        op == BinOp::Add || op == BinOp::Sub || op == BinOp::Mul || is_comparison(op),
        forall|i: int| 0 <= i < n ==> has_fraction(#[trigger] broadcast_item(a, i)) && has_fraction(broadcast_item(b, i)),
        forall|i: int| 0 <= i < n ==> crate::eval::number_laws::meet_exactly(#[trigger] broadcast_item(a, i), broadcast_item(b, i)),
        forall|i: int| 0 <= i < acc.len() ==> position_suits(op, #[trigger] acc[i], broadcast_item(a, i), broadcast_item(b, i)),
    ensures
        pairs_from(w, op, a, b, n, acc, span, hint).1 matches Ok(items) ==> items.len() == n && forall|i: int|
            0 <= i < n ==> position_suits(op, #[trigger] items[i], broadcast_item(a, i), broadcast_item(b, i)),
    decreases n - acc.len(),
{
    if acc.len() < n {
        let i = acc.len() as int;
        let x = broadcast_item(a, i);
        let y = broadcast_item(b, i);
        if is_comparison(op) {
            numbers_compare_as_numbers(op, x, y, span);
            reveal(compared);
        } else {
            arithmetic_is_exact(op, x, y, span, hint);
            assert(!(arith(op, x, y, span, hint) matches Err(StopView::Ask(_)))) by {
                reveal(arith);
            }
        }
        let r = crate::eval::semantics::pair_result(w, op, x, y, span, hint);
        if let Ok(v) = r.1 {
            let more = acc.push(v);
            assert forall|k: int| 0 <= k < more.len() implies position_suits(op, #[trigger] more[k], broadcast_item(a, k), broadcast_item(b, k)) by {
                if k < acc.len() {
                    assert(more[k] == acc[k]);
                }
            }
            lemma_pairs(r.0, op, a, b, n, more, span, hint);
        }
    }
}

/// What stands at a position once an operator has been applied there.
pub open spec fn position_suits(op: BinOp, v: Val, x: Val, y: Val) -> bool {
    if is_comparison(op) {
        v == Val::Bool(holds_of(op, number(x), number(y)))
    } else {
        is_number(v) && number(v) == (match op {
            BinOp::Add => number(x) + number(y),
            BinOp::Sub => number(x) - number(y),
            _ => number(x) * number(y),
        })
    }
}

/// Arrays are added, subtracted, multiplied and compared position by position, a single value
/// standing at every position.
pub proof fn arrays_are_worked_on_position_by_position(w: World, op: BinOp, a: Val, b: Val, i: int, span: Span, hint: Option<Numeric>)
    requires
        op == BinOp::Add || op == BinOp::Sub || op == BinOp::Mul || is_comparison(op),
        a is Array || b is Array,
        a matches Val::Array { items, .. } ==> plain_fractions(items) && 0 <= i < items.len(),
        b matches Val::Array { items, .. } ==> plain_fractions(items) && 0 <= i < items.len(),
        !(a is Array) ==> (a is Int || a is Deci) && has_fraction(a),
        !(b is Array) ==> (b is Int || b is Deci) && has_fraction(b),
    ensures
        elementwise(w, op, a, b, span, hint).1 matches Ok(v) ==> (v matches Val::Array { items, shape } && {
            &&& position_suits(op, items[i], broadcast_item(a, i), broadcast_item(b, i))
            &&& a is Array ==> shape == a->Array_shape && items.len() == a->Array_items.len()
            &&& !(a is Array) ==> shape == b->Array_shape && items.len() == b->Array_items.len()
            &&& a is Array && b is Array ==> a->Array_items.len() == b->Array_items.len()
        }),
{
    let n = if a is Array {
        a->Array_items.len()
    } else {
        b->Array_items.len()
    };
    if !(a is Array && b is Array && a->Array_items.len() != b->Array_items.len()) {
        assert forall|k: int| 0 <= k < n implies has_fraction(#[trigger] broadcast_item(a, k)) && has_fraction(broadcast_item(b, k))
            && crate::eval::number_laws::meet_exactly(broadcast_item(a, k), broadcast_item(b, k)) by {
            if a is Array {
                assert(has_fraction(a->Array_items[k]));
            }
            if b is Array {
                assert(has_fraction(b->Array_items[k]));
            }
        }
        lemma_pairs(w, op, a, b, n, Seq::empty(), span, hint);
    }
}

pub open spec fn plain_fractions(items: Seq<Val>) -> bool {
    forall|i: int| 0 <= i < items.len() ==> has_fraction(#[trigger] items[i]) && (items[i] is Int || items[i] is Deci)
}

// ── selecting ───────────────────────────────────────────────────────────────

/// Whether the elements at the positions chosen in the last dimension, from the `k`-th on, are
/// what was gathered there.
spec fn row_gathered(items: Seq<Val>, chosen: Seq<i128>, base: int, k: int, out: Seq<Val>) -> bool {
    &&& out.len() == chosen.len() - k
    &&& forall|j: int| 0 <= j < out.len() ==> #[trigger] out[j] == items[base + chosen[k + j]]
}

spec fn row_inside(items: Seq<Val>, chosen: Seq<i128>, base: int, k: int) -> bool {
    forall|j: int| k <= j < chosen.len() ==> 0 <= base + #[trigger] chosen[j] < items.len()
}

proof fn lemma_row_longer(items: Seq<Val>, chosen: Seq<i128>, base: int, k: int, rest: Seq<Val>, out: Seq<Val>)
    requires
        0 <= k < chosen.len(),
        0 <= base + chosen[k] < items.len(),
        row_gathered(items, chosen, base, k + 1, rest),
        out == seq![items[base + chosen[k]]] + rest,
    ensures
        row_gathered(items, chosen, base, k, out),
{
    assert(out.len() == 1 + rest.len());
    assert forall|j: int| 0 <= j < out.len() implies #[trigger] out[j] == items[base + chosen[k + j]] by {
        if j == 0 {
            assert(chosen[k + j] == chosen[k]);
        } else {
            let i = j - 1;
            assert(out[j] == rest[i]);
            assert(k + 1 + i == k + j);
        }
    }
}

proof fn lemma_gathered_row(items: Seq<Val>, shape: Seq<usize>, picks: Seq<Seq<i128>>, d: int, base: int, k: int)
    requires
        0 <= d,
        d == picks.len() - 1,
        shape.len() == picks.len(),
        0 <= k <= picks[d].len(),
    ensures
        gathered_from(items, shape, picks, d, base, k) matches Some(out) ==> row_gathered(items, picks[d], base, k, out),
        row_inside(items, picks[d], base, k) ==> gathered_from(items, shape, picks, d, base, k) is Some,
    decreases picks[d].len() - k,
{
    let chosen = picks[d];
    assert(stride(shape, d) == 1) by {
        assert(extent_from(shape, d + 1) == 1);
    }
    if k < chosen.len() {
        lemma_gathered_row(items, shape, picks, d, base, k + 1);
        let at = base + chosen[k];
        assert(chosen[k] * 1 == chosen[k]);
        let one = gathered(items, shape, picks, d + 1, at);
        assert(one == (if 0 <= at < items.len() {
            Some(seq![items[at]])
        } else {
            None
        }));
        let more = gathered_from(items, shape, picks, d, base, k + 1);
        assert(gathered_from(items, shape, picks, d, base, k) == (match (one, more) {
            (Some(a), Some(b)) => Some(a + b),
            _ => None,
        }));
        if one is Some && more is Some {
            let rest = more->0;
            let out = seq![items[at]] + rest;
            lemma_row_longer(items, chosen, base, k, rest, out);
        }
        if row_inside(items, chosen, base, k) {
            assert(0 <= base + chosen[k] < items.len());
            assert(row_inside(items, chosen, base, k + 1));
        }
    } else {
        assert(gathered_from(items, shape, picks, d, base, k) == Some(Seq::<Val>::empty()));
    }
}

/// Selecting in a vector gives the elements at the chosen positions, in the order chosen; one
/// index gives the element itself.
pub proof fn selecting_picks_elements(items: Seq<Val>, n: usize, chosen: Seq<i128>, one: bool)
    requires
        items.len() == n,
        forall|j: int| 0 <= j < chosen.len() ==> 0 <= #[trigger] chosen[j] < n,
        one ==> chosen.len() == 1,
        chosen.len() <= usize::MAX,
    ensures
        selected(items, seq![n], seq![chosen], seq![one]) == Some(
            if one {
                items[chosen[0] as int]
            } else {
                Val::Array { items: Seq::new(chosen.len(), |j: int| items[chosen[j] as int]), shape: seq![chosen.len() as usize] }
            },
        ),
{
    let picks = seq![chosen];
    let shape = seq![n];
    assert(row_inside(items, chosen, 0, 0));
    lemma_gathered_row(items, shape, picks, 0, 0, 0);
    let out = gathered_from(items, shape, picks, 0, 0, 0)->0;
    assert(gathered(items, shape, picks, 0, 0) == Some(out));
    assert(out =~= Seq::new(chosen.len(), |j: int| items[chosen[j] as int])) by {
        assert forall|j: int| 0 <= j < out.len() implies out[j] == items[chosen[j] as int] by {
            assert(chosen[0 + j] == chosen[j]);
        }
    }
    reveal_with_fuel(kept_shape, 3);
    assert(kept_shape(picks, seq![one], 1) =~= (if one {
        Seq::<usize>::empty()
    } else {
        seq![chosen.len() as usize]
    }));
}

/// One index in each dimension of a matrix gives the element of that row and column.
pub proof fn a_row_and_a_column_give_an_element(items: Seq<Val>, rows: usize, cols: usize, r: i128, c: i128)
    requires
        items.len() == rows * cols,
        1 <= r <= rows,
        1 <= c <= cols,
    ensures
        selected(items, seq![rows, cols], seq![seq![(r - 1) as i128], seq![(c - 1) as i128]], seq![true, true]) == Some(
            items[(r - 1) * cols + (c - 1)],
        ),
        element_at(items.len(), seq![rows, cols], seq![r, c]) == Some((r - 1) * cols + (c - 1)),
        element_at(items.len(), seq![rows, cols], seq![(rows + 1) as i128, c]) is None,
        element_at(items.len(), seq![rows, cols], seq![r, (cols + 1) as i128]) is None,
{
    let shape = seq![rows, cols];
    let picks = seq![seq![(r - 1) as i128], seq![(c - 1) as i128]];
    let at = (r - 1) * cols + (c - 1);
    lemma_within(r - 1, cols as int, c - 1, rows as int);
    reveal_with_fuel(extent_from, 3);
    assert(extent_from(shape, 2) == 1);
    assert(extent_from(shape, 1) == cols as nat * 1);
    assert(stride(shape, 0) == cols);
    assert(stride(shape, 1) == 1);
    let base = (r - 1) * cols;
    assert(picks[1] == seq![(c - 1) as i128]);
    assert(row_inside(items, picks[1], base, 0));
    lemma_gathered_row(items, shape, picks, 1, base, 0);
    let inner = gathered_from(items, shape, picks, 1, base, 0)->0;
    assert(inner =~= seq![items[at]]) by {
        assert(inner[0] == items[base + picks[1][0]]);
    }
    assert(gathered(items, shape, picks, 1, base) == Some(inner));
    assert(picks[0] == seq![(r - 1) as i128]);
    assert(gathered_from(items, shape, picks, 0, 0, 1) == Some(Seq::<Val>::empty()));
    assert(0 + picks[0][0] * stride(shape, 0) == base);
    assert(gathered_from(items, shape, picks, 0, 0, 0) == Some(inner + Seq::<Val>::empty()));
    assert(inner + Seq::<Val>::empty() =~= inner);
    reveal_with_fuel(kept_shape, 4);
    assert(kept_shape(picks, seq![true, true], 2) =~= Seq::<usize>::empty());
    let indices = seq![r, c];
    reveal_with_fuel(offset_of, 4);
    assert(offset_of(shape, indices, 2) == at) by {
        assert((c - 1) * 1 == c - 1);
    }
    assert(crate::eval::select::indices_valid(shape, indices)) by {
        assert forall|d: int| 0 <= d < indices.len() implies 1 <= #[trigger] indices[d] <= shape[d] by {}
    }
    let low = seq![(rows + 1) as i128, c];
    assert(!(1 <= low[0] <= shape[0]));
    let wide = seq![r, (cols + 1) as i128];
    assert(!(1 <= wide[1] <= shape[1]));
}

proof fn lemma_positions(acc: Seq<i128>, i: int, to: int, step: int)
    requires
        step != 0,
        crate::text::fits(i),
        crate::text::fits(to),
        i >= 1,
        to >= 1,
    ensures
        positions_from(acc, i, to, step) matches Ok(out) && {
            &&& out.len() >= acc.len()
            &&& out.take(acc.len() as int) == acc
            &&& forall|k: int| acc.len() <= k < out.len() ==> #[trigger] out[k] == i + (k - acc.len()) * step - 1
            &&& in_range(i, to, step) <==> out.len() > acc.len()
            &&& !in_range(i + (out.len() - acc.len()) * step, to, step)
            &&& out.len() > acc.len() ==> in_range(i + (out.len() - acc.len() - 1) * step, to, step)
        },
    decreases range_left(i, to, step),
{
    if in_range(i, to, step) {
        let more = acc.push((i - 1) as i128);
        if in_range(i + step, to, step) {
            lemma_positions(more, i + step, to, step);
        } else {
            assert(positions_from(more, i + step, to, step) == Ok::<Seq<i128>, int>(more));
        }
        let out = positions_from(acc, i, to, step)->Ok_0;
        assert(out.len() >= more.len());
        assert(out.take(more.len() as int) == more) by {
            if !in_range(i + step, to, step) {
                assert(more.take(more.len() as int) =~= more);
            }
        }
        assert(out.take(acc.len() as int) =~= acc) by {
            assert forall|k: int| 0 <= k < acc.len() implies out[k] == acc[k] by {
                assert(out.take(more.len() as int)[k] == more[k]);
            }
        }
        assert forall|k: int| acc.len() <= k < out.len() implies #[trigger] out[k] == i + (k - acc.len()) * step - 1 by {
            if k == acc.len() {
                assert(out.take(more.len() as int)[k] == more[k]);
                assert(0 * step == 0);
            } else {
                assert(out[k] == (i + step) + (k - more.len()) * step - 1);
                assert(step + (k - more.len()) * step == (k - acc.len()) * step) by (nonlinear_arith)
                    requires
                        more.len() == acc.len() + 1,
                ;
            }
        }
        let c = out.len() - acc.len();
        assert(step + (c - 1) * step == c * step) by (nonlinear_arith);
        assert(step + (c - 2) * step == (c - 1) * step) by (nonlinear_arith);
        assert(0 * step == 0);
    } else {
        assert(acc.take(acc.len() as int) =~= acc);
        assert(0 * step == 0);
    }
}

/// A range selects from its first index on, step by step, for as long as it has not passed
/// its last.
pub proof fn a_range_selects_step_by_step(from: int, to: int, step: int)
    requires
        step != 0,
        crate::text::fits(from),
        crate::text::fits(to),
        from >= 1,
        to >= 1,
    ensures
        positions_from(Seq::empty(), from, to, step) matches Ok(out) && {
            &&& forall|k: int| 0 <= k < out.len() ==> #[trigger] out[k] == from + k * step - 1
            &&& forall|k: int| 0 <= k < out.len() ==> {
                let index = #[trigger] out[k] + 1;
                (step > 0 ==> from <= index <= to) && (step < 0 ==> to <= index <= from)
            }
            &&& step > 0 ==> from + out.len() * step > to
            &&& step < 0 ==> from + out.len() * step < to
        },
{
    lemma_positions(Seq::empty(), from, to, step);
    let out = positions_from(Seq::empty(), from, to, step)->Ok_0;
    assert forall|k: int| 0 <= k < out.len() implies {
        let index = #[trigger] out[k] + 1;
        (step > 0 ==> from <= index <= to) && (step < 0 ==> to <= index <= from)
    } by {
        let last = out.len() - 1;
        assert(in_range(from + last * step, to, step));
        assert(out[k] == from + (k - 0) * step - 1);
        assert(step > 0 ==> 0 <= k * step <= last * step) by (nonlinear_arith)
            requires
                0 <= k <= last,
        ;
        assert(step < 0 ==> last * step <= k * step <= 0) by (nonlinear_arith)
            requires
                0 <= k <= last,
        ;
    }
}

/// `:length;` counts the elements of an array, and `:shape;` lists its dimensions.
pub proof fn queries_count_elements_and_list_dimensions(items: Seq<Val>, shape: Seq<usize>, d: int, span: Span)
    requires
        items.len() <= i128::MAX,
        0 <= d < shape.len(),
        shape.len() <= usize::MAX,
    ensures
        queried(Val::Array { items, shape }, Selector::Length, span) matches Ok(Val::Int(n)) && n == items.len(),
        queried(Val::Array { items, shape }, Selector::Shape, span) matches Ok(Val::Array { items: dims, shape: one }) && one.len() == 1
            && one[0] == shape.len() && dims.len() == shape.len() && (dims[d] matches Val::Int(n) && n == shape[d]),
{
}

// ── changing and putting together ───────────────────────────────────────────

/// Changing one element of an array leaves the others, its shape and every other variable
/// alone; an index outside the array changes nothing.
pub proof fn a_change_touches_one_element(
    w: World,
    t: ChangeTarget,
    n: usize,
    items: Seq<Val>,
    index: i128,
    v: Val,
    other: Seq<char>,
)
    requires
        w.frames.len() > 0,
        looked_up(w, t.name@) == Some(Val::Array { items, shape: seq![n] }),
        items.len() == n,
        other != t.name@,
    ensures
        ({
            let (after, r) = with_element(w, t, seq![index], v);
            &&& r is Ok <==> 1 <= index <= n
            &&& r is Err ==> after == w
            &&& r is Ok ==> looked_up(after, other) == looked_up(w, other) && (looked_up(after, t.name@) matches Some(
                Val::Array { items: now, shape },
            ) && shape == seq![n] && now.len() == n && now[index - 1] == v && forall|k: int|
                0 <= k < n && k != index - 1 ==> #[trigger] now[k] == items[k])
        }),
{
    let shape = seq![n];
    let indices = seq![index];
    reveal_with_fuel(offset_of, 3);
    reveal_with_fuel(extent_from, 3);
    assert(stride(shape, 0) == 1);
    assert((index - 1) * 1 == index - 1);
    assert(offset_of(shape, indices, 1) == index - 1);
    if 1 <= index <= n {
        assert(crate::eval::select::indices_valid(shape, indices)) by {
            assert forall|d: int| 0 <= d < indices.len() implies 1 <= #[trigger] indices[d] <= shape[d] by {}
        }
        crate::sema::laws::lemma_assigned_lookup(w, t.name@, Val::Array { items: items.update(index - 1, v), shape });
    } else {
        assert(!(1 <= indices[0] <= shape[0]));
    }
}

proof fn lemma_flattened(rows: Seq<Val>, n: nat, width: nat, shape: Seq<usize>)
    requires
        n <= rows.len(),
        forall|i: int| 0 <= i < rows.len() ==> ((#[trigger] rows[i]) matches Val::Array { items, shape: s } && items.len() == width && s == shape),
    ensures
        flattened(rows, n).len() == n * width,
        forall|i: int, j: int|
            0 <= i < n && 0 <= j < width ==> #[trigger] flattened(rows, n)[i * width + j] == rows[i]->Array_items[j],
        n > 0 ==> inner_shape(rows, n) == Some(shape),
    decreases n,
{
    assert(0 * width == 0);
    if n > 0 {
        lemma_flattened(rows, (n - 1) as nat, width, shape);
        let before = flattened(rows, (n - 1) as nat);
        let last = rows[n - 1]->Array_items;
        assert(rows[n - 1] is Array);
        assert(flattened(rows, n) == before + last);
        assert(flattened(rows, n).len() == before.len() + last.len());
        assert(last.len() == width);
        assert((n - 1) * width + width == n * width) by (nonlinear_arith)
            requires
                n > 0,
        ;
        assert forall|i: int, j: int| 0 <= i < n && 0 <= j < width implies #[trigger] flattened(rows, n)[i * width + j] == rows[i]->Array_items[j] by {
            if i < n - 1 {
                lemma_within(i, width as int, j, n - 1);
                assert(before[i * width + j] == rows[i]->Array_items[j]);
            } else {
                assert(i * width + j - (n - 1) * width == j) by (nonlinear_arith)
                    requires
                        i == n - 1,
                ;
            }
        }
    }
}

/// Rows of one shape make an array of one dimension more, with the rows' elements one row
/// behind the other.
pub proof fn rows_make_an_array(rows: Seq<Val>, width: nat, shape: Seq<usize>, i: int, j: int)
    requires
        rows.len() <= usize::MAX,
        forall|i: int| 0 <= i < rows.len() ==> ((#[trigger] rows[i]) matches Val::Array { items, shape: s } && items.len() == width && s == shape),
        0 <= i < rows.len(),
        0 <= j < width,
    ensures
        assembled(rows) matches Val::Array { items, shape: all } && all == seq![rows.len() as usize] + shape && items.len() == rows.len() * width
            && items[i * width + j] == rows[i]->Array_items[j],
{
    lemma_flattened(rows, rows.len(), width, shape);
}

// ── promises while running ──────────────────────────────────────────────────

/// A sign promise is held to: a number passes exactly where it lies on the promised side of
/// zero.
pub proof fn a_promise_is_held_to(ty: TypeRef, name: Seq<char>, v: Val, at: Span)
    requires
        is_number(v),
    ensures
        refinement_kept(ty, name, v, at) is Ok <==> (match ty.sign {
            Some(Sign::Positive) => number(v) > 0 as real,
            Some(Sign::Negative) => number(v) < 0 as real,
            None => true,
        }),
{
    crate::eval::number_laws::lemma_number_is_ratio(v);
    crate::eval::number_laws::lemma_ratio_sign(
        crate::eval::number_laws::numerator(v),
        crate::eval::number_laws::denominator(v),
    );
}

/// A width of so many bits holds what that many bits do: without a sign promise the numbers
/// from minus half of their count up, with one all of them but zero on its side.
pub proof fn a_width_holds_what_its_bits_do(ty: TypeRef, bits: u32, name: Seq<char>, n: i128, at: Span)
    requires
        0 < bits < 127,
        ty.base@ == "int"@,
    ensures
        width_kept(ty, Some(Precision::Bits(bits)), name, Val::Int(n), at) is Ok <==> ({
            let all = vstd::arithmetic::power::pow(2, bits as nat);
            match ty.sign {
                None => -all <= 2 * n < all,
                Some(Sign::Positive) => 0 < n < all,
                Some(Sign::Negative) => -all < n < 0,
            }
        }),
{
    vstd::arithmetic::power::lemma_pow_adds(2, (bits - 1) as nat, 1);
    vstd::arithmetic::power::lemma_pow1(2);
}

} // verus!
