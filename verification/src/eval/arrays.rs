//! Operations on arrays: the array operators, selection, and the ways arrays are put
//! together.

use vstd::arithmetic::div_mod::*;
use vstd::arithmetic::mul::*;
use vstd::prelude::*;
use vstd::string::*;

use crate::ast::BinOp;
use crate::diagnostics::error::{fault, fault_view, Category, Error, ErrorView};
use crate::diagnostics::position::Span;
use crate::eval::ops::{arith, arithmetic, fail, result_view, Stop, StopView};
use crate::eval::value::{
    comma_separated, lemma_array_view, lemma_vals_push, val_of, vals_of, Array, Val, Value,
};
use crate::text::{cat5, nat_text, usize_text};

verus! {

// ── shapes in messages ──────────────────────────────────────────────────────

pub open spec fn dims_texts(shape: Seq<usize>) -> Seq<Seq<char>> {
    Seq::new(shape.len(), |i: int| nat_text(shape[i] as nat))
}

/// A shape as a message shows it: `[2, 3]`.
pub open spec fn dims_text(shape: Seq<usize>) -> Seq<char> {
    "["@ + comma_separated(dims_texts(shape)) + "]"@
}

pub fn shape_text(shape: &Vec<usize>) -> (r: String)
    ensures
        r@ == dims_text(shape@),
{
    let mut out: String = "[".to_owned();
    let mut i: usize = 0;
    let ghost texts = dims_texts(shape@);
    assert(texts.take(0) =~= Seq::empty());
    assert("["@ + Seq::<char>::empty() =~= "["@);
    while i < shape.len()
        invariant
            i <= shape.len(),
            texts == dims_texts(shape@),
            out@ =~= "["@ + comma_separated(texts.take(i as int)),
        decreases shape.len() - i,
    {
        if i > 0 {
            out.append(", ");
        }
        let t: String = usize_text(shape[i]);
        out.append(t.as_str());
        proof {
            let next = texts.take(i as int + 1);
            assert(next.drop_last() =~= texts.take(i as int));
            assert(next.last() == t@);
        }
        i = i + 1;
    }
    out.append("]");
    assert(texts.take(texts.len() as int) =~= texts);
    out
}

pub open spec fn mismatched(x: Seq<usize>, y: Seq<usize>, span: Span) -> ErrorView {
    fault_view(
        Category::Run,
        1,
        span,
        "elementwise operations need matching shapes, but these are "@ + dims_text(x) + " and "@ + dims_text(y)
            + "."@,
        "make the shapes agree."@,
    )
}

pub fn mismatched_error(x: &Vec<usize>, y: &Vec<usize>, span: Span) -> (r: Error)
    ensures
        r@ == mismatched(x@, y@, span),
{
    fault(
        Category::Run,
        1,
        span,
        cat5(
            "elementwise operations need matching shapes, but these are ",
            shape_text(x).as_str(),
            " and ",
            shape_text(y).as_str(),
            ".",
        ),
        "make the shapes agree.",
    )
}

/// An array with fewer elements than its shape asks for.
pub open spec fn unfilled(span: Span) -> ErrorView {
    fault_view(
        Category::Run,
        1,
        span,
        "this array's elements do not fill its shape."@,
        "give every row the same length."@,
    )
}

pub fn unfilled_error(span: Span) -> (r: Error)
    ensures
        r@ == unfilled(span),
{
    fault(
        Category::Run,
        1,
        span,
        "this array's elements do not fill its shape.".to_owned(),
        "give every row the same length.",
    )
}

// ── what the array operators give ───────────────────────────────────────────

/// The products of the first `n` pairs of two lists.
pub open spec fn products(xs: Seq<Val>, ys: Seq<Val>, n: nat, span: Span) -> Result<Seq<Val>, StopView>
    decreases n,
{
    if n == 0 {
        Ok(Seq::empty())
    } else {
        match products(xs, ys, (n - 1) as nat, span) {
            Ok(done) => match arith(BinOp::Mul, xs[n - 1], ys[n - 1], span, None) {
                Ok(v) => Ok(done.push(v)),
                Err(e) => Err(e),
            },
            Err(e) => Err(e),
        }
    }
}

/// The sum of the products of the first `n` pairs of two lists.
pub open spec fn dot(xs: Seq<Val>, ys: Seq<Val>, n: nat, span: Span) -> Result<Val, StopView>
    decreases n,
{
    if n == 0 {
        Ok(Val::Int(0))
    } else {
        match dot(xs, ys, (n - 1) as nat, span) {
            Ok(total) => match arith(BinOp::Mul, xs[n - 1], ys[n - 1], span, None) {
                Ok(v) => arith(BinOp::Add, total, v, span, None),
                Err(e) => Err(e),
            },
            Err(e) => Err(e),
        }
    }
}

/// One row of a matrix stored row by row, `k` to a row.
pub open spec fn row_of(x: Seq<Val>, row: int, k: nat) -> Seq<Val> {
    Seq::new(k, |i: int| x[row * k + i])
}

/// One column of a matrix stored row by row, `n` to a row.
pub open spec fn column_of(y: Seq<Val>, col: int, k: nat, n: nat) -> Seq<Val> {
    Seq::new(k, |i: int| y[i * n + col])
}

/// The first `count` cells of a matrix product, row by row.
pub open spec fn cells(x: Seq<Val>, y: Seq<Val>, k: nat, n: nat, count: nat, span: Span) -> Result<
    Seq<Val>,
    StopView,
>
    decreases count,
{
    if count == 0 {
        Ok(Seq::empty())
    } else {
        match cells(x, y, k, n, (count - 1) as nat, span) {
            Ok(done) => match dot(
                row_of(x, (count - 1) / n as int, k),
                column_of(y, (count - 1) % n as int, k, n),
                k,
                span,
            ) {
                Ok(v) => Ok(done.push(v)),
                Err(e) => Err(e),
            },
            Err(e) => Err(e),
        }
    }
}

/// A dimension of a shape; 1 where the shape has no such dimension.
pub open spec fn dim_or_one(shape: Seq<usize>, d: int) -> usize {
    if d < shape.len() {
        shape[d]
    } else {
        1
    }
}

pub open spec fn inner_mismatch(k: usize, k2: usize, span: Span) -> ErrorView {
    fault_view(
        Category::Run,
        1,
        span,
        "matrix multiplication requires inner dimensions to agree: "@ + nat_text(k as nat) + " ≠ "@ + nat_text(
            k2 as nat,
        ) + "."@,
        "transpose one side, or use a matching shape."@,
    )
}

/// The product of two matrices; a vector counts as a matrix of one column.
pub open spec fn matrix_product(x: Seq<Val>, xs: Seq<usize>, y: Seq<Val>, ys: Seq<usize>, span: Span) -> Result<
    Val,
    StopView,
> {
    let m = dim_or_one(xs, 0);
    let k = dim_or_one(xs, 1);
    let k2 = dim_or_one(ys, 0);
    let n = dim_or_one(ys, 1);
    if k != k2 {
        fail(inner_mismatch(k, k2, span))
    } else if m > 0 && n > 0 && (m * k > x.len() || k * n > y.len()) {
        fail(unfilled(span))
    } else {
        match cells(x, y, k as nat, n as nat, (m * n) as nat, span) {
            Ok(items) => Ok(Val::Array { items, shape: seq![m, n] }),
            Err(e) => Err(e),
        }
    }
}

/// One component of a cross product: `u[i] * v[j] - u[j] * v[i]`.
pub open spec fn cross_part(u: Seq<Val>, v: Seq<Val>, i: int, j: int, span: Span) -> Result<Val, StopView> {
    match arith(BinOp::Mul, u[i], v[j], span, None) {
        Ok(l) => match arith(BinOp::Mul, u[j], v[i], span, None) {
            Ok(r) => arith(BinOp::Sub, l, r, span, None),
            Err(e) => Err(e),
        },
        Err(e) => Err(e),
    }
}

pub open spec fn cross_product(u: Seq<Val>, v: Seq<Val>, span: Span) -> Result<Val, StopView> {
    if u.len() != 3 || v.len() != 3 {
        fail(
            fault_view(
                Category::Run,
                1,
                span,
                "cross product is defined for two 3-element vectors."@,
                "use · for the dot product, or ⊙ for elementwise."@,
            ),
        )
    } else {
        match cross_part(u, v, 1, 2, span) {
            Err(e) => Err(e),
            Ok(a) => match cross_part(u, v, 2, 0, span) {
                Err(e) => Err(e),
                Ok(b) => match cross_part(u, v, 0, 1, span) {
                    Err(e) => Err(e),
                    Ok(c) => Ok(Val::Array { items: seq![a, b, c], shape: seq![3usize] }),
                },
            },
        }
    }
}

/// Each element of the first list, once for each element of the second.
pub open spec fn spread_left(x: Seq<Val>, n: nat) -> Seq<Val> {
    Seq::new(x.len() * n, |i: int| x[i / n as int])
}

/// The second list, over and over, `m` times.
pub open spec fn spread_right(y: Seq<Val>, m: nat) -> Seq<Val> {
    Seq::new(m * y.len(), |i: int| y[i % y.len() as int])
}

pub open spec fn unequal_vectors(span: Span) -> ErrorView {
    fault_view(
        Category::Run,
        1,
        span,
        "a dot product needs two vectors of the same length."@,
        "make the lengths agree."@,
    )
}

/// What one of the four array operators makes of two values.
pub open spec fn array_operation(op: BinOp, a: Val, b: Val, span: Span) -> Result<Val, StopView> {
    match (a, b) {
        (Val::Array { items: x, shape: xs }, Val::Array { items: y, shape: ys }) => match op {
            BinOp::Hadamard => if xs != ys || x.len() != y.len() {
                fail(mismatched(xs, ys, span))
            } else {
                match products(x, y, x.len(), span) {
                    Ok(items) => Ok(Val::Array { items, shape: xs }),
                    Err(e) => Err(e),
                }
            },
            BinOp::Dot => if xs.len() == 1 && ys.len() == 1 {
                if x.len() != y.len() {
                    fail(unequal_vectors(span))
                } else {
                    dot(x, y, x.len(), span)
                }
            } else {
                matrix_product(x, xs, y, ys, span)
            },
            BinOp::Cross => cross_product(x, y, span),
            BinOp::Tensor => match products(
                spread_left(x, y.len()),
                spread_right(y, x.len()),
                x.len() * y.len(),
                span,
            ) {
                Ok(items) => Ok(Val::Array { items, shape: xs + ys }),
                Err(e) => Err(e),
            },
            _ => fail(fault_view(Category::Run, 1, span, "unsupported array operation."@, ""@)),
        },
        _ => fail(
            fault_view(
                Category::Run,
                1,
                span,
                "this operator works on arrays, but one side is a single value."@,
                "use ordinary arithmetic for single numbers."@,
            ),
        ),
    }
}

// ── the array operators ─────────────────────────────────────────────────────

/// What a computation of a list of values came to.
pub open spec fn list_view(r: Result<Vec<Value>, Stop>) -> Result<Seq<Val>, StopView> {
    match r {
        Ok(v) => Ok(vals_of(v@)),
        Err(s) => Err(s@),
    }
}

proof fn lemma_products_fail(xs: Seq<Val>, ys: Seq<Val>, k: nat, n: nat, span: Span)
    requires
        k <= n,
        products(xs, ys, k, span) is Err,
    ensures
        products(xs, ys, n, span) == products(xs, ys, k, span),
    decreases n,
{
    if k < n {
        lemma_products_fail(xs, ys, k, (n - 1) as nat, span);
    }
}

proof fn lemma_dot_fails(xs: Seq<Val>, ys: Seq<Val>, k: nat, n: nat, span: Span)
    requires
        k <= n,
        dot(xs, ys, k, span) is Err,
    ensures
        dot(xs, ys, n, span) == dot(xs, ys, k, span),
    decreases n,
{
    if k < n {
        lemma_dot_fails(xs, ys, k, (n - 1) as nat, span);
    }
}

proof fn lemma_cells_fail(x: Seq<Val>, y: Seq<Val>, k: nat, n: nat, c: nat, count: nat, span: Span)
    requires
        c <= count,
        cells(x, y, k, n, c, span) is Err,
    ensures
        cells(x, y, k, n, count, span) == cells(x, y, k, n, c, span),
    decreases count,
{
    if c < count {
        lemma_cells_fail(x, y, k, n, c, (count - 1) as nat, span);
    }
}

fn multiply_pairs(x: &Vec<Value>, y: &Vec<Value>, span: Span) -> (r: Result<Vec<Value>, Stop>)
    requires
        x.len() == y.len(),
    ensures
        list_view(r) == products(vals_of(x@), vals_of(y@), x@.len(), span),
{
    let mut out: Vec<Value> = Vec::new();
    let mut i: usize = 0;
    assert(vals_of(out@) =~= Seq::empty());
    while i < x.len()
        invariant
            i <= x.len(),
            x.len() == y.len(),
            products(vals_of(x@), vals_of(y@), i as nat, span) == Ok::<Seq<Val>, StopView>(vals_of(out@)),
        decreases x.len() - i,
    {
        match arithmetic(BinOp::Mul, &x[i], &y[i], span, None) {
            Ok(v) => {
                proof {
                    lemma_vals_push(out@, v);
                }
                out.push(v);
            },
            Err(e) => {
                proof {
                    lemma_products_fail(vals_of(x@), vals_of(y@), (i + 1) as nat, x@.len(), span);
                }
                return Err(e);
            },
        }
        i = i + 1;
    }
    Ok(out)
}

/// The product of `n` pairs, at steps through two lists, added up.
fn dot_product(
    x: &Vec<Value>,
    x_from: usize,
    y: &Vec<Value>,
    y_from: usize,
    y_step: usize,
    n: usize,
    Ghost(xs): Ghost<Seq<Val>>,
    Ghost(ys): Ghost<Seq<Val>>,
    span: Span,
) -> (r: Result<Value, Stop>)
    requires
        xs.len() >= n,
        ys.len() >= n,
        forall|i: int| 0 <= i < n ==> x_from + i < x@.len() && xs[i] == val_of(#[trigger] x@[x_from + i]),
        forall|i: int|
            0 <= i < n ==> #[trigger] (i * y_step) + y_from < y@.len() && ys[i] == val_of(y@[(i * y_step) + y_from]),
    ensures
        result_view(r) == dot(xs, ys, n as nat, span),
{
    let mut total: Value = Value::Int(0);
    let mut i: usize = 0;
    let mut at: usize = y_from;
    assert(0 * y_step == 0);
    while i < n
        invariant
            i <= n,
            at == if i < n { (i * y_step) + y_from } else { at as int },
            xs.len() >= n,
            ys.len() >= n,
            forall|i: int| 0 <= i < n ==> x_from + i < x@.len() && xs[i] == val_of(#[trigger] x@[x_from + i]),
            forall|i: int|
                0 <= i < n ==> #[trigger] (i * y_step) + y_from < y@.len() && ys[i] == val_of(y@[(i * y_step) + y_from]),
            dot(xs, ys, i as nat, span) == Ok::<Val, StopView>(total@),
        decreases n - i,
    {
        proof {
            assert(x@.len() == x.len() && y@.len() == y.len());
            assert((i as int * y_step as int) + y_from < y@.len());
            assert(x_from + (i as int) < x@.len() && xs[i as int] == val_of(x@[x_from + i as int])) by {
                let j = i as int;
                assert(x@[x_from + j] == x@[x_from + i as int]);
            }
            assert(xs[i as int] == val_of(x@[x_from + i as int]));
        }
        let step: Result<Value, Stop> = match arithmetic(BinOp::Mul, &x[x_from + i], &y[at], span, None) {
            Ok(v) => arithmetic(BinOp::Add, &total, &v, span, None),
            Err(e) => Err(e),
        };
        match step {
            Ok(v) => {
                total = v;
            },
            Err(e) => {
                proof {
                    lemma_dot_fails(xs, ys, (i + 1) as nat, n as nat, span);
                }
                return Err(e);
            },
        }
        i = i + 1;
        if i < n {
            proof {
                assert((i as int * y_step as int) + y_from < y@.len());
                assert(i as int * y_step as int == (i - 1) * y_step as int + y_step) by (nonlinear_arith);
            }
            assert(y@.len() == y.len());
            at = at + y_step;
        }
    }
    Ok(total)
}

fn dim_at(shape: &Vec<usize>, d: usize) -> (r: usize)
    ensures
        r == dim_or_one(shape@, d as int),
{
    if d < shape.len() {
        shape[d]
    } else {
        1
    }
}

/// Whether a list holds at least `a * b` elements.
fn holds_product(len: usize, a: usize, b: usize) -> (r: bool)
    ensures
        r == (a * b <= len),
{
    match a.checked_mul(b) {
        Some(p) => p <= len,
        None => false,
    }
}

fn matmul(x: &Array, y: &Array, span: Span) -> (r: Result<Value, Stop>)
    ensures
        result_view(r) == matrix_product(vals_of(x.items@), x.shape@, vals_of(y.items@), y.shape@, span),
{
    broadcast use lemma_array_view;

    let m: usize = dim_at(&x.shape, 0);
    let k: usize = dim_at(&x.shape, 1);
    let k2: usize = dim_at(&y.shape, 0);
    let n: usize = dim_at(&y.shape, 1);
    if k != k2 {
        return Err(
            Stop::Fail(
                fault(
                    Category::Run,
                    1,
                    span,
                    cat5(
                        "matrix multiplication requires inner dimensions to agree: ",
                        usize_text(k).as_str(),
                        " ≠ ",
                        usize_text(k2).as_str(),
                        ".",
                    ),
                    "transpose one side, or use a matching shape.",
                ),
            ),
        );
    }
    if m > 0 && n > 0 && (!holds_product(x.items.len(), m, k) || !holds_product(y.items.len(), k, n)) {
        return Err(Stop::Fail(unfilled_error(span)));
    }
    let ghost xv = vals_of(x.items@);
    let ghost yv = vals_of(y.items@);
    let ghost goal = matrix_product(xv, x.shape@, yv, y.shape@, span);
    let mut items: Vec<Value> = Vec::new();
    assert(vals_of(items@) =~= Seq::empty());
    let mut row: usize = 0;
    let mut base: usize = 0;
    proof {
        assert(0 * n == 0 && 0 * k == 0);
    }
    while row < m && n > 0
        invariant
            row <= m,
            n > 0 ==> base == if row < m { row * k } else { base as int },
            xv == vals_of(x.items@),
            yv == vals_of(y.items@),
            goal == matrix_product(xv, x.shape@, yv, y.shape@, span),
            goal == (match cells(xv, yv, k as nat, n as nat, (m * n) as nat, span) {
                Ok(items) => Ok(Val::Array { items, shape: seq![m, n] }),
                Err(e) => Err(e),
            }),
            m > 0 && n > 0 ==> m * k <= x.items@.len() && k * n <= y.items@.len(),
            cells(xv, yv, k as nat, n as nat, (row * n) as nat, span) == Ok::<Seq<Val>, StopView>(vals_of(items@)),
        decreases m - row,
    {
        let mut col: usize = 0;
        while col < n
            invariant
                col <= n,
                row < m,
                n > 0,
                base == row * k,
                xv == vals_of(x.items@),
                yv == vals_of(y.items@),
                goal == matrix_product(xv, x.shape@, yv, y.shape@, span),
                goal == (match cells(xv, yv, k as nat, n as nat, (m * n) as nat, span) {
                    Ok(items) => Ok(Val::Array { items, shape: seq![m, n] }),
                    Err(e) => Err(e),
                }),
                m * k <= x.items@.len(),
                k * n <= y.items@.len(),
                cells(xv, yv, k as nat, n as nat, (row * n + col) as nat, span) == Ok::<Seq<Val>, StopView>(
                    vals_of(items@),
                ),
            decreases n - col,
        {
            let ghost xs = row_of(xv, row as int, k as nat);
            let ghost ys = column_of(yv, col as int, k as nat, n as nat);
            proof {
                assert forall|i: int| 0 <= i < k implies base + i < x.items@.len() && xs[i] == val_of(
                    #[trigger] x.items@[base + i],
                ) by {
                    lemma_within(row as int, k as int, i, m as int);
                }
                assert forall|i: int| 0 <= i < k implies #[trigger] (i * n) + col < y.items@.len() && ys[i] == val_of(
                    y.items@[(i * n) + col],
                ) by {
                    lemma_within(i, n as int, col as int, k as int);
                }
                let c = row * n + col;
                lemma_fundamental_div_mod_converse(c, n as int, row as int, col as int);
            }
            match dot_product(&x.items, base, &y.items, col, n, k, Ghost(xs), Ghost(ys), span) {
                Ok(v) => {
                    proof {
                        lemma_vals_push(items@, v);
                    }
                    items.push(v);
                },
                Err(e) => {
                    proof {
                        let c = (row * n + col + 1) as nat;
                        assert(c <= m * n) by (nonlinear_arith)
                            requires
                                c == row * n + col + 1,
                                row < m,
                                col < n,
                        ;
                        assert(cells(xv, yv, k as nat, n as nat, c, span) == Err::<Seq<Val>, StopView>(e@));
                        lemma_cells_fail(xv, yv, k as nat, n as nat, c, (m * n) as nat, span);
                    }
                    return Err(e);
                },
            }
            col = col + 1;
        }
        row = row + 1;
        proof {
            assert((row - 1) * n + n == row * n) by (nonlinear_arith);
        }
        if row < m {
            proof {
                assert((row - 1) * k + k == row * k) by (nonlinear_arith);
                assert(row * k <= m * k) by (nonlinear_arith)
                    requires
                        row <= m,
                        k >= 0,
                ;
            }
            assert(x.items@.len() == x.items.len());
            base = base + k;
        }
    }
    proof {
        if n == 0 || m == 0 {
            assert(m * n == 0) by (nonlinear_arith)
                requires
                    n == 0 || m == 0,
            ;
            assert(row * n == 0) by (nonlinear_arith)
                requires
                    n == 0 || row == 0,
            ;
        }
    }
    let mut shape: Vec<usize> = Vec::new();
    shape.push(m);
    shape.push(n);
    assert(shape@ =~= seq![m, n]);
    Ok(Value::Array(Array { items, shape }))
}

/// A position in a row that lies within the rows that there are.
pub proof fn lemma_within(row: int, width: int, i: int, rows: int)
    requires
        0 <= row < rows,
        0 <= i < width,
    ensures
        0 <= row * width + i < rows * width,
{
    assert(0 <= row * width + i < rows * width) by (nonlinear_arith)
        requires
            0 <= row < rows,
            0 <= i < width,
    ;
}

fn cross_component(u: &Vec<Value>, v: &Vec<Value>, i: usize, j: usize, span: Span) -> (r: Result<Value, Stop>)
    requires
        i < u.len(),
        j < u.len(),
        i < v.len(),
        j < v.len(),
    ensures
        result_view(r) == cross_part(vals_of(u@), vals_of(v@), i as int, j as int, span),
{
    match arithmetic(BinOp::Mul, &u[i], &v[j], span, None) {
        Ok(l) => match arithmetic(BinOp::Mul, &u[j], &v[i], span, None) {
            Ok(q) => arithmetic(BinOp::Sub, &l, &q, span, None),
            Err(e) => Err(e),
        },
        Err(e) => Err(e),
    }
}

fn cross(u: &Vec<Value>, v: &Vec<Value>, span: Span) -> (r: Result<Value, Stop>)
    ensures
        result_view(r) == cross_product(vals_of(u@), vals_of(v@), span),
{
    broadcast use lemma_array_view;

    if u.len() != 3 || v.len() != 3 {
        return Err(
            Stop::Fail(
                fault(
                    Category::Run,
                    1,
                    span,
                    "cross product is defined for two 3-element vectors.".to_owned(),
                    "use · for the dot product, or ⊙ for elementwise.",
                ),
            ),
        );
    }
    let a: Value = match cross_component(u, v, 1, 2, span) {
        Ok(a) => a,
        Err(e) => {
            return Err(e);
        },
    };
    let b: Value = match cross_component(u, v, 2, 0, span) {
        Ok(b) => b,
        Err(e) => {
            return Err(e);
        },
    };
    let c: Value = match cross_component(u, v, 0, 1, span) {
        Ok(c) => c,
        Err(e) => {
            return Err(e);
        },
    };
    let mut items: Vec<Value> = Vec::new();
    items.push(a);
    items.push(b);
    items.push(c);
    assert(vals_of(items@) =~= seq![a@, b@, c@]);
    Ok(Value::Array(Array::vector(items)))
}

fn tensor_items(x: &Vec<Value>, y: &Vec<Value>, span: Span) -> (r: Result<Vec<Value>, Stop>)
    ensures
        list_view(r) == products(
            spread_left(vals_of(x@), y@.len()),
            spread_right(vals_of(y@), x@.len()),
            x@.len() * y@.len(),
            span,
        ),
{
    let mut out: Vec<Value> = Vec::new();
    let ghost left = spread_left(vals_of(x@), y@.len());
    let ghost right = spread_right(vals_of(y@), x@.len());
    assert(vals_of(out@) =~= Seq::empty());
    let mut i: usize = 0;
    assert(0 * y@.len() == 0);
    while i < x.len()
        invariant
            i <= x.len(),
            left == spread_left(vals_of(x@), y@.len()),
            right == spread_right(vals_of(y@), x@.len()),
            products(left, right, (i * y@.len()) as nat, span) == Ok::<Seq<Val>, StopView>(vals_of(out@)),
        decreases x.len() - i,
    {
        let mut j: usize = 0;
        while j < y.len()
            invariant
                i < x.len(),
                j <= y.len(),
                left == spread_left(vals_of(x@), y@.len()),
                right == spread_right(vals_of(y@), x@.len()),
                products(left, right, (i * y@.len() + j) as nat, span) == Ok::<Seq<Val>, StopView>(vals_of(out@)),
            decreases y.len() - j,
        {
            let ghost at = i * y@.len() + j;
            proof {
                lemma_within(i as int, y@.len() as int, j as int, x@.len() as int);
                lemma_fundamental_div_mod_converse(at, y@.len() as int, i as int, j as int);
                assert(left[at] == val_of(x@[i as int]));
                assert(right[at] == val_of(y@[j as int]));
            }
            match arithmetic(BinOp::Mul, &x[i], &y[j], span, None) {
                Ok(v) => {
                    proof {
                        lemma_vals_push(out@, v);
                    }
                    out.push(v);
                },
                Err(e) => {
                    proof {
                        lemma_products_fail(left, right, (at + 1) as nat, x@.len() * y@.len(), span);
                    }
                    return Err(e);
                },
            }
            j = j + 1;
        }
        i = i + 1;
        proof {
            let w = y@.len();
            assert((i - 1) * w + w == i * w) by (nonlinear_arith);
        }
    }
    Ok(out)
}

fn joined_shape(x: &Vec<usize>, y: &Vec<usize>) -> (r: Vec<usize>)
    ensures
        r@ == x@ + y@,
{
    let mut out: Vec<usize> = Vec::new();
    let mut i: usize = 0;
    while i < x.len()
        invariant
            i <= x.len(),
            out@ == x@.take(i as int),
        decreases x.len() - i,
    {
        out.push(x[i]);
        i = i + 1;
        assert(out@ =~= x@.take(i as int));
    }
    assert(x@.take(x@.len() as int) =~= x@);
    let mut j: usize = 0;
    assert(x@ + y@.take(0) =~= x@);
    while j < y.len()
        invariant
            j <= y.len(),
            out@ == x@ + y@.take(j as int),
        decreases y.len() - j,
    {
        out.push(y[j]);
        j = j + 1;
        assert(out@ =~= x@ + y@.take(j as int));
    }
    assert(y@.take(y@.len() as int) =~= y@);
    out
}

/// Another list of the same numbers.
pub fn copied_shape(x: &Vec<usize>) -> (r: Vec<usize>)
    ensures
        r@ == x@,
{
    let none: Vec<usize> = Vec::new();
    let out: Vec<usize> = joined_shape(&none, x);
    assert(out@ =~= x@);
    out
}

fn same_shape(a: &Vec<usize>, b: &Vec<usize>) -> (r: bool)
    ensures
        r == (a@ == b@),
{
    if a.len() != b.len() {
        return false;
    }
    let mut i: usize = 0;
    while i < a.len()
        invariant
            i <= a@.len() == b@.len(),
            forall|j: int| 0 <= j < i ==> #[trigger] a@[j] == b@[j],
        decreases a@.len() - i,
    {
        if a[i] != b[i] {
            return false;
        }
        i = i + 1;
    }
    assert(a@ =~= b@);
    true
}

/// The array operators: `⊙`, `·`, `×` and `⊗`.
pub fn array_binary(op: BinOp, a: &Value, b: &Value, span: Span) -> (r: Result<Value, Stop>)
    ensures
        result_view(r) == array_operation(op, a@, b@, span),
{
    broadcast use lemma_array_view;

    let (x, y) = match (a, b) {
        (Value::Array(x), Value::Array(y)) => (x, y),
        _ => {
            return Err(
                Stop::Fail(
                    fault(
                        Category::Run,
                        1,
                        span,
                        "this operator works on arrays, but one side is a single value.".to_owned(),
                        "use ordinary arithmetic for single numbers.",
                    ),
                ),
            );
        },
    };
    match op {
        BinOp::Hadamard => {
            if !same_shape(&x.shape, &y.shape) || x.items.len() != y.items.len() {
                return Err(Stop::Fail(mismatched_error(&x.shape, &y.shape, span)));
            }
            match multiply_pairs(&x.items, &y.items, span) {
                Ok(items) => Ok(Value::Array(Array { items, shape: copied_shape(&x.shape) })),
                Err(e) => Err(e),
            }
        },
        BinOp::Dot => {
            if x.shape.len() == 1 && y.shape.len() == 1 {
                let n: usize = x.items.len();
                if n != y.items.len() {
                    return Err(
                        Stop::Fail(
                            fault(
                                Category::Run,
                                1,
                                span,
                                "a dot product needs two vectors of the same length.".to_owned(),
                                "make the lengths agree.",
                            ),
                        ),
                    );
                }
                let ghost xs = vals_of(x.items@);
                let ghost ys = vals_of(y.items@);
                proof {
                    assert forall|i: int| 0 <= i < n implies #[trigger] (i * 1usize) + 0 < y.items@.len() && ys[i]
                        == val_of(y.items@[(i * 1usize) + 0]) by {
                        assert(i * 1usize == i);
                    }
                }
                dot_product(&x.items, 0, &y.items, 0, 1, n, Ghost(xs), Ghost(ys), span)
            } else {
                matmul(x, y, span)
            }
        },
        BinOp::Cross => cross(&x.items, &y.items, span),
        BinOp::Tensor => match tensor_items(&x.items, &y.items, span) {
            Ok(items) => Ok(Value::Array(Array { items, shape: joined_shape(&x.shape, &y.shape) })),
            Err(e) => Err(e),
        },
        _ => Err(Stop::Fail(fault(Category::Run, 1, span, "unsupported array operation.".to_owned(), ""))),
    }
}

} // verus!
