//! Operations that compiled and interpreted programs have in common: arithmetic on whole
//! numbers, decimals and rationals as far as each law says, the order of numbers and
//! texts, printing, and where the elements of arrays lie.

use vstd::prelude::*;

use crate::ast::BinOp;
use crate::codegen::steps::arithmetic_tag;
use crate::diagnostics::position::Span;
use crate::eval::decimal::{decimal_quotient, order_of};
use crate::eval::numeric::{asks_for, digits_wanted, Family, Numeric};
use crate::eval::ops::{arith, val_order};
use crate::eval::value::{comma_separated, item_texts, val_text, Val};
use crate::runtime::array::{cell_text, cell_texts, CellView};
use crate::runtime::exact::{decimal_sign, fraction_held, held, stopped, AhpclDecimal, AhpclRational};
use crate::runtime::num::{cell_arith, cell_sign};

verus! {

/// The value a cell holds.
pub open spec fn value_held(c: CellView) -> Val {
    match c {
        CellView::Int(v) => Val::Int(v),
        CellView::Bool(b) => Val::Bool(b),
        CellView::Deci(d) => Val::Deci(held(d)),
        CellView::Rat(r) => Val::Rat(fraction_held(r)),
        CellView::Str(s) => Val::Str(s),
    }
}

/// Whole numbers are added, subtracted, multiplied, divided with a remainder and raised to
/// powers alike, and overflow and division by zero stop both.
pub proof fn whole_numbers_agree(op: BinOp, x: i128, y: i128, span: Span, hint: Option<Numeric>)
    requires
        arithmetic_tag(op) is Some,
        op != BinOp::Div,
    ensures
        ({
            let compiled = cell_arith(arithmetic_tag(op)->0, CellView::Int(x), CellView::Int(y));
            let interpreted = arith(op, Val::Int(x), Val::Int(y), span, hint);
            &&& compiled is Ok <==> interpreted is Ok
            &&& compiled is Ok ==> interpreted == Ok::<Val, crate::eval::ops::StopView>(value_held(compiled->Ok_0))
        }),
{
    reveal(cell_arith);
    reveal(arith);
}

/// Decimals are added, subtracted and multiplied alike, and divided alike where nothing
/// says how many places to keep.
pub proof fn decimals_agree(op: BinOp, x: AhpclDecimal, y: AhpclDecimal, span: Span)
    requires
        op == BinOp::Add || op == BinOp::Sub || op == BinOp::Mul || op == BinOp::Div,
    ensures
        ({
            let compiled = cell_arith(arithmetic_tag(op)->0, CellView::Deci(x), CellView::Deci(y));
            let interpreted = arith(op, Val::Deci(held(x)), Val::Deci(held(y)), span, None);
            &&& compiled is Ok <==> interpreted is Ok
            &&& compiled is Ok ==> interpreted == Ok::<Val, crate::eval::ops::StopView>(value_held(compiled->Ok_0))
        }),
{
    reveal(cell_arith);
    reveal(arith);
}

/// Decimals are divided alike to the places that the context asks for.
pub proof fn decimal_divisions_agree(x: AhpclDecimal, y: AhpclDecimal, span: Span, hint: Option<Numeric>)
    requires
        !asks_for(hint, Family::Rat),
    ensures
        ({
            let compiled = stopped(decimal_quotient(held(x), held(y), digits_wanted(hint) as nat));
            let interpreted = arith(BinOp::Div, Val::Deci(held(x)), Val::Deci(held(y)), span, hint);
            &&& compiled is Ok <==> interpreted is Ok
            &&& compiled is Ok ==> interpreted == Ok::<Val, crate::eval::ops::StopView>(
                Val::Deci(held(compiled->Ok_0)),
            )
        }),
{
    reveal(arith);
}

/// Rationals are added, subtracted, multiplied and raised to whole powers alike, and divided
/// alike where the context asks for a rational.
pub proof fn rationals_agree(op: BinOp, x: AhpclRational, y: AhpclRational, span: Span, hint: Option<Numeric>)
    requires
        op == BinOp::Add || op == BinOp::Sub || op == BinOp::Mul || op == BinOp::Pow || op == BinOp::Div && asks_for(
            hint,
            Family::Rat,
        ),
    ensures
        ({
            let compiled = cell_arith(arithmetic_tag(op)->0, CellView::Rat(x), CellView::Rat(y));
            let interpreted = arith(op, Val::Rat(fraction_held(x)), Val::Rat(fraction_held(y)), span, hint);
            &&& compiled is Ok <==> interpreted is Ok
            &&& compiled is Ok ==> interpreted == Ok::<Val, crate::eval::ops::StopView>(value_held(compiled->Ok_0))
        }),
{
    reveal(cell_arith);
    reveal(arith);
}

/// Decimals and rationals are ordered alike wherever the interpreter can order them.
pub proof fn number_orders_agree(x: AhpclDecimal, y: AhpclDecimal, p: AhpclRational, q: AhpclRational)
    ensures
        val_order(Val::Deci(held(x)), Val::Deci(held(y))) matches Some(o) ==> {
            &&& o == order_of(cell_sign(CellView::Deci(x), CellView::Deci(y)), 0)
            &&& o == order_of(decimal_sign(held(x), held(y)), 0)
        },
        val_order(Val::Rat(fraction_held(p)), Val::Rat(fraction_held(q))) matches Some(o) ==> o == order_of(
            cell_sign(CellView::Rat(p), CellView::Rat(q)),
            0,
        ),
{
}

/// Whole numbers and texts are ordered alike.
pub proof fn orders_agree(x: i128, y: i128, s: Seq<char>, t: Seq<char>)
    ensures
        val_order(Val::Int(x), Val::Int(y)) == Some(
            order_of(cell_sign(CellView::Int(x), CellView::Int(y)), 0),
        ),
        val_order(Val::Str(s), Val::Str(t)) == Some(
            order_of(cell_sign(CellView::Str(s), CellView::Str(t)), 0),
        ),
{
}

/// A value is printed alike whether it stands alone or in an array.
pub proof fn printing_agrees(c: CellView, items: Seq<CellView>, shape: Seq<usize>)
    ensures
        cell_text(c) == val_text(value_held(c)),
        "{"@ + comma_separated(cell_texts(items)) + "}"@ == val_text(
            (Val::Array { items: items.map_values(|c: CellView| value_held(c)), shape }),
        ),
{
    let vals = items.map_values(|c: CellView| value_held(c));
    assert(cell_texts(items) =~= item_texts(vals));
}

/// Whether two shapes give the same lengths.
pub open spec fn same_shape(a: Seq<u64>, b: Seq<usize>) -> bool {
    a.len() == b.len() && forall|d: int| 0 <= d < a.len() ==> #[trigger] a[d] == b[d]
}

proof fn lemma_extents_agree(a: Seq<u64>, b: Seq<usize>, d: int)
    requires
        same_shape(a, b),
    ensures
        crate::runtime::array::extent_from(a, d) == crate::eval::select::extent_from(b, d),
    decreases a.len() - d,
{
    if 0 <= d < a.len() {
        lemma_extents_agree(a, b, d + 1);
        assert(a[d] == b[d]);
    }
}

proof fn lemma_offsets_agree(a: Seq<u64>, b: Seq<usize>, indices: Seq<i128>, n: nat)
    requires
        same_shape(a, b),
        crate::eval::select::indices_valid(b, indices),
        n <= indices.len(),
    ensures
        crate::runtime::array::offset_of(a, indices, n) == Ok::<int, crate::runtime::exact::FailureView>(
            crate::eval::select::offset_of(b, indices, n),
        ),
    decreases n,
{
    if n > 0 {
        lemma_offsets_agree(a, b, indices, (n - 1) as nat);
        lemma_extents_agree(a, b, n as int);
        assert(1 <= indices[n - 1] <= b[n - 1]);
        assert(a[n - 1] == b[n - 1]);
    }
}

/// One index per dimension leads to the same element: both lay arrays out in rows.
pub proof fn addresses_agree(a: Seq<u64>, b: Seq<usize>, indices: Seq<i128>)
    requires
        same_shape(a, b),
        crate::eval::select::indices_valid(b, indices),
    ensures
        crate::runtime::array::offset_of(a, indices, indices.len()) == Ok::<
            int,
            crate::runtime::exact::FailureView,
        >(crate::eval::select::offset_of(b, indices, indices.len())),
{
    lemma_offsets_agree(a, b, indices, indices.len());
}

} // verus!
