//! The rest of what compiled programs call: boxing and unboxing, and elements by kind.

use vstd::prelude::*;

use crate::runtime::array::{
    ahpcl_array_get_num, ahpcl_array_set_num, cell_text, out_of_range, Array, ArrayView, Cell, CellView,
};
use crate::runtime::exact::{
    fraction_held, outcome, rat_apply, rat_result, AhpclDecimal, AhpclRational, Failure, FailureView, Halt,
    HaltView, OP_ADD, OP_DIV, OP_MUL, OP_SUB,
};
use crate::runtime::num::{
    arith, bit, cell_arith, cell_unary, deci_of, int_of, rat_of, to_deci, to_int, to_rat, unary,
};

verus! {

// ── elements by kind ────────────────────────────────────────────────────────

pub open spec fn inside(a: ArrayView, index: int) -> bool {
    1 <= index <= a.items.len()
}

/// An element read as something, or the failure of an index out of range.
pub open spec fn read_as<T>(a: ArrayView, index: int, f: spec_fn(CellView) -> T) -> Result<T, FailureView> {
    if inside(a, index) {
        Ok(f(a.items[index - 1]))
    } else {
        Err(out_of_range(index, a.items.len()))
    }
}

/// An array with one element replaced.
pub open spec fn with_cell(a: ArrayView, index: int, c: CellView) -> ArrayView {
    if inside(a, index) {
        ArrayView { items: a.items.update(index - 1, c), ..a }
    } else {
        a
    }
}

pub open spec fn stored<T>(a: ArrayView, index: int, v: T) -> Result<T, FailureView> {
    if inside(a, index) {
        Ok(v)
    } else {
        Err(out_of_range(index, a.items.len()))
    }
}

/// An element as a truth value: a number other than zero counts as true.
pub open spec fn bool_of(c: CellView) -> bool {
    match c {
        CellView::Bool(b) => b,
        CellView::Int(v) => v != 0,
        _ => false,
    }
}

/// An element as a decimal, without reading truth values as numbers.
pub open spec fn deci_element(c: CellView) -> AhpclDecimal {
    match c {
        CellView::Bool(_) => AhpclDecimal { mantissa: 0, scale: 0, failed: 1 },
        _ => deci_of(c),
    }
}

/// An element as a rational; only whole numbers convert.
pub open spec fn rat_element(c: CellView) -> AhpclRational {
    match c {
        CellView::Rat(q) => q,
        CellView::Int(v) => AhpclRational { num: v, den: 1, failed: 0 },
        _ => AhpclRational { num: 0, den: 1, failed: 1 },
    }
}

pub fn ahpcl_array_set_int(a: &mut Array, index: i128, v: i128) -> (r: Result<(), Failure>)
    ensures
        outcome(r) == stored(old(a)@, index as int, ()),
        final(a)@ == with_cell(old(a)@, index as int, CellView::Int(v)),
{
    ahpcl_array_set_num(a, index, Cell::Int(v))
}

pub fn ahpcl_array_get_int(a: &Array, index: i128) -> (r: Result<i128, Failure>)
    ensures
        outcome(r) == read_as(a@, index as int, |c: CellView| int_of(c)),
{
    match ahpcl_array_get_num(a, index) {
        Ok(c) => Ok(to_int(&c)),
        Err(f) => Err(f),
    }
}

pub fn ahpcl_array_set_bool(a: &mut Array, index: i128, v: i8) -> (r: Result<(), Failure>)
    ensures
        outcome(r) == stored(old(a)@, index as int, ()),
        final(a)@ == with_cell(old(a)@, index as int, CellView::Bool(v != 0)),
{
    ahpcl_array_set_num(a, index, Cell::Bool(v != 0))
}

pub fn ahpcl_array_get_bool(a: &Array, index: i128) -> (r: Result<i8, Failure>)
    ensures
        outcome(r) == read_as(a@, index as int, |c: CellView| bit(bool_of(c)) as i8),
{
    match ahpcl_array_get_num(a, index) {
        Ok(c) => {
            let b: bool = match c {
                Cell::Bool(b) => b,
                Cell::Int(v) => v != 0,
                _ => false,
            };
            Ok(
                if b {
                    1
                } else {
                    0
                },
            )
        },
        Err(f) => Err(f),
    }
}

pub fn ahpcl_array_set_deci(a: &mut Array, index: i128, v: AhpclDecimal) -> (r: Result<(), Failure>)
    ensures
        outcome(r) == stored(old(a)@, index as int, ()),
        final(a)@ == with_cell(old(a)@, index as int, CellView::Deci(v)),
{
    ahpcl_array_set_num(a, index, Cell::Deci(v))
}

pub fn ahpcl_array_get_deci(a: &Array, index: i128) -> (r: Result<AhpclDecimal, Failure>)
    ensures
        outcome(r) == read_as(a@, index as int, |c: CellView| deci_element(c)),
{
    match ahpcl_array_get_num(a, index) {
        Ok(c) => Ok(
            match c {
                Cell::Bool(_) => AhpclDecimal { mantissa: 0, scale: 0, failed: 1 },
                other => to_deci(&other),
            },
        ),
        Err(f) => Err(f),
    }
}

pub fn ahpcl_array_set_rat(a: &mut Array, index: i128, v: AhpclRational) -> (r: Result<(), Failure>)
    ensures
        outcome(r) == stored(old(a)@, index as int, ()),
        final(a)@ == with_cell(old(a)@, index as int, CellView::Rat(v)),
{
    ahpcl_array_set_num(a, index, Cell::Rat(v))
}

pub fn ahpcl_array_get_rat(a: &Array, index: i128) -> (r: Result<AhpclRational, Failure>)
    ensures
        outcome(r) == read_as(a@, index as int, |c: CellView| rat_element(c)),
{
    match ahpcl_array_get_num(a, index) {
        Ok(c) => Ok(
            match c {
                Cell::Rat(q) => q,
                Cell::Int(v) => AhpclRational { num: v, den: 1, failed: 0 },
                _ => AhpclRational { num: 0, den: 1, failed: 1 },
            },
        ),
        Err(f) => Err(f),
    }
}

pub fn ahpcl_array_set_str(a: &mut Array, index: i128, v: String) -> (r: Result<(), Failure>)
    ensures
        outcome(r) == stored(old(a)@, index as int, ()),
        final(a)@ == with_cell(old(a)@, index as int, CellView::Str(v@)),
{
    ahpcl_array_set_num(a, index, Cell::Str(v))
}

pub open spec fn text_outcome(r: Result<String, Failure>) -> Result<Seq<char>, FailureView> {
    match r {
        Ok(s) => Ok(s@),
        Err(f) => Err(f@),
    }
}

/// An element as text, spelled as it is printed.
pub fn ahpcl_array_get_str(a: &Array, index: i128) -> (r: Result<String, Failure>)
    ensures
        text_outcome(r) == read_as(a@, index as int, |c: CellView| cell_text(c)),
{
    match ahpcl_array_get_num(a, index) {
        Ok(c) => Ok(c.render()),
        Err(f) => Err(f),
    }
}

/// An array with a row appended: the rows' own shape follows the number of rows.
pub open spec fn row_pushed(a: ArrayView, row: ArrayView) -> ArrayView {
    ArrayView {
        items: a.items + row.items,
        shape: seq![
            if a.items.len() == 0 || a.shape.len() == 0 || a.shape[0] == u64::MAX {
                1u64
            } else {
                (a.shape[0] + 1) as u64
            },
        ] + row.shape,
        kind: row.kind,
    }
}

/// Append a row, so that the array's shape grows a dimension.
pub fn ahpcl_array_push_array(a: &mut Array, row: &Array)
    ensures
        final(a)@ == row_pushed(old(a)@, row@),
{
    let rows: u64 = if a.items.len() == 0 || a.shape.len() == 0 || a.shape[0] == u64::MAX {
        1
    } else {
        a.shape[0] + 1
    };
    let ghost before = a@;
    let mut i: usize = 0;
    while i < row.items.len()
        invariant
            i <= row.items@.len(),
            a@.items =~= before.items + row@.items.take(i as int),
        decreases row.items@.len() - i,
    {
        let c: Cell = row.items[i].copied();
        let ghost now = a@.items;
        a.items.push(c);
        assert(a@.items =~= now.push(c@));
        assert(row@.items.take(i as int + 1) =~= row@.items.take(i as int).push(row@.items[i as int]));
        i = i + 1;
    }
    assert(row@.items.take(row@.items.len() as int) =~= row@.items);
    let mut shape: Vec<u64> = Vec::new();
    shape.push(rows);
    let mut k: usize = 0;
    while k < row.shape.len()
        invariant
            k <= row.shape@.len(),
            shape@ =~= seq![rows] + row.shape@.take(k as int),
        decreases row.shape@.len() - k,
    {
        shape.push(row.shape[k]);
        k = k + 1;
    }
    assert(row.shape@.take(row.shape@.len() as int) =~= row.shape@);
    a.shape = shape;
    a.kind = row.kind;
    assert(a@.shape =~= row_pushed(before, row@).shape);
    assert(a@.items =~= row_pushed(before, row@).items);
}

// ── boxed values ────────────────────────────────────────────────────────────

/// The sign of a cell.
pub open spec fn sign_of_cell(c: CellView) -> int {
    match c {
        CellView::Int(v) => signum(v as int),
        CellView::Deci(d) => signum(d.mantissa as int),
        CellView::Rat(q) => signum(q.num as int),
        CellView::Bool(b) => bit(b) as int,
        CellView::Str(_) => 0,
    }
}

pub open spec fn signum(v: int) -> int {
    if v < 0 {
        -1
    } else if v > 0 {
        1
    } else {
        0
    }
}

fn sign(v: i128) -> (r: i32)
    ensures
        r == signum(v as int),
{
    if v < 0 {
        -1
    } else if v > 0 {
        1
    } else {
        0
    }
}

pub open spec fn sign_result(r: Result<i32, Halt>) -> Result<int, HaltView> {
    match r {
        Ok(o) => Ok(o as int),
        Err(h) => Err(h@),
    }
}

/// How two tagged values are ordered: by the sign of their difference.
pub fn ahpcl_num_cmp(a: &Cell, b: &Cell) -> (r: Result<i32, Halt>)
    ensures
        sign_result(r) == match cell_arith(OP_SUB, a@, b@) {
            Ok(c) => Ok(sign_of_cell(c)),
            Err(h) => Err(h),
        },
{
    match arith(OP_SUB, a, b) {
        Ok(c) => Ok(
            match c {
                Cell::Int(v) => sign(v),
                Cell::Deci(d) => sign(d.mantissa),
                Cell::Rat(q) => sign(q.num),
                Cell::Bool(x) => if x {
                    1
                } else {
                    0
                },
                Cell::Str(_) => 0,
            },
        ),
        Err(h) => Err(h),
    }
}

pub open spec fn deci_outcome(r: Result<AhpclDecimal, Halt>) -> Result<AhpclDecimal, HaltView> {
    match r {
        Ok(d) => Ok(d),
        Err(h) => Err(h@),
    }
}

pub open spec fn rat_outcome(r: Result<AhpclRational, Halt>) -> Result<AhpclRational, HaltView> {
    match r {
        Ok(d) => Ok(d),
        Err(h) => Err(h@),
    }
}

/// A unary operator on a decimal, the result read as a decimal.
pub fn ahpcl_deci_unary(op: u32, a: AhpclDecimal, digits: u32) -> (r: Result<AhpclDecimal, Halt>)
    ensures
        deci_outcome(r) == match cell_unary(op, CellView::Deci(a), digits) {
            Ok(c) => Ok(deci_of(c)),
            Err(h) => Err(h),
        },
{
    match unary(op, &Cell::Deci(a), digits) {
        Ok(c) => Ok(to_deci(&c)),
        Err(h) => Err(h),
    }
}

/// A unary operator on a rational, the result read as a rational.
pub fn ahpcl_rat_unary(op: u32, a: AhpclRational, digits: u32) -> (r: Result<AhpclRational, Halt>)
    ensures
        rat_outcome(r) == match cell_unary(op, CellView::Rat(a), digits) {
            Ok(c) => Ok(rat_of(c)),
            Err(h) => Err(h),
        },
{
    match unary(op, &Cell::Rat(a), digits) {
        Ok(c) => Ok(to_rat(&c)),
        Err(h) => Err(h),
    }
}

pub fn ahpcl_rat_add(a: AhpclRational, b: AhpclRational) -> (r: Result<AhpclRational, Failure>)
    ensures
        outcome(r) == rat_result(OP_ADD, fraction_held(a), fraction_held(b)),
{
    rat_apply(OP_ADD, a, b)
}

pub fn ahpcl_rat_sub(a: AhpclRational, b: AhpclRational) -> (r: Result<AhpclRational, Failure>)
    ensures
        outcome(r) == rat_result(OP_SUB, fraction_held(a), fraction_held(b)),
{
    rat_apply(OP_SUB, a, b)
}

pub fn ahpcl_rat_mul(a: AhpclRational, b: AhpclRational) -> (r: Result<AhpclRational, Failure>)
    ensures
        outcome(r) == rat_result(OP_MUL, fraction_held(a), fraction_held(b)),
{
    rat_apply(OP_MUL, a, b)
}

pub fn ahpcl_rat_div(a: AhpclRational, b: AhpclRational) -> (r: Result<AhpclRational, Failure>)
    ensures
        outcome(r) == rat_result(OP_DIV, fraction_held(a), fraction_held(b)),
{
    rat_apply(OP_DIV, a, b)
}

} // verus!
