//! Arrays for compiled code, and `num`, the polymorphic top of the numeric hierarchy.
//!
//! A `num` holds whichever exact kind flowed into it, so it is a tagged value rather than a
//! fixed layout: the same cell an array element is. Operations promote the narrower side
//! exactly as the interpreter does.

use vstd::arithmetic::div_mod::*;
use vstd::arithmetic::power::*;
use vstd::prelude::*;
use vstd::string::*;

use crate::eval::decimal::decimal_text;
use crate::eval::rational::rational_text;
use crate::eval::select::{in_range, moved, range_left, reached};
use crate::eval::value::comma_separated;
use crate::runtime::exact::{
    fail_with, failure, format_decimal, format_rational, fraction_held, held, outcome, AhpclDecimal,
    AhpclRational, Failure, FailureView, Halt, HaltView,
};
use crate::text::{cat5, i128_text, int_text, nat_text, u128_text, usize_text};

verus! {

/// Which type the elements are.
pub const KIND_INT: u32 = 0;

pub const KIND_BOOL: u32 = 1;

pub const KIND_DECI: u32 = 2;

pub const KIND_RAT: u32 = 3;

pub const KIND_STR: u32 = 4;

/// A `num` element: the cell keeps whichever exact kind was stored in it.
pub const KIND_NUM: u32 = 5;

#[derive(Debug, PartialEq)]
pub enum Cell {
    Int(i128),
    Bool(bool),
    Deci(AhpclDecimal),
    Rat(AhpclRational),
    Str(String),
}

pub enum CellView {
    Int(i128),
    Bool(bool),
    Deci(AhpclDecimal),
    Rat(AhpclRational),
    Str(Seq<char>),
}

impl View for Cell {
    type V = CellView;

    open spec fn view(&self) -> CellView {
        match *self {
            Cell::Int(v) => CellView::Int(v),
            Cell::Bool(b) => CellView::Bool(b),
            Cell::Deci(d) => CellView::Deci(d),
            Cell::Rat(r) => CellView::Rat(r),
            Cell::Str(s) => CellView::Str(s@),
        }
    }
}

pub open spec fn cells_of(items: Seq<Cell>) -> Seq<CellView> {
    Seq::new(items.len(), |i: int| items[i]@)
}

/// A cell as it is printed.
pub open spec fn cell_text(c: CellView) -> Seq<char> {
    match c {
        CellView::Int(v) => int_text(v as int),
        CellView::Bool(b) => if b {
            "true"@
        } else {
            "false"@
        },
        CellView::Deci(d) => decimal_text(held(d)),
        CellView::Rat(r) => rational_text(fraction_held(r)),
        CellView::Str(s) => s,
    }
}

impl Cell {
    pub fn render(&self) -> (r: String)
        ensures
            r@ == cell_text(self@),
    {
        match self {
            Cell::Int(v) => i128_text(*v),
            Cell::Bool(b) => if *b {
                "true".to_owned()
            } else {
                "false".to_owned()
            },
            Cell::Deci(d) => format_decimal(*d),
            Cell::Rat(q) => format_rational(*q),
            Cell::Str(s) => s.clone(),
        }
    }

    /// Another cell that holds the same.
    pub fn copied(&self) -> (r: Cell)
        ensures
            r@ == self@,
    {
        match self {
            Cell::Int(v) => Cell::Int(*v),
            Cell::Bool(b) => Cell::Bool(*b),
            Cell::Deci(d) => Cell::Deci(*d),
            Cell::Rat(q) => Cell::Rat(*q),
            Cell::Str(s) => Cell::Str(s.clone()),
        }
    }
}

/// Values in row-major order, with the shape they are read through.
#[derive(Debug)]
pub struct Array {
    pub items: Vec<Cell>,
    pub shape: Vec<u64>,
    pub kind: u32,
}

pub struct ArrayView {
    pub items: Seq<CellView>,
    pub shape: Seq<u64>,
    pub kind: u32,
}

impl View for Array {
    type V = ArrayView;

    open spec fn view(&self) -> ArrayView {
        ArrayView { items: cells_of(self.items@), shape: self.shape@, kind: self.kind }
    }
}

/// What a computation came to, what it hands back taken by its view.
pub open spec fn cell_result(r: Result<Cell, Halt>) -> Result<CellView, HaltView> {
    match r {
        Ok(c) => Ok(c@),
        Err(h) => Err(h@),
    }
}

pub open spec fn array_result(r: Result<Array, Halt>) -> Result<ArrayView, HaltView> {
    match r {
        Ok(a) => Ok(a@),
        Err(h) => Err(h@),
    }
}

pub open spec fn array_outcome(r: Result<Array, Failure>) -> Result<ArrayView, FailureView> {
    match r {
        Ok(a) => Ok(a@),
        Err(f) => Err(f@),
    }
}

pub open spec fn halt<T>(code: Seq<char>, message: Seq<char>) -> Result<T, HaltView> {
    Err(HaltView::Fail(failure(code, message)))
}

pub(crate) proof fn lemma_cells_push(items: Seq<Cell>, c: Cell)
    ensures
        cells_of(items.push(c)) == cells_of(items).push(c@),
{
    assert(cells_of(items.push(c)) =~= cells_of(items).push(c@));
}

// ── construction and element access ─────────────────────────────────────────

pub open spec fn vector_of(items: Seq<CellView>, kind: u32) -> ArrayView {
    ArrayView { items, shape: seq![items.len() as u64], kind }
}

impl Array {
    pub fn vector(items: Vec<Cell>, kind: u32) -> (r: Array)
        ensures
            r@ == vector_of(cells_of(items@), kind),
    {
        let mut shape: Vec<u64> = Vec::new();
        shape.push(items.len() as u64);
        assert(shape@ =~= seq![items@.len() as u64]);
        Array { items, shape, kind }
    }
}

/// The zero of a kind of element.
pub open spec fn zero_of(kind: u32) -> CellView {
    if kind == KIND_BOOL {
        CellView::Bool(false)
    } else if kind == KIND_DECI {
        CellView::Deci(AhpclDecimal { mantissa: 0, scale: 0, failed: 0 })
    } else if kind == KIND_RAT {
        CellView::Rat(AhpclRational { num: 0, den: 1, failed: 0 })
    } else if kind == KIND_STR {
        CellView::Str(Seq::empty())
    } else {
        CellView::Int(0)
    }
}

pub fn zero(kind: u32) -> (r: Cell)
    ensures
        r@ == zero_of(kind),
{
    if kind == KIND_BOOL {
        Cell::Bool(false)
    } else if kind == KIND_DECI {
        Cell::Deci(AhpclDecimal { mantissa: 0, scale: 0, failed: 0 })
    } else if kind == KIND_RAT {
        Cell::Rat(AhpclRational { num: 0, den: 1, failed: 0 })
    } else if kind == KIND_STR {
        Cell::Str(String::new())
    } else {
        Cell::Int(0)
    }
}

/// The product of the dimensions from `d` on.
pub open spec fn extent_from(shape: Seq<u64>, d: int) -> nat
    decreases shape.len() - d,
{
    if d < 0 || d >= shape.len() {
        1
    } else {
        shape[d] as nat * extent_from(shape, d + 1)
    }
}

fn extent(shape: &Vec<u64>, d: usize) -> (r: Option<usize>)
    requires
        d <= shape.len(),
    ensures
        match r {
            Some(p) => p == extent_from(shape@, d as int),
            None => extent_from(shape@, d as int) > usize::MAX,
        },
    decreases shape.len() - d,
{
    if d == shape.len() {
        Some(1)
    } else {
        let rest: Option<usize> = extent(shape, d + 1);
        let n: u64 = shape[d];
        let ghost p = extent_from(shape@, d + 1);
        if n == 0 {
            assert(0 * p == 0);
            Some(0)
        } else {
            match rest {
                Some(q) => {
                    if q == 0 {
                        assert(n * 0 == 0);
                        Some(0)
                    } else if n > usize::MAX as u64 {
                        assert(n * p >= n) by (nonlinear_arith)
                            requires
                                n >= 1,
                                p >= 1,
                        ;
                        None
                    } else {
                        (n as usize).checked_mul(q)
                    }
                },
                None => {
                    assert(n * p >= p) by (nonlinear_arith)
                        requires
                            n >= 1,
                            p >= 0,
                    ;
                    None
                },
            }
        }
    }
}

/// An array of zeros. A shape without dimensions holds nothing.
pub fn ahpcl_array_new(kind: u32, dims: Vec<u64>) -> (r: Array)
    requires
        extent_from(dims@, 0) <= usize::MAX,
    ensures
        r.kind == kind,
        dims@.len() == 0 ==> r.shape@ == seq![0u64] && r.items@.len() == 0,
        dims@.len() > 0 ==> r.shape@ == dims@ && r.items@.len() == extent_from(dims@, 0),
        forall|i: int| 0 <= i < r.items@.len() ==> (#[trigger] r.items@[i])@ == zero_of(kind),
{
    let mut items: Vec<Cell> = Vec::new();
    if dims.len() == 0 {
        let mut shape: Vec<u64> = Vec::new();
        shape.push(0);
        assert(shape@ =~= seq![0u64]);
        return Array { items, shape, kind };
    }
    let total: usize = match extent(&dims, 0) {
        Some(n) => n,
        None => 0,
    };
    while items.len() < total
        invariant
            items.len() <= total,
            forall|i: int| 0 <= i < items@.len() ==> (#[trigger] items@[i])@ == zero_of(kind),
        decreases total - items.len(),
    {
        items.push(zero(kind));
    }
    Array { items, shape: dims, kind }
}

/// An array with no elements yet, for a loop that collects its handbacks.
pub fn ahpcl_array_empty(kind: u32) -> (r: Array)
    ensures
        r@ == vector_of(Seq::empty(), kind),
{
    let r: Array = Array::vector(Vec::new(), kind);
    assert(r@.items =~= Seq::empty());
    r
}

/// One more element; the shape is kept in step.
pub fn push(a: &mut Array, c: Cell)
    ensures
        final(a)@ == vector_of(old(a)@.items.push(c@), old(a)@.kind),
{
    proof {
        lemma_cells_push(a.items@, c);
    }
    a.items.push(c);
    let mut shape: Vec<u64> = Vec::new();
    shape.push(a.items.len() as u64);
    assert(shape@ =~= seq![a.items@.len() as u64]);
    a.shape = shape;
}

pub fn ahpcl_array_len(a: &Array) -> (r: i128)
    ensures
        r == a@.items.len(),
{
    a.items.len() as i128
}

/// The shape, itself as an array, so `:shape;` has something to hand back.
pub fn ahpcl_array_shape(a: &Array) -> (r: Array)
    ensures
        r@ == vector_of(Seq::new(a@.shape.len(), |i: int| CellView::Int(a@.shape[i] as i128)), KIND_INT),
{
    let mut items: Vec<Cell> = Vec::new();
    let mut i: usize = 0;
    while i < a.shape.len()
        invariant
            i <= a.shape.len(),
            items@.len() == i,
            forall|j: int| 0 <= j < i ==> (#[trigger] items@[j])@ == CellView::Int(a.shape@[j] as i128),
        decreases a.shape.len() - i,
    {
        items.push(Cell::Int(a.shape[i] as i128));
        i = i + 1;
    }
    assert(cells_of(items@) =~= Seq::new(a@.shape.len(), |i: int| CellView::Int(a@.shape[i] as i128)));
    Array::vector(items, KIND_INT)
}

/// Whether a selection collapsed to a single value rather than an array.
pub fn ahpcl_array_is_scalar(a: &Array) -> (r: bool)
    ensures
        r == (a@.shape.len() == 0),
{
    a.shape.len() == 0
}

pub open spec fn out_of_range(index: int, len: nat) -> FailureView {
    failure(
        "AHPCL-RUN-0003"@,
        "index "@ + int_text(index) + " is out of range for an array of length "@ + nat_text(len),
    )
}

/// The zero-based position of a 1-based index into the flat elements.
pub fn bounds(a: &Array, index: i128) -> (r: Result<usize, Failure>)
    ensures
        r matches Err(f) ==> f@ == out_of_range(index as int, a@.items.len()),
        r matches Ok(i) ==> i == index - 1 && i < a@.items.len(),
        r is Ok <==> 1 <= index <= a@.items.len(),
{
    let len: usize = a.items.len();
    if index < 1 || index > len as i128 {
        return Err(
            fail_with(
                "AHPCL-RUN-0003",
                crate::text::cat4(
                    "index ",
                    i128_text(index).as_str(),
                    " is out of range for an array of length ",
                    usize_text(len).as_str(),
                ).as_str(),
            ),
        );
    }
    Ok((index - 1) as usize)
}

/// Store a cell at a 1-based index.
pub fn ahpcl_array_set_num(a: &mut Array, index: i128, c: Cell) -> (r: Result<(), Failure>)
    ensures
        1 <= index <= old(a)@.items.len() ==> r is Ok && final(a)@ == (ArrayView {
            items: old(a)@.items.update(index - 1, c@),
            ..old(a)@
        }),
        !(1 <= index <= old(a)@.items.len()) ==> outcome(r) == Err::<(), FailureView>(
            out_of_range(index as int, old(a)@.items.len()),
        ) && final(a)@ == old(a)@,
{
    match bounds(a, index) {
        Ok(i) => {
            let ghost before = a@;
            a.items.set(i, c);
            assert(a@.items =~= before.items.update(index - 1, c@));
            Ok(())
        },
        Err(f) => Err(f),
    }
}

/// Read the cell at a 1-based index.
pub fn ahpcl_array_get_num(a: &Array, index: i128) -> (r: Result<Cell, Failure>)
    ensures
        match r {
            Ok(c) => 1 <= index <= a@.items.len() && c@ == a@.items[index - 1],
            Err(f) => !(1 <= index <= a@.items.len()) && f@ == out_of_range(index as int, a@.items.len()),
        },
{
    match bounds(a, index) {
        Ok(i) => Ok(a.items[i].copied()),
        Err(f) => Err(f),
    }
}

/// The cells of a list as they are printed.
pub open spec fn cell_texts(items: Seq<CellView>) -> Seq<Seq<char>> {
    Seq::new(items.len(), |i: int| cell_text(items[i]))
}

/// An array as it is printed.
pub fn format_array(a: &Array) -> (r: String)
    ensures
        r@ == "{"@ + comma_separated(cell_texts(a@.items)) + "}"@,
{
    let mut out: String = "{".to_owned();
    let mut i: usize = 0;
    let ghost texts = cell_texts(a@.items);
    assert(texts.take(0) =~= Seq::empty());
    assert("{"@ + Seq::<char>::empty() =~= "{"@);
    while i < a.items.len()
        invariant
            i <= a.items.len(),
            texts == cell_texts(a@.items),
            out@ =~= "{"@ + comma_separated(texts.take(i as int)),
        decreases a.items.len() - i,
    {
        if i > 0 {
            out.append(", ");
        }
        let t: String = a.items[i].render();
        out.append(t.as_str());
        proof {
            let next = texts.take(i as int + 1);
            assert(next.drop_last() =~= texts.take(i as int));
            assert(next.last() == t@);
        }
        i = i + 1;
    }
    out.append("}");
    assert(texts.take(texts.len() as int) =~= texts);
    out
}

// ── selection ───────────────────────────────────────────────────────────────

/// The cells at 1-based indices into the flat elements, from the `k`-th index on, behind
/// those in `acc`; the first index out of range stops it.
pub open spec fn chosen_from(items: Seq<CellView>, indices: Seq<i128>, k: nat, acc: Seq<CellView>) -> Result<
    Seq<CellView>,
    FailureView,
>
    decreases indices.len() - k,
{
    if k >= indices.len() {
        Ok(acc)
    } else if 1 <= indices[k as int] <= items.len() {
        chosen_from(items, indices, k + 1, acc.push(items[indices[k as int] - 1]))
    } else {
        Err(out_of_range(indices[k as int] as int, items.len()))
    }
}

/// The cells at the indices of a range, from `i` on, behind those in `acc`.
pub open spec fn run_from(items: Seq<CellView>, i: int, to: int, step: int, acc: Seq<CellView>) -> Result<
    Seq<CellView>,
    FailureView,
>
    decreases range_left(i, to, step),
{
    if !in_range(i, to, step) {
        Ok(acc)
    } else if 1 <= i <= items.len() {
        run_from(items, i + step, to, step, acc.push(items[i - 1]))
    } else {
        Err(out_of_range(i, items.len()))
    }
}

pub open spec fn vector_outcome(r: Result<Seq<CellView>, FailureView>, kind: u32) -> Result<ArrayView, FailureView> {
    match r {
        Ok(items) => Ok(vector_of(items, kind)),
        Err(f) => Err(f),
    }
}

/// Pick out elements by 1-based index, handing back an array of the same element type.
pub fn ahpcl_array_select(a: &Array, indices: &Vec<i128>) -> (r: Result<Array, Failure>)
    ensures
        array_outcome(r) == vector_outcome(chosen_from(a@.items, indices@, 0, Seq::empty()), a@.kind),
{
    let mut items: Vec<Cell> = Vec::new();
    let mut k: usize = 0;
    assert(cells_of(items@) =~= Seq::empty());
    while k < indices.len()
        invariant
            k <= indices@.len(),
            chosen_from(a@.items, indices@, 0, Seq::empty()) == chosen_from(
                a@.items,
                indices@,
                k as nat,
                cells_of(items@),
            ),
        decreases indices@.len() - k,
    {
        match bounds(a, indices[k]) {
            Ok(i) => {
                let c: Cell = a.items[i].copied();
                proof {
                    lemma_cells_push(items@, c);
                }
                items.push(c);
            },
            Err(f) => {
                return Err(f);
            },
        }
        k = k + 1;
    }
    Ok(Array::vector(items, a.kind))
}

/// `from to to by step`, all 1-based and inclusive.
pub fn ahpcl_array_range(a: &Array, from: i128, to: i128, step: i128) -> (r: Result<Array, Failure>)
    ensures
        step == 0 ==> array_outcome(r) == Err::<ArrayView, FailureView>(
            failure("AHPCL-RUN-0001"@, "a selector step of 0 would never advance"@),
        ),
        step != 0 ==> array_outcome(r) == vector_outcome(
            run_from(a@.items, from as int, to as int, step as int, Seq::empty()),
            a@.kind,
        ),
{
    if step == 0 {
        return Err(fail_with("AHPCL-RUN-0001", "a selector step of 0 would never advance"));
    }
    let mut items: Vec<Cell> = Vec::new();
    let mut i: i128 = from;
    assert(cells_of(items@) =~= Seq::empty());
    while (step > 0 && i <= to) || (step < 0 && i >= to)
        invariant
            step != 0,
            run_from(a@.items, from as int, to as int, step as int, Seq::empty()) == run_from(
                a@.items,
                i as int,
                to as int,
                step as int,
                cells_of(items@),
            ),
        decreases range_left(i as int, to as int, step as int),
    {
        match bounds(a, i) {
            Ok(at) => {
                let c: Cell = a.items[at].copied();
                proof {
                    lemma_cells_push(items@, c);
                }
                items.push(c);
            },
            Err(f) => {
                return Err(f);
            },
        }
        match i.checked_add(step) {
            Some(next) => {
                i = next;
            },
            None => {
                assert(run_from(a@.items, i + step, to as int, step as int, cells_of(items@)) == Ok::<
                    Seq<CellView>,
                    FailureView,
                >(cells_of(items@)));
                return Ok(Array::vector(items, a.kind));
            },
        }
    }
    Ok(Array::vector(items, a.kind))
}

/// How one dimension is selected from: `:all;`, a list of indices, or a range.
#[derive(Debug)]
pub enum Pick {
    All,
    Indices(Vec<i128>),
    Range { from: i128, to: i128, by: i128 },
}

/// A selector as contracts speak of it.
pub enum PickView {
    All,
    Indices(Seq<i128>),
    Range { from: i128, to: i128, by: i128 },
}

impl View for Pick {
    type V = PickView;

    open spec fn view(&self) -> PickView {
        match self {
            Pick::All => PickView::All,
            Pick::Indices(list) => PickView::Indices(list@),
            Pick::Range { from, to, by } => PickView::Range { from: *from, to: *to, by: *by },
        }
    }
}

pub open spec fn sels_view(sels: Seq<Pick>) -> Seq<PickView> {
    Seq::new(sels.len(), |i: int| sels[i]@)
}

pub open spec fn beyond_dimension(i: int, dim: int, extent: u64) -> FailureView {
    failure(
        "AHPCL-RUN-0003"@,
        "index "@ + int_text(i) + " is out of range for dimension "@ + int_text(dim + 1) + " of length "@ + nat_text(
            extent as nat,
        ),
    )
}

fn beyond_failure(i: i128, dim: usize, extent: u64) -> (r: Failure)
    ensures
        r@ == beyond_dimension(i as int, dim as int, extent),
{
    let text: String = crate::text::cat5(
        "index ",
        i128_text(i).as_str(),
        " is out of range for dimension ",
        u128_text(dim as u128 + 1).as_str(),
        " of length ",
    );
    fail_with("AHPCL-RUN-0003", text.concat(u128_text(extent as u128).as_str()).as_str())
}

/// The positions of a list of 1-based indices, from the `k`-th on, behind those in `acc`.
pub open spec fn listed_from(acc: Seq<u64>, list: Seq<i128>, k: int, dim: int, extent: u64) -> Result<
    Seq<u64>,
    FailureView,
>
    decreases list.len() - k,
{
    if k < 0 || k >= list.len() {
        Ok(acc)
    } else if list[k] < 1 || list[k] > extent {
        Err(beyond_dimension(list[k] as int, dim, extent))
    } else {
        listed_from(acc.push((list[k] - 1) as u64), list, k + 1, dim, extent)
    }
}

/// The positions of a range of 1-based indices from `i` on, behind those in `acc`.
pub open spec fn ranged_from(acc: Seq<u64>, i: int, to: int, by: int, dim: int, extent: u64) -> Result<
    Seq<u64>,
    FailureView,
>
    decreases range_left(i, to, by),
{
    if !in_range(i, to, by) {
        Ok(acc)
    } else if i < 1 || i > extent {
        Err(beyond_dimension(i, dim, extent))
    } else {
        ranged_from(acc.push((i - 1) as u64), i + by, to, by, dim, extent)
    }
}

pub open spec fn every(extent: u64) -> Seq<u64> {
    Seq::new(extent as nat, |i: int| i as u64)
}

/// The 0-based positions a selector picks along a dimension, and whether the dimension
/// collapses: a single index gives a plain value, not a 1-long slice.
pub open spec fn picked(p: PickView, dim: int, extent: u64) -> Result<(Seq<u64>, bool), FailureView> {
    match p {
        PickView::All => Ok((every(extent), false)),
        PickView::Indices(list) => match listed_from(Seq::empty(), list, 0, dim, extent) {
            Ok(ps) => Ok((ps, list.len() == 1)),
            Err(f) => Err(f),
        },
        PickView::Range { from, to, by } => if by == 0 {
            Err(failure("AHPCL-RUN-0001"@, "a selector step of 0 would never advance"@))
        } else {
            match ranged_from(Seq::empty(), from as int, to as int, by as int, dim, extent) {
                Ok(ps) => Ok((ps, false)),
                Err(f) => Err(f),
            }
        },
    }
}

pub open spec fn picked_view(r: Result<(Vec<u64>, bool), Failure>) -> Result<(Seq<u64>, bool), FailureView> {
    match r {
        Ok((v, b)) => Ok((v@, b)),
        Err(f) => Err(f@),
    }
}

fn every_position(extent: u64) -> (r: Vec<u64>)
    ensures
        r@ == every(extent),
{
    let mut out: Vec<u64> = Vec::new();
    let mut i: u64 = 0;
    while i < extent
        invariant
            i <= extent,
            out@ =~= every(i),
        decreases extent - i,
    {
        out.push(i);
        i = i + 1;
    }
    assert(out@ =~= every(extent));
    out
}

fn listed(list: &Vec<i128>, dim: usize, extent: u64) -> (r: Result<Vec<u64>, Failure>)
    ensures
        match r {
            Ok(v) => listed_from(Seq::empty(), list@, 0, dim as int, extent) == Ok::<Seq<u64>, FailureView>(v@),
            Err(f) => listed_from(Seq::empty(), list@, 0, dim as int, extent) == Err::<Seq<u64>, FailureView>(f@),
        },
{
    let mut out: Vec<u64> = Vec::new();
    let mut k: usize = 0;
    assert(out@ =~= Seq::empty());
    while k < list.len()
        invariant
            k <= list.len(),
            listed_from(Seq::empty(), list@, 0, dim as int, extent) == listed_from(
                out@,
                list@,
                k as int,
                dim as int,
                extent,
            ),
        decreases list.len() - k,
    {
        let i: i128 = list[k];
        if i < 1 || i > extent as i128 {
            return Err(beyond_failure(i, dim, extent));
        }
        out.push((i - 1) as u64);
        k = k + 1;
    }
    Ok(out)
}

fn ranged(from: i128, to: i128, by: i128, dim: usize, extent: u64) -> (r: Result<Vec<u64>, Failure>)
    requires
        by != 0,
    ensures
        match r {
            Ok(v) => ranged_from(Seq::empty(), from as int, to as int, by as int, dim as int, extent) == Ok::<
                Seq<u64>,
                FailureView,
            >(v@),
            Err(f) => ranged_from(Seq::empty(), from as int, to as int, by as int, dim as int, extent) == Err::<
                Seq<u64>,
                FailureView,
            >(f@),
        },
{
    let mut out: Vec<u64> = Vec::new();
    let mut i: i128 = from;
    assert(out@ =~= Seq::empty());
    while (by > 0 && i <= to) || (by < 0 && i >= to)
        invariant
            by != 0,
            ranged_from(Seq::empty(), from as int, to as int, by as int, dim as int, extent) == ranged_from(
                out@,
                i as int,
                to as int,
                by as int,
                dim as int,
                extent,
            ),
        decreases range_left(i as int, to as int, by as int),
    {
        if i < 1 || i > extent as i128 {
            return Err(beyond_failure(i, dim, extent));
        }
        out.push((i - 1) as u64);
        match i.checked_add(by) {
            Some(next) => {
                i = next;
            },
            None => {
                proof {
                    assert(ranged_from(out@, i + by, to as int, by as int, dim as int, extent) == Ok::<
                        Seq<u64>,
                        FailureView,
                    >(out@));
                }
                return Ok(out);
            },
        }
    }
    Ok(out)
}

/// The 0-based positions a selector picks along a dimension.
pub fn positions(p: &Pick, dim: usize, extent: u64) -> (r: Result<(Vec<u64>, bool), Failure>)
    ensures
        picked_view(r) == picked(p@, dim as int, extent),
{
    match p {
        Pick::All => Ok((every_position(extent), false)),
        Pick::Indices(list) => match listed(list, dim, extent) {
            Ok(v) => {
                let one: bool = list.len() == 1;
                Ok((v, one))
            },
            Err(f) => Err(f),
        },
        Pick::Range { from, to, by } => {
            if *by == 0 {
                return Err(fail_with("AHPCL-RUN-0001", "a selector step of 0 would never advance"));
            }
            match ranged(*from, *to, *by, dim, extent) {
                Ok(v) => Ok((v, false)),
                Err(f) => Err(f),
            }
        },
    }
}

/// How far apart neighbours along dimension `d` lie.
pub open spec fn stride(shape: Seq<u64>, d: int) -> nat {
    let p = extent_from(shape, d + 1);
    if p == 0 {
        1
    } else {
        p
    }
}

fn stride_at(shape: &Vec<u64>, d: usize) -> (r: Option<usize>)
    requires
        d < shape.len(),
    ensures
        match r {
            Some(p) => p == stride(shape@, d as int),
            None => stride(shape@, d as int) > usize::MAX,
        },
{
    match extent(shape, d + 1) {
        Some(p) => Some(
            if p == 0 {
                1
            } else {
                p
            },
        ),
        None => None,
    }
}

/// The cells at every combination of the chosen positions, the last dimension running
/// fastest; nothing where one of them lies outside the array.
pub open spec fn gathered(items: Seq<CellView>, shape: Seq<u64>, picks: Seq<Seq<u64>>, d: int, base: int) -> Option<
    Seq<CellView>,
>
    decreases picks.len() - d, 1int, 0int,
{
    if d < 0 || d >= picks.len() {
        if 0 <= base < items.len() {
            Some(seq![items[base]])
        } else {
            None
        }
    } else {
        gathered_from(items, shape, picks, d, base, 0)
    }
}

pub open spec fn gathered_from(
    items: Seq<CellView>,
    shape: Seq<u64>,
    picks: Seq<Seq<u64>>,
    d: int,
    base: int,
    k: int,
) -> Option<Seq<CellView>>
    decreases picks.len() - d, 0int, picks[d].len() - k,
{
    if d < 0 || d >= picks.len() || k < 0 || k >= picks[d].len() {
        Some(Seq::empty())
    } else {
        match (
            gathered(items, shape, picks, d + 1, base + picks[d][k] * stride(shape, d)),
            gathered_from(items, shape, picks, d, base, k + 1),
        ) {
            (Some(a), Some(b)) => Some(a + b),
            _ => None,
        }
    }
}

pub open spec fn picks_view(picks: Seq<Vec<u64>>) -> Seq<Seq<u64>> {
    Seq::new(picks.len(), |i: int| picks[i]@)
}

/// A position as far as it can be an offset into memory.
fn offset_part(p: u64) -> (r: Option<usize>)
    ensures
        reached(r, p as int),
{
    if p <= usize::MAX as u64 {
        Some(p as usize)
    } else {
        None
    }
}

fn advanced(base: Option<usize>, p: u64, step: Option<usize>, Ghost(b): Ghost<int>, Ghost(s): Ghost<int>) -> (r: Option<
    usize,
>)
    requires
        b >= 0,
        s >= 1,
        reached(base, b),
        reached(step, s),
    ensures
        reached(r, b + p * s),
{
    match offset_part(p) {
        Some(q) => {
            let r: Option<usize> = moved(base, q, step);
            assert(reached(r, b + q * s));
            r
        },
        None => {
            assert(p * s >= p) by (nonlinear_arith)
                requires
                    p >= 0,
                    s >= 1,
            ;
            None
        },
    }
}

fn gather(a: &Array, picks: &Vec<Vec<u64>>, d: usize, base: Option<usize>, Ghost(b): Ghost<int>, out: &mut Vec<Cell>) -> (r: bool)
    requires
        d <= picks.len(),
        picks.len() <= a.shape.len(),
        reached(base, b),
        b >= 0,
    ensures
        match gathered(a@.items, a@.shape, picks_view(picks@), d as int, b) {
            Some(s) => r && cells_of(final(out)@) == cells_of(old(out)@) + s,
            None => !r,
        },
    decreases picks.len() - d,
{
    let ghost items = a@.items;
    let ghost pv = picks_view(picks@);
    if d == picks.len() {
        return match base {
            Some(o) => if o < a.items.len() {
                let c: Cell = a.items[o].copied();
                proof {
                    lemma_cells_push(out@, c);
                    assert(cells_of(out@) + seq![c@] =~= cells_of(out@).push(c@));
                }
                out.push(c);
                true
            } else {
                false
            },
            None => {
                assert(a.items@.len() == a.items.len());
                false
            },
        };
    }
    let ghost start = cells_of(out@);
    let ghost whole = gathered_from(items, a@.shape, pv, d as int, b, 0);
    let step: Option<usize> = stride_at(&a.shape, d);
    let mut k: usize = 0;
    let ghost mut done: Seq<CellView> = Seq::empty();
    assert(start + done =~= start);
    proof {
        if let Some(s) = whole {
            assert(done + s =~= s);
        }
    }
    while k < picks[d].len()
        invariant
            d < picks.len(),
            picks.len() <= a.shape.len(),
            k <= picks@[d as int].len(),
            items == a@.items,
            pv == picks_view(picks@),
            reached(base, b),
            b >= 0,
            reached(step, stride(a@.shape, d as int) as int),
            cells_of(out@) == start + done,
            whole == gathered(items, a@.shape, pv, d as int, b),
            whole == (match gathered_from(items, a@.shape, pv, d as int, b, k as int) {
                Some(s) => Some(done + s),
                None => None,
            }),
        decreases picks@[d as int].len() - k,
    {
        let p: u64 = picks[d][k];
        let ghost s = stride(a@.shape, d as int) as int;
        let ghost o = b + p * s;
        assert(pv[d as int][k as int] == p);
        let at: Option<usize> = advanced(base, p, step, Ghost(b), Ghost(s));
        proof {
            assert(p * s >= 0) by (nonlinear_arith)
                requires
                    p >= 0,
                    s >= 1,
            ;
        }
        let ok: bool = gather(a, picks, d + 1, at, Ghost(o), out);
        if !ok {
            return false;
        }
        proof {
            let part = gathered(items, a@.shape, pv, d as int + 1, o)->0;
            assert(start + done + part =~= start + (done + part));
            let rest = gathered_from(items, a@.shape, pv, d as int, b, k as int + 1);
            if let Some(t) = rest {
                assert(done + (part + t) =~= done + part + t);
            }
            done = done + part;
        }
        k = k + 1;
    }
    proof {
        assert(done + Seq::<CellView>::empty() =~= done);
    }
    true
}

/// The dimensions that selecting leaves.
pub open spec fn kept_shape(picks: Seq<Seq<u64>>, single: Seq<bool>, n: nat) -> Seq<u64>
    decreases n,
{
    if n == 0 {
        Seq::empty()
    } else if single[n - 1] {
        kept_shape(picks, single, (n - 1) as nat)
    } else {
        kept_shape(picks, single, (n - 1) as nat).push(picks[n - 1].len() as u64)
    }
}

/// What a selection of positions along every dimension gives.
pub open spec fn selected(a: ArrayView, picks: Seq<Seq<u64>>, single: Seq<bool>) -> Result<ArrayView, FailureView> {
    match gathered(a.items, a.shape, picks, 0, 0) {
        Some(items) => Ok(ArrayView { items, shape: kept_shape(picks, single, picks.len()), kind: a.kind }),
        None => Err(unfilled()),
    }
}

/// An array with fewer elements than its shape asks for.
pub open spec fn unfilled() -> FailureView {
    failure("AHPCL-RUN-0003"@, "this array's elements do not fill its shape"@)
}

/// The positions that the first `n` selectors pick, each in its own dimension; the
/// dimensions behind them whole.
pub open spec fn picks_upto(a: ArrayView, sels: Seq<PickView>, n: nat) -> Result<(Seq<Seq<u64>>, Seq<bool>), FailureView>
    decreases n,
{
    if n == 0 {
        Ok((Seq::empty(), Seq::empty()))
    } else {
        match picks_upto(a, sels, (n - 1) as nat) {
            Err(f) => Err(f),
            Ok((picks, single)) => {
                let d = n - 1;
                let p = if d < sels.len() {
                    picked(sels[d], d, a.shape[d])
                } else {
                    Ok((every(a.shape[d]), false))
                };
                match p {
                    Ok((ps, one)) => Ok((picks.push(ps), single.push(one))),
                    Err(f) => Err(f),
                }
            },
        }
    }
}

pub open spec fn too_many(n: nat, dims: nat) -> FailureView {
    failure(
        "AHPCL-RUN-0003"@,
        nat_text(n) + " selectors were given, but this array has "@ + nat_text(dims) + " dimension"@ + (if dims == 1 {
            ""@
        } else {
            "s"@
        }),
    )
}

fn too_many_failure(n: usize, dims: usize) -> (r: Failure)
    ensures
        r@ == too_many(n as nat, dims as nat),
{
    fail_with(
        "AHPCL-RUN-0003",
        cat5(
            usize_text(n).as_str(),
            " selectors were given, but this array has ",
            usize_text(dims).as_str(),
            " dimension",
            if dims == 1 {
                ""
            } else {
                "s"
            },
        ).as_str(),
    )
}

/// What a run of selectors gives, one for each dimension in order.
pub open spec fn run_selected(a: ArrayView, sels: Seq<PickView>) -> Result<ArrayView, FailureView> {
    if sels.len() == 0 {
        Ok(a)
    } else if sels.len() > a.shape.len() {
        Err(too_many(sels.len(), a.shape.len()))
    } else {
        match picks_upto(a, sels, a.shape.len()) {
            Ok((picks, single)) => selected(a, picks, single),
            Err(f) => Err(f),
        }
    }
}

proof fn lemma_picks_fail(a: ArrayView, sels: Seq<PickView>, k: nat, n: nat)
    requires
        k <= n,
        picks_upto(a, sels, k) is Err,
    ensures
        picks_upto(a, sels, n) == picks_upto(a, sels, k),
    decreases n,
{
    if k < n {
        lemma_picks_fail(a, sels, k, (n - 1) as nat);
    }
}

/// Another array that is the same.
pub fn copied_array(a: &Array) -> (r: Array)
    ensures
        r@ == a@,
{
    let mut items: Vec<Cell> = Vec::new();
    let mut i: usize = 0;
    while i < a.items.len()
        invariant
            i <= a.items.len(),
            items@.len() == i,
            forall|j: int| 0 <= j < i ==> (#[trigger] items@[j])@ == a.items@[j]@,
        decreases a.items.len() - i,
    {
        items.push(a.items[i].copied());
        i = i + 1;
    }
    assert(cells_of(items@) =~= cells_of(a.items@));
    Array { items, shape: copied_shape(&a.shape), kind: a.kind }
}

fn copied_shape(x: &Vec<u64>) -> (r: Vec<u64>)
    ensures
        r@ == x@,
{
    let mut out: Vec<u64> = Vec::new();
    let mut i: usize = 0;
    while i < x.len()
        invariant
            i <= x.len(),
            out@ == x@.take(i as int),
        decreases x.len() - i,
    {
        out.push(x[i]);
        i = i + 1;
        assert(out@ =~= x@.take(i as int));
    }
    assert(x@.take(x@.len() as int) =~= x@);
    out
}

fn kept_dims(picks: &Vec<Vec<u64>>, single: &Vec<bool>) -> (r: Vec<u64>)
    requires
        picks@.len() == single@.len(),
    ensures
        r@ == kept_shape(picks_view(picks@), single@, picks@.len()),
{
    let mut shape: Vec<u64> = Vec::new();
    let mut d: usize = 0;
    while d < picks.len()
        invariant
            d <= picks.len(),
            picks@.len() == single@.len(),
            shape@ == kept_shape(picks_view(picks@), single@, d as nat),
        decreases picks.len() - d,
    {
        if !single[d] {
            shape.push(picks[d].len() as u64);
        }
        d = d + 1;
    }
    shape
}

/// Apply a run of selectors, one per dimension.
///
/// When every selected dimension collapses the result is a single value; it is handed
/// back as an array with an empty shape.
pub fn ahpcl_array_select_run(a: &Array, sels: &Vec<Pick>) -> (r: Result<Array, Failure>)
    ensures
        array_outcome(r) == run_selected(a@, sels_view(sels@)),
{
    let n: usize = sels.len();
    if n == 0 {
        return Ok(copied_array(a));
    }
    if n > a.shape.len() {
        return Err(too_many_failure(n, a.shape.len()));
    }
    let mut picks: Vec<Vec<u64>> = Vec::new();
    let mut single: Vec<bool> = Vec::new();
    assert(picks_view(picks@) =~= Seq::empty());
    let mut d: usize = 0;
    while d < a.shape.len()
        invariant
            d <= a.shape.len(),
            n == sels@.len(),
            picks@.len() == d,
            single@.len() == d,
            picks_upto(a@, sels_view(sels@), d as nat) == Ok::<(Seq<Seq<u64>>, Seq<bool>), FailureView>(
                (picks_view(picks@), single@),
            ),
            run_selected(a@, sels_view(sels@)) == (match picks_upto(a@, sels_view(sels@), a@.shape.len()) {
                Ok((picks, single)) => selected(a@, picks, single),
                Err(f) => Err(f),
            }),
        decreases a.shape.len() - d,
    {
        let (chosen, one) = if d < n {
            match positions(&sels[d], d, a.shape[d]) {
                Ok(p) => p,
                Err(f) => {
                    proof {
                        lemma_picks_fail(a@, sels_view(sels@), (d + 1) as nat, a@.shape.len());
                    }
                    return Err(f);
                },
            }
        } else {
            (every_position(a.shape[d]), false)
        };
        let ghost before = picks_view(picks@);
        picks.push(chosen);
        single.push(one);
        assert(picks_view(picks@) =~= before.push(chosen@));
        d = d + 1;
    }
    let mut items: Vec<Cell> = Vec::new();
    assert(cells_of(items@) =~= Seq::empty());
    if !gather(a, &picks, 0, Some(0), Ghost(0), &mut items) {
        return Err(fail_with("AHPCL-RUN-0003", "this array's elements do not fill its shape"));
    }
    proof {
        let vs = gathered(a@.items, a@.shape, picks_view(picks@), 0, 0)->0;
        assert(Seq::<CellView>::empty() + vs =~= vs);
    }
    let shape: Vec<u64> = kept_dims(&picks, &single);
    Ok(Array { items, shape, kind: a.kind })
}

/// The row-major offset of the first `n` of 1-based indices.
pub open spec fn offset_of(shape: Seq<u64>, indices: Seq<i128>, n: nat) -> Result<int, FailureView>
    decreases n,
{
    if n == 0 {
        Ok(0)
    } else {
        match offset_of(shape, indices, (n - 1) as nat) {
            Err(f) => Err(f),
            Ok(o) => {
                let i = indices[n - 1];
                if i < 1 || i > shape[n - 1] {
                    Err(beyond_dimension(i as int, n - 1, shape[n - 1]))
                } else {
                    Ok(o + (i - 1) * stride(shape, n - 1))
                }
            },
        }
    }
}

proof fn lemma_offset_fails(shape: Seq<u64>, indices: Seq<i128>, k: nat, n: nat)
    requires
        k <= n,
        offset_of(shape, indices, k) is Err,
    ensures
        offset_of(shape, indices, n) == offset_of(shape, indices, k),
    decreases n,
{
    if k < n {
        lemma_offset_fails(shape, indices, k, (n - 1) as nat);
    }
}

/// The 1-based flat position addressed by a run of single indices, one per dimension.
///
/// Writing to `('m'):2;:1;` needs the same row-major arithmetic reading uses; without it
/// the second selector would index the flat buffer and hit the wrong cell.
pub fn ahpcl_array_offset(a: &Array, indices: &Vec<i128>) -> (r: Result<i128, Failure>)
    ensures
        outcome(r) == if indices@.len() > a@.shape.len() {
            Err(too_many(indices@.len(), a@.shape.len()))
        } else {
            match offset_of(a@.shape, indices@, indices@.len()) {
                Ok(o) => if o < a@.items.len() || o == 0 {
                    Ok((o + 1) as i128)
                } else {
                    Err(unfilled())
                },
                Err(f) => Err(f),
            }
        },
{
    if indices.len() > a.shape.len() {
        return Err(too_many_failure(indices.len(), a.shape.len()));
    }
    let mut at: Option<usize> = Some(0);
    let ghost mut o: int = 0;
    let mut d: usize = 0;
    while d < indices.len()
        invariant
            d <= indices.len() <= a.shape.len(),
            o >= 0,
            reached(at, o),
            offset_of(a@.shape, indices@, d as nat) == Ok::<int, FailureView>(o),
        decreases indices.len() - d,
    {
        let i: i128 = indices[d];
        let extent: u64 = a.shape[d];
        if i < 1 || i > extent as i128 {
            proof {
                lemma_offset_fails(a@.shape, indices@, (d + 1) as nat, indices@.len());
            }
            return Err(beyond_failure(i, d, extent));
        }
        let step: Option<usize> = stride_at(&a.shape, d);
        let ghost s = stride(a@.shape, d as int) as int;
        let p: u64 = (i - 1) as u64;
        at = advanced(at, p, step, Ghost(o), Ghost(s));
        proof {
            assert(p * s >= 0) by (nonlinear_arith)
                requires
                    p >= 0,
                    s >= 1,
            ;
            o = o + p * s;
        }
        d = d + 1;
    }
    match at {
        Some(v) => if v < a.items.len() || v == 0 {
            Ok(v as i128 + 1)
        } else {
            Err(fail_with("AHPCL-RUN-0003", "this array's elements do not fill its shape"))
        },
        None => {
            assert(a.items@.len() == a.items.len());
            Err(fail_with("AHPCL-RUN-0003", "this array's elements do not fill its shape"))
        },
    }
}

} // verus!
