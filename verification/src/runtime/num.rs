//! Arithmetic on tagged values and on arrays of them.

use vstd::arithmetic::div_mod::*;
use vstd::arithmetic::power::*;
use vstd::prelude::*;
use vstd::string::*;

use crate::ast::UnOp;
use crate::eval::arrays::lemma_within;
use crate::eval::decimal::{decimal_quotient, pow10, ten, Decimal};
use crate::eval::numeric::{int_pow, whole_part, whole_value};
use crate::eval::ops::{order_texts, text_order, Request, RequestView};
use crate::eval::rational::{rational_of_decimal, Rational};
use crate::eval::value::{Val, Value};
use crate::runtime::array::{
    lemma_cells_push, array_result, cell_result, cells_of, halt, vector_of, Array, ArrayView, Cell, CellView,
    KIND_BOOL, KIND_DECI, KIND_INT, KIND_RAT, KIND_STR,
};
use crate::runtime::exact::{
    deci_apply, deci_result, deci_sqrt, fail_with, failure, fraction_held, held, holding, rat_apply,
    rat_result, rational_or_failed, rational_sign, root_result, ahpcl_rat_cmp, AhpclDecimal, AhpclRational,
    Halt, HaltView, DEFAULT_DIVISION_DIGITS, OP_ADD, OP_DIV, OP_INTDIV, OP_MOD, OP_MUL, OP_POW, OP_SUB,
};
use crate::text::{abs_int, cat5, fits, magnitude, nat_text, signed, usize_text};

verus! {

// ── conversions ─────────────────────────────────────────────────────────────

pub open spec fn bit(b: bool) -> i128 {
    if b {
        1
    } else {
        0
    }
}

/// A cell as a whole number; what is none counts as zero.
pub open spec fn int_of(c: CellView) -> i128 {
    match c {
        CellView::Int(v) => v,
        CellView::Bool(b) => bit(b),
        _ => 0,
    }
}

/// A cell as a decimal; what has no decimal form is marked as failed.
pub open spec fn deci_of(c: CellView) -> AhpclDecimal {
    match c {
        CellView::Deci(d) => d,
        CellView::Int(v) => AhpclDecimal { mantissa: v, scale: 0, failed: 0 },
        CellView::Bool(b) => AhpclDecimal { mantissa: bit(b), scale: 0, failed: 0 },
        _ => AhpclDecimal { mantissa: 0, scale: 0, failed: 1 },
    }
}

/// A cell as a rational: a decimal is its mantissa over a power of ten.
pub open spec fn rat_of(c: CellView) -> AhpclRational {
    match c {
        CellView::Rat(r) => r,
        CellView::Int(v) => AhpclRational { num: v, den: 1, failed: 0 },
        CellView::Bool(b) => AhpclRational { num: bit(b), den: 1, failed: 0 },
        CellView::Deci(d) => rational_or_failed(rational_of_decimal(held(d))),
        CellView::Str(_) => AhpclRational { num: 0, den: 1, failed: 1 },
    }
}

pub fn to_int(c: &Cell) -> (r: i128)
    ensures
        r == int_of(c@),
{
    match c {
        Cell::Int(v) => *v,
        Cell::Bool(b) => if *b {
            1
        } else {
            0
        },
        _ => 0,
    }
}

pub fn to_deci(c: &Cell) -> (r: AhpclDecimal)
    ensures
        r == deci_of(c@),
{
    match c {
        Cell::Deci(d) => *d,
        Cell::Int(v) => AhpclDecimal { mantissa: *v, scale: 0, failed: 0 },
        Cell::Bool(b) => AhpclDecimal {
            mantissa: if *b {
                1
            } else {
                0
            },
            scale: 0,
            failed: 0,
        },
        _ => AhpclDecimal { mantissa: 0, scale: 0, failed: 1 },
    }
}

pub fn to_rat(c: &Cell) -> (r: AhpclRational)
    ensures
        r == rat_of(c@),
{
    match c {
        Cell::Rat(q) => *q,
        Cell::Int(v) => AhpclRational { num: *v, den: 1, failed: 0 },
        Cell::Bool(b) => AhpclRational {
            num: if *b {
                1
            } else {
                0
            },
            den: 1,
            failed: 0,
        },
        Cell::Deci(d) => match Rational::from_decimal(Decimal::new(d.mantissa, d.scale)) {
            Some(q) => AhpclRational { num: q.num, den: q.den, failed: 0 },
            None => AhpclRational::fail(),
        },
        Cell::Str(_) => AhpclRational::fail(),
    }
}

// ── arithmetic ──────────────────────────────────────────────────────────────

/// Which kind arithmetic is done in: 2 for rationals, 1 for decimals, 0 for integers.
pub open spec fn level(c: CellView) -> int {
    match c {
        CellView::Rat(_) => 2,
        CellView::Deci(_) => 1,
        _ => 0,
    }
}

pub open spec fn int_cell(n: int) -> Result<CellView, HaltView> {
    if fits(n) {
        Ok(CellView::Int(n as i128))
    } else {
        halt("AHPCL-PREC-0004"@, "this array arithmetic overflowed"@)
    }
}

pub open spec fn deci_cell(r: Result<AhpclDecimal, HaltView>) -> Result<CellView, HaltView> {
    match r {
        Ok(d) => Ok(CellView::Deci(d)),
        Err(h) => Err(h),
    }
}

/// What an operation makes of two whole numbers.
pub open spec fn int_arith(op: u32, x: i128, y: i128) -> Result<CellView, HaltView> {
    if op == OP_ADD {
        int_cell(x + y)
    } else if op == OP_SUB {
        int_cell(x - y)
    } else if op == OP_MUL {
        int_cell(x * y)
    } else if op == OP_POW {
        if y < 0 || y > u32::MAX {
            halt("AHPCL-PREC-0004"@, "this exponent is out of range"@)
        } else {
            int_cell(pow(x as int, y as nat))
        }
    } else if op == OP_INTDIV || op == OP_MOD {
        if y == 0 {
            halt("AHPCL-RUN-0002"@, "division by zero"@)
        } else if op == OP_INTDIV {
            int_cell(x as int / y as int)
        } else {
            int_cell(x as int % y as int)
        }
    } else {
        deci_cell(
            deci_result(OP_DIV, Decimal { mantissa: x, scale: 0 }, Decimal { mantissa: y, scale: 0 }),
        )
    }
}

/// Element arithmetic, promoting the narrower side: int → deci → rat.
#[verifier::opaque]
pub open spec fn cell_arith(op: u32, a: CellView, b: CellView) -> Result<CellView, HaltView> {
    if level(a) == 2 || level(b) == 2 {
        match rat_result(op, fraction_held(rat_of(a)), fraction_held(rat_of(b))) {
            Ok(r) => Ok(CellView::Rat(r)),
            Err(f) => Err(HaltView::Fail(f)),
        }
    } else if level(a) == 1 || level(b) == 1 {
        deci_cell(deci_result(op, held(deci_of(a)), held(deci_of(b))))
    } else {
        int_arith(op, int_of(a), int_of(b))
    }
}

fn stop(code: &str, message: &str) -> (r: Halt)
    ensures
        r@ == HaltView::Fail(failure(code@, message@)),
{
    Halt::Fail(fail_with(code, message))
}

fn checked_cell(n: Option<i128>) -> (r: Result<Cell, Halt>)
    ensures
        cell_result(r) == (match n {
            Some(v) => Ok(CellView::Int(v)),
            None => halt("AHPCL-PREC-0004"@, "this array arithmetic overflowed"@),
        }),
{
    match n {
        Some(v) => Ok(Cell::Int(v)),
        None => Err(stop("AHPCL-PREC-0004", "this array arithmetic overflowed")),
    }
}

fn apply_deci(op: u32, a: AhpclDecimal, b: AhpclDecimal) -> (r: Result<Cell, Halt>)
    ensures
        cell_result(r) == deci_cell(deci_result(op, held(a), held(b))),
{
    match deci_apply(op, a, b) {
        Ok(d) => Ok(Cell::Deci(d)),
        Err(h) => Err(h),
    }
}

fn apply_int(op: u32, x: i128, y: i128) -> (r: Result<Cell, Halt>)
    ensures
        cell_result(r) == int_arith(op, x, y),
{
    if op == OP_ADD {
        checked_cell(x.checked_add(y))
    } else if op == OP_SUB {
        checked_cell(x.checked_sub(y))
    } else if op == OP_MUL {
        checked_cell(x.checked_mul(y))
    } else if op == OP_POW {
        if y < 0 || y > 0xffff_ffff {
            return Err(stop("AHPCL-PREC-0004", "this exponent is out of range"));
        }
        checked_cell(int_pow(x, y as u32))
    } else if op == OP_INTDIV || op == OP_MOD {
        if y == 0 {
            return Err(stop("AHPCL-RUN-0002", "division by zero"));
        }
        if op == OP_INTDIV {
            return checked_cell(x.checked_div_euclid(y));
        }
        if y == -1 {
            assert(x as int % -1 == 0) by (nonlinear_arith);
            return Ok(Cell::Int(0));
        }
        proof {
            let m = x as int % y as int;
            assert(0 <= m && (m < y || m < -y)) by (nonlinear_arith)
                requires
                    m == x as int % y as int,
                    y != 0,
            ;
        }
        checked_cell(x.checked_rem_euclid(y))
    } else {
        // Integer division that does not divide exactly becomes a decimal.
        apply_deci(
            OP_DIV,
            AhpclDecimal { mantissa: x, scale: 0, failed: 0 },
            AhpclDecimal { mantissa: y, scale: 0, failed: 0 },
        )
    }
}

fn level_of(c: &Cell) -> (r: u32)
    ensures
        r == level(c@),
{
    match c {
        Cell::Rat(_) => 2,
        Cell::Deci(_) => 1,
        _ => 0,
    }
}

/// Element arithmetic, promoting the narrower side.
pub fn arith(op: u32, a: &Cell, b: &Cell) -> (r: Result<Cell, Halt>)
    ensures
        cell_result(r) == cell_arith(op, a@, b@),
{
    reveal(cell_arith);
    let p: u32 = level_of(a);
    let q: u32 = level_of(b);
    if p == 2 || q == 2 {
        match rat_apply(op, to_rat(a), to_rat(b)) {
            Ok(v) => Ok(Cell::Rat(v)),
            Err(f) => Err(Halt::Fail(f)),
        }
    } else if p == 1 || q == 1 {
        apply_deci(op, to_deci(a), to_deci(b))
    } else {
        apply_int(op, to_int(a), to_int(b))
    }
}

// ── one operand ─────────────────────────────────────────────────────────────

/// The unary operators, on whichever kind the value holds.
pub const UN_NEG: u32 = 0;

pub const UN_ABS: u32 = 1;

pub const UN_SQRT: u32 = 2;

pub const UN_FLOOR: u32 = 3;

pub const UN_CEIL: u32 = 4;

pub const UN_SIN: u32 = 5;

pub const UN_COS: u32 = 6;

pub const UN_TAN: u32 = 7;

pub const UN_LOG: u32 = 8;

pub const UN_LN: u32 = 9;

/// A cell with the opposite sign; what has none is left as it is.
pub open spec fn negated(c: CellView) -> Result<CellView, HaltView> {
    match c {
        CellView::Int(v) => int_cell(-v),
        CellView::Deci(d) => if fits(-d.mantissa) {
            Ok(CellView::Deci(AhpclDecimal { mantissa: (-d.mantissa) as i128, ..d }))
        } else {
            halt("AHPCL-PREC-0004"@, "this array arithmetic overflowed"@)
        },
        CellView::Rat(r) => if fits(-r.num) {
            Ok(CellView::Rat(AhpclRational { num: (-r.num) as i128, ..r }))
        } else {
            halt("AHPCL-PREC-0004"@, "this array arithmetic overflowed"@)
        },
        other => Ok(other),
    }
}

pub open spec fn below_zero(c: CellView) -> bool {
    match c {
        CellView::Int(v) => v < 0,
        CellView::Deci(d) => d.mantissa < 0,
        CellView::Rat(r) => r.num < 0,
        _ => false,
    }
}

/// A cell as the decimal that a root or a function is taken of. A rational is divided out,
/// to the digits a division keeps.
pub open spec fn operand_of(c: CellView) -> Option<Decimal> {
    match c {
        CellView::Rat(r) => decimal_quotient(
            Decimal { mantissa: r.num, scale: 0 },
            Decimal { mantissa: r.den, scale: 0 },
            DEFAULT_DIVISION_DIGITS as nat,
        ),
        _ => Some(held(deci_of(c))),
    }
}

pub open spec fn operand_overflowed<T>() -> Result<T, HaltView> {
    halt("AHPCL-PREC-0004"@, "this decimal arithmetic overflowed"@)
}

pub open spec fn function_of(op: u32) -> UnOp {
    if op == UN_SIN {
        UnOp::Sin
    } else if op == UN_COS {
        UnOp::Cos
    } else if op == UN_TAN {
        UnOp::Tan
    } else if op == UN_LOG {
        UnOp::Log
    } else {
        UnOp::Ln
    }
}

/// The number a cell is rounded as.
pub open spec fn rounded_as(c: CellView) -> Val {
    match c {
        CellView::Rat(r) => Val::Rat(Rational { num: r.num, den: r.den }),
        CellView::Int(v) => Val::Int(v),
        _ => Val::Deci(held(deci_of(c))),
    }
}

/// What a unary operator makes of a cell.
#[verifier::opaque]
pub open spec fn cell_unary(op: u32, c: CellView, digits: u32) -> Result<CellView, HaltView> {
    if op == UN_NEG {
        negated(c)
    } else if op == UN_ABS {
        if below_zero(c) {
            negated(c)
        } else {
            Ok(c)
        }
    } else if op == UN_SQRT {
        match operand_of(c) {
            Some(d) => match root_result(d, digits) {
                Ok(r) => Ok(CellView::Deci(r)),
                Err(f) => Err(HaltView::Fail(f)),
            },
            None => operand_overflowed(),
        }
    } else if op == UN_FLOOR || op == UN_CEIL {
        match whole_part(rounded_as(c), op == UN_CEIL) {
            Some(n) => Ok(CellView::Int(n as i128)),
            None => halt("AHPCL-PREC-0004"@, "this value is too large to round"@),
        }
    } else if op == UN_SIN || op == UN_COS || op == UN_TAN || op == UN_LOG || op == UN_LN {
        match operand_of(c) {
            Some(d) => Err(
                HaltView::Ask(RequestView::Function { op: function_of(op), argument: Val::Deci(d), digits }),
            ),
            None => operand_overflowed(),
        }
    } else {
        Ok(c)
    }
}

fn negate(c: &Cell) -> (r: Result<Cell, Halt>)
    ensures
        cell_result(r) == negated(c@),
{
    match c {
        Cell::Int(v) => checked_cell((0i128).checked_sub(*v)),
        Cell::Deci(d) => match (0i128).checked_sub(d.mantissa) {
            Some(m) => Ok(Cell::Deci(AhpclDecimal { mantissa: m, scale: d.scale, failed: d.failed })),
            None => Err(stop("AHPCL-PREC-0004", "this array arithmetic overflowed")),
        },
        Cell::Rat(q) => match (0i128).checked_sub(q.num) {
            Some(n) => Ok(Cell::Rat(AhpclRational { num: n, den: q.den, failed: q.failed })),
            None => Err(stop("AHPCL-PREC-0004", "this array arithmetic overflowed")),
        },
        other => Ok(other.copied()),
    }
}

fn is_below_zero(c: &Cell) -> (r: bool)
    ensures
        r == below_zero(c@),
{
    match c {
        Cell::Int(v) => *v < 0,
        Cell::Deci(d) => d.mantissa < 0,
        Cell::Rat(q) => q.num < 0,
        _ => false,
    }
}

fn operand(c: &Cell) -> (r: Option<Decimal>)
    ensures
        r == operand_of(c@),
{
    match c {
        Cell::Rat(q) => Decimal::from_int(q.num).div_exact(Decimal::from_int(q.den), DEFAULT_DIVISION_DIGITS),
        _ => {
            let d: AhpclDecimal = to_deci(c);
            Some(Decimal::new(d.mantissa, d.scale))
        },
    }
}

fn rounding_value(c: &Cell) -> (r: Value)
    ensures
        r@ == rounded_as(c@),
{
    match c {
        Cell::Rat(q) => Value::Rat(Rational { num: q.num, den: q.den }),
        Cell::Int(v) => Value::Int(*v),
        _ => {
            let d: AhpclDecimal = to_deci(c);
            Value::Deci(Decimal::new(d.mantissa, d.scale))
        },
    }
}

pub fn unary(op: u32, c: &Cell, digits: u32) -> (r: Result<Cell, Halt>)
    ensures
        cell_result(r) == cell_unary(op, c@, digits),
{
    reveal(cell_unary);
    if op == UN_NEG {
        negate(c)
    } else if op == UN_ABS {
        if is_below_zero(c) {
            negate(c)
        } else {
            Ok(c.copied())
        }
    } else if op == UN_SQRT {
        match operand(c) {
            Some(d) => match deci_sqrt(AhpclDecimal { mantissa: d.mantissa, scale: d.scale, failed: 0 }, digits) {
                Ok(v) => Ok(Cell::Deci(v)),
                Err(f) => Err(Halt::Fail(f)),
            },
            None => Err(stop("AHPCL-PREC-0004", "this decimal arithmetic overflowed")),
        }
    } else if op == UN_FLOOR || op == UN_CEIL {
        match whole_value(&rounding_value(c), op == UN_CEIL) {
            Some(n) => Ok(Cell::Int(n)),
            None => Err(stop("AHPCL-PREC-0004", "this value is too large to round")),
        }
    } else if op == UN_SIN || op == UN_COS || op == UN_TAN || op == UN_LOG || op == UN_LN {
        let f: UnOp = if op == UN_SIN {
            UnOp::Sin
        } else if op == UN_COS {
            UnOp::Cos
        } else if op == UN_TAN {
            UnOp::Tan
        } else if op == UN_LOG {
            UnOp::Log
        } else {
            UnOp::Ln
        };
        match operand(c) {
            Some(d) => Err(Halt::Ask(Request::Function { op: f, argument: Value::Deci(d), digits })),
            None => Err(stop("AHPCL-PREC-0004", "this decimal arithmetic overflowed")),
        }
    } else {
        Ok(c.copied())
    }
}

// ── kinds ───────────────────────────────────────────────────────────────────

pub open spec fn kind_of(c: CellView) -> u32 {
    match c {
        CellView::Rat(_) => KIND_RAT,
        CellView::Deci(_) => KIND_DECI,
        CellView::Str(_) => KIND_STR,
        CellView::Bool(_) => KIND_BOOL,
        CellView::Int(_) => KIND_INT,
    }
}

/// The widest kind among the first `n` cells.
pub open spec fn widest_kind(items: Seq<CellView>, n: nat) -> u32
    decreases n,
{
    if n == 0 {
        KIND_INT
    } else {
        let before = widest_kind(items, (n - 1) as nat);
        let k = kind_of(items[n - 1]);
        if k > before {
            k
        } else {
            before
        }
    }
}

/// The kind of an array of cells.
pub open spec fn kind_among(items: Seq<CellView>) -> u32 {
    widest_kind(items, items.len())
}

pub fn result_kind(items: &Vec<Cell>) -> (r: u32)
    ensures
        r == kind_among(cells_of(items@)),
{
    let ghost views = cells_of(items@);
    let mut kind: u32 = KIND_INT;
    let mut i: usize = 0;
    while i < items.len()
        invariant
            i <= items.len(),
            views == cells_of(items@),
            kind == widest_kind(views, i as nat),
        decreases items.len() - i,
    {
        let k: u32 = match &items[i] {
            Cell::Rat(_) => KIND_RAT,
            Cell::Deci(_) => KIND_DECI,
            Cell::Str(_) => KIND_STR,
            Cell::Bool(_) => KIND_BOOL,
            Cell::Int(_) => KIND_INT,
        };
        if k > kind {
            kind = k;
        }
        i = i + 1;
    }
    kind
}

// ── elementwise ─────────────────────────────────────────────────────────────

/// What two cells are combined with: an operation, or a comparison.
pub open spec fn combined(op: u32, compares: bool, a: CellView, b: CellView) -> Result<CellView, HaltView> {
    if compares {
        Ok(CellView::Bool(cell_satisfies(op, cell_sign(a, b))))
    } else {
        cell_arith(op, a, b)
    }
}

/// The results of the first `n` pairs; a list of one is spread across the other.
pub open spec fn pairwise(op: u32, compares: bool, x: Seq<CellView>, y: Seq<CellView>, n: nat) -> Result<
    Seq<CellView>,
    HaltView,
>
    decreases n,
{
    if n == 0 {
        Ok(Seq::empty())
    } else {
        match pairwise(op, compares, x, y, (n - 1) as nat) {
            Err(h) => Err(h),
            Ok(done) => match combined(op, compares, spread(x, n - 1), spread(y, n - 1)) {
                Ok(c) => Ok(done.push(c)),
                Err(h) => Err(h),
            },
        }
    }
}

pub open spec fn spread(x: Seq<CellView>, i: int) -> CellView {
    if x.len() == 1 {
        x[0]
    } else {
        x[i]
    }
}

/// How many pairs two lists make; nothing where they do not match.
pub open spec fn pairs(x: nat, y: nat) -> Option<nat> {
    if x == 1 {
        Some(y)
    } else if y == 1 {
        Some(x)
    } else if x == y {
        Some(x)
    } else {
        None
    }
}

pub open spec fn broadcast_shape(a: ArrayView, b: ArrayView) -> Seq<u64> {
    if a.items.len() == 1 {
        b.shape
    } else {
        a.shape
    }
}

/// Elementwise, with a one-element side spread across the other.
pub open spec fn elementwise(op: u32, a: ArrayView, b: ArrayView) -> Result<ArrayView, HaltView> {
    match pairs(a.items.len(), b.items.len()) {
        None => halt(
            "AHPCL-RUN-0002"@,
            "elementwise operations need matching shapes, but these hold "@ + nat_text(a.items.len()) + " and "@
                + nat_text(b.items.len()) + " elements"@,
        ),
        Some(n) => match pairwise(op, false, a.items, b.items, n) {
            Ok(items) => Ok(ArrayView { items, shape: broadcast_shape(a, b), kind: kind_among(items) }),
            Err(h) => Err(h),
        },
    }
}

/// A comparison position by position, giving an array of bools.
pub open spec fn compared_arrays(op: u32, a: ArrayView, b: ArrayView) -> Result<ArrayView, HaltView> {
    match pairs(a.items.len(), b.items.len()) {
        None => halt(
            "AHPCL-RUN-0001"@,
            "comparing elementwise needs matching shapes, but these hold "@ + nat_text(a.items.len()) + " and "@
                + nat_text(b.items.len()) + " elements"@,
        ),
        Some(n) => match pairwise(op, true, a.items, b.items, n) {
            Ok(items) => Ok(ArrayView { items, shape: broadcast_shape(a, b), kind: KIND_BOOL }),
            Err(h) => Err(h),
        },
    }
}

/// Ordering codes.
pub const OP_CMP_EQ: u32 = 10;

pub const OP_CMP_NE: u32 = 11;

pub const OP_CMP_LT: u32 = 12;

pub const OP_CMP_GT: u32 = 13;

pub const OP_CMP_LE: u32 = 14;

pub const OP_CMP_GE: u32 = 15;

/// How two cells are ordered: texts among themselves, anything else as rationals, which
/// every numeric cell converts to exactly.
pub open spec fn cell_sign(a: CellView, b: CellView) -> int {
    match (a, b) {
        (CellView::Str(x), CellView::Str(y)) => text_order(x, y),
        _ => rational_sign(fraction_held(rat_of(a)), fraction_held(rat_of(b))),
    }
}

pub open spec fn cell_satisfies(op: u32, o: int) -> bool {
    if op == OP_CMP_EQ {
        o == 0
    } else if op == OP_CMP_NE {
        o != 0
    } else if op == OP_CMP_LT {
        o < 0
    } else if op == OP_CMP_GT {
        o > 0
    } else if op == OP_CMP_LE {
        o <= 0
    } else {
        o >= 0
    }
}

pub fn cell_order(a: &Cell, b: &Cell) -> (r: i32)
    ensures
        r == cell_sign(a@, b@),
{
    match (a, b) {
        (Cell::Str(x), Cell::Str(y)) => order_texts(x.as_str(), y.as_str()),
        _ => ahpcl_rat_cmp(to_rat(a), to_rat(b)),
    }
}

fn satisfies(op: u32, o: i32) -> (r: bool)
    ensures
        r == cell_satisfies(op, o as int),
{
    if op == 10 {
        o == 0
    } else if op == 11 {
        o != 0
    } else if op == 12 {
        o < 0
    } else if op == 13 {
        o > 0
    } else if op == 14 {
        o <= 0
    } else {
        o >= 0
    }
}

fn combine(op: u32, compares: bool, a: &Cell, b: &Cell) -> (r: Result<Cell, Halt>)
    ensures
        cell_result(r) == combined(op, compares, a@, b@),
{
    if compares {
        Ok(Cell::Bool(satisfies(op, cell_order(a, b))))
    } else {
        arith(op, a, b)
    }
}

pub open spec fn cells_result(r: Result<Vec<Cell>, Halt>) -> Result<Seq<CellView>, HaltView> {
    match r {
        Ok(v) => Ok(cells_of(v@)),
        Err(h) => Err(h@),
    }
}

proof fn lemma_pairwise_fails(op: u32, compares: bool, x: Seq<CellView>, y: Seq<CellView>, k: nat, n: nat)
    requires
        k <= n,
        pairwise(op, compares, x, y, k) is Err,
    ensures
        pairwise(op, compares, x, y, n) == pairwise(op, compares, x, y, k),
    decreases n,
{
    if k < n {
        lemma_pairwise_fails(op, compares, x, y, k, (n - 1) as nat);
    }
}

fn combine_pairs(op: u32, compares: bool, x: &Vec<Cell>, y: &Vec<Cell>, n: usize) -> (r: Result<Vec<Cell>, Halt>)
    requires
        pairs(x@.len(), y@.len()) == Some(n as nat),
    ensures
        cells_result(r) == pairwise(op, compares, cells_of(x@), cells_of(y@), n as nat),
{
    let ghost xv = cells_of(x@);
    let ghost yv = cells_of(y@);
    let mut out: Vec<Cell> = Vec::new();
    let mut i: usize = 0;
    assert(cells_of(out@) =~= Seq::empty());
    while i < n
        invariant
            i <= n,
            pairs(x@.len(), y@.len()) == Some(n as nat),
            xv == cells_of(x@),
            yv == cells_of(y@),
            pairwise(op, compares, xv, yv, i as nat) == Ok::<Seq<CellView>, HaltView>(cells_of(out@)),
        decreases n - i,
    {
        let p: usize = if x.len() == 1 {
            0
        } else {
            i
        };
        let q: usize = if y.len() == 1 {
            0
        } else {
            i
        };
        assert(spread(xv, i as int) == x@[p as int]@);
        assert(spread(yv, i as int) == y@[q as int]@);
        match combine(op, compares, &x[p], &y[q]) {
            Ok(c) => {
                proof {
                    lemma_cells_push(out@, c);
                }
                out.push(c);
            },
            Err(h) => {
                proof {
                    lemma_pairwise_fails(op, compares, xv, yv, (i + 1) as nat, n as nat);
                }
                return Err(h);
            },
        }
        i = i + 1;
    }
    Ok(out)
}

fn pair_count(x: usize, y: usize) -> (r: Option<usize>)
    ensures
        match r {
            Some(n) => pairs(x as nat, y as nat) == Some(n as nat),
            None => pairs(x as nat, y as nat) is None,
        },
{
    if x == 1 {
        Some(y)
    } else if y == 1 {
        Some(x)
    } else if x == y {
        Some(x)
    } else {
        None
    }
}

fn copied_shape(x: &Vec<u64>) -> (r: Vec<u64>)
    ensures
        r@ == x@,
{
    let mut out: Vec<u64> = Vec::new();
    let mut i: usize = 0;
    while i < x.len()
        invariant
            i <= x.len(),
            out@ == x@.take(i as int),
        decreases x.len() - i,
    {
        out.push(x[i]);
        i = i + 1;
        assert(out@ =~= x@.take(i as int));
    }
    assert(x@.take(x@.len() as int) =~= x@);
    out
}

fn shape_for(a: &Array, b: &Array) -> (r: Vec<u64>)
    ensures
        r@ == broadcast_shape(a@, b@),
{
    if a.items.len() == 1 {
        copied_shape(&b.shape)
    } else {
        copied_shape(&a.shape)
    }
}

/// Elementwise, with a one-element side spread across the other.
pub fn ahpcl_array_elementwise(op: u32, a: &Array, b: &Array) -> (r: Result<Array, Halt>)
    ensures
        array_result(r) == elementwise(op, a@, b@),
{
    let n: usize = match pair_count(a.items.len(), b.items.len()) {
        Some(n) => n,
        None => {
            return Err(
                stop(
                    "AHPCL-RUN-0002",
                    cat5(
                        "elementwise operations need matching shapes, but these hold ",
                        usize_text(a.items.len()).as_str(),
                        " and ",
                        usize_text(b.items.len()).as_str(),
                        " elements",
                    ).as_str(),
                ),
            );
        },
    };
    match combine_pairs(op, false, &a.items, &b.items, n) {
        Ok(items) => {
            let kind: u32 = result_kind(&items);
            Ok(Array { items, shape: shape_for(a, b), kind })
        },
        Err(h) => Err(h),
    }
}

/// Compare elementwise, handing back an array of bools. A one-element side is spread, so
/// `('a'):all; > 2` compares every element against the same number.
pub fn ahpcl_array_compare(op: u32, a: &Array, b: &Array) -> (r: Result<Array, Halt>)
    ensures
        array_result(r) == compared_arrays(op, a@, b@),
{
    let n: usize = match pair_count(a.items.len(), b.items.len()) {
        Some(n) => n,
        None => {
            return Err(
                stop(
                    "AHPCL-RUN-0001",
                    cat5(
                        "comparing elementwise needs matching shapes, but these hold ",
                        usize_text(a.items.len()).as_str(),
                        " and ",
                        usize_text(b.items.len()).as_str(),
                        " elements",
                    ).as_str(),
                ),
            );
        },
    };
    match combine_pairs(op, true, &a.items, &b.items, n) {
        Ok(items) => Ok(Array { items, shape: shape_for(a, b), kind: KIND_BOOL }),
        Err(h) => Err(h),
    }
}

/// Shapes as a message shows them: `[2, 3]`.
pub open spec fn shape_texts(shape: Seq<u64>) -> Seq<Seq<char>> {
    Seq::new(shape.len(), |i: int| nat_text(shape[i] as nat))
}

pub open spec fn shape_text(shape: Seq<u64>) -> Seq<char> {
    "["@ + crate::eval::value::comma_separated(shape_texts(shape)) + "]"@
}

fn format_shape(shape: &Vec<u64>) -> (r: String)
    ensures
        r@ == shape_text(shape@),
{
    let mut out: String = "[".to_owned();
    let mut i: usize = 0;
    let ghost texts = shape_texts(shape@);
    assert(texts.take(0) =~= Seq::empty());
    assert("["@ + Seq::<char>::empty() =~= "["@);
    while i < shape.len()
        invariant
            i <= shape.len(),
            texts == shape_texts(shape@),
            out@ =~= "["@ + crate::eval::value::comma_separated(texts.take(i as int)),
        decreases shape.len() - i,
    {
        if i > 0 {
            out.append(", ");
        }
        let t: String = crate::text::u128_text(shape[i] as u128);
        out.append(t.as_str());
        proof {
            let next = texts.take(i as int + 1);
            assert(next.drop_last() =~= texts.take(i as int));
            assert(next.last() == t@);
        }
        i = i + 1;
    }
    out.append("]");
    assert(texts.take(texts.len() as int) =~= texts);
    out
}

fn same_dims(a: &Vec<u64>, b: &Vec<u64>) -> (r: bool)
    ensures
        r == (a@ == b@),
{
    if a.len() != b.len() {
        return false;
    }
    let mut i: usize = 0;
    while i < a.len()
        invariant
            i <= a@.len() == b@.len(),
            forall|j: int| 0 <= j < i ==> #[trigger] a@[j] == b@[j],
        decreases a@.len() - i,
    {
        if a[i] != b[i] {
            return false;
        }
        i = i + 1;
    }
    assert(a@ =~= b@);
    true
}

/// `⊙`: elementwise multiplication, which requires shapes to match exactly.
pub fn ahpcl_array_hadamard(a: &Array, b: &Array) -> (r: Result<Array, Halt>)
    ensures
        array_result(r) == if a@.shape != b@.shape {
            halt(
                "AHPCL-RUN-0002"@,
                "elementwise operations need matching shapes, but these are "@ + shape_text(a@.shape) + " and "@
                    + shape_text(b@.shape),
            )
        } else {
            elementwise(OP_MUL, a@, b@)
        },
{
    if !same_dims(&a.shape, &b.shape) {
        return Err(
            stop(
                "AHPCL-RUN-0002",
                crate::text::cat4(
                    "elementwise operations need matching shapes, but these are ",
                    format_shape(&a.shape).as_str(),
                    " and ",
                    format_shape(&b.shape).as_str(),
                ).as_str(),
            ),
        );
    }
    ahpcl_array_elementwise(OP_MUL, a, b)
}

/// Every element under a unary operator, the first `n` of them.
pub open spec fn each_unary(op: u32, items: Seq<CellView>, digits: u32, n: nat) -> Result<Seq<CellView>, HaltView>
    decreases n,
{
    if n == 0 {
        Ok(Seq::empty())
    } else {
        match each_unary(op, items, digits, (n - 1) as nat) {
            Err(h) => Err(h),
            Ok(done) => match cell_unary(op, items[n - 1], digits) {
                Ok(c) => Ok(done.push(c)),
                Err(h) => Err(h),
            },
        }
    }
}

proof fn lemma_each_fails(op: u32, items: Seq<CellView>, digits: u32, k: nat, n: nat)
    requires
        k <= n,
        each_unary(op, items, digits, k) is Err,
    ensures
        each_unary(op, items, digits, n) == each_unary(op, items, digits, k),
    decreases n,
{
    if k < n {
        lemma_each_fails(op, items, digits, k, (n - 1) as nat);
    }
}

/// Apply a unary operator to every element, for `-('a'):all;` and friends.
pub fn ahpcl_array_unary(op: u32, a: &Array, digits: u32) -> (r: Result<Array, Halt>)
    ensures
        array_result(r) == (match each_unary(op, a@.items, digits, a@.items.len()) {
            Ok(items) => Ok(ArrayView { items, shape: a@.shape, kind: kind_among(items) }),
            Err(h) => Err(h),
        }),
{
    let ghost views = a@.items;
    let mut out: Vec<Cell> = Vec::new();
    let mut i: usize = 0;
    assert(cells_of(out@) =~= Seq::empty());
    while i < a.items.len()
        invariant
            i <= a.items.len(),
            views == a@.items,
            each_unary(op, views, digits, i as nat) == Ok::<Seq<CellView>, HaltView>(cells_of(out@)),
        decreases a.items.len() - i,
    {
        match unary(op, &a.items[i], digits) {
            Ok(c) => {
                proof {
                    lemma_cells_push(out@, c);
                }
                out.push(c);
            },
            Err(h) => {
                proof {
                    lemma_each_fails(op, views, digits, (i + 1) as nat, views.len());
                }
                return Err(h);
            },
        }
        i = i + 1;
    }
    let kind: u32 = result_kind(&out);
    Ok(Array { items: out, shape: copied_shape(&a.shape), kind })
}

/// An element under a unary operator, with an answer at hand where it asks.
pub open spec fn unary_answered(op: u32, c: CellView, digits: u32, answer: Option<Decimal>) -> Result<CellView, HaltView> {
    match cell_unary(op, c, digits) {
        Err(HaltView::Ask(_)) => match answer {
            Some(d) => Ok(CellView::Deci(holding(d))),
            None => Err(HaltView::Fail(failure("AHPCL-RUN-0001"@, "this result is not a finite number"@))),
        },
        r => r,
    }
}

/// Every element under a unary operator, the first `n` of them, each with an answer of its
/// own where it asks.
pub open spec fn each_answered(
    op: u32,
    items: Seq<CellView>,
    digits: u32,
    answers: Seq<Option<Decimal>>,
    n: nat,
) -> Result<Seq<CellView>, HaltView>
    decreases n,
{
    if n == 0 {
        Ok(Seq::empty())
    } else {
        match each_answered(op, items, digits, answers, (n - 1) as nat) {
            Err(h) => Err(h),
            Ok(done) => match unary_answered(op, items[n - 1], digits, answers[n - 1]) {
                Ok(c) => Ok(done.push(c)),
                Err(h) => Err(h),
            },
        }
    }
}

proof fn lemma_answered_fails(
    op: u32,
    items: Seq<CellView>,
    digits: u32,
    answers: Seq<Option<Decimal>>,
    k: nat,
    n: nat,
)
    requires
        k <= n,
        each_answered(op, items, digits, answers, k) is Err,
    ensures
        each_answered(op, items, digits, answers, n) == each_answered(op, items, digits, answers, k),
    decreases n,
{
    if k < n {
        lemma_answered_fails(op, items, digits, answers, k, (n - 1) as nat);
    }
}

/// The same where elements ask: `answers` holds, position by position, what the world
/// outside answered.
pub fn array_unary_answered(op: u32, a: &Array, digits: u32, answers: &Vec<Option<Decimal>>) -> (r: Result<Array, Halt>)
    requires
        answers@.len() == a@.items.len(),
    ensures
        array_result(r) == (match each_answered(op, a@.items, digits, answers@, a@.items.len()) {
            Ok(items) => Ok(ArrayView { items, shape: a@.shape, kind: kind_among(items) }),
            Err(h) => Err(h),
        }),
{
    let ghost views = a@.items;
    let mut out: Vec<Cell> = Vec::new();
    let mut i: usize = 0;
    assert(cells_of(out@) =~= Seq::empty());
    while i < a.items.len()
        invariant
            i <= a.items.len(),
            views == a@.items,
            answers@.len() == a@.items.len(),
            each_answered(op, views, digits, answers@, i as nat) == Ok::<Seq<CellView>, HaltView>(cells_of(out@)),
        decreases a.items.len() - i,
    {
        let one: Result<Cell, Halt> = match unary(op, &a.items[i], digits) {
            Err(Halt::Ask(_)) => match answers[i] {
                Some(d) => Ok(
                    Cell::Deci(
                        AhpclDecimal { mantissa: d.normalised().mantissa, scale: d.normalised().scale, failed: 0 },
                    ),
                ),
                None => Err(Halt::Fail(fail_with("AHPCL-RUN-0001", "this result is not a finite number"))),
            },
            r => r,
        };
        match one {
            Ok(c) => {
                proof {
                    lemma_cells_push(out@, c);
                }
                out.push(c);
            },
            Err(h) => {
                proof {
                    lemma_answered_fails(op, views, digits, answers@, (i + 1) as nat, views.len());
                }
                return Err(h);
            },
        }
        i = i + 1;
    }
    let kind: u32 = result_kind(&out);
    Ok(Array { items: out, shape: copied_shape(&a.shape), kind })
}

// ── products and sums ───────────────────────────────────────────────────────

/// The sum of the products of the first `n` pairs.
pub open spec fn dot(xs: Seq<CellView>, ys: Seq<CellView>, n: nat) -> Result<CellView, HaltView>
    decreases n,
{
    if n == 0 {
        Ok(CellView::Int(0))
    } else {
        match dot(xs, ys, (n - 1) as nat) {
            Err(h) => Err(h),
            Ok(total) => match cell_arith(OP_MUL, xs[n - 1], ys[n - 1]) {
                Ok(p) => cell_arith(OP_ADD, total, p),
                Err(h) => Err(h),
            },
        }
    }
}

proof fn lemma_dot_fails(xs: Seq<CellView>, ys: Seq<CellView>, k: nat, n: nat)
    requires
        k <= n,
        dot(xs, ys, k) is Err,
    ensures
        dot(xs, ys, n) == dot(xs, ys, k),
    decreases n,
{
    if k < n {
        lemma_dot_fails(xs, ys, k, (n - 1) as nat);
    }
}

/// The product of `n` pairs, at steps through two lists, added up.
fn dot_product(
    x: &Vec<Cell>,
    x_from: usize,
    y: &Vec<Cell>,
    y_from: usize,
    y_step: usize,
    n: usize,
    Ghost(xs): Ghost<Seq<CellView>>,
    Ghost(ys): Ghost<Seq<CellView>>,
) -> (r: Result<Cell, Halt>)
    requires
        xs.len() >= n,
        ys.len() >= n,
        forall|i: int| 0 <= i < n ==> x_from + i < x@.len() && (#[trigger] xs[i]) == x@[x_from + i]@,
        forall|i: int|
            0 <= i < n ==> #[trigger] (i * y_step) + y_from < y@.len() && ys[i] == y@[(i * y_step) + y_from]@,
    ensures
        cell_result(r) == dot(xs, ys, n as nat),
{
    let mut total: Cell = Cell::Int(0);
    let mut i: usize = 0;
    let mut at: usize = y_from;
    assert(0 * y_step == 0);
    while i < n
        invariant
            i <= n,
            at == if i < n { (i * y_step) + y_from } else { at as int },
            xs.len() >= n,
            ys.len() >= n,
            forall|i: int| 0 <= i < n ==> x_from + i < x@.len() && (#[trigger] xs[i]) == x@[x_from + i]@,
            forall|i: int|
                0 <= i < n ==> #[trigger] (i * y_step) + y_from < y@.len() && ys[i] == y@[(i * y_step) + y_from]@,
            dot(xs, ys, i as nat) == Ok::<CellView, HaltView>(total@),
        decreases n - i,
    {
        proof {
            assert(x@.len() == x.len() && y@.len() == y.len());
            assert((i as int * y_step as int) + y_from < y@.len());
            assert(xs[i as int] == x@[x_from + i as int]@);
        }
        let step: Result<Cell, Halt> = match arith(OP_MUL, &x[x_from + i], &y[at]) {
            Ok(p) => arith(OP_ADD, &total, &p),
            Err(h) => Err(h),
        };
        match step {
            Ok(c) => {
                total = c;
            },
            Err(h) => {
                proof {
                    lemma_dot_fails(xs, ys, (i + 1) as nat, n as nat);
                }
                return Err(h);
            },
        }
        i = i + 1;
        if i < n {
            proof {
                assert((i as int * y_step as int) + y_from < y@.len());
                assert(i as int * y_step as int == (i - 1) * y_step as int + y_step) by (nonlinear_arith);
                assert(y@.len() == y.len());
            }
            at = at + y_step;
        }
    }
    Ok(total)
}

pub open spec fn row_of(x: Seq<CellView>, row: int, k: nat) -> Seq<CellView> {
    Seq::new(k, |i: int| x[row * k + i])
}

pub open spec fn column_of(y: Seq<CellView>, col: int, k: nat, n: nat) -> Seq<CellView> {
    Seq::new(k, |i: int| y[i * n + col])
}

/// The first `count` cells of a matrix product, row by row.
pub open spec fn product_cells(x: Seq<CellView>, y: Seq<CellView>, k: nat, n: nat, count: nat) -> Result<
    Seq<CellView>,
    HaltView,
>
    decreases count,
{
    if count == 0 {
        Ok(Seq::empty())
    } else {
        match product_cells(x, y, k, n, (count - 1) as nat) {
            Err(h) => Err(h),
            Ok(done) => match dot(
                row_of(x, (count - 1) / n as int, k),
                column_of(y, (count - 1) % n as int, k, n),
                k,
            ) {
                Ok(c) => Ok(done.push(c)),
                Err(h) => Err(h),
            },
        }
    }
}

proof fn lemma_cells_fail(x: Seq<CellView>, y: Seq<CellView>, k: nat, n: nat, c: nat, count: nat)
    requires
        c <= count,
        product_cells(x, y, k, n, c) is Err,
    ensures
        product_cells(x, y, k, n, count) == product_cells(x, y, k, n, c),
    decreases count,
{
    if c < count {
        lemma_cells_fail(x, y, k, n, c, (count - 1) as nat);
    }
}

pub open spec fn dim_or_one(shape: Seq<u64>, d: int) -> u64 {
    if d < shape.len() {
        shape[d]
    } else {
        1
    }
}

/// The product of two matrices; a vector counts as a matrix of one column.
pub open spec fn matrix_product(a: ArrayView, b: ArrayView) -> Result<ArrayView, HaltView> {
    let m = dim_or_one(a.shape, 0);
    let k = dim_or_one(a.shape, 1);
    let k2 = dim_or_one(b.shape, 0);
    let n = dim_or_one(b.shape, 1);
    if k != k2 {
        halt(
            "AHPCL-RUN-0002"@,
            "matrix multiplication requires inner dimensions to agree: "@ + nat_text(k as nat) + " ≠ "@ + nat_text(
                k2 as nat,
            ),
        )
    } else if m > 0 && n > 0 && (m * k > a.items.len() || k * n > b.items.len()) {
        Err(HaltView::Fail(crate::runtime::array::unfilled()))
    } else {
        match product_cells(a.items, b.items, k as nat, n as nat, (m * n) as nat) {
            Ok(items) => Ok(ArrayView { items, shape: seq![m, n], kind: kind_among(items) }),
            Err(h) => Err(h),
        }
    }
}

/// `·`: the dot product for two vectors, matrix multiplication otherwise.
pub open spec fn dot_arrays(a: ArrayView, b: ArrayView) -> Result<ArrayView, HaltView> {
    if a.shape.len() == 1 && b.shape.len() == 1 {
        if a.items.len() != b.items.len() {
            halt("AHPCL-RUN-0002"@, "a dot product needs two vectors of the same length"@)
        } else {
            match dot(a.items, b.items, a.items.len()) {
                Ok(c) => Ok(ArrayView { items: seq![c], shape: seq![1u64], kind: kind_of(c) }),
                Err(h) => Err(h),
            }
        }
    } else {
        matrix_product(a, b)
    }
}

fn dim_at(shape: &Vec<u64>, d: usize) -> (r: u64)
    ensures
        r == dim_or_one(shape@, d as int),
{
    if d < shape.len() {
        shape[d]
    } else {
        1
    }
}

fn holds_product(len: usize, a: u64, b: u64) -> (r: bool)
    ensures
        r == (a * b <= len),
{
    proof {
        assert(a * b <= 0xffff_ffff_ffff_ffff * 0xffff_ffff_ffff_ffff) by (nonlinear_arith)
            requires
                0 <= a <= 0xffff_ffff_ffff_ffff,
                0 <= b <= 0xffff_ffff_ffff_ffff,
        ;
    }
    let p: u128 = a as u128 * b as u128;
    p <= len as u128
}

#[verifier::rlimit(30)]
fn matmul(a: &Array, b: &Array) -> (r: Result<Array, Halt>)
    ensures
        array_result(r) == matrix_product(a@, b@),
{
    let m: u64 = dim_at(&a.shape, 0);
    let k: u64 = dim_at(&a.shape, 1);
    let k2: u64 = dim_at(&b.shape, 0);
    let n: u64 = dim_at(&b.shape, 1);
    if k != k2 {
        return Err(
            stop(
                "AHPCL-RUN-0002",
                crate::text::cat4(
                    "matrix multiplication requires inner dimensions to agree: ",
                    crate::text::u128_text(k as u128).as_str(),
                    " ≠ ",
                    crate::text::u128_text(k2 as u128).as_str(),
                ).as_str(),
            ),
        );
    }
    if m > 0 && n > 0 && (!holds_product(a.items.len(), m, k) || !holds_product(b.items.len(), k, n)) {
        return Err(stop("AHPCL-RUN-0003", "this array's elements do not fill its shape"));
    }
    let ghost xv = a@.items;
    let ghost yv = b@.items;
    let ghost goal = matrix_product(a@, b@);
    let mut items: Vec<Cell> = Vec::new();
    assert(cells_of(items@) =~= Seq::empty());
    let mut row: u64 = 0;
    proof {
        assert(0 * n == 0 && 0 * k == 0);
    }
    while row < m && n > 0
        invariant
            row <= m,
            xv == a@.items,
            yv == b@.items,
            goal == matrix_product(a@, b@),
            goal == (match product_cells(xv, yv, k as nat, n as nat, (m * n) as nat) {
                Ok(items) => Ok(ArrayView { items, shape: seq![m, n], kind: kind_among(items) }),
                Err(h) => Err(h),
            }),
            m > 0 && n > 0 ==> m * k <= xv.len() && k * n <= yv.len(),
            product_cells(xv, yv, k as nat, n as nat, (row * n) as nat) == Ok::<Seq<CellView>, HaltView>(
                cells_of(items@),
            ),
        decreases m - row,
    {
        let mut col: u64 = 0;
        while col < n
            invariant
                col <= n,
                row < m,
                n > 0,
                xv == a@.items,
                yv == b@.items,
                goal == matrix_product(a@, b@),
                goal == (match product_cells(xv, yv, k as nat, n as nat, (m * n) as nat) {
                    Ok(items) => Ok(ArrayView { items, shape: seq![m, n], kind: kind_among(items) }),
                    Err(h) => Err(h),
                }),
                m * k <= xv.len(),
                k * n <= yv.len(),
                product_cells(xv, yv, k as nat, n as nat, (row * n + col) as nat) == Ok::<
                    Seq<CellView>,
                    HaltView,
                >(cells_of(items@)),
            decreases n - col,
        {
            proof {
                let c = row * n + col;
                lemma_fundamental_div_mod_converse(c, n as int, row as int, col as int);
            }
            match product_cell(a, b, row, col, m, k, n) {
                Ok(c) => {
                    proof {
                        lemma_cells_push(items@, c);
                    }
                    items.push(c);
                },
                Err(h) => {
                    proof {
                        let c = (row * n + col + 1) as nat;
                        assert(c <= m * n) by (nonlinear_arith)
                            requires
                                c == row * n + col + 1,
                                row < m,
                                col < n,
                        ;
                        assert(product_cells(xv, yv, k as nat, n as nat, c) == Err::<Seq<CellView>, HaltView>(h@));
                        lemma_cells_fail(xv, yv, k as nat, n as nat, c, (m * n) as nat);
                    }
                    return Err(h);
                },
            }
            col = col + 1;
        }
        row = row + 1;
        proof {
            assert((row - 1) * n + n == row * n) by (nonlinear_arith);
        }
    }
    proof {
        if n == 0 || m == 0 {
            assert(m * n == 0) by (nonlinear_arith)
                requires
                    n == 0 || m == 0,
            ;
            assert(row * n == 0) by (nonlinear_arith)
                requires
                    n == 0 || row == 0,
            ;
        }
    }
    let mut shape: Vec<u64> = Vec::new();
    shape.push(m);
    shape.push(n);
    assert(shape@ =~= seq![m, n]);
    let kind: u32 = result_kind(&items);
    Ok(Array { items, shape, kind })
}

/// One cell of a matrix product.
fn product_cell(a: &Array, b: &Array, row: u64, col: u64, m: u64, k: u64, n: u64) -> (r: Result<Cell, Halt>)
    requires
        row < m,
        col < n,
        m * k <= a@.items.len(),
        k * n <= b@.items.len(),
    ensures
        cell_result(r) == dot(
            row_of(a@.items, row as int, k as nat),
            column_of(b@.items, col as int, k as nat, n as nat),
            k as nat,
        ),
{
    let ghost xs = row_of(a@.items, row as int, k as nat);
    let ghost ys = column_of(b@.items, col as int, k as nat, n as nat);
    if k == 0 {
        return Ok(Cell::Int(0));
    }
    proof {
        assert(a.items@.len() == a.items.len() && b.items@.len() == b.items.len());
        lemma_within(row as int, k as int, k - 1, m as int);
        lemma_within(k - 1, n as int, col as int, k as int);
        assert((k - 1) * n + col >= col) by (nonlinear_arith)
            requires
                k >= 1,
                n >= 0,
        ;
        assert(n <= k * n) by (nonlinear_arith)
            requires
                k >= 1,
                n >= 0,
        ;
        assert(k <= m * k) by (nonlinear_arith)
            requires
                m >= 1,
                k >= 0,
        ;
        assert forall|i: int| 0 <= i < k implies (row * k) + i < a.items@.len() && (#[trigger] xs[i])
            == a.items@[(row * k) + i]@ by {
            lemma_within(row as int, k as int, i, m as int);
        }
        assert forall|i: int| 0 <= i < k implies #[trigger] (i * n) + col < b.items@.len() && ys[i]
            == b.items@[(i * n) + col]@ by {
            lemma_within(i, n as int, col as int, k as int);
        }
        assert(row * k <= a.items.len());
    }
    let base: usize = (row as u128 * k as u128) as usize;
    proof {
        let wide = n as usize;
        assert forall|i: int| 0 <= i < k implies #[trigger] (i * wide) + col < b.items@.len() && ys[i]
            == b.items@[(i * wide) + col]@ by {
            assert((i * n) + col < b.items@.len());
        }
    }
    dot_product(&a.items, base, &b.items, col as usize, n as usize, k as usize, Ghost(xs), Ghost(ys))
}

/// `·`: dot product for two vectors, matrix multiplication otherwise.
pub fn ahpcl_array_dot(a: &Array, b: &Array) -> (r: Result<Array, Halt>)
    ensures
        array_result(r) == dot_arrays(a@, b@),
{
    if a.shape.len() == 1 && b.shape.len() == 1 {
        if a.items.len() != b.items.len() {
            return Err(stop("AHPCL-RUN-0002", "a dot product needs two vectors of the same length"));
        }
        let ghost xs = a@.items;
        let ghost ys = b@.items;
        proof {
            assert forall|i: int| 0 <= i < a.items.len() implies #[trigger] (i * 1usize) + 0 < b.items@.len() && ys[i]
                == b.items@[(i * 1usize) + 0]@ by {
                assert(i * 1usize == i);
            }
        }
        return match dot_product(&a.items, 0, &b.items, 0, 1, a.items.len(), Ghost(xs), Ghost(ys)) {
            Ok(total) => {
                let mut items: Vec<Cell> = Vec::new();
                items.push(total);
                let kind: u32 = result_kind(&items);
                let mut shape: Vec<u64> = Vec::new();
                shape.push(1);
                proof {
                    assert(cells_of(items@) =~= seq![total@]);
                    assert(shape@ =~= seq![1u64]);
                    reveal_with_fuel(widest_kind, 2);
                }
                Ok(Array { items, shape, kind })
            },
            Err(h) => Err(h),
        };
    }
    matmul(a, b)
}

/// One component of a cross product.
pub open spec fn cross_part(u: Seq<CellView>, v: Seq<CellView>, i: int, j: int) -> Result<CellView, HaltView> {
    match cell_arith(OP_MUL, u[i], v[j]) {
        Ok(l) => match cell_arith(OP_MUL, u[j], v[i]) {
            Ok(r) => cell_arith(OP_SUB, l, r),
            Err(h) => Err(h),
        },
        Err(h) => Err(h),
    }
}

pub open spec fn cross_arrays(u: Seq<CellView>, v: Seq<CellView>) -> Result<ArrayView, HaltView> {
    if u.len() != 3 || v.len() != 3 {
        halt("AHPCL-RUN-0002"@, "cross product is defined for two 3-element vectors"@)
    } else {
        match cross_part(u, v, 1, 2) {
            Err(h) => Err(h),
            Ok(a) => match cross_part(u, v, 2, 0) {
                Err(h) => Err(h),
                Ok(b) => match cross_part(u, v, 0, 1) {
                    Err(h) => Err(h),
                    Ok(c) => Ok(vector_of(seq![a, b, c], kind_among(seq![a, b, c]))),
                },
            },
        }
    }
}

fn cross_component(u: &Vec<Cell>, v: &Vec<Cell>, i: usize, j: usize) -> (r: Result<Cell, Halt>)
    requires
        i < u.len(),
        j < u.len(),
        i < v.len(),
        j < v.len(),
    ensures
        cell_result(r) == cross_part(cells_of(u@), cells_of(v@), i as int, j as int),
{
    match arith(OP_MUL, &u[i], &v[j]) {
        Ok(l) => match arith(OP_MUL, &u[j], &v[i]) {
            Ok(q) => arith(OP_SUB, &l, &q),
            Err(h) => Err(h),
        },
        Err(h) => Err(h),
    }
}

/// `×`: cross product, defined only for two 3-element vectors.
pub fn ahpcl_array_cross(a: &Array, b: &Array) -> (r: Result<Array, Halt>)
    ensures
        array_result(r) == cross_arrays(a@.items, b@.items),
{
    if a.items.len() != 3 || b.items.len() != 3 {
        return Err(stop("AHPCL-RUN-0002", "cross product is defined for two 3-element vectors"));
    }
    let x: Cell = match cross_component(&a.items, &b.items, 1, 2) {
        Ok(c) => c,
        Err(h) => {
            return Err(h);
        },
    };
    let y: Cell = match cross_component(&a.items, &b.items, 2, 0) {
        Ok(c) => c,
        Err(h) => {
            return Err(h);
        },
    };
    let z: Cell = match cross_component(&a.items, &b.items, 0, 1) {
        Ok(c) => c,
        Err(h) => {
            return Err(h);
        },
    };
    let mut items: Vec<Cell> = Vec::new();
    items.push(x);
    items.push(y);
    items.push(z);
    assert(cells_of(items@) =~= seq![x@, y@, z@]);
    let kind: u32 = result_kind(&items);
    Ok(Array::vector(items, kind))
}

pub open spec fn spread_left(x: Seq<CellView>, n: nat) -> Seq<CellView> {
    Seq::new(x.len() * n, |i: int| x[i / n as int])
}

pub open spec fn spread_right(y: Seq<CellView>, m: nat) -> Seq<CellView> {
    Seq::new(m * y.len(), |i: int| y[i % y.len() as int])
}

/// The products of the first `n` pairs of two lists.
pub open spec fn products(xs: Seq<CellView>, ys: Seq<CellView>, n: nat) -> Result<Seq<CellView>, HaltView>
    decreases n,
{
    if n == 0 {
        Ok(Seq::empty())
    } else {
        match products(xs, ys, (n - 1) as nat) {
            Err(h) => Err(h),
            Ok(done) => match cell_arith(OP_MUL, xs[n - 1], ys[n - 1]) {
                Ok(c) => Ok(done.push(c)),
                Err(h) => Err(h),
            },
        }
    }
}

proof fn lemma_products_fail(xs: Seq<CellView>, ys: Seq<CellView>, k: nat, n: nat)
    requires
        k <= n,
        products(xs, ys, k) is Err,
    ensures
        products(xs, ys, n) == products(xs, ys, k),
    decreases n,
{
    if k < n {
        lemma_products_fail(xs, ys, k, (n - 1) as nat);
    }
}

/// `⊗`: every pairing, with the shapes one behind the other.
pub fn ahpcl_array_tensor(a: &Array, b: &Array) -> (r: Result<Array, Halt>)
    ensures
        array_result(r) == (match products(
            spread_left(a@.items, b@.items.len()),
            spread_right(b@.items, a@.items.len()),
            a@.items.len() * b@.items.len(),
        ) {
            Ok(items) => Ok(ArrayView { items, shape: a@.shape + b@.shape, kind: kind_among(items) }),
            Err(h) => Err(h),
        }),
{
    let items: Vec<Cell> = match tensor_items(&a.items, &b.items) {
        Ok(v) => v,
        Err(h) => {
            return Err(h);
        },
    };
    let kind: u32 = result_kind(&items);
    let mut shape: Vec<u64> = copied_shape(&a.shape);
    let ghost head = shape@;
    let mut j: usize = 0;
    assert(head + b.shape@.take(0) =~= head);
    while j < b.shape.len()
        invariant
            j <= b.shape.len(),
            shape@ == head + b.shape@.take(j as int),
        decreases b.shape.len() - j,
    {
        shape.push(b.shape[j]);
        j = j + 1;
        assert(shape@ =~= head + b.shape@.take(j as int));
    }
    assert(b.shape@.take(b.shape@.len() as int) =~= b.shape@);
    Ok(Array { items, shape, kind })
}

fn tensor_items(x: &Vec<Cell>, y: &Vec<Cell>) -> (r: Result<Vec<Cell>, Halt>)
    ensures
        cells_result(r) == products(
            spread_left(cells_of(x@), y@.len()),
            spread_right(cells_of(y@), x@.len()),
            x@.len() * y@.len(),
        ),
{
    let mut out: Vec<Cell> = Vec::new();
    let ghost left = spread_left(cells_of(x@), y@.len());
    let ghost right = spread_right(cells_of(y@), x@.len());
    assert(cells_of(out@) =~= Seq::empty());
    let mut i: usize = 0;
    assert(0 * y@.len() == 0);
    while i < x.len()
        invariant
            i <= x.len(),
            left == spread_left(cells_of(x@), y@.len()),
            right == spread_right(cells_of(y@), x@.len()),
            products(left, right, (i * y@.len()) as nat) == Ok::<Seq<CellView>, HaltView>(cells_of(out@)),
        decreases x.len() - i,
    {
        let mut j: usize = 0;
        while j < y.len()
            invariant
                i < x.len(),
                j <= y.len(),
                left == spread_left(cells_of(x@), y@.len()),
                right == spread_right(cells_of(y@), x@.len()),
                products(left, right, (i * y@.len() + j) as nat) == Ok::<Seq<CellView>, HaltView>(cells_of(out@)),
            decreases y.len() - j,
        {
            let ghost at = i * y@.len() + j;
            proof {
                lemma_within(i as int, y@.len() as int, j as int, x@.len() as int);
                lemma_fundamental_div_mod_converse(at, y@.len() as int, i as int, j as int);
                assert(left[at] == x@[i as int]@);
                assert(right[at] == y@[j as int]@);
            }
            match arith(OP_MUL, &x[i], &y[j]) {
                Ok(c) => {
                    proof {
                        lemma_cells_push(out@, c);
                    }
                    out.push(c);
                },
                Err(h) => {
                    proof {
                        lemma_products_fail(left, right, (at + 1) as nat, x@.len() * y@.len());
                    }
                    return Err(h);
                },
            }
            j = j + 1;
        }
        i = i + 1;
        proof {
            let w = y@.len();
            assert((i - 1) * w + w == i * w) by (nonlinear_arith);
        }
    }
    Ok(out)
}

/// The sum of the first `n` cells.
pub open spec fn total_of(items: Seq<CellView>, n: nat) -> Result<CellView, HaltView>
    decreases n,
{
    if n == 0 {
        Ok(CellView::Int(0))
    } else {
        match total_of(items, (n - 1) as nat) {
            Ok(t) => cell_arith(OP_ADD, t, items[n - 1]),
            Err(h) => Err(h),
        }
    }
}

proof fn lemma_total_fails(items: Seq<CellView>, k: nat, n: nat)
    requires
        k <= n,
        total_of(items, k) is Err,
    ensures
        total_of(items, n) == total_of(items, k),
    decreases n,
{
    if k < n {
        lemma_total_fails(items, k, (n - 1) as nat);
    }
}

/// Sum every element: a bare array reference in arithmetic reduces to the total of its
/// elements rather than staying an array.
pub fn ahpcl_array_sum(a: &Array) -> (r: Result<Cell, Halt>)
    ensures
        cell_result(r) == total_of(a@.items, a@.items.len()),
{
    let ghost views = a@.items;
    let mut total: Cell = Cell::Int(0);
    let mut i: usize = 0;
    while i < a.items.len()
        invariant
            i <= a.items.len(),
            views == a@.items,
            total_of(views, i as nat) == Ok::<CellView, HaltView>(total@),
        decreases a.items.len() - i,
    {
        match arith(OP_ADD, &total, &a.items[i]) {
            Ok(c) => {
                total = c;
            },
            Err(h) => {
                proof {
                    lemma_total_fails(views, (i + 1) as nat, views.len());
                }
                return Err(h);
            },
        }
        i = i + 1;
    }
    Ok(total)
}

/// A quotient with its fraction cut off towards zero.
pub open spec fn truncated(n: int, d: int) -> int {
    if (n < 0) == (d < 0) {
        abs_int(n) as int / abs_int(d) as int
    } else {
        -(abs_int(n) as int / abs_int(d) as int)
    }
}

/// A `num` as a whole number, its fraction cut off towards zero.
pub open spec fn num_int(c: CellView) -> int {
    match c {
        CellView::Int(v) => v as int,
        CellView::Bool(b) => bit(b) as int,
        CellView::Deci(d) => if fits(ten(d.scale as nat)) {
            truncated(d.mantissa as int, ten(d.scale as nat))
        } else {
            0
        },
        CellView::Rat(r) => truncated(r.num as int, r.den as int),
        CellView::Str(_) => 0,
    }
}

fn truncate(n: i128, d: i128) -> (r: i128)
    requires
        d != 0,
        !(n == i128::MIN && d == -1),
    ensures
        r == truncated(n as int, d as int),
{
    let q: u128 = magnitude(n) / magnitude(d);
    proof {
        let x = abs_int(n as int) as int;
        let y = abs_int(d as int) as int;
        assert(0 <= x / y <= x) by (nonlinear_arith)
            requires
                x >= 0,
                y >= 1,
        ;
        if y >= 2 {
            assert(x / y <= x / 2) by (nonlinear_arith)
                requires
                    x >= 0,
                    y >= 2,
            ;
        }
        if y == 1 {
            assert(x / 1 == x);
        }
    }
    match signed((n < 0) != (d < 0), q) {
        Some(v) => v,
        None => {
            assert(false);
            0
        },
    }
}

pub fn ahpcl_num_to_int(c: &Cell) -> (r: i128)
    requires
        c@ matches CellView::Rat(q) ==> q.den != 0 && !(q.num == i128::MIN && q.den == -1),
    ensures
        r == num_int(c@),
{
    match c {
        Cell::Int(v) => *v,
        Cell::Bool(b) => if *b {
            1
        } else {
            0
        },
        Cell::Deci(d) => match pow10(d.scale) {
            Some(p) => {
                proof {
                    lemma_pow_positive(10, d.scale as nat);
                }
                truncate(d.mantissa, p)
            },
            None => 0,
        },
        Cell::Rat(q) => truncate(q.num, q.den),
        Cell::Str(_) => 0,
    }
}

} // verus!
