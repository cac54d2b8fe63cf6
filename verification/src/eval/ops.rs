//! Operations on single values: arithmetic, comparison, and what is asked of the world
//! outside when an operation cannot be done exactly here.

use core::cmp::Ordering;

use vstd::arithmetic::div_mod::*;
use vstd::arithmetic::power::*;
use vstd::prelude::*;
use vstd::string::*;

use crate::ast::{BinOp, UnOp};
use crate::diagnostics::error::{fault, fault_view, Category, Error, ErrorView};
use crate::diagnostics::position::Span;
use crate::eval::decimal::{
    decimal_difference, decimal_power, decimal_product, decimal_quotient, decimal_remainder, decimal_sum,
    decimal_whole_quotient, normal, order_of, Decimal,
};
use crate::eval::numeric::{
    as_bool, asks_for, bool_from, decimal_from, digits_of, digits_wanted, hint_is, int_pow, numeric_sign,
    rational_from, sign_of, square_root, to_decimal, to_rational, whole_part, whole_value, Family, Numeric,
    SQRT_MAX_DIGITS,
};
use crate::eval::rational::{
    rational_difference, rational_int_power, rational_order, rational_product, rational_quotient,
    rational_sum, Rational,
};
use crate::eval::value::{kind_text, vals_of, Val, Value};
use crate::text::{cat3, cat4, chars_of, fits};

verus! {

// ── asking ──────────────────────────────────────────────────────────────────

/// Something only the world outside can answer.
#[derive(Debug)]
pub enum Request {
    /// A power with an exponent that is not a whole number: irrational as a rule, so it is
    /// computed approximately and rounded to some number of digits.
    Power { base: Decimal, exponent: Decimal, digits: u32 },
    /// A function that is irrational as a rule, rounded to some number of digits.
    Function { op: UnOp, argument: Value, digits: u32 },
    /// The text of a file.
    Read { path: String },
    /// The time, in seconds.
    Clock,
}

/// What the world outside answered.
#[derive(Debug)]
pub enum Answer {
    /// A number; none where the result is not finite or does not fit.
    Number(Option<Decimal>),
    Text(String),
    /// A file could not be read, and why.
    Unreadable(String),
}

pub enum RequestView {
    Power { base: Decimal, exponent: Decimal, digits: u32 },
    Function { op: UnOp, argument: Val, digits: u32 },
    Read { path: Seq<char> },
    Clock,
}

pub enum AnswerView {
    Number(Option<Decimal>),
    Text(Seq<char>),
    Unreadable(Seq<char>),
}

impl View for Request {
    type V = RequestView;

    open spec fn view(&self) -> RequestView {
        match *self {
            Request::Power { base, exponent, digits } => RequestView::Power { base, exponent, digits },
            Request::Function { op, argument, digits } => RequestView::Function {
                op,
                argument: argument@,
                digits,
            },
            Request::Read { path } => RequestView::Read { path: path@ },
            Request::Clock => RequestView::Clock,
        }
    }
}

impl View for Answer {
    type V = AnswerView;

    open spec fn view(&self) -> AnswerView {
        match *self {
            Answer::Number(d) => AnswerView::Number(d),
            Answer::Text(t) => AnswerView::Text(t@),
            Answer::Unreadable(t) => AnswerView::Unreadable(t@),
        }
    }
}

/// Why a computation did not come to a value.
#[derive(Debug)]
pub enum Stop {
    /// It failed.
    Fail(Error),
    /// It waits for an answer.
    Ask(Request),
}

pub enum StopView {
    Fail(ErrorView),
    Ask(RequestView),
}

impl View for Stop {
    type V = StopView;

    open spec fn view(&self) -> StopView {
        match *self {
            Stop::Fail(e) => StopView::Fail(e@),
            Stop::Ask(r) => StopView::Ask(r@),
        }
    }
}

/// What a computation of a value came to.
pub open spec fn result_view(r: Result<Value, Stop>) -> Result<Val, StopView> {
    match r {
        Ok(v) => Ok(v@),
        Err(s) => Err(s@),
    }
}

pub open spec fn fail<T>(e: ErrorView) -> Result<T, StopView> {
    Err(StopView::Fail(e))
}

// ── the errors ──────────────────────────────────────────────────────────────

pub open spec fn overflow(span: Span) -> ErrorView {
    fault_view(
        Category::Prec,
        4,
        span,
        "this calculation overflowed the value's precision."@,
        "widen the type, or use infnum."@,
    )
}

fn overflow_error(span: Span) -> (r: Error)
    ensures
        r@ == overflow(span),
{
    fault(
        Category::Prec,
        4,
        span,
        "this calculation overflowed the value's precision.".to_owned(),
        "widen the type, or use infnum.",
    )
}

pub open spec fn zero_divisor(span: Span, remainder: bool) -> ErrorView {
    fault_view(
        Category::Run,
        2,
        span,
        if remainder {
            "remainder by zero."@
        } else {
            "division by zero."@
        },
        "check the divisor."@,
    )
}

fn zero_divisor_error(span: Span, remainder: bool) -> (r: Error)
    ensures
        r@ == zero_divisor(span, remainder),
{
    fault(
        Category::Run,
        2,
        span,
        if remainder {
            "remainder by zero.".to_owned()
        } else {
            "division by zero.".to_owned()
        },
        "check the divisor.",
    )
}

pub open spec fn not_a_number(v: Val, span: Span) -> ErrorView {
    fault_view(
        Category::Run,
        1,
        span,
        "arithmetic needs a number, but this is "@ + kind_text(v) + "."@,
        "check the operand's type."@,
    )
}

fn not_a_number_error(v: &Value, span: Span) -> (r: Error)
    ensures
        r@ == not_a_number(v@, span),
{
    fault(
        Category::Run,
        1,
        span,
        cat3("arithmetic needs a number, but this is ", v.kind_name(), "."),
        "check the operand's type.",
    )
}

pub open spec fn sum_overflow(span: Span) -> ErrorView {
    fault_view(
        Category::Prec,
        4,
        span,
        "summing this array overflowed the value's precision."@,
        "widen the element type, or use infnum."@,
    )
}

pub fn sum_overflow_error(span: Span) -> (r: Error)
    ensures
        r@ == sum_overflow(span),
{
    fault(
        Category::Prec,
        4,
        span,
        "summing this array overflowed the value's precision.".to_owned(),
        "widen the element type, or use infnum.",
    )
}

pub open spec fn operand_fault(span: Span, what: Seq<char>) -> ErrorView {
    fault_view(Category::Run, 1, span, what, "check the operand."@)
}

fn operand_error(span: Span, what: String) -> (r: Error)
    ensures
        r@ == operand_fault(span, what@),
{
    fault(Category::Run, 1, span, what, "check the operand.")
}

// ── answers ─────────────────────────────────────────────────────────────────

pub open spec fn unreadable(path: Seq<char>, why: Seq<char>, span: Span) -> ErrorView {
    fault_view(
        Category::Run,
        1,
        span,
        path + " could not be read — "@ + why + "."@,
        "check the path, and that the file exists."@,
    )
}

fn unreadable_error(path: &str, why: &str, span: Span) -> (r: Error)
    ensures
        r@ == unreadable(path@, why@, span),
{
    fault(
        Category::Run,
        1,
        span,
        cat4(path, " could not be read — ", why, "."),
        "check the path, and that the file exists.",
    )
}

/// What an answer makes of the computation that asked.
#[verifier::opaque]
pub open spec fn settled(req: RequestView, answer: AnswerView, span: Span) -> Result<Val, ErrorView> {
    match req {
        RequestView::Power { .. } => match answer {
            AnswerView::Number(Some(d)) => Ok(Val::Deci(normal(d))),
            _ => Err(overflow(span)),
        },
        RequestView::Function { .. } => match answer {
            AnswerView::Number(Some(d)) => Ok(Val::Deci(normal(d))),
            _ => Err(
                fault_view(
                    Category::Prec,
                    4,
                    span,
                    "this result does not fit in the value's precision."@,
                    "widen the type, or use infnum."@,
                ),
            ),
        },
        RequestView::Read { path } => match answer {
            AnswerView::Text(t) => Ok(Val::Str(t)),
            AnswerView::Unreadable(why) => Err(unreadable(path, why, span)),
            AnswerView::Number(_) => Err(unreadable(path, ""@, span)),
        },
        RequestView::Clock => match answer {
            AnswerView::Number(Some(d)) => Ok(Val::Deci(d)),
            _ => Ok(Val::Deci(Decimal { mantissa: 0, scale: 0 })),
        },
    }
}

/// Finish a computation that asked, now that there is an answer.
pub fn settle(req: Request, answer: &Answer, span: Span) -> (r: Result<Value, Stop>)
    ensures
        result_view(r) == (match settled(req@, answer@, span) {
            Ok(v) => Ok(v),
            Err(e) => fail(e),
        }),
{
    reveal(settled);
    match req {
        Request::Power { .. } => match answer {
            Answer::Number(Some(d)) => Ok(Value::Deci(d.normalised())),
            _ => Err(Stop::Fail(overflow_error(span))),
        },
        Request::Function { .. } => match answer {
            Answer::Number(Some(d)) => Ok(Value::Deci(d.normalised())),
            _ => Err(
                Stop::Fail(
                    fault(
                        Category::Prec,
                        4,
                        span,
                        "this result does not fit in the value's precision.".to_owned(),
                        "widen the type, or use infnum.",
                    ),
                ),
            ),
        },
        Request::Read { path } => match answer {
            Answer::Text(t) => Ok(Value::Str(t.clone())),
            Answer::Unreadable(why) => Err(Stop::Fail(unreadable_error(path.as_str(), why.as_str(), span))),
            Answer::Number(_) => Err(Stop::Fail(unreadable_error(path.as_str(), "", span))),
        },
        Request::Clock => match answer {
            Answer::Number(Some(d)) => Ok(Value::Deci(*d)),
            _ => Ok(Value::Deci(Decimal::from_int(0))),
        },
    }
}

// ── sums ────────────────────────────────────────────────────────────────────

/// One more value added to a running total.
pub open spec fn added(total: Val, item: Val) -> Option<Val> {
    match (total, item) {
        (Val::Int(x), Val::Int(y)) => if fits(x + y) {
            Some(Val::Int((x + y) as i128))
        } else {
            None
        },
        _ => match (decimal_from(total), decimal_from(item)) {
            (Some(p), Some(q)) => match decimal_sum(p, q) {
                Some(d) => Some(Val::Deci(normal(d))),
                None => None,
            },
            _ => None,
        },
    }
}

/// The sum of the first `n` values.
pub open spec fn sum_of(items: Seq<Val>, n: nat) -> Option<Val>
    decreases n,
{
    if n == 0 {
        Some(Val::Int(0))
    } else {
        match sum_of(items, (n - 1) as nat) {
            Some(t) => added(t, items[n - 1]),
            None => None,
        }
    }
}

/// An array as the sum of its elements; a single value as it is.
#[verifier::opaque]
pub open spec fn summed(v: Val) -> Option<Val> {
    match v {
        Val::Array { items, .. } => sum_of(items, items.len()),
        _ => Some(v),
    }
}

proof fn lemma_sum_stays_none(items: Seq<Val>, k: nat, n: nat)
    requires
        k <= n,
        sum_of(items, k) is None,
    ensures
        sum_of(items, n) is None,
    decreases n,
{
    if k < n {
        lemma_sum_stays_none(items, k, (n - 1) as nat);
    }
}

fn add_to(total: Value, item: &Value) -> (r: Option<Value>)
    ensures
        match r {
            Some(v) => added(total@, item@) == Some(v@),
            None => added(total@, item@) is None,
        },
{
    if let Value::Int(x) = &total {
        if let Value::Int(y) = item {
            return match x.checked_add(*y) {
                Some(v) => Some(Value::Int(v)),
                None => None,
            };
        }
    }
    match (to_decimal(&total), to_decimal(item)) {
        (Some(p), Some(q)) => match p.add(q) {
            Some(d) => Some(Value::Deci(d.normalised())),
            None => None,
        },
        _ => None,
    }
}

/// A bare array reference sums its elements. Nothing on overflow, rather than wrapping.
pub fn try_reduce_array(v: Value) -> (r: Option<Value>)
    ensures
        match r {
            Some(t) => summed(v@) == Some(t@),
            None => summed(v@) is None,
        },
{
    reveal(summed);
    broadcast use crate::eval::value::lemma_array_view;

    match v {
        Value::Array(a) => {
            let mut total: Value = Value::Int(0);
            let mut i: usize = 0;
            let ghost items = vals_of(a.items@);
            while i < a.items.len()
                invariant
                    i <= a.items.len(),
                    items == vals_of(a.items@),
                    summed(v@) == sum_of(items, items.len()),
                    sum_of(items, i as nat) == Some(total@),
                decreases a.items.len() - i,
            {
                match add_to(total, &a.items[i]) {
                    Some(t) => {
                        total = t;
                    },
                    None => {
                        proof {
                            lemma_sum_stays_none(items, (i + 1) as nat, items.len());
                        }
                        return None;
                    },
                }
                i = i + 1;
            }
            Some(total)
        },
        other => Some(other),
    }
}

// ── arithmetic ──────────────────────────────────────────────────────────────

pub open spec fn int_result(n: int, span: Span) -> Result<Val, StopView> {
    if fits(n) {
        Ok(Val::Int(n as i128))
    } else {
        fail(overflow(span))
    }
}

/// Whole numbers stay whole numbers, whatever is done to them but dividing.
pub open spec fn int_arithmetic(op: BinOp, x: i128, y: i128, span: Span) -> Result<Val, StopView> {
    match op {
        BinOp::Add => int_result(x + y, span),
        BinOp::Sub => int_result(x - y, span),
        BinOp::Mul => int_result(x * y, span),
        BinOp::IntDiv => if y == 0 {
            fail(zero_divisor(span, false))
        } else {
            int_result(x as int / y as int, span)
        },
        BinOp::Mod => if y == 0 {
            fail(zero_divisor(span, true))
        } else {
            int_result(x as int % y as int, span)
        },
        BinOp::Pow => if y < 0 || y > u32::MAX {
            fail(overflow(span))
        } else {
            int_result(pow(x as int, y as nat), span)
        },
        _ => fail(overflow(span)),
    }
}

pub open spec fn decimal_result(d: Option<Decimal>, span: Span) -> Result<Val, StopView> {
    match d {
        Some(d) => Ok(Val::Deci(normal(d))),
        None => fail(overflow(span)),
    }
}

/// Division follows the context: a fraction where exactness was asked for, a decimal
/// otherwise.
pub open spec fn division(a: Val, b: Val, span: Span, hint: Option<Numeric>) -> Result<Val, StopView> {
    if asks_for(hint, Family::Rat) {
        match rational_quotient(rational_from(a), rational_from(b)) {
            Some(r) => Ok(Val::Rat(r)),
            None => fail(zero_divisor(span, false)),
        }
    } else {
        match (decimal_from(a), decimal_from(b)) {
            (None, _) => fail(not_a_number(a, span)),
            (_, None) => fail(not_a_number(b, span)),
            (Some(x), Some(y)) => match decimal_quotient(x, y, digits_wanted(hint) as nat) {
                Some(d) => Ok(Val::Deci(normal(d))),
                None => if y.mantissa == 0 {
                    fail(zero_divisor(span, false))
                } else {
                    fail(overflow(span))
                },
            },
        }
    }
}

/// A power of a decimal: exact where the exponent is a whole number in range.
pub open spec fn decimal_to_the(x: Decimal, y: Decimal, span: Span, hint: Option<Numeric>) -> Result<Val, StopView> {
    let e = normal(y);
    if e.scale == 0 && 0 <= e.mantissa <= u32::MAX {
        decimal_result(decimal_power(x, e.mantissa as nat), span)
    } else {
        Err(StopView::Ask(RequestView::Power { base: x, exponent: y, digits: digits_wanted(hint) }))
    }
}

pub open spec fn decimal_arithmetic(op: BinOp, x: Decimal, y: Decimal, span: Span, hint: Option<Numeric>) -> Result<
    Val,
    StopView,
> {
    match op {
        BinOp::Add => decimal_result(decimal_sum(x, y), span),
        BinOp::Sub => decimal_result(decimal_difference(x, y), span),
        BinOp::Mul => decimal_result(decimal_product(x, y), span),
        BinOp::IntDiv => if y.mantissa == 0 {
            fail(zero_divisor(span, false))
        } else {
            match decimal_whole_quotient(x, y) {
                Some(q) => Ok(Val::Int(q as i128)),
                None => fail(overflow(span)),
            }
        },
        BinOp::Mod => if y.mantissa == 0 {
            fail(zero_divisor(span, true))
        } else {
            decimal_result(decimal_remainder(x, y), span)
        },
        BinOp::Pow => decimal_to_the(x, y, span, hint),
        _ => fail(overflow(span)),
    }
}

pub open spec fn rational_arithmetic(op: BinOp, x: Rational, y: Rational, span: Span) -> Result<Val, StopView> {
    let out = match op {
        BinOp::Add => rational_sum(x, y),
        BinOp::Sub => rational_difference(x, y),
        BinOp::Mul => rational_product(x, y),
        BinOp::Pow => if y.den == 1 && -i32::MAX <= y.num <= i32::MAX {
            rational_int_power(x, y.num as int)
        } else {
            None
        },
        _ => None,
    };
    match out {
        Some(r) => Ok(Val::Rat(r)),
        None => fail(overflow(span)),
    }
}

/// What an arithmetic operator makes of two single values.
#[verifier::opaque]
pub open spec fn arith(op: BinOp, a: Val, b: Val, span: Span, hint: Option<Numeric>) -> Result<Val, StopView> {
    if op == BinOp::Div {
        division(a, b, span, hint)
    } else if a is Int && b is Int {
        int_arithmetic(op, a->Int_0, b->Int_0, span)
    } else if (a is Deci || b is Deci) && decimal_from(a) is Some && decimal_from(b) is Some {
        decimal_arithmetic(op, decimal_from(a)->0, decimal_from(b)->0, span, hint)
    } else {
        rational_arithmetic(op, rational_from(a), rational_from(b), span)
    }
}

fn checked_int(v: Option<i128>, span: Span) -> (r: Result<Value, Stop>)
    ensures
        result_view(r) == (match v {
            Some(n) => Ok(Val::Int(n)),
            None => fail(overflow(span)),
        }),
{
    match v {
        Some(n) => Ok(Value::Int(n)),
        None => Err(Stop::Fail(overflow_error(span))),
    }
}

fn int_arith(op: BinOp, x: i128, y: i128, span: Span) -> (r: Result<Value, Stop>)
    ensures
        result_view(r) == int_arithmetic(op, x, y, span),
{
    match op {
        BinOp::Add => checked_int(x.checked_add(y), span),
        BinOp::Sub => checked_int(x.checked_sub(y), span),
        BinOp::Mul => checked_int(x.checked_mul(y), span),
        BinOp::IntDiv => if y == 0 {
            Err(Stop::Fail(zero_divisor_error(span, false)))
        } else {
            checked_int(x.checked_div_euclid(y), span)
        },
        BinOp::Mod => if y == 0 {
            Err(Stop::Fail(zero_divisor_error(span, true)))
        } else if y == -1 {
            proof {
                assert(x as int % -1 == 0) by (nonlinear_arith);
            }
            Ok(Value::Int(0))
        } else {
            proof {
                lemma_remainder_in_range(x as int, y as int);
            }
            checked_int(x.checked_rem_euclid(y), span)
        },
        BinOp::Pow => if y < 0 || y > 0xffff_ffff {
            Err(Stop::Fail(overflow_error(span)))
        } else {
            checked_int(int_pow(x, y as u32), span)
        },
        _ => Err(Stop::Fail(overflow_error(span))),
    }
}

proof fn lemma_remainder_in_range(x: int, y: int)
    requires
        y != 0,
        fits(y),
    ensures
        fits(x % y),
{
    let r = x % y;
    assert(0 <= r && (r < y || r < -y)) by (nonlinear_arith)
        requires
            r == x % y,
            y != 0,
    ;
}

fn checked_decimal(v: Option<Decimal>, span: Span) -> (r: Result<Value, Stop>)
    ensures
        result_view(r) == decimal_result(v, span),
{
    match v {
        Some(d) => Ok(Value::Deci(d.normalised())),
        None => Err(Stop::Fail(overflow_error(span))),
    }
}

fn divide(a: &Value, b: &Value, span: Span, hint: Option<Numeric>) -> (r: Result<Value, Stop>)
    ensures
        result_view(r) == division(a@, b@, span, hint),
{
    if hint_is(hint, Family::Rat) {
        return match to_rational(a).div(to_rational(b)) {
            Some(q) => Ok(Value::Rat(q)),
            None => Err(Stop::Fail(zero_divisor_error(span, false))),
        };
    }
    let x: Decimal = match to_decimal(a) {
        Some(x) => x,
        None => {
            return Err(Stop::Fail(not_a_number_error(a, span)));
        },
    };
    let y: Decimal = match to_decimal(b) {
        Some(y) => y,
        None => {
            return Err(Stop::Fail(not_a_number_error(b, span)));
        },
    };
    match x.div_exact(y, digits_of(hint)) {
        Some(d) => Ok(Value::Deci(d.normalised())),
        None => if y.is_zero() {
            Err(Stop::Fail(zero_divisor_error(span, false)))
        } else {
            Err(Stop::Fail(overflow_error(span)))
        },
    }
}

fn decimal_arith(op: BinOp, x: Decimal, y: Decimal, span: Span, hint: Option<Numeric>) -> (r: Result<Value, Stop>)
    ensures
        result_view(r) == decimal_arithmetic(op, x, y, span, hint),
{
    match op {
        BinOp::Add => checked_decimal(x.add(y), span),
        BinOp::Sub => checked_decimal(x.sub(y), span),
        BinOp::Mul => checked_decimal(x.mul(y), span),
        BinOp::IntDiv => if y.is_zero() {
            Err(Stop::Fail(zero_divisor_error(span, false)))
        } else {
            checked_int(x.int_div(y), span)
        },
        BinOp::Mod => if y.is_zero() {
            Err(Stop::Fail(zero_divisor_error(span, true)))
        } else {
            checked_decimal(x.rem(y), span)
        },
        BinOp::Pow => {
            let e: Decimal = y.normalised();
            if e.scale == 0 && 0 <= e.mantissa && e.mantissa <= 0xffff_ffff {
                checked_decimal(x.pow_int(e.mantissa as u32), span)
            } else {
                Err(Stop::Ask(Request::Power { base: x, exponent: y, digits: digits_of(hint) }))
            }
        },
        _ => Err(Stop::Fail(overflow_error(span))),
    }
}

fn rational_arith(op: BinOp, x: Rational, y: Rational, span: Span) -> (r: Result<Value, Stop>)
    ensures
        result_view(r) == rational_arithmetic(op, x, y, span),
{
    let out: Option<Rational> = match op {
        BinOp::Add => x.add(y),
        BinOp::Sub => x.sub(y),
        BinOp::Mul => x.mul(y),
        BinOp::Pow => if y.den == 1 && -2147483647 <= y.num && y.num <= 2147483647 {
            x.pow_int(y.num as i32)
        } else {
            None
        },
        _ => None,
    };
    match out {
        Some(q) => Ok(Value::Rat(q)),
        None => Err(Stop::Fail(overflow_error(span))),
    }
}

/// Arithmetic on two single values.
pub fn arithmetic(op: BinOp, a: &Value, b: &Value, span: Span, hint: Option<Numeric>) -> (r: Result<Value, Stop>)
    ensures
        result_view(r) == arith(op, a@, b@, span, hint),
{
    reveal(arith);
    if op == BinOp::Div {
        return divide(a, b, span, hint);
    }
    if let Value::Int(x) = a {
        if let Value::Int(y) = b {
            return int_arith(op, *x, *y, span);
        }
    }
    let exact: bool = match (a, b) {
        (Value::Deci(_), _) => true,
        (_, Value::Deci(_)) => true,
        _ => false,
    };
    if exact {
        if let (Some(x), Some(y)) = (to_decimal(a), to_decimal(b)) {
            return decimal_arith(op, x, y, span, hint);
        }
    }
    rational_arith(op, to_rational(a), to_rational(b), span)
}

// ── comparison ──────────────────────────────────────────────────────────────

/// Texts in the order of the code points they are made of: -1 where the first comes first,
/// 1 where the second does, 0 where they are the same.
pub open spec fn text_order(a: Seq<char>, b: Seq<char>) -> int
    decreases a.len(),
{
    if a.len() == 0 && b.len() == 0 {
        0
    } else if a.len() == 0 {
        -1
    } else if b.len() == 0 {
        1
    } else if a[0] < b[0] {
        -1
    } else if a[0] > b[0] {
        1
    } else {
        text_order(a.skip(1), b.skip(1))
    }
}

pub fn order_texts(a: &str, b: &str) -> (r: i32)
    ensures
        r == text_order(a@, b@),
{
    let x: Vec<char> = chars_of(a);
    let y: Vec<char> = chars_of(b);
    let mut i: usize = 0;
    assert(x@.skip(0) =~= x@);
    assert(y@.skip(0) =~= y@);
    while i < x.len() && i < y.len()
        invariant
            i <= x.len(),
            i <= y.len(),
            x@ == a@,
            y@ == b@,
            text_order(a@, b@) == text_order(x@.skip(i as int), y@.skip(i as int)),
        decreases x.len() - i,
    {
        if x[i] < y[i] {
            return -1;
        }
        if x[i] > y[i] {
            return 1;
        }
        proof {
            assert(x@.skip(i as int).skip(1) =~= x@.skip(i as int + 1));
            assert(y@.skip(i as int).skip(1) =~= y@.skip(i as int + 1));
        }
        i = i + 1;
    }
    if i < x.len() {
        1
    } else if i < y.len() {
        -1
    } else {
        0
    }
}

/// How two single values are ordered: texts and truth values among themselves, anything
/// else as numbers; nothing where that overflows.
pub open spec fn val_order(a: Val, b: Val) -> Option<Ordering> {
    match (a, b) {
        (Val::Str(x), Val::Str(y)) => Some(order_of(text_order(x, y), 0)),
        (Val::Bool(x), Val::Bool(y)) => Some(
            if x == y {
                Ordering::Equal
            } else if y {
                Ordering::Less
            } else {
                Ordering::Greater
            },
        ),
        _ => rational_order(rational_from(a), rational_from(b)),
    }
}

pub open spec fn order_satisfies(op: BinOp, o: Ordering) -> bool {
    match op {
        BinOp::Eq => o == Ordering::Equal,
        BinOp::NotEq => o != Ordering::Equal,
        BinOp::Less => o == Ordering::Less,
        BinOp::Greater => o == Ordering::Greater,
        BinOp::LessEq => o != Ordering::Greater,
        _ => o != Ordering::Less,
    }
}

pub open spec fn is_comparison(op: BinOp) -> bool {
    match op {
        BinOp::Eq => true,
        BinOp::NotEq => true,
        BinOp::Less => true,
        BinOp::Greater => true,
        BinOp::LessEq => true,
        BinOp::GreaterEq => true,
        _ => false,
    }
}

pub fn comparison(op: BinOp) -> (r: bool)
    ensures
        r == is_comparison(op),
{
    match op {
        BinOp::Eq => true,
        BinOp::NotEq => true,
        BinOp::Less => true,
        BinOp::Greater => true,
        BinOp::LessEq => true,
        BinOp::GreaterEq => true,
        _ => false,
    }
}

/// What a comparison of two single values says.
#[verifier::opaque]
pub open spec fn compared(op: BinOp, a: Val, b: Val, span: Span) -> Result<Val, StopView> {
    match val_order(a, b) {
        Some(o) => Ok(Val::Bool(order_satisfies(op, o))),
        None => fail(fault_view(Category::Prec, 4, span, "comparison overflowed."@, "use smaller values."@)),
    }
}

fn order_values(a: &Value, b: &Value) -> (r: Option<Ordering>)
    ensures
        r == val_order(a@, b@),
{
    match (a, b) {
        (Value::Str(x), Value::Str(y)) => {
            let n: i32 = order_texts(x.as_str(), y.as_str());
            Some(
                if n < 0 {
                    Ordering::Less
                } else if n == 0 {
                    Ordering::Equal
                } else {
                    Ordering::Greater
                },
            )
        },
        (Value::Bool(x), Value::Bool(y)) => Some(
            if *x == *y {
                Ordering::Equal
            } else if *y {
                Ordering::Less
            } else {
                Ordering::Greater
            },
        ),
        _ => to_rational(a).compare(to_rational(b)),
    }
}

/// Compare two single values.
pub fn compare_values(op: BinOp, a: &Value, b: &Value, span: Span) -> (r: Result<Value, Stop>)
    ensures
        result_view(r) == compared(op, a@, b@, span),
{
    reveal(compared);
    match order_values(a, b) {
        None => Err(
            Stop::Fail(fault(Category::Prec, 4, span, "comparison overflowed.".to_owned(), "use smaller values.")),
        ),
        Some(o) => Ok(
            Value::Bool(
                match (op, o) {
                    (BinOp::Eq, Ordering::Equal) => true,
                    (BinOp::Eq, _) => false,
                    (BinOp::NotEq, Ordering::Equal) => false,
                    (BinOp::NotEq, _) => true,
                    (BinOp::Less, Ordering::Less) => true,
                    (BinOp::Less, _) => false,
                    (BinOp::Greater, Ordering::Greater) => true,
                    (BinOp::Greater, _) => false,
                    (BinOp::LessEq, Ordering::Greater) => false,
                    (BinOp::LessEq, _) => true,
                    (_, Ordering::Less) => false,
                    (_, _) => true,
                },
            ),
        ),
    }
}

// ── one operand ─────────────────────────────────────────────────────────────

/// A number with the opposite sign.
pub open spec fn negated(v: Val, span: Span) -> Result<Val, StopView> {
    match v {
        Val::Int(n) => int_result(-n, span),
        Val::Deci(d) => if fits(-d.mantissa) {
            Ok(Val::Deci(Decimal { mantissa: (-d.mantissa) as i128, scale: d.scale }))
        } else {
            fail(overflow(span))
        },
        Val::Rat(r) => if fits(-r.num) {
            Ok(Val::Rat(Rational { num: (-r.num) as i128, den: r.den }))
        } else {
            fail(overflow(span))
        },
        _ => fail(operand_fault(span, "negation needs a number, but this is "@ + kind_text(v) + "."@)),
    }
}

fn negate(v: &Value, span: Span) -> (r: Result<Value, Stop>)
    ensures
        result_view(r) == negated(v@, span),
{
    match v {
        Value::Int(n) => checked_int((0i128).checked_sub(*n), span),
        Value::Deci(d) => match (0i128).checked_sub(d.mantissa) {
            Some(m) => Ok(Value::Deci(Decimal::new(m, d.scale))),
            None => Err(Stop::Fail(overflow_error(span))),
        },
        Value::Rat(q) => match (0i128).checked_sub(q.num) {
            Some(m) => Ok(Value::Rat(Rational { num: m, den: q.den })),
            None => Err(Stop::Fail(overflow_error(span))),
        },
        other => Err(
            Stop::Fail(
                operand_error(span, cat3("negation needs a number, but this is ", other.kind_name(), ".")),
            ),
        ),
    }
}

/// A number without its sign.
pub open spec fn absolute(v: Val, span: Span) -> Result<Val, StopView> {
    match sign_of(v) {
        Some(s) => if s < 0 {
            negated(v, span)
        } else {
            Ok(v)
        },
        None => fail(operand_fault(span, "absolute value needs a number, but this is "@ + kind_text(v) + "."@)),
    }
}

/// The square root of a number, to the digits the context asks for.
pub open spec fn root(v: Val, span: Span, hint: Option<Numeric>) -> Result<Val, StopView> {
    let negative = operand_negative(v);
    if sign_of(v) is None {
        fail(operand_fault(span, "this operation needs a number."@))
    } else if negative {
        fail(
            fault_view(
                Category::Run,
                1,
                span,
                "square root of a negative number is not a real number."@,
                "check the operand, or take the absolute value first."@,
            ),
        )
    } else {
        match decimal_from(v) {
            None => fail(operand_fault(span, "square root needs a number."@)),
            Some(d) => match square_root(d, root_digits(hint)) {
                None => fail(
                    fault_view(
                        Category::Prec,
                        4,
                        span,
                        "AHPCL computes square roots to at most 18 decimal places."@,
                        "ask for fewer digits."@,
                    ),
                ),
                Some(q) => {
                    let n = normal(q);
                    if n.scale == 0 && !asks_for(hint, Family::Deci) {
                        Ok(Val::Int(n.mantissa))
                    } else {
                        Ok(Val::Deci(n))
                    }
                },
            },
        }
    }
}

pub open spec fn operand_negative(v: Val) -> bool {
    ||| (sign_of(v) matches Some(s) && s < 0)
    ||| (decimal_from(v) matches Some(d) && d.mantissa < 0)
}

/// The places a square root is computed to: what the context asks for, up to the cap.
pub open spec fn root_digits(hint: Option<Numeric>) -> u32 {
    if digits_wanted(hint) < SQRT_MAX_DIGITS {
        digits_wanted(hint)
    } else {
        SQRT_MAX_DIGITS
    }
}

fn take_root(v: &Value, span: Span, hint: Option<Numeric>) -> (r: Result<Value, Stop>)
    ensures
        result_view(r) == root(v@, span, hint),
{
    let sign: i32 = match numeric_sign(v) {
        Some(s) => s,
        None => {
            return Err(Stop::Fail(operand_error(span, "this operation needs a number.".to_owned())));
        },
    };
    let operand: Option<Decimal> = to_decimal(v);
    let below: bool = match operand {
        Some(d) => d.mantissa < 0,
        None => false,
    };
    if sign < 0 || below {
        return Err(
            Stop::Fail(
                fault(
                    Category::Run,
                    1,
                    span,
                    "square root of a negative number is not a real number.".to_owned(),
                    "check the operand, or take the absolute value first.",
                ),
            ),
        );
    }
    let d: Decimal = match operand {
        Some(d) => d,
        None => {
            return Err(Stop::Fail(operand_error(span, "square root needs a number.".to_owned())));
        },
    };
    let want: u32 = digits_of(hint);
    let places: u32 = if want < SQRT_MAX_DIGITS {
        want
    } else {
        SQRT_MAX_DIGITS
    };
    match d.sqrt_to(places) {
        None => Err(
            Stop::Fail(
                fault(
                    Category::Prec,
                    4,
                    span,
                    "AHPCL computes square roots to at most 18 decimal places.".to_owned(),
                    "ask for fewer digits.",
                ),
            ),
        ),
        Some(q) => {
            let n: Decimal = q.normalised();
            if n.scale == 0 && !hint_is(hint, Family::Deci) {
                Ok(Value::Int(n.mantissa))
            } else {
                Ok(Value::Deci(n))
            }
        },
    }
}

/// What an operator makes of one single value.
#[verifier::opaque]
pub open spec fn unary_val(op: UnOp, v: Val, span: Span, hint: Option<Numeric>) -> Result<Val, StopView> {
    match op {
        UnOp::Not => match bool_from(v, span) {
            Ok(b) => Ok(Val::Bool(!b)),
            Err(e) => fail(e),
        },
        UnOp::Neg => negated(v, span),
        UnOp::Abs => absolute(v, span),
        UnOp::Floor => rounded_whole(v, false, span),
        UnOp::Ceil => rounded_whole(v, true, span),
        UnOp::Sqrt => root(v, span, hint),
        _ => if sign_of(v) is None {
            fail(operand_fault(span, "this operation needs a number."@))
        } else {
            Err(StopView::Ask(RequestView::Function { op, argument: v, digits: digits_wanted(hint) }))
        },
    }
}

pub open spec fn rounded_whole(v: Val, up: bool, span: Span) -> Result<Val, StopView> {
    match whole_part(v, up) {
        Some(n) => Ok(Val::Int(n as i128)),
        None => fail(operand_fault(span, "this needs a number."@)),
    }
}

fn round_whole(v: &Value, up: bool, span: Span) -> (r: Result<Value, Stop>)
    ensures
        result_view(r) == rounded_whole(v@, up, span),
{
    match whole_value(v, up) {
        Some(n) => Ok(Value::Int(n)),
        None => Err(Stop::Fail(operand_error(span, "this needs a number.".to_owned()))),
    }
}

/// Apply an operator to one single value.
pub fn unary_value(op: UnOp, v: &Value, span: Span, hint: Option<Numeric>) -> (r: Result<Value, Stop>)
    ensures
        result_view(r) == unary_val(op, v@, span, hint),
{
    reveal(unary_val);
    match op {
        UnOp::Not => match as_bool(v, span) {
            Ok(b) => Ok(Value::Bool(!b)),
            Err(e) => Err(Stop::Fail(e)),
        },
        UnOp::Neg => negate(v, span),
        UnOp::Abs => match numeric_sign(v) {
            Some(s) => if s < 0 {
                negate(v, span)
            } else {
                Ok(v.copied())
            },
            None => Err(
                Stop::Fail(
                    operand_error(span, cat3("absolute value needs a number, but this is ", v.kind_name(), ".")),
                ),
            ),
        },
        UnOp::Floor => round_whole(v, false, span),
        UnOp::Ceil => round_whole(v, true, span),
        UnOp::Sqrt => take_root(v, span, hint),
        _ => match numeric_sign(v) {
            None => Err(Stop::Fail(operand_error(span, "this operation needs a number.".to_owned()))),
            Some(_) => Err(
                Stop::Ask(Request::Function { op, argument: v.copied(), digits: digits_of(hint) }),
            ),
        },
    }
}

} // verus!
