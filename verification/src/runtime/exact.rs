//! Exact decimals and rationals for compiled code, and reading them out of text.

use vstd::arithmetic::div_mod::*;
use vstd::arithmetic::power::*;
use vstd::prelude::*;
use vstd::string::*;

use crate::ast::Constant;
use crate::eval::decimal::{
    aligned, decimal_difference, decimal_of, decimal_product, decimal_quotient, decimal_sum, decimal_text,
    larger, normal, pow10, ten, Decimal,
};
use crate::eval::numeric::{constant_decimal, constant_value, square_root, CONSTANT_DIGITS, SQRT_MAX_DIGITS};
use crate::eval::ops::{order_texts, text_order, Request, RequestView};
use crate::eval::rational::{
    rational_difference, rational_int_power, rational_of_decimal, rational_product, rational_quotient,
    rational_sum, rational_text, reduced, Rational,
};
use crate::text::{cat3, fits, nat_text, u128_text};

verus! {

/// Why a compiled program stops: the error code and what is said about it.
#[derive(Debug)]
pub struct Failure {
    pub code: String,
    pub message: String,
}

pub struct FailureView {
    pub code: Seq<char>,
    pub message: Seq<char>,
}

impl View for Failure {
    type V = FailureView;

    open spec fn view(&self) -> FailureView {
        FailureView { code: self.code@, message: self.message@ }
    }
}

pub open spec fn failure(code: Seq<char>, message: Seq<char>) -> FailureView {
    FailureView { code, message }
}

/// What a computation came to, its failure taken as text.
pub open spec fn outcome<T>(r: Result<T, Failure>) -> Result<T, FailureView> {
    match r {
        Ok(v) => Ok(v),
        Err(f) => Err(f@),
    }
}

/// Stop the program.
pub fn fail_with(code: &str, message: &str) -> (r: Failure)
    ensures
        r@ == failure(code@, message@),
{
    Failure { code: code.to_owned(), message: message.to_owned() }
}

/// How many digits a division keeps when nothing says otherwise. The backend uses the
/// same number, so native and interpreted division agree digit for digit.
pub const DEFAULT_DIVISION_DIGITS: u32 = 15;

pub const OP_ADD: u32 = 0;

pub const OP_SUB: u32 = 1;

pub const OP_MUL: u32 = 2;

pub const OP_DIV: u32 = 3;

pub const OP_POW: u32 = 4;

pub const OP_INTDIV: u32 = 5;

pub const OP_MOD: u32 = 6;

// ── decimals ────────────────────────────────────────────────────────────────

/// An exact decimal as compiled code holds it.
#[derive(Debug, Clone, Copy, PartialEq, Eq, Structural)]
pub struct AhpclDecimal {
    pub mantissa: i128,
    pub scale: u32,
    /// Non-zero when the operation overflowed.
    pub failed: u32,
}

/// The decimal that is held.
pub open spec fn held(d: AhpclDecimal) -> Decimal {
    Decimal { mantissa: d.mantissa, scale: d.scale }
}

/// A decimal held without trailing zeros.
pub open spec fn holding(d: Decimal) -> AhpclDecimal {
    AhpclDecimal { mantissa: normal(d).mantissa, scale: normal(d).scale, failed: 0 }
}

pub open spec fn failed_decimal() -> AhpclDecimal {
    AhpclDecimal { mantissa: 0, scale: 0, failed: 1 }
}

/// A result held, or the mark of a failure.
pub open spec fn held_or_failed(d: Option<Decimal>) -> AhpclDecimal {
    match d {
        Some(v) => holding(v),
        None => failed_decimal(),
    }
}

impl AhpclDecimal {
    /// This is not only cosmetic. Multiplication adds scales, so without dropping trailing
    /// zeros a chain of operations compounds, until the value overflows.
    pub fn ok(mantissa: i128, scale: u32) -> (r: Self)
        ensures
            r == holding(Decimal { mantissa, scale }),
    {
        let d: Decimal = Decimal::new(mantissa, scale).normalised();
        AhpclDecimal { mantissa: d.mantissa, scale: d.scale, failed: 0 }
    }

    pub fn fail() -> (r: Self)
        ensures
            r == failed_decimal(),
    {
        AhpclDecimal { mantissa: 0, scale: 0, failed: 1 }
    }

    fn plain(self) -> (r: Decimal)
        ensures
            r == held(self),
    {
        Decimal::new(self.mantissa, self.scale)
    }

    fn from(d: Option<Decimal>) -> (r: Self)
        ensures
            r == held_or_failed(d),
    {
        match d {
            Some(v) => AhpclDecimal::ok(v.mantissa, v.scale),
            None => AhpclDecimal::fail(),
        }
    }
}

/// The arithmetic itself, which reports overflow through the `failed` flag.
pub fn raw_add(a: AhpclDecimal, b: AhpclDecimal) -> (r: AhpclDecimal)
    ensures
        r == held_or_failed(decimal_sum(held(a), held(b))),
{
    AhpclDecimal::from(a.plain().add(b.plain()))
}

pub fn raw_sub(a: AhpclDecimal, b: AhpclDecimal) -> (r: AhpclDecimal)
    ensures
        r == held_or_failed(decimal_difference(held(a), held(b))),
{
    AhpclDecimal::from(a.plain().sub(b.plain()))
}

pub fn raw_mul(a: AhpclDecimal, b: AhpclDecimal) -> (r: AhpclDecimal)
    ensures
        r == held_or_failed(decimal_product(held(a), held(b))),
{
    AhpclDecimal::from(a.plain().mul(b.plain()))
}

pub fn deci_div(a: AhpclDecimal, b: AhpclDecimal, digits: u32) -> (r: AhpclDecimal)
    ensures
        r == held_or_failed(decimal_quotient(held(a), held(b), digits as nat)),
{
    AhpclDecimal::from(a.plain().div_exact(b.plain(), digits))
}

/// The whole-number value of a decimal, if it is one.
pub open spec fn whole_of(d: Decimal) -> Option<int> {
    let p = ten(d.scale as nat);
    if fits(p) && d.mantissa as int % p == 0 {
        Some(d.mantissa as int / p)
    } else {
        None
    }
}

pub fn deci_whole(d: AhpclDecimal) -> (r: Option<i128>)
    ensures
        match r {
            Some(n) => whole_of(held(d)) == Some(n as int),
            None => whole_of(held(d)) is None,
        },
{
    match pow10(d.scale) {
        None => None,
        Some(p) => {
            proof {
                lemma_pow_positive(10, d.scale as nat);
                lemma_fundamental_div_mod(d.mantissa as int, p as int);
                lemma_mod_bound(d.mantissa as int, p as int);
                let q = d.mantissa as int / p as int;
                let m = d.mantissa as int;
                assert(fits(q)) by (nonlinear_arith)
                    requires
                        m == p as int * q + m % (p as int),
                        0 <= m % (p as int) < p as int,
                        p >= 1,
                        i128::MIN <= m <= i128::MAX,
                ;
                assert(fits(m % (p as int)));
            }
            match d.mantissa.checked_rem_euclid(p) {
                Some(m) => if m == 0 {
                    d.mantissa.checked_div_euclid(p)
                } else {
                    None
                },
                None => None,
            }
        },
    }
}

pub open spec fn overflowed() -> FailureView {
    failure("AHPCL-PREC-0004"@, "this decimal arithmetic overflowed or divided by zero"@)
}

pub open spec fn zero_division() -> FailureView {
    failure("AHPCL-RUN-0002"@, "division by zero"@)
}

pub open spec fn alignment_overflowed() -> FailureView {
    failure("AHPCL-PREC-0004"@, "this decimal arithmetic overflowed"@)
}

/// Why an operation has no result yet.
#[derive(Debug)]
pub enum Halt {
    Fail(Failure),
    /// It needs an approximation that is made outside.
    Ask(Request),
}

pub enum HaltView {
    Fail(FailureView),
    Ask(RequestView),
}

impl View for Halt {
    type V = HaltView;

    open spec fn view(&self) -> HaltView {
        match *self {
            Halt::Fail(f) => HaltView::Fail(f@),
            Halt::Ask(q) => HaltView::Ask(q@),
        }
    }
}

pub open spec fn halted<T>(r: Result<T, Halt>) -> Result<T, HaltView> {
    match r {
        Ok(v) => Ok(v),
        Err(h) => Err(h@),
    }
}

pub open spec fn unless_failed(d: Option<Decimal>) -> Result<AhpclDecimal, HaltView> {
    match d {
        Some(v) => Ok(holding(v)),
        None => Err(HaltView::Fail(overflowed())),
    }
}

/// The Euclidean quotient of two decimals at a common scale, or what is left over.
pub open spec fn euclidean(a: Decimal, b: Decimal, remainder: bool) -> Result<AhpclDecimal, HaltView> {
    if b.mantissa == 0 {
        Err(HaltView::Fail(zero_division()))
    } else {
        match aligned(a, b) {
            None => Err(HaltView::Fail(alignment_overflowed())),
            Some((x, y)) => if remainder {
                unless_failed(decimal_of(x % y, larger(a.scale as int, b.scale as int)))
            } else {
                unless_failed(decimal_of(x / y, 0))
            },
        }
    }
}

/// A decimal multiplied by itself, starting from one, each product without its trailing
/// zeros; nothing once a step does not fit.
pub open spec fn steady_power(a: Decimal, n: nat) -> Option<Decimal>
    decreases n,
{
    if n == 0 {
        Some(Decimal { mantissa: 1, scale: 0 })
    } else {
        match steady_power(a, (n - 1) as nat) {
            Some(p) => match decimal_product(p, a) {
                Some(q) => Some(normal(q)),
                None => None,
            },
            None => None,
        }
    }
}

proof fn lemma_steady_power_stays_none(a: Decimal, k: nat, n: nat)
    requires
        k <= n,
        steady_power(a, k) is None,
    ensures
        steady_power(a, n) is None,
    decreases n,
{
    if k < n {
        lemma_steady_power_stays_none(a, k, (n - 1) as nat);
    }
}

fn raise_steadily(a: Decimal, exp: u32) -> (r: Option<Decimal>)
    ensures
        r == steady_power(a, exp as nat),
{
    let mut acc: Decimal = Decimal::from_int(1);
    let mut i: u32 = 0;
    while i < exp
        invariant
            i <= exp,
            steady_power(a, i as nat) == Some(acc),
        decreases exp - i,
    {
        match acc.mul(a) {
            None => {
                proof {
                    lemma_steady_power_stays_none(a, (i + 1) as nat, exp as nat);
                }
                return None;
            },
            Some(v) => {
                acc = v.normalised();
            },
        }
        i = i + 1;
    }
    Some(acc)
}

/// A power: exact where the exponent is a whole number in range.
pub open spec fn powered(a: Decimal, b: Decimal) -> Result<AhpclDecimal, HaltView> {
    match whole_of(b) {
        Some(n) => if 0 <= n <= u32::MAX {
            unless_failed(steady_power(a, n as nat))
        } else {
            Err(HaltView::Ask(RequestView::Power { base: a, exponent: b, digits: DEFAULT_DIVISION_DIGITS }))
        },
        None => Err(
            HaltView::Ask(RequestView::Power { base: a, exponent: b, digits: DEFAULT_DIVISION_DIGITS }),
        ),
    }
}

/// What an arithmetic operation makes of two decimals.
pub open spec fn deci_result(op: u32, a: Decimal, b: Decimal) -> Result<AhpclDecimal, HaltView> {
    if op == OP_ADD {
        unless_failed(decimal_sum(a, b))
    } else if op == OP_SUB {
        unless_failed(decimal_difference(a, b))
    } else if op == OP_MUL {
        unless_failed(decimal_product(a, b))
    } else if op == OP_POW {
        powered(a, b)
    } else if op == OP_INTDIV {
        euclidean(a, b, false)
    } else if op == OP_MOD {
        euclidean(a, b, true)
    } else {
        unless_failed(decimal_quotient(a, b, DEFAULT_DIVISION_DIGITS as nat))
    }
}

fn finished(d: Option<Decimal>) -> (r: Result<AhpclDecimal, Halt>)
    ensures
        halted(r) == unless_failed(d),
{
    match d {
        Some(v) => Ok(AhpclDecimal::ok(v.mantissa, v.scale)),
        None => Err(
            Halt::Fail(
                fail_with("AHPCL-PREC-0004", "this decimal arithmetic overflowed or divided by zero"),
            ),
        ),
    }
}

fn divide_whole(a: AhpclDecimal, b: AhpclDecimal, remainder: bool) -> (r: Result<AhpclDecimal, Halt>)
    ensures
        halted(r) == euclidean(held(a), held(b), remainder),
{
    if b.mantissa == 0 {
        return Err(Halt::Fail(fail_with("AHPCL-RUN-0002", "division by zero")));
    }
    match Decimal::align(a.plain(), b.plain()) {
        None => Err(Halt::Fail(fail_with("AHPCL-PREC-0004", "this decimal arithmetic overflowed"))),
        Some((x, y, scale)) => {
            proof {
                let k = (scale - b.scale) as nat;
                lemma_pow_positive(10, k);
                let t = ten(k);
                let m = b.mantissa as int;
                assert(m * t != 0) by (nonlinear_arith)
                    requires
                        m != 0,
                        t > 0,
                ;
            }
            if remainder {
                let left: i128 = if y == -1 {
                    assert(x as int % -1 == 0) by (nonlinear_arith);
                    0
                } else {
                    proof {
                        let m = x as int % y as int;
                        assert(0 <= m && (m < y || m < -y)) by (nonlinear_arith)
                            requires
                                m == x as int % y as int,
                                y != 0,
                        ;
                    }
                    match x.checked_rem_euclid(y) {
                        Some(m) => m,
                        None => 0,
                    }
                };
                finished(Some(Decimal::new(left, scale)))
            } else {
                match x.checked_div_euclid(y) {
                    Some(q) => finished(Some(Decimal::new(q, 0))),
                    None => finished(None),
                }
            }
        },
    }
}

/// Apply one of the arithmetic operations to two decimals.
pub fn deci_apply(op: u32, a: AhpclDecimal, b: AhpclDecimal) -> (r: Result<AhpclDecimal, Halt>)
    ensures
        halted(r) == deci_result(op, held(a), held(b)),
{
    if op == OP_ADD {
        finished(a.plain().add(b.plain()))
    } else if op == OP_SUB {
        finished(a.plain().sub(b.plain()))
    } else if op == OP_MUL {
        finished(a.plain().mul(b.plain()))
    } else if op == OP_POW {
        if let Some(n) = deci_whole(b) {
            if 0 <= n && n <= 0xffff_ffff {
                return finished(raise_steadily(a.plain(), n as u32));
            }
        }
        // A fractional exponent has no exact decimal answer.
        Err(
            Halt::Ask(
                Request::Power { base: a.plain(), exponent: b.plain(), digits: DEFAULT_DIVISION_DIGITS },
            ),
        )
    } else if op == OP_INTDIV {
        divide_whole(a, b, false)
    } else if op == OP_MOD {
        divide_whole(a, b, true)
    } else {
        finished(a.plain().div_exact(b.plain(), DEFAULT_DIVISION_DIGITS))
    }
}

/// A failed decimal means overflow or a zero divisor. Compiled code has no way to inspect
/// the flag, so the program stops rather than going on with a silent 0.
fn checked_deci(d: AhpclDecimal) -> (r: Result<AhpclDecimal, Failure>)
    ensures
        outcome(r) == if d.failed != 0 { Err::<AhpclDecimal, FailureView>(alignment_overflowed()) } else { Ok(d) },
{
    if d.failed != 0 {
        Err(fail_with("AHPCL-PREC-0004", "this decimal arithmetic overflowed"))
    } else {
        Ok(d)
    }
}

/// A result, or the failure that the program stops with.
pub open spec fn stopped(d: Option<Decimal>) -> Result<AhpclDecimal, FailureView> {
    match d {
        Some(v) => Ok(holding(v)),
        None => Err(alignment_overflowed()),
    }
}

pub fn ahpcl_deci_add(a: AhpclDecimal, b: AhpclDecimal) -> (r: Result<AhpclDecimal, Failure>)
    ensures
        outcome(r) == stopped(decimal_sum(held(a), held(b))),
{
    checked_deci(raw_add(a, b))
}

pub fn ahpcl_deci_sub(a: AhpclDecimal, b: AhpclDecimal) -> (r: Result<AhpclDecimal, Failure>)
    ensures
        outcome(r) == stopped(decimal_difference(held(a), held(b))),
{
    checked_deci(raw_sub(a, b))
}

pub fn ahpcl_deci_mul(a: AhpclDecimal, b: AhpclDecimal) -> (r: Result<AhpclDecimal, Failure>)
    ensures
        outcome(r) == stopped(decimal_product(held(a), held(b))),
{
    checked_deci(raw_mul(a, b))
}

pub fn ahpcl_deci_div(a: AhpclDecimal, b: AhpclDecimal, digits: u32) -> (r: Result<AhpclDecimal, Failure>)
    ensures
        outcome(r) == if b.mantissa == 0 {
            Err(zero_division())
        } else {
            stopped(decimal_quotient(held(a), held(b), digits as nat))
        },
{
    if b.mantissa == 0 {
        return Err(fail_with("AHPCL-RUN-0002", "division by zero"));
    }
    checked_deci(deci_div(a, b, digits))
}

/// `//` between decimals gives a whole number, so it hands back an int rather than a
/// decimal.
pub fn ahpcl_deci_int_div(a: AhpclDecimal, b: AhpclDecimal) -> (r: Result<i128, Halt>)
    ensures
        halted(r) == (match euclidean(held(a), held(b), false) {
            Ok(q) => Ok(q.mantissa),
            Err(h) => Err(h),
        }),
{
    match divide_whole(a, b, false) {
        Ok(q) => Ok(q.mantissa),
        Err(h) => Err(h),
    }
}

/// The square root of a decimal, to at most as many places as the interpreter computes.
pub open spec fn root_result(d: Decimal, digits: u32) -> Result<AhpclDecimal, FailureView> {
    let n = if digits < SQRT_MAX_DIGITS {
        digits
    } else {
        SQRT_MAX_DIGITS
    };
    if d.mantissa < 0 {
        Err(failure("AHPCL-RUN-0001"@, "the square root of a negative number is not a real number"@))
    } else {
        match square_root(d, n) {
            Some(q) => Ok(holding(q)),
            None => Err(failure("AHPCL-PREC-0004"@, "this square root overflowed"@)),
        }
    }
}

/// Square root to `digits` places, the same digits the interpreter computes.
pub fn deci_sqrt(d: AhpclDecimal, digits: u32) -> (r: Result<AhpclDecimal, Failure>)
    ensures
        outcome(r) == root_result(held(d), digits),
{
    let n: u32 = if digits < SQRT_MAX_DIGITS {
        digits
    } else {
        SQRT_MAX_DIGITS
    };
    if d.mantissa < 0 {
        return Err(fail_with("AHPCL-RUN-0001", "the square root of a negative number is not a real number"));
    }
    match d.plain().sqrt_to(n) {
        Some(q) => Ok(AhpclDecimal::ok(q.mantissa, q.scale)),
        None => Err(fail_with("AHPCL-PREC-0004", "this square root overflowed")),
    }
}

/// A decimal as it is printed, with trailing zeros dropped so `0.30` shows as `0.3`.
pub fn format_decimal(d: AhpclDecimal) -> (r: String)
    ensures
        r@ == decimal_text(held(d)),
{
    d.plain().text()
}

/// -1, 0 or 1; 0 where the two cannot be brought to a common scale.
pub open spec fn order_sign(x: int, y: int) -> int {
    if x < y {
        -1
    } else if x == y {
        0
    } else {
        1
    }
}

/// A decimal as a fraction; 0 where it is none that fits.
pub open spec fn as_fraction(d: Decimal) -> Rational {
    match rational_of_decimal(d) {
        Some(q) => q,
        None => Rational { num: 0, den: 1 },
    }
}

/// The order of two decimals: that of their fractions where these can be compared, else that
/// of the mantissas at a common scale.
pub open spec fn decimal_sign(a: Decimal, b: Decimal) -> int {
    let p = as_fraction(a);
    let q = as_fraction(b);
    if fits(p.num * q.den) && fits(q.num * p.den) {
        order_sign(p.num * q.den, q.num * p.den)
    } else {
        match aligned(a, b) {
            Some((x, y)) => order_sign(x, y),
            None => 0,
        }
    }
}

fn sign_between(x: i128, y: i128) -> (r: i32)
    ensures
        r == order_sign(x as int, y as int),
{
    if x < y {
        -1
    } else if x == y {
        0
    } else {
        1
    }
}

fn fraction_of(d: Decimal) -> (r: Rational)
    ensures
        r == as_fraction(d),
{
    match Rational::from_decimal(d) {
        Some(q) => q,
        None => Rational::from_int(0),
    }
}

pub fn ahpcl_deci_cmp(a: AhpclDecimal, b: AhpclDecimal) -> (r: i32)
    ensures
        r == decimal_sign(held(a), held(b)),
{
    let p: Rational = fraction_of(a.plain());
    let q: Rational = fraction_of(b.plain());
    match (p.num.checked_mul(q.den), q.num.checked_mul(p.den)) {
        (Some(x), Some(y)) => sign_between(x, y),
        _ => match Decimal::align(a.plain(), b.plain()) {
            Some((x, y, _)) => sign_between(x, y),
            None => 0,
        },
    }
}

/// Texts in the order of the code points they are made of.
pub fn ahpcl_str_cmp(a: &str, b: &str) -> (r: i32)
    ensures
        r == text_order(a@, b@),
{
    order_texts(a, b)
}

// ── whole numbers ───────────────────────────────────────────────────────────

/// Euclidean division, matching the interpreter: a remainder is never negative.
pub fn ahpcl_int_div(a: i128, b: i128) -> (r: Result<i128, Failure>)
    ensures
        outcome(r) == if b == 0 {
            Err(failure("AHPCL-RUN-0002"@, "division by zero."@))
        } else if fits(a as int / b as int) {
            Ok((a as int / b as int) as i128)
        } else {
            Err(failure("AHPCL-PREC-0004"@, "this division overflowed."@))
        },
{
    if b == 0 {
        return Err(fail_with("AHPCL-RUN-0002", "division by zero."));
    }
    match a.checked_div_euclid(b) {
        Some(q) => Ok(q),
        None => Err(fail_with("AHPCL-PREC-0004", "this division overflowed.")),
    }
}

pub fn ahpcl_int_mod(a: i128, b: i128) -> (r: Result<i128, Failure>)
    ensures
        outcome(r) == if b == 0 {
            Err(failure("AHPCL-RUN-0002"@, "remainder by zero."@))
        } else {
            Ok((a as int % b as int) as i128)
        },
        b != 0 ==> fits(a as int % b as int),
{
    if b == 0 {
        return Err(fail_with("AHPCL-RUN-0002", "remainder by zero."));
    }
    proof {
        let m = a as int % b as int;
        assert(0 <= m && (m < b || m < -b)) by (nonlinear_arith)
            requires
                m == a as int % b as int,
                b != 0,
        ;
    }
    if b == -1 {
        assert(a as int % -1 == 0) by (nonlinear_arith);
        return Ok(0);
    }
    match a.checked_rem_euclid(b) {
        Some(m) => Ok(m),
        None => Ok(0),
    }
}

// ── constants ───────────────────────────────────────────────────────────────

pub open spec fn constant_tagged(which: u32) -> Constant {
    if which == 1 {
        Constant::E
    } else if which == 2 {
        Constant::Tau
    } else {
        Constant::Pi
    }
}

/// π, e and τ to `digits` places, rounded the way the interpreter rounds them, so a
/// compiled program prints the same digits.
pub fn ahpcl_constant(which: u32, digits: u32) -> (r: Result<AhpclDecimal, Failure>)
    ensures
        outcome(r) == if digits > CONSTANT_DIGITS {
            Err(
                failure(
                    "AHPCL-PREC-0004"@,
                    "AHPCL knows this constant to 36 decimal places; "@ + nat_text(digits as nat) + " were asked for"@,
                ),
            )
        } else {
            let d = constant_decimal(constant_tagged(which), digits);
            Ok(AhpclDecimal { mantissa: d.mantissa, scale: d.scale, failed: 0 })
        },
{
    if digits > CONSTANT_DIGITS {
        // A silent approximation would be worse than refusing.
        return Err(
            fail_with(
                "AHPCL-PREC-0004",
                cat3(
                    "AHPCL knows this constant to 36 decimal places; ",
                    u128_text(digits as u128).as_str(),
                    " were asked for",
                ).as_str(),
            ),
        );
    }
    let c: Constant = if which == 1 {
        Constant::E
    } else if which == 2 {
        Constant::Tau
    } else {
        Constant::Pi
    };
    let d: Decimal = constant_value(c, digits);
    Ok(AhpclDecimal { mantissa: d.mantissa, scale: d.scale, failed: 0 })
}

// ── rationals ───────────────────────────────────────────────────────────────

/// An exact rational as compiled code holds it, reduced, with a positive denominator.
#[derive(Debug, Clone, Copy, PartialEq, Eq, Structural)]
pub struct AhpclRational {
    pub num: i128,
    pub den: i128,
    pub failed: u64,
}

pub open spec fn fraction_held(r: AhpclRational) -> Rational {
    Rational { num: r.num, den: r.den }
}

pub open spec fn failed_rational() -> AhpclRational {
    AhpclRational { num: 0, den: 1, failed: 1 }
}

pub open spec fn rational_or_failed(r: Option<Rational>) -> AhpclRational {
    match r {
        Some(v) => AhpclRational { num: v.num, den: v.den, failed: 0 },
        None => failed_rational(),
    }
}

impl AhpclRational {
    pub fn fail() -> (r: Self)
        ensures
            r == failed_rational(),
    {
        AhpclRational { num: 0, den: 1, failed: 1 }
    }

    fn plain(self) -> (r: Rational)
        ensures
            r == fraction_held(self),
    {
        Rational { num: self.num, den: self.den }
    }

    fn from(q: Option<Rational>) -> (r: Self)
        ensures
            r == rational_or_failed(q),
    {
        match q {
            Some(v) => AhpclRational { num: v.num, den: v.den, failed: 0 },
            None => AhpclRational::fail(),
        }
    }

    pub fn reduced(num: i128, den: i128) -> (r: Self)
        ensures
            r == rational_or_failed(reduced(num as int, den as int)),
    {
        AhpclRational::from(Rational::new(num, den))
    }
}

pub fn rat_add(a: AhpclRational, b: AhpclRational) -> (r: AhpclRational)
    ensures
        r == rational_or_failed(rational_sum(fraction_held(a), fraction_held(b))),
{
    AhpclRational::from(a.plain().add(b.plain()))
}

pub fn rat_sub(a: AhpclRational, b: AhpclRational) -> (r: AhpclRational)
    ensures
        r == rational_or_failed(rational_difference(fraction_held(a), fraction_held(b))),
{
    AhpclRational::from(a.plain().sub(b.plain()))
}

pub fn rat_mul(a: AhpclRational, b: AhpclRational) -> (r: AhpclRational)
    ensures
        r == rational_or_failed(rational_product(fraction_held(a), fraction_held(b))),
{
    AhpclRational::from(a.plain().mul(b.plain()))
}

pub fn rat_div(a: AhpclRational, b: AhpclRational) -> (r: AhpclRational)
    ensures
        r == rational_or_failed(rational_quotient(fraction_held(a), fraction_held(b))),
{
    AhpclRational::from(a.plain().div(b.plain()))
}

pub open spec fn rational_overflowed() -> FailureView {
    failure("AHPCL-PREC-0004"@, "this rational arithmetic overflowed or divided by zero"@)
}

pub open spec fn rational_stopped(r: Option<Rational>) -> Result<AhpclRational, FailureView> {
    match r {
        Some(v) => Ok(AhpclRational { num: v.num, den: v.den, failed: 0 }),
        None => Err(rational_overflowed()),
    }
}

/// The whole part of a quotient of fractions, in the Euclidean sense.
pub open spec fn rational_whole(a: Rational, b: Rational) -> Option<Rational> {
    match rational_quotient(a, b) {
        Some(q) => if q.den > 0 {
            Some(Rational { num: (q.num as int / q.den as int) as i128, den: 1 })
        } else {
            None
        },
        None => None,
    }
}

pub open spec fn rational_left_over(a: Rational, b: Rational) -> Option<Rational> {
    match rational_whole(a, b) {
        Some(w) => match rational_product(w, b) {
            Some(p) => rational_difference(a, p),
            None => None,
        },
        None => None,
    }
}

/// What an arithmetic operation makes of two rationals.
pub open spec fn rat_result(op: u32, a: Rational, b: Rational) -> Result<AhpclRational, FailureView> {
    if op == OP_ADD {
        rational_stopped(rational_sum(a, b))
    } else if op == OP_SUB {
        rational_stopped(rational_difference(a, b))
    } else if op == OP_MUL {
        rational_stopped(rational_product(a, b))
    } else if op == OP_POW {
        if b.den != 1 || b.num < -i32::MAX || b.num > i32::MAX {
            Err(failure("AHPCL-RUN-0001"@, "a rational power needs a whole exponent"@))
        } else {
            rational_stopped(rational_int_power(a, b.num as int))
        }
    } else if op == OP_INTDIV || op == OP_MOD {
        if b.num == 0 {
            Err(zero_division())
        } else if op == OP_INTDIV {
            rational_stopped(rational_whole(a, b))
        } else {
            rational_stopped(rational_left_over(a, b))
        }
    } else {
        rational_stopped(rational_quotient(a, b))
    }
}

fn checked_rat(q: Option<Rational>) -> (r: Result<AhpclRational, Failure>)
    ensures
        outcome(r) == rational_stopped(q),
{
    match q {
        Some(v) => Ok(AhpclRational { num: v.num, den: v.den, failed: 0 }),
        None => Err(
            fail_with("AHPCL-PREC-0004", "this rational arithmetic overflowed or divided by zero"),
        ),
    }
}

fn whole_quotient(a: Rational, b: Rational) -> (r: Option<Rational>)
    ensures
        r == rational_whole(a, b),
{
    match a.div(b) {
        Some(q) => if q.den > 0 {
            proof {
                lemma_fundamental_div_mod(q.num as int, q.den as int);
                lemma_mod_bound(q.num as int, q.den as int);
                let w = q.num as int / q.den as int;
                let n = q.num as int;
                let d = q.den as int;
                assert(fits(w)) by (nonlinear_arith)
                    requires
                        n == d * w + n % d,
                        0 <= n % d < d,
                        d >= 1,
                        i128::MIN <= n <= i128::MAX,
                ;
            }
            match q.num.checked_div_euclid(q.den) {
                Some(w) => Some(Rational::from_int(w)),
                None => None,
            }
        } else {
            None
        },
        None => None,
    }
}

pub fn rat_apply(op: u32, a: AhpclRational, b: AhpclRational) -> (r: Result<AhpclRational, Failure>)
    ensures
        outcome(r) == rat_result(op, fraction_held(a), fraction_held(b)),
{
    let x: Rational = a.plain();
    let y: Rational = b.plain();
    if op == OP_ADD {
        checked_rat(x.add(y))
    } else if op == OP_SUB {
        checked_rat(x.sub(y))
    } else if op == OP_MUL {
        checked_rat(x.mul(y))
    } else if op == OP_POW {
        if y.den != 1 || y.num < -2147483647 || y.num > 2147483647 {
            return Err(fail_with("AHPCL-RUN-0001", "a rational power needs a whole exponent"));
        }
        checked_rat(x.pow_int(y.num as i32))
    } else if op == OP_INTDIV || op == OP_MOD {
        if y.num == 0 {
            return Err(fail_with("AHPCL-RUN-0002", "division by zero"));
        }
        let w: Option<Rational> = whole_quotient(x, y);
        if op == OP_INTDIV {
            return checked_rat(w);
        }
        match w {
            Some(w) => match w.mul(y) {
                Some(p) => checked_rat(x.sub(p)),
                None => checked_rat(None),
            },
            None => checked_rat(None),
        }
    } else {
        checked_rat(x.div(y))
    }
}

/// A product, held at the ends of the range where it does not fit.
pub open spec fn saturated(x: int) -> int {
    if x > i128::MAX {
        i128::MAX as int
    } else if x < i128::MIN {
        i128::MIN as int
    } else {
        x
    }
}

fn saturating_product(a: i128, b: i128) -> (r: i128)
    ensures
        r == saturated(a * b),
{
    match a.checked_mul(b) {
        Some(v) => v,
        None => {
            if (a < 0) == (b < 0) {
                proof {
                    let x = a as int;
                    let y = b as int;
                    assert(x * y >= 0) by (nonlinear_arith)
                        requires
                            (x < 0) == (y < 0),
                    ;
                }
                i128::MAX
            } else {
                proof {
                    let x = a as int;
                    let y = b as int;
                    assert(x * y <= 0) by (nonlinear_arith)
                        requires
                            (x < 0) != (y < 0),
                    ;
                }
                i128::MIN
            }
        },
    }
}

pub open spec fn rational_sign(a: Rational, b: Rational) -> int {
    order_sign(saturated(a.num * b.den), saturated(b.num * a.den))
}

pub fn ahpcl_rat_cmp(a: AhpclRational, b: AhpclRational) -> (r: i32)
    ensures
        r == rational_sign(fraction_held(a), fraction_held(b)),
{
    let x: i128 = saturating_product(a.num, b.den);
    let y: i128 = saturating_product(b.num, a.den);
    if x < y {
        -1
    } else if x == y {
        0
    } else {
        1
    }
}

/// A rational as it is printed.
pub fn format_rational(r: AhpclRational) -> (t: String)
    ensures
        t@ == rational_text(fraction_held(r)),
{
    r.plain().text()
}

} // verus!
