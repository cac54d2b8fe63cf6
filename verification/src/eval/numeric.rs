//! What the surrounding context asks of a number, and the conversions between kinds of
//! values.

use vstd::arithmetic::div_mod::*;
use vstd::arithmetic::power::*;
use vstd::prelude::*;
use vstd::string::*;

use crate::ast::{Constant, Precision, Sign, TypeRef};
use crate::diagnostics::error::{fault, fault_view, Category, Error, ErrorView};
use crate::diagnostics::position::Span;
use crate::eval::decimal::{decimal_quotient, parsed_decimal, pow10, rounded, scaled, ten, Decimal};
use crate::eval::rational::{rational_of_decimal, Rational};
use crate::eval::value::{kind_text, Val, Value};
use crate::text::{abs_int, cat2, cat3, fits, i128_text, int_text, same_text};

verus! {

/// What the surrounding context asks for: which numeric family, and how many digits
/// an irrational result should be computed to.
#[derive(Debug, Clone, Copy, PartialEq, Eq, Structural)]
pub struct Numeric {
    pub family: Family,
    pub digits: Option<u32>,
}

#[derive(Debug, Clone, Copy, PartialEq, Eq, Structural)]
pub enum Family {
    Int,
    Deci,
    Rat,
}

/// The context of an index or a loop bound.
pub open spec fn whole() -> Option<Numeric> {
    Some(Numeric { family: Family::Int, digits: None })
}

pub fn whole_hint() -> (r: Option<Numeric>)
    ensures
        r == whole(),
{
    Some(Numeric { family: Family::Int, digits: None })
}

pub open spec fn asks_for(hint: Option<Numeric>, f: Family) -> bool {
    hint matches Some(h) && h.family == f
}

pub fn hint_is(hint: Option<Numeric>, f: Family) -> (r: bool)
    ensures
        r == asks_for(hint, f),
{
    match hint {
        Some(h) => h.family == f,
        None => false,
    }
}

/// How many digits to compute an irrational to when nothing says otherwise.
pub const DEFAULT_DIGITS: u32 = 15;

/// Square roots are computed on 128-bit integers, which caps the digits available.
pub const SQRT_MAX_DIGITS: u32 = 18;

/// How many decimal places the built-in constants are known to: what leaves room for the
/// integer part in the digits that a mantissa can hold.
pub const CONSTANT_DIGITS: u32 = 36;

pub open spec fn digits_wanted(hint: Option<Numeric>) -> u32 {
    match hint {
        Some(h) => match h.digits {
            Some(n) => n,
            None => DEFAULT_DIGITS,
        },
        None => DEFAULT_DIGITS,
    }
}

pub fn digits_of(hint: Option<Numeric>) -> (r: u32)
    ensures
        r == digits_wanted(hint),
{
    match hint {
        Some(h) => match h.digits {
            Some(n) => n,
            None => DEFAULT_DIGITS,
        },
        None => DEFAULT_DIGITS,
    }
}

/// The family that a type's name stands for.
pub open spec fn family_of(base: Seq<char>) -> Option<Family> {
    if base == "int"@ {
        Some(Family::Int)
    } else if base == "deci"@ {
        Some(Family::Deci)
    } else if base == "rat"@ {
        Some(Family::Rat)
    } else if base == "infnum"@ || base == "∞num"@ {
        Some(Family::Deci)
    } else {
        None
    }
}

/// The digits that a precision stands for: `[n digits]` says how many, `[n bit]` on a
/// decimal is an IEEE format with its own number of significant digits.
pub open spec fn precision_digits(family: Family, precision: Option<Precision>) -> Option<u32> {
    match precision {
        Some(Precision::Digits(n)) => Some(n),
        Some(Precision::Bits(b)) => if family != Family::Deci {
            None
        } else if b == 32 {
            Some(7u32)
        } else if b == 64 {
            Some(16u32)
        } else if b == 128 {
            Some(34u32)
        } else {
            None
        },
        None => None,
    }
}

pub open spec fn context_of(base: Seq<char>, precision: Option<Precision>) -> Option<Numeric> {
    match family_of(base) {
        Some(family) => Some(Numeric { family, digits: precision_digits(family, precision) }),
        None => None,
    }
}

/// The context a type gives, its own precision replaced where the binding states one.
pub open spec fn binding_context(ty: TypeRef, precision: Option<Precision>) -> Option<Numeric> {
    context_of(
        ty.base@,
        if precision is Some {
            precision
        } else {
            ty.precision
        },
    )
}

fn numeric_context(base: &str, precision: Option<Precision>) -> (r: Option<Numeric>)
    ensures
        r == context_of(base@, precision),
{
    let family: Family = if same_text(base, "int") {
        Family::Int
    } else if same_text(base, "deci") {
        Family::Deci
    } else if same_text(base, "rat") {
        Family::Rat
    } else if same_text(base, "infnum") || same_text(base, "∞num") {
        Family::Deci
    } else {
        return None;
    };
    let digits: Option<u32> = match precision {
        Some(Precision::Digits(n)) => Some(n),
        Some(Precision::Bits(b)) => if family != Family::Deci {
            None
        } else if b == 32 {
            Some(7)
        } else if b == 64 {
            Some(16)
        } else if b == 128 {
            Some(34)
        } else {
            None
        },
        None => None,
    };
    Some(Numeric { family, digits })
}

pub fn numeric_hint_with(ty: &TypeRef, precision: Option<Precision>) -> (r: Option<Numeric>)
    ensures
        r == binding_context(*ty, precision),
{
    match precision {
        Some(p) => numeric_context(ty.base.as_str(), Some(p)),
        None => numeric_context(ty.base.as_str(), ty.precision),
    }
}

pub fn numeric_hint(ty: &TypeRef) -> (r: Option<Numeric>)
    ensures
        r == context_of(ty.base@, ty.precision),
{
    numeric_context(ty.base.as_str(), ty.precision)
}

// ── literals ────────────────────────────────────────────────────────────────

/// A number as the context wants it: a whole one where the context is whole or silent, a
/// fraction where it asks for one.
pub open spec fn coerced(v: Val, hint: Option<Numeric>) -> Val {
    match v {
        Val::Deci(d) => if (hint is None || asks_for(hint, Family::Int)) && d.scale == 0 {
            Val::Int(d.mantissa)
        } else if asks_for(hint, Family::Rat) {
            match rational_of_decimal(d) {
                Some(r) => Val::Rat(r),
                None => v,
            }
        } else {
            v
        },
        _ => v,
    }
}

pub fn coerce(v: Value, hint: Option<Numeric>) -> (r: Value)
    ensures
        r@ == coerced(v@, hint),
{
    match v {
        Value::Deci(d) => if (hint.is_none() || hint_is(hint, Family::Int)) && d.scale == 0 {
            Value::Int(d.mantissa)
        } else if hint_is(hint, Family::Rat) {
            match Rational::from_decimal(d) {
                Some(q) => Value::Rat(q),
                None => Value::Deci(d),
            }
        } else {
            Value::Deci(d)
        },
        other => other,
    }
}

/// What a literal means: a truth value, a number as the context wants it, or text.
pub open spec fn literal_meaning(text: Seq<char>, hint: Option<Numeric>) -> Val {
    if text == "true"@ {
        Val::Bool(true)
    } else if text == "false"@ {
        Val::Bool(false)
    } else {
        match parsed_decimal(text) {
            Some(d) => coerced(Val::Deci(d), hint),
            None => Val::Str(text),
        }
    }
}

pub fn literal_value(text: &str, hint: Option<Numeric>) -> (r: Value)
    ensures
        r@ == literal_meaning(text@, hint),
{
    if same_text(text, "true") {
        return Value::Bool(true);
    }
    if same_text(text, "false") {
        return Value::Bool(false);
    }
    match Decimal::parse(text) {
        Some(d) => coerce(Value::Deci(d), hint),
        None => Value::Str(text.to_owned()),
    }
}

/// π, e and τ, times ten to the number of places they are known to.
pub open spec fn constant_mantissa(c: Constant) -> int {
    match c {
        Constant::Pi => 3141592653589793238462643383279502884,
        Constant::E => 2718281828459045235360287471352662497,
        Constant::Tau => 6283185307179586476925286766559005768,
    }
}

/// A constant to some number of places, the last one rounded.
pub open spec fn constant_decimal(c: Constant, digits: u32) -> Decimal {
    if digits >= CONSTANT_DIGITS {
        Decimal { mantissa: constant_mantissa(c) as i128, scale: CONSTANT_DIGITS }
    } else {
        Decimal {
            mantissa: rounded(constant_mantissa(c), ten((CONSTANT_DIGITS - digits) as nat)) as i128,
            scale: digits,
        }
    }
}

pub fn constant_value(c: Constant, digits: u32) -> (r: Decimal)
    ensures
        r == constant_decimal(c, digits),
{
    let full: i128 = match c {
        Constant::Pi => 3141592653589793238462643383279502884,
        Constant::E => 2718281828459045235360287471352662497,
        Constant::Tau => 6283185307179586476925286766559005768,
    };
    if digits >= CONSTANT_DIGITS {
        return Decimal::new(full, CONSTANT_DIGITS);
    }
    let drop: u32 = CONSTANT_DIGITS - digits;
    proof {
        lemma_ten_36();
        lemma_pow_increases(10, drop as nat, 36);
        lemma_pow_positive(10, drop as nat);
    }
    match pow10(drop) {
        Some(divisor) => {
            proof {
                lemma_div_pos_is_pos(full as int, divisor as int);
                lemma_div_nonincreasing(full as int, divisor as int);
                lemma_mod_bound(full as int, divisor as int);
            }
            let kept: i128 = full / divisor;
            let remainder: i128 = full % divisor;
            if remainder * 2 >= divisor {
                Decimal::new(kept + 1, digits)
            } else {
                Decimal::new(kept, digits)
            }
        },
        None => Decimal::new(full, CONSTANT_DIGITS),
    }
}

pub proof fn lemma_ten_36()
    ensures
        ten(36) == 1_000_000_000_000_000_000_000_000_000_000_000_000,
{
    reveal_with_fuel(pow, 5);
    assert(ten(4) == 10_000);
    lemma_double(10, 4, 10_000);
    lemma_double(10, 8, 100_000_000);
    lemma_double(10, 16, 10_000_000_000_000_000);
    lemma_pow_adds(10, 32, 4);
}

/// The value of a power at twice an exponent.
proof fn lemma_double(b: int, n: nat, v: int)
    requires
        pow(b, n) == v,
    ensures
        pow(b, n + n) == v * v,
{
    lemma_pow_adds(b, n, n);
}

// ── conversions ─────────────────────────────────────────────────────────────

/// A value as a decimal. A fraction is divided out, to the digits a division keeps.
pub open spec fn decimal_from(v: Val) -> Option<Decimal> {
    match v {
        Val::Int(n) => Some(Decimal { mantissa: n, scale: 0 }),
        Val::Deci(d) => Some(d),
        Val::Rat(r) => decimal_quotient(
            Decimal { mantissa: r.num, scale: 0 },
            Decimal { mantissa: r.den, scale: 0 },
            DEFAULT_DIGITS as nat,
        ),
        _ => None,
    }
}

pub fn to_decimal(v: &Value) -> (r: Option<Decimal>)
    ensures
        r == decimal_from(v@),
{
    match v {
        Value::Int(n) => Some(Decimal::from_int(*n)),
        Value::Deci(d) => Some(*d),
        Value::Rat(q) => Decimal::from_int(q.num).div_exact(Decimal::from_int(q.den), DEFAULT_DIGITS),
        _ => None,
    }
}

/// A value as a fraction; what is no number, and what does not fit, counts as zero.
pub open spec fn rational_from(v: Val) -> Rational {
    match v {
        Val::Int(n) => Rational { num: n, den: 1 },
        Val::Rat(r) => r,
        Val::Deci(d) => match rational_of_decimal(d) {
            Some(r) => r,
            None => Rational { num: 0, den: 1 },
        },
        _ => Rational { num: 0, den: 1 },
    }
}

pub fn to_rational(v: &Value) -> (r: Rational)
    ensures
        r == rational_from(v@),
{
    match v {
        Value::Int(n) => Rational::from_int(*n),
        Value::Rat(q) => *q,
        Value::Deci(d) => match Rational::from_decimal(*d) {
            Some(q) => q,
            None => Rational::from_int(0),
        },
        _ => Rational::from_int(0),
    }
}

pub open spec fn bool_from(v: Val, span: Span) -> Result<bool, ErrorView> {
    match v {
        Val::Bool(b) => Ok(b),
        _ => Err(
            fault_view(
                Category::Run,
                1,
                span,
                "this needs a bool, but it is "@ + kind_text(v) + "."@,
                "compare something, as in math { ('x') > 5 }."@,
            ),
        ),
    }
}

/// What a `Result` with an error of the library's says.
pub open spec fn outcome<T>(r: Result<T, Error>) -> Result<T, ErrorView> {
    match r {
        Ok(v) => Ok(v),
        Err(e) => Err(e@),
    }
}

pub fn as_bool(v: &Value, span: Span) -> (r: Result<bool, Error>)
    ensures
        outcome(r) == bool_from(v@, span),
{
    match v {
        Value::Bool(b) => Ok(*b),
        other => Err(
            fault(
                Category::Run,
                1,
                span,
                cat3("this needs a bool, but it is ", other.kind_name(), "."),
                "compare something, as in math { ('x') > 5 }.",
            ),
        ),
    }
}

pub open spec fn int_from(v: Val, span: Span) -> Result<i128, ErrorView> {
    let wrong = fault_view(
        Category::Run,
        1,
        span,
        "this needs a whole number, but it is "@ + kind_text(v) + "."@,
        "use an int."@,
    );
    match v {
        Val::Int(n) => Ok(n),
        Val::Deci(d) => if d.scale == 0 {
            Ok(d.mantissa)
        } else {
            Err(wrong)
        },
        _ => Err(wrong),
    }
}

pub fn as_int(v: &Value, span: Span) -> (r: Result<i128, Error>)
    ensures
        outcome(r) == int_from(v@, span),
{
    match v {
        Value::Int(n) => {
            return Ok(*n);
        },
        Value::Deci(d) => {
            if d.scale == 0 {
                return Ok(d.mantissa);
            }
        },
        _ => {},
    }
    Err(
        fault(
            Category::Run,
            1,
            span,
            cat3("this needs a whole number, but it is ", v.kind_name(), "."),
            "use an int.",
        ),
    )
}

pub open spec fn invalid_index(n: int, span: Span) -> ErrorView {
    fault_view(Category::Run, 3, span, int_text(n) + " is not a valid index."@, "indices start at 1."@)
}

pub fn invalid_index_error(n: i128, span: Span) -> (r: Error)
    ensures
        r@ == invalid_index(n as int, span),
{
    fault(
        Category::Run,
        3,
        span,
        cat2(i128_text(n).as_str(), " is not a valid index."),
        "indices start at 1.",
    )
}

pub open spec fn index_from(v: Val, span: Span) -> Result<i128, ErrorView> {
    match int_from(v, span) {
        Ok(n) => if n < 1 {
            Err(invalid_index(n as int, span))
        } else {
            Ok(n)
        },
        Err(e) => Err(e),
    }
}

pub fn as_index(v: &Value, span: Span) -> (r: Result<i128, Error>)
    ensures
        outcome(r) == index_from(v@, span),
{
    match as_int(v, span) {
        Ok(n) => if n < 1 {
            Err(invalid_index_error(n, span))
        } else {
            Ok(n)
        },
        Err(e) => Err(e),
    }
}

/// The sign of a number: -1, 0 or 1; nothing for what is no number.
pub open spec fn sign_of(v: Val) -> Option<int> {
    let s = |n: i128|
        if n > 0 {
            1int
        } else if n < 0 {
            -1
        } else {
            0
        };
    match v {
        Val::Int(n) => Some(s(n)),
        Val::Deci(d) => Some(s(d.mantissa)),
        Val::Rat(r) => Some(s(r.num)),
        _ => None,
    }
}

pub fn numeric_sign(v: &Value) -> (r: Option<i32>)
    ensures
        match r {
            Some(n) => sign_of(v@) == Some(n as int),
            None => sign_of(v@) is None,
        },
{
    let n: i128 = match v {
        Value::Int(n) => *n,
        Value::Deci(d) => d.mantissa,
        Value::Rat(q) => q.num,
        _ => {
            return None;
        },
    };
    Some(
        if n > 0 {
            1
        } else if n < 0 {
            -1
        } else {
            0
        },
    )
}

// ── widths ──────────────────────────────────────────────────────────────────

/// The largest number that `w` bits without a sign hold, as far as the engine reaches.
pub open spec fn unsigned_limit(w: nat) -> int {
    if w >= 127 {
        i128::MAX as int
    } else {
        pow(2, w) - 1
    }
}

/// The largest number that `w` bits with a sign hold, as far as the engine reaches.
pub open spec fn signed_limit(w: nat) -> int {
    if w >= 128 {
        i128::MAX as int
    } else if w == 0 {
        0
    } else {
        pow(2, (w - 1) as nat) - 1
    }
}

pub open spec fn signed_floor(w: nat) -> int {
    if w >= 128 {
        i128::MIN as int
    } else if w == 0 {
        0
    } else {
        -pow(2, (w - 1) as nat)
    }
}

/// What a width holds. A `+int` cannot be negative, so the sign bit is free.
pub open spec fn width_bounds(bits: u32, sign: Option<Sign>) -> (int, int) {
    match sign {
        Some(Sign::Positive) => (1, unsigned_limit(bits as nat)),
        Some(Sign::Negative) => (-unsigned_limit(bits as nat), -1),
        None => (signed_floor(bits as nat), signed_limit(bits as nat)),
    }
}

pub fn two_to(w: u32) -> (r: i128)
    requires
        w <= 126,
    ensures
        r == pow(2, w as nat),
        r >= 1,
{
    let mut acc: i128 = 1;
    let mut i: u32 = 0;
    proof {
        lemma_pow0(2);
        lemma_two_126();
    }
    while i < w
        invariant
            i <= w <= 126,
            acc == pow(2, i as nat),
            acc >= 1,
            pow(2, 126) == 0x4000_0000_0000_0000_0000_0000_0000_0000,
        decreases w - i,
    {
        proof {
            lemma_pow_adds(2, i as nat, 1);
            lemma_pow1(2);
            lemma_pow_increases(2, (i + 1) as nat, 126);
        }
        acc = acc * 2;
        i = i + 1;
    }
    acc
}

pub proof fn lemma_two_126()
    ensures
        pow(2, 126) == 0x4000_0000_0000_0000_0000_0000_0000_0000,
{
    reveal_with_fuel(pow, 7);
    assert(pow(2, 6) == 64);
    lemma_double(2, 6, 64);
    lemma_double(2, 12, 0x1000);
    lemma_double(2, 24, 0x100_0000);
    lemma_double(2, 48, 0x1_0000_0000_0000);
    lemma_pow_adds(2, 96, 24);
    lemma_pow_adds(2, 120, 6);
}

pub fn int_width_range(bits: u32, sign: Option<Sign>) -> (r: (i128, i128))
    ensures
        (r.0 as int, r.1 as int) == width_bounds(bits, sign),
{
    let unsigned_max: i128 = if bits >= 127 {
        i128::MAX
    } else {
        two_to(bits) - 1
    };
    match sign {
        Some(Sign::Positive) => (1, unsigned_max),
        Some(Sign::Negative) => (-unsigned_max, -1),
        None => if bits >= 128 {
            (i128::MIN, i128::MAX)
        } else if bits == 0 {
            (0, 0)
        } else {
            proof {
                lemma_two_126();
                if bits == 127 {
                    lemma_pow_adds(2, 126, 1);
                    lemma_pow1(2);
                }
            }
            let p: i128 = two_to(bits - 1);
            (-p, p - 1)
        },
    }
}

// ── powers and roots ────────────────────────────────────────────────────────

/// A whole number to a whole power, where it fits.
pub fn int_pow(x: i128, n: u32) -> (r: Option<i128>)
    ensures
        r == if fits(pow(x as int, n as nat)) { Some(pow(x as int, n as nat) as i128) } else { None },
{
    if x == 0 || x == 1 || x == -1 {
        proof {
            if x == 0 {
                if n > 0 {
                    lemma0_pow(n as nat);
                } else {
                    lemma_pow0(0);
                }
            } else if x == 1 {
                lemma1_pow(n as nat);
            } else {
                lemma_minus_one(n as nat);
            }
        }
        return Some(
            if x == 0 {
                if n == 0 {
                    1
                } else {
                    0
                }
            } else if x == 1 || n % 2 == 0 {
                1
            } else {
                -1
            },
        );
    }
    let mut acc: i128 = 1;
    let mut i: u32 = 0;
    proof {
        lemma_pow0(x as int);
    }
    while i < n
        invariant
            i <= n,
            x != 0 && x != 1 && x != -1,
            acc == pow(x as int, i as nat),
        decreases n - i,
    {
        proof {
            lemma_pow_adds(x as int, i as nat, 1);
            lemma_pow1(x as int);
        }
        match acc.checked_mul(x) {
            None => {
                proof {
                    lemma_pow_outgrows(x as int, (i + 1) as nat, n as nat);
                }
                return None;
            },
            Some(v) => {
                acc = v;
            },
        }
        i = i + 1;
    }
    Some(acc)
}

pub(crate) proof fn lemma_minus_one(n: nat)
    ensures
        pow(-1, n) == if n % 2 == 0 { 1int } else { -1int },
    decreases n,
{
    if n == 0 {
        lemma_pow0(-1);
    } else {
        lemma_minus_one((n - 1) as nat);
        lemma_pow_adds(-1, (n - 1) as nat, 1);
        lemma_pow1(-1);
    }
}

/// A power that no longer fits never fits again.
pub(crate) proof fn lemma_pow_outgrows(x: int, k: nat, n: nat)
    requires
        x >= 2 || x <= -2,
        k <= n,
        !fits(pow(x, k)),
    ensures
        !fits(pow(x, n)),
{
    if k < n {
        lemma_pow_doubles(x, k, n);
    }
}

proof fn lemma_pow_doubles(x: int, k: nat, n: nat)
    requires
        x >= 2 || x <= -2,
        k < n,
    ensures
        abs_int(pow(x, n)) >= 2 * abs_int(pow(x, k)),
    decreases n,
{
    lemma_pow_adds(x, (n - 1) as nat, 1);
    lemma_pow1(x);
    let p = pow(x, (n - 1) as nat);
    let q = pow(x, n);
    assert(abs_int(q) >= 2 * abs_int(p)) by (nonlinear_arith)
        requires
            q == p * x,
            x >= 2 || x <= -2,
    ;
    if k < n - 1 {
        lemma_pow_doubles(x, k, (n - 1) as nat);
    }
}

/// The whole part of a square root.
pub open spec fn is_root(n: int, r: int) -> bool {
    &&& r >= 0
    &&& r * r <= n
    &&& n < (r + 1) * (r + 1)
}

/// The one number whose square is the largest square not above `n`.
pub open spec fn whole_root(n: int) -> int {
    choose|r: int| is_root(n, r)
}

/// There is only one whole root.
pub proof fn lemma_root_unique(n: int, r: int)
    requires
        is_root(n, r),
    ensures
        whole_root(n) == r,
{
    let w = whole_root(n);
    assert(is_root(n, w));
    if w < r {
        assert((w + 1) * (w + 1) <= r * r) by (nonlinear_arith)
            requires
                0 <= w < r,
        ;
    }
    if r < w {
        assert((r + 1) * (r + 1) <= w * w) by (nonlinear_arith)
            requires
                0 <= r < w,
        ;
    }
}

/// The whole part of a square root, by Newton's method.
pub fn integer_sqrt(n: u128) -> (r: u128)
    requires
        n < u128::MAX,
    ensures
        is_root(n as int, r as int),
{
    if n < 2 {
        assert(n == 0 || n == 1);
        assert(0 * 0 == 0 && 1 * 1 == 1 && 2 * 2 == 4);
        return n;
    }
    let mut x: u128 = n;
    let mut y: u128 = (x + 1) / 2;
    proof {
        lemma_newton(n as int, n as int);
        assert(n as int / n as int == 1) by (nonlinear_arith)
            requires
                n > 0,
        ;
        assert(n < (n + 1) * (n + 1)) by (nonlinear_arith)
            requires
                n >= 0,
        ;
    }
    while y < x
        invariant
            2 <= n < u128::MAX,
            1 <= x <= n,
            n < (x + 1) * (x + 1),
            y as int == (x as int + n as int / x as int) / 2,
        decreases x,
    {
        proof {
            lemma_newton(n as int, x as int);
        }
        x = y;
        proof {
            lemma_sum_with_quotient(n as int, x as int);
        }
        y = (x + n / x) / 2;
    }
    proof {
        // x <= (x + n / x) / 2, so x <= n / x, so x * x <= n
        lemma_fundamental_div_mod(n as int, x as int);
        lemma_mod_bound(n as int, x as int);
        let q = n as int / x as int;
        assert(q >= x);
        assert(x * x <= n) by (nonlinear_arith)
            requires
                n as int == x as int * q + n as int % x as int,
                n as int % x as int >= 0,
                q >= x,
                x >= 1,
        ;
    }
    x
}

/// A divisor and its quotient add up to no more than the number and one.
proof fn lemma_sum_with_quotient(n: int, x: int)
    requires
        1 <= x <= n,
    ensures
        x + n / x <= n + 1,
{
    lemma_fundamental_div_mod(n, x);
    lemma_mod_bound(n, x);
    let q = n / x;
    assert(q >= 1) by (nonlinear_arith)
        requires
            n == x * q + n % x,
            n % x < x,
            x >= 1,
            n >= x,
    ;
    assert(x + q <= x * q + 1) by (nonlinear_arith)
        requires
            x >= 1,
            q >= 1,
    ;
}

/// One step of Newton's method never falls below the root.
proof fn lemma_newton(n: int, x: int)
    requires
        n >= 2,
        x >= 1,
    ensures
        ({
            let y = (x + n / x) / 2;
            &&& n < (y + 1) * (y + 1)
            &&& y >= 1
        }),
{
    lemma_fundamental_div_mod(n, x);
    lemma_mod_bound(n, x);
    let q = n / x;
    let y = (x + q) / 2;
    // n < x * (q + 1), and (y + 1) * 2 >= x + q + 1
    assert(n < x * (q + 1)) by (nonlinear_arith)
        requires
            n == x * q + n % x,
            n % x < x,
    ;
    assert(2 * (y + 1) >= x + q + 1);
    assert(q >= 0) by (nonlinear_arith)
        requires
            n < x * (q + 1),
            n >= 2,
            x >= 1,
    ;
    let s = x + q + 1;
    assert(4 * (x * (q + 1)) <= s * s) by (nonlinear_arith)
        requires
            s == x + q + 1,
    ;
    let t = 2 * (y + 1);
    assert(s * s <= t * t) by (nonlinear_arith)
        requires
            0 <= s <= t,
    ;
    assert(t * t == 4 * ((y + 1) * (y + 1))) by (nonlinear_arith)
        requires
            t == 2 * (y + 1),
    ;
    if y < 1 {
        assert(x + q <= 1);
        assert(q == 0);
        assert(n < 1 * (0 + 1)) by (nonlinear_arith)
            requires
                n < x * (q + 1),
                x == 1,
                q == 0,
        ;
    }
}

/// The number whose whole root is the digits of a square root: `m * 10^(2n - s)`.
pub open spec fn root_operand(d: Decimal, digits: u32) -> Option<int> {
    let shift = 2 * digits - d.scale;
    if shift >= 0 {
        scaled(d.mantissa as int, shift)
    } else if fits(ten((-shift) as nat)) {
        Some(d.mantissa as int / ten((-shift) as nat))
    } else {
        None
    }
}

/// A square root to some number of places, its digits cut off after the last.
pub open spec fn square_root(d: Decimal, digits: u32) -> Option<Decimal> {
    match root_operand(d, digits) {
        Some(n) => Some(Decimal { mantissa: whole_root(n) as i128, scale: digits }),
        None => None,
    }
}

impl Decimal {
    /// Square root to `digits` places, its digits cut off after the last; nothing where the
    /// number that the digits are taken from does not fit.
    pub fn sqrt_to(self, digits: u32) -> (r: Option<Decimal>)
        requires
            self.mantissa >= 0,
        ensures
            r == square_root(self, digits),
    {
        let shift: i64 = 2 * digits as i64 - self.scale as i64;
        let operand: i128 = if shift >= 0 {
            match u32_of(shift) {
                Some(k) => match pow10(k) {
                    Some(p) => match self.mantissa.checked_mul(p) {
                        Some(v) => {
                            proof {
                                lemma_pow_positive(10, k as nat);
                                let m = self.mantissa as int;
                                assert(m * p >= 0) by (nonlinear_arith)
                                    requires
                                        m >= 0,
                                        p >= 0,
                                ;
                            }
                            v
                        },
                        None => {
                            return None;
                        },
                    },
                    None => {
                        return None;
                    },
                },
                None => {
                    proof {
                        lemma_ten_large(shift as nat);
                    }
                    return None;
                },
            }
        } else {
            match pow10((-shift) as u32) {
                Some(p) => {
                    proof {
                        lemma_pow_positive(10, (-shift) as nat);
                        lemma_div_pos_is_pos(self.mantissa as int, p as int);
                    }
                    self.mantissa / p
                },
                None => {
                    return None;
                },
            }
        };
        let root: u128 = integer_sqrt(operand as u128);
        proof {
            let q = root as int;
            assert(q <= operand) by (nonlinear_arith)
                requires
                    q * q <= operand,
                    q >= 0,
                    operand >= 0,
            ;
            lemma_root_unique(operand as int, q);
        }
        Some(Decimal { mantissa: root as i128, scale: digits })
    }
}

fn u32_of(n: i64) -> (r: Option<u32>)
    requires
        n >= 0,
    ensures
        r == if n <= u32::MAX { Some(n as u32) } else { None },
{
    if n <= 0xffff_ffff {
        Some(n as u32)
    } else {
        None
    }
}

proof fn lemma_ten_large(k: nat)
    requires
        k >= 40,
    ensures
        !fits(ten(k)),
{
    lemma_ten_36();
    lemma_pow_adds(10, 36, 4);
    reveal_with_fuel(pow, 5);
    lemma_pow_increases(10, 40, k);
}

// ── whole numbers below and above ───────────────────────────────────────────

/// The largest whole number not above `n / d`.
pub open spec fn floor_ratio(n: int, d: int) -> int {
    n / d
}

/// The smallest whole number not below `n / d`.
pub open spec fn ceil_ratio(n: int, d: int) -> int {
    -((-n) / d)
}

/// A number rounded down or up to a whole one; nothing for what is no number.
pub open spec fn whole_part(v: Val, up: bool) -> Option<int> {
    let pick = |n: int, d: int|
        if up {
            ceil_ratio(n, d)
        } else {
            floor_ratio(n, d)
        };
    match v {
        Val::Int(n) => Some(n as int),
        Val::Deci(d) => Some(pick(d.mantissa as int, ten(d.scale as nat))),
        Val::Rat(r) => if r.den > 0 {
            Some(pick(r.num as int, r.den as int))
        } else {
            None
        },
        _ => None,
    }
}

fn ratio_part(n: i128, d: i128, up: bool) -> (r: i128)
    requires
        d > 0,
    ensures
        r == if up { ceil_ratio(n as int, d as int) } else { floor_ratio(n as int, d as int) },
{
    proof {
        lemma_whole_part_bounds(n as int, d as int);
    }
    let q: i128 = match n.checked_div_euclid(d) {
        Some(q) => q,
        None => 0,
    };
    let m: i128 = match n.checked_rem_euclid(d) {
        Some(m) => m,
        None => 0,
    };
    if up && m != 0 {
        q + 1
    } else {
        q
    }
}

proof fn lemma_whole_part_bounds(n: int, d: int)
    requires
        d > 0,
        fits(d),
        fits(n),
    ensures
        fits(n / d),
        fits(n % d),
        n % d == 0 ==> ceil_ratio(n, d) == n / d,
        n % d != 0 ==> ceil_ratio(n, d) == n / d + 1,
        fits(ceil_ratio(n, d)),
{
    lemma_fundamental_div_mod(n, d);
    lemma_mod_bound(n, d);
    let q = n / d;
    let r = n % d;
    assert(q >= i128::MIN && q <= i128::MAX && (r != 0 ==> q + 1 <= i128::MAX)) by (nonlinear_arith)
        requires
            n == d * q + r,
            0 <= r < d,
            d >= 1,
            i128::MIN <= n <= i128::MAX,
    ;
    lemma_remainder_fits(n, d);
    if r == 0 {
        assert(-n == d * (-q) + 0) by (nonlinear_arith)
            requires
                n == d * q + r,
                r == 0,
        ;
        assert(-n == (-q) * d + 0) by (nonlinear_arith)
            requires
                -n == d * (-q) + 0,
        ;
        lemma_fundamental_div_mod_converse(-n, d, -q, 0);
    } else {
        assert(-n == (-q - 1) * d + (d - r)) by (nonlinear_arith)
            requires
                n == d * q + r,
        ;
        lemma_fundamental_div_mod_converse(-n, d, -q - 1, d - r);
    }
}

proof fn lemma_remainder_fits(n: int, d: int)
    requires
        d > 0,
        fits(d),
        fits(n),
    ensures
        fits(n % d),
{
    lemma_mod_bound(n, d);
    if n >= 0 {
        lemma_fundamental_div_mod(n, d);
        let q = n / d;
        let r = n % d;
        lemma_div_pos_is_pos(n, d);
        assert(r <= n) by (nonlinear_arith)
            requires
                n == d * q + r,
                q >= 0,
                d > 0,
        ;
    }
}

/// A number rounded down, or up, to a whole one.
pub fn whole_value(v: &Value, up: bool) -> (r: Option<i128>)
    ensures
        match r {
            Some(n) => whole_part(v@, up) == Some(n as int),
            None => whole_part(v@, up) is None,
        },
{
    match v {
        Value::Int(n) => Some(*n),
        Value::Deci(d) => match pow10(d.scale) {
            Some(p) => {
                proof {
                    lemma_pow_positive(10, d.scale as nat);
                }
                Some(ratio_part(d.mantissa, p, up))
            },
            None => {
                // The power of ten is beyond every mantissa, so only the sign is left.
                proof {
                    lemma_ten_beyond(d.scale as nat);
                    lemma_tiny(d.mantissa as int, ten(d.scale as nat));
                    lemma_pow_positive(10, d.scale as nat);
                }
                Some(
                    if up {
                        if d.mantissa > 0 {
                            1
                        } else {
                            0
                        }
                    } else if d.mantissa < 0 {
                        -1
                    } else {
                        0
                    },
                )
            },
        },
        Value::Rat(q) => if q.den > 0 {
            Some(ratio_part(q.num, q.den, up))
        } else {
            None
        },
        _ => None,
    }
}

proof fn lemma_tiny(n: int, d: int)
    requires
        fits(n),
        d > -(i128::MIN as int),
    ensures
        d > 0 ==> floor_ratio(n, d) == if n < 0 { -1int } else { 0int },
        d > 0 ==> ceil_ratio(n, d) == if n > 0 { 1int } else { 0int },
{
    if d > 0 {
        assert(d > i128::MAX);
        if n >= 0 {
            lemma_fundamental_div_mod_converse(n, d, 0, n);
        } else {
            lemma_fundamental_div_mod_converse(n, d, -1, n + d);
        }
        if n > 0 {
            lemma_fundamental_div_mod_converse(-n, d, -1, d - n);
        } else {
            lemma_fundamental_div_mod_converse(-n, d, 0, -n);
        }
    }
}

/// A power of ten that does not fit is beyond the magnitude of every number that does.
proof fn lemma_ten_beyond(k: nat)
    requires
        !fits(ten(k)),
    ensures
        ten(k) > -(i128::MIN as int),
{
    lemma_ten_36();
    lemma_pow_adds(10, 36, 2);
    lemma_pow_adds(10, 36, 3);
    reveal_with_fuel(pow, 5);
    lemma_pow_positive(10, k);
    if k <= 38 {
        lemma_pow_increases(10, k, 38);
    } else {
        lemma_pow_increases(10, 39, k);
    }
}

} // verus!
