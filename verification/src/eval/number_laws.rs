//! What operators make of numbers, said of the numbers that values stand for.

use vstd::arithmetic::div_mod::*;
use vstd::arithmetic::mul::*;
use vstd::arithmetic::power::*;
use vstd::prelude::*;

use crate::ast::{BinOp, Constant, UnOp};
use crate::diagnostics::position::Span;
use crate::eval::decimal::{
    decimal_difference, decimal_product, decimal_quotient, decimal_remainder, decimal_sum,
    decimal_whole_quotient, normal, scaled, ten, Decimal,
};
use crate::eval::laws::{
    a_decimal_as_a_fraction_is_the_same_number, decimal_difference_is_exact, decimal_product_is_exact,
    decimal_quotient_is_rounded, decimal_remainder_is_what_is_left, decimal_sum_is_exact, decimal_value,
    lemma_ten_positive, normal_keeps_the_value, rational_arithmetic_is_exact,
    rational_order_is_the_order_of_values, rational_quotient_is_exact, rational_value,
};
use crate::eval::numeric::{
    asks_for, coerced, constant_decimal, decimal_from, digits_wanted, is_root, rational_from, root_operand,
    square_root, whole_root, Family, Numeric, CONSTANT_DIGITS,
};
use crate::eval::ops::{
    arith, compared, fail, is_comparison, overflow, root_digits, settled, sum_of, summed, text_order,
    unary_val, zero_divisor, AnswerView, RequestView, StopView,
};
use crate::eval::rational::{rational_of_decimal, Rational};
use crate::eval::value::Val;
use crate::text::fits;

verus! {

/// Whether a value is a number: whole, decimal, or a fraction over a positive number.
pub open spec fn is_number(v: Val) -> bool {
    v is Int || v is Deci || (v matches Val::Rat(r) && r.den > 0)
}

/// The number a value stands for.
pub open spec fn number(v: Val) -> real {
    match v {
        Val::Int(n) => (n as int) as real,
        Val::Deci(d) => decimal_value(d),
        Val::Rat(r) => rational_value(r),
        _ => 0 as real,
    }
}

/// Whether two numbers meet without a fraction having to be divided out.
pub open spec fn meet_exactly(a: Val, b: Val) -> bool {
    &&& is_number(a)
    &&& is_number(b)
    &&& !(a is Deci && b is Rat)
    &&& !(a is Rat && b is Deci)
}

pub(crate) proof fn lemma_whole_decimal(n: i128)
    ensures
        decimal_value(Decimal { mantissa: n, scale: 0 }) == (n as int) as real,
{
    lemma_pow0(10);
    let x = (n as int) as real;
    assert(x / (1 as real) == x) by (nonlinear_arith);
}

pub(crate) proof fn lemma_whole_fraction(n: i128)
    ensures
        rational_value(Rational { num: n, den: 1 }) == (n as int) as real,
{
    let x = (n as int) as real;
    assert(x / (1 as real) == x) by (nonlinear_arith);
}

/// Sums, differences and products are those of the numbers: nothing is rounded.
pub proof fn arithmetic_is_exact(op: BinOp, a: Val, b: Val, span: Span, hint: Option<Numeric>)
    requires
        meet_exactly(a, b),
        op == BinOp::Add || op == BinOp::Sub || op == BinOp::Mul,
    ensures
        arith(op, a, b, span, hint) matches Ok(v) ==> is_number(v) && number(v) == (match op {
            BinOp::Add => number(a) + number(b),
            BinOp::Sub => number(a) - number(b),
            _ => number(a) * number(b),
        }) && (v is Rat ==> a is Rat || b is Rat),
        a is Int && b is Int ==> arith(op, a, b, span, hint) == (if fits(
            match op {
                BinOp::Add => a->Int_0 + b->Int_0,
                BinOp::Sub => a->Int_0 - b->Int_0,
                _ => a->Int_0 * b->Int_0,
            },
        ) {
            Ok::<Val, StopView>(
                Val::Int(
                    (match op {
                        BinOp::Add => a->Int_0 + b->Int_0,
                        BinOp::Sub => a->Int_0 - b->Int_0,
                        _ => a->Int_0 * b->Int_0,
                    }) as i128,
                ),
            )
        } else {
            fail(overflow(span))
        }),
{
    reveal(arith);
    if a is Int && b is Int {
        let x = a->Int_0 as int;
        let y = b->Int_0 as int;
        assert((x * y) as real == (x as real) * (y as real)) by (nonlinear_arith);
    } else if a is Deci || b is Deci {
        let x = decimal_from(a)->0;
        let y = decimal_from(b)->0;
        if let Val::Int(n) = a {
            lemma_whole_decimal(n);
        }
        if let Val::Int(n) = b {
            lemma_whole_decimal(n);
        }
        decimal_sum_is_exact(x, y);
        decimal_difference_is_exact(x, y);
        decimal_product_is_exact(x, y);
        if let Some(d) = decimal_sum(x, y) {
            normal_keeps_the_value(d);
        }
        if let Some(d) = decimal_difference(x, y) {
            normal_keeps_the_value(d);
        }
        if let Some(d) = decimal_product(x, y) {
            normal_keeps_the_value(d);
        }
    } else {
        if let Val::Int(n) = a {
            lemma_whole_fraction(n);
        }
        if let Val::Int(n) = b {
            lemma_whole_fraction(n);
        }
        rational_arithmetic_is_exact(rational_from(a), rational_from(b));
    }
}

/// Decimals to the same number of places are added and subtracted wherever the result fits,
/// and decimals are multiplied wherever it does.
pub proof fn decimals_that_fit_are_computed(op: BinOp, a: Decimal, b: Decimal, span: Span, hint: Option<Numeric>)
    requires
        op == BinOp::Add && a.scale == b.scale && fits(a.mantissa + b.mantissa) || op == BinOp::Sub && a.scale == b.scale && fits(
            a.mantissa - b.mantissa,
        ) || op == BinOp::Mul && fits(a.mantissa * b.mantissa) && a.scale + b.scale <= u32::MAX,
    ensures
        arith(op, Val::Deci(a), Val::Deci(b), span, hint) is Ok,
{
    reveal(arith);
    lemma_pow0(10);
    assert(scaled(a.mantissa as int, 0) == Some(a.mantissa as int));
    assert(scaled(b.mantissa as int, 0) == Some(b.mantissa as int));
}

/// A whole quotient leaves a remainder that is never below zero nor as large as the divisor.
pub proof fn a_whole_quotient_leaves_a_remainder(a: Val, b: Val, span: Span, hint: Option<Numeric>)
    requires
        a is Int || a is Deci,
        b is Int || b is Deci,
    ensures
        arith(BinOp::IntDiv, a, b, span, hint) matches Ok(q) ==> {
            let left = number(a) - number(b) * number(q);
            &&& q is Int
            &&& number(b) != 0 as real
            &&& 0 as real <= left
            &&& left < number(b) || left < -number(b)
        },
        number(b) == 0 as real ==> arith(BinOp::IntDiv, a, b, span, hint) == fail::<Val>(zero_divisor(span, false)),
        a is Int && b is Int && b->Int_0 != 0 && !(a->Int_0 == i128::MIN && b->Int_0 == -1) ==> arith(BinOp::IntDiv, a, b, span, hint) is Ok,
{
    reveal(arith);
    if a is Int && b is Int {
        let x = a->Int_0 as int;
        let y = b->Int_0 as int;
        if y != 0 {
            lemma_euclid(x, y);
            let q = x / y;
            assert((y * q) as real == (y as real) * (q as real)) by (nonlinear_arith);
        }
    } else {
        let x = decimal_from(a)->0;
        let y = decimal_from(b)->0;
        lemma_numbers_as_decimals(a, b);
        lemma_zero_decimal(y);
        lemma_whole_quotient(x, y);
    }
}

pub(crate) proof fn lemma_euclid(x: int, y: int)
    requires
        y != 0,
    ensures
        x == y * (x / y) + x % y,
        0 <= x % y,
        x % y < y || x % y < -y,
        fits(x) && fits(y) ==> fits(x % y),
        fits(x) && fits(y) && !(x == i128::MIN && y == -1) ==> fits(x / y),
{
    let q = x / y;
    let r = x % y;
    assert(x == y * q + r && 0 <= r && (r < y || r < -y)) by (nonlinear_arith)
        requires
            y != 0,
            q == x / y,
            r == x % y,
    ;
    if fits(x) && fits(y) && !(x == i128::MIN && y == -1) {
        if y == -1 {
            assert(q == -x) by (nonlinear_arith)
                requires
                    x == y * q + r,
                    y == -1,
                    0 <= r,
                    r < y || r < -y,
            ;
        } else {
            assert(i128::MIN <= q <= i128::MAX) by (nonlinear_arith)
                requires
                    x == y * q + r,
                    0 <= r,
                    r < y || r < -y,
                    y >= 1 || y <= -2,
                    i128::MIN <= x <= i128::MAX,
            ;
        }
    }
}

proof fn lemma_numbers_as_decimals(a: Val, b: Val)
    requires
        a is Int || a is Deci,
        b is Int || b is Deci,
    ensures
        decimal_value(decimal_from(a)->0) == number(a),
        decimal_value(decimal_from(b)->0) == number(b),
{
    if let Val::Int(n) = a {
        lemma_whole_decimal(n);
    }
    if let Val::Int(n) = b {
        lemma_whole_decimal(n);
    }
}

pub(crate) proof fn lemma_zero_decimal(y: Decimal)
    ensures
        y.mantissa == 0 <==> decimal_value(y) == 0 as real,
{
    lemma_ten_positive(y.scale as nat);
    let m = (y.mantissa as int) as real;
    let t = ten(y.scale as nat) as real;
    assert(m / t == 0 as real <==> m == 0 as real) by (nonlinear_arith)
        requires
            t > 0 as real,
    ;
}

/// What the whole quotient of two decimals leaves.
proof fn lemma_whole_quotient(a: Decimal, b: Decimal)
    ensures
        decimal_whole_quotient(a, b) matches Some(q) ==> {
            let left = decimal_value(a) - decimal_value(b) * (q as real);
            &&& decimal_value(b) != 0 as real
            &&& 0 as real <= left
            &&& left < decimal_value(b) || left < -decimal_value(b)
            &&& fits(q)
        },
{
    if let Some(q) = decimal_whole_quotient(a, b) {
        let (n, d) = crate::eval::decimal::ratio_of(a, b)->0;
        crate::eval::laws::lemma_ratio_value(a, b);
        lemma_euclid(n, d);
        crate::eval::laws::lemma_same_sign(a, b);
        let x = decimal_value(a);
        let y = decimal_value(b);
        let rn = n as real;
        let rd = d as real;
        let rq = q as real;
        let rr = (n % d) as real;
        assert((d * q) as real == rd * rq) by (nonlinear_arith)
            requires
                rd == d as real,
                rq == q as real,
        ;
        assert(rn == rd * rq + rr);
        // x / y == rn / rd, so (x - y q) rd == rr y
        assert(x * rd == rn * y) by (nonlinear_arith)
            requires
                rn / rd == x / y,
                rd != 0 as real,
                y != 0 as real,
        ;
        let left = x - y * rq;
        assert(left * rd == rr * y) by (nonlinear_arith)
            requires
                left == x - y * rq,
                x * rd == rn * y,
                rn == rd * rq + rr,
        ;
        if y > 0 as real {
            assert(0 as real <= left && left < y) by (nonlinear_arith)
                requires
                    left * rd == rr * y,
                    rd > 0 as real,
                    y > 0 as real,
                    0 as real <= rr,
                    rr < rd,
            ;
        } else {
            assert(0 as real <= left && left < -y) by (nonlinear_arith)
                requires
                    left * rd == rr * y,
                    rd < 0 as real,
                    y < 0 as real,
                    0 as real <= rr,
                    rr < -rd,
            ;
        }
    }
}

/// A whole number of times a number.
pub open spec fn times(q: int, x: real) -> real {
    x * (q as real)
}

/// A remainder is the dividend less a whole number of divisors, never below zero nor as large
/// as the divisor.
pub proof fn a_remainder_is_what_is_left(a: Val, b: Val, span: Span, hint: Option<Numeric>)
    requires
        a is Int || a is Deci,
        b is Int || b is Deci,
    ensures
        arith(BinOp::Mod, a, b, span, hint) matches Ok(v) ==> {
            &&& is_number(v)
            &&& 0 as real <= number(v)
            &&& number(v) < number(b) || number(v) < -number(b)
            &&& exists|q: int| number(a) == #[trigger] times(q, number(b)) + number(v)
        },
        number(b) == 0 as real ==> arith(BinOp::Mod, a, b, span, hint) == fail::<Val>(zero_divisor(span, true)),
        a is Int && b is Int && b->Int_0 != 0 ==> arith(BinOp::Mod, a, b, span, hint) is Ok,
{
    reveal(arith);
    if a is Int && b is Int {
        let x = a->Int_0 as int;
        let y = b->Int_0 as int;
        if y != 0 {
            lemma_euclid(x, y);
            let q = x / y;
            assert((y * q) as real == (y as real) * (q as real)) by (nonlinear_arith);
            assert(number(a) == times(q, number(b)) + (x % y) as real);
        }
    } else {
        let x = decimal_from(a)->0;
        let y = decimal_from(b)->0;
        lemma_numbers_as_decimals(a, b);
        lemma_zero_decimal(y);
        decimal_remainder_is_what_is_left(x, y);
        if let Some(d) = decimal_remainder(x, y) {
            normal_keeps_the_value(d);
            let q = decimal_whole_quotient(x, y)->0;
            assert(number(a) == times(q, number(b)) + decimal_value(d));
        }
    }
}

/// A quotient is exact where a fraction is asked for; else it is a decimal within half a unit
/// of the last place asked for.
pub proof fn a_quotient_is_exact_or_rounded(a: Val, b: Val, span: Span, hint: Option<Numeric>)
    requires
        is_number(a),
        is_number(b),
    ensures
        asks_for(hint, Family::Rat) && !(a is Deci) && !(b is Deci) ==> (arith(BinOp::Div, a, b, span, hint) matches Ok(v) ==> v is Rat
            && is_number(v) && number(b) != 0 as real && number(v) == number(a) / number(b)),
        !asks_for(hint, Family::Rat) && !(a is Rat) && !(b is Rat) ==> (arith(BinOp::Div, a, b, span, hint) matches Ok(v) ==> {
            let off = (number(v) - number(a) / number(b)) * ten(digits_wanted(hint) as nat) as real;
            &&& v is Deci
            &&& number(b) != 0 as real
            &&& -1 as real <= 2 as real * off <= 1 as real
        }),
        !asks_for(hint, Family::Rat) && !(a is Rat) && !(b is Rat) && number(b) == 0 as real ==> arith(BinOp::Div, a, b, span, hint)
            == fail::<Val>(zero_divisor(span, false)),
{
    reveal(arith);
    if asks_for(hint, Family::Rat) {
        if let Val::Int(n) = a {
            lemma_whole_fraction(n);
        }
        if let Val::Int(n) = b {
            lemma_whole_fraction(n);
        }
        if !(a is Deci) && !(b is Deci) {
            rational_quotient_is_exact(rational_from(a), rational_from(b));
            lemma_zero_fraction(rational_from(b));
        }
    } else if !(a is Rat) && !(b is Rat) {
        let x = decimal_from(a)->0;
        let y = decimal_from(b)->0;
        let max = digits_wanted(hint) as nat;
        lemma_numbers_as_decimals(a, b);
        lemma_zero_decimal(y);
        decimal_quotient_is_rounded(x, y, max);
        if let Some(d) = decimal_quotient(x, y, max) {
            normal_keeps_the_value(d);
            if d.scale < max {
                let t = ten(max) as real;
                assert((0 as real) * t == 0 as real) by (nonlinear_arith);
            }
        }
    }
}

proof fn lemma_zero_fraction(r: Rational)
    requires
        r.den > 0,
    ensures
        r.num == 0 <==> rational_value(r) == 0 as real,
{
    let m = (r.num as int) as real;
    let t = (r.den as int) as real;
    assert(m / t == 0 as real <==> m == 0 as real) by (nonlinear_arith)
        requires
            t > 0 as real,
    ;
}

// ── one operand ─────────────────────────────────────────────────────────────

/// A number over a positive whole number.
pub(crate) proof fn lemma_ratio_sign(n: int, d: int)
    requires
        d > 0,
    ensures
        n < 0 <==> (n as real) / (d as real) < 0 as real,
        n > 0 <==> (n as real) / (d as real) > 0 as real,
        (-n) as real / (d as real) == -((n as real) / (d as real)),
{
    let x = n as real;
    let t = d as real;
    assert(x < 0 as real <==> x / t < 0 as real) by (nonlinear_arith)
        requires
            t > 0 as real,
    ;
    assert(x > 0 as real <==> x / t > 0 as real) by (nonlinear_arith)
        requires
            t > 0 as real,
    ;
    assert((-x) / t == -(x / t)) by (nonlinear_arith)
        requires
            t > 0 as real,
    ;
}

/// A number, as a whole number over a positive one.
pub open spec fn numerator(v: Val) -> int {
    match v {
        Val::Int(n) => n as int,
        Val::Deci(d) => d.mantissa as int,
        Val::Rat(r) => r.num as int,
        _ => 0,
    }
}

pub open spec fn denominator(v: Val) -> int {
    match v {
        Val::Deci(d) => ten(d.scale as nat),
        Val::Rat(r) => r.den as int,
        _ => 1,
    }
}

pub(crate) proof fn lemma_number_is_ratio(v: Val)
    requires
        is_number(v),
    ensures
        denominator(v) > 0,
        number(v) == (numerator(v) as real) / (denominator(v) as real),
{
    if let Val::Deci(d) = v {
        lemma_ten_positive(d.scale as nat);
    } else if let Val::Int(n) = v {
        lemma_whole_fraction(n);
    }
}

/// Negation turns a number round, wherever the result fits.
pub proof fn negation_turns_a_number_round(v: Val, span: Span, hint: Option<Numeric>)
    requires
        is_number(v),
    ensures
        unary_val(UnOp::Neg, v, span, hint) matches Ok(r) ==> is_number(r) && number(r) == -number(v),
        unary_val(UnOp::Neg, v, span, hint) is Ok <==> numerator(v) != i128::MIN,
{
    reveal(unary_val);
    lemma_number_is_ratio(v);
    lemma_ratio_sign(numerator(v), denominator(v));
    if let Ok(r) = unary_val(UnOp::Neg, v, span, hint) {
        lemma_number_is_ratio(r);
    }
}

/// An absolute value is the number or its opposite, and never below zero.
pub proof fn an_absolute_value_is_never_below_zero(v: Val, span: Span, hint: Option<Numeric>)
    requires
        is_number(v),
    ensures
        unary_val(UnOp::Abs, v, span, hint) matches Ok(r) ==> {
            &&& is_number(r)
            &&& number(r) >= 0 as real
            &&& number(r) == number(v) || number(r) == -number(v)
        },
        unary_val(UnOp::Abs, v, span, hint) is Ok <==> numerator(v) != i128::MIN,
{
    reveal(unary_val);
    lemma_number_is_ratio(v);
    lemma_ratio_sign(numerator(v), denominator(v));
    if let Ok(r) = unary_val(UnOp::Abs, v, span, hint) {
        lemma_number_is_ratio(r);
        lemma_ratio_sign(numerator(r), denominator(r));
    }
}

/// `not` turns a truth value over, and takes nothing else.
pub proof fn not_turns_a_truth_value_over(v: Val, span: Span, hint: Option<Numeric>)
    ensures
        unary_val(UnOp::Not, v, span, hint) is Ok <==> v is Bool,
        v matches Val::Bool(b) ==> unary_val(UnOp::Not, v, span, hint) != Ok::<Val, StopView>(v) && (unary_val(
            UnOp::Not,
            v,
            span,
            hint,
        ) matches Ok(r) && r is Bool),
{
    reveal(unary_val);
}

/// The floor of a number is the whole number not above it by less than one, its ceiling the
/// one not below it; every number has both.
pub proof fn floors_and_ceilings_enclose(v: Val, span: Span, hint: Option<Numeric>)
    requires
        is_number(v),
    ensures
        unary_val(UnOp::Floor, v, span, hint) matches Ok(Val::Int(n)) && {
            let f = (n as int) as real;
            f <= number(v) && number(v) < f + (1 as real)
        },
        unary_val(UnOp::Ceil, v, span, hint) matches Ok(Val::Int(n)) && {
            let c = (n as int) as real;
            c - (1 as real) < number(v) && number(v) <= c
        },
        v matches Val::Deci(d) ==> {
            let t = ten(d.scale as nat);
            let f = unary_val(UnOp::Floor, v, span, hint)->Ok_0->Int_0;
            let c = unary_val(UnOp::Ceil, v, span, hint)->Ok_0->Int_0;
            &&& f * t <= d.mantissa < (f + 1) * t
            &&& (c - 1) * t < d.mantissa <= c * t
        },
{
    reveal(unary_val);
    lemma_number_is_ratio(v);
    let n = numerator(v);
    let d = denominator(v);
    lemma_enclosed(n, d);
    lemma_enclosed(-n, d);
    lemma_ratio_sign(n, d);
    if v is Int {
        assert(n / 1 == n);
        assert((-n) / 1 == -n);
    }
    let f = n / d;
    let c = -((-n) / d);
    assert(unary_val(UnOp::Floor, v, span, hint) == Ok::<Val, StopView>(Val::Int(f as i128)));
    assert(unary_val(UnOp::Ceil, v, span, hint) == Ok::<Val, StopView>(Val::Int(c as i128)));
    assert(((c - 1) * d < n && n <= c * d)) by (nonlinear_arith)
        requires
            ((-n) / d) * d <= -n < ((-n) / d + 1) * d,
            c == -((-n) / d),
    ;
    let below = (-n) / d;
    assert(c as real == -(below as real));
    assert((below as real) <= -number(v) && -number(v) < (below as real) + 1 as real);
    assert(fits(c));
}

proof fn lemma_enclosed(n: int, d: int)
    requires
        d > 0,
        -0x8000_0000_0000_0000_0000_0000_0000_0000 <= n <= 0x8000_0000_0000_0000_0000_0000_0000_0000,
    ensures
        (n / d) * d <= n < (n / d + 1) * d,
        ((n / d) as real) <= (n as real) / (d as real),
        (n as real) / (d as real) < ((n / d) as real) + 1 as real,
        -0x8000_0000_0000_0000_0000_0000_0000_0000 <= n / d <= 0x8000_0000_0000_0000_0000_0000_0000_0000,
        n < 0x8000_0000_0000_0000_0000_0000_0000_0000 ==> n / d < 0x8000_0000_0000_0000_0000_0000_0000_0000,
        n > -0x8000_0000_0000_0000_0000_0000_0000_0000 ==> n / d > -0x8000_0000_0000_0000_0000_0000_0000_0000,
{
    lemma_fundamental_div_mod(n, d);
    lemma_mod_bound(n, d);
    let q = n / d;
    assert(q * d <= n < (q + 1) * d) by (nonlinear_arith)
        requires
            n == d * q + n % d,
            0 <= n % d < d,
    ;
    assert((n >= 0 ==> 0 <= q <= n) && (n < 0 ==> n <= q < 0)) by (nonlinear_arith)
        requires
            q * d <= n < (q + 1) * d,
            d >= 1,
    ;
    let rq = q as real;
    let rn = n as real;
    let rd = d as real;
    assert((q * d) as real == rq * rd) by (nonlinear_arith)
        requires
            rq == q as real,
            rd == d as real,
    ;
    assert(((q + 1) * d) as real == (rq + 1 as real) * rd) by (nonlinear_arith)
        requires
            rq == q as real,
            rd == d as real,
    ;
    assert(rq <= rn / rd && rn / rd < rq + 1 as real) by (nonlinear_arith)
        requires
            rq * rd <= rn,
            rn < (rq + 1 as real) * rd,
            rd > 0 as real,
    ;
}

/// A function that is not computed exactly is asked for: the same function of the same number,
/// to the digits that are wanted.
pub proof fn functions_are_asked_for(op: UnOp, v: Val, span: Span, hint: Option<Numeric>)
    requires
        is_number(v),
        op == UnOp::Sin || op == UnOp::Cos || op == UnOp::Tan || op == UnOp::Log || op == UnOp::Ln,
    ensures
        unary_val(op, v, span, hint) matches Err(StopView::Ask(RequestView::Function { op: asked, argument, digits })) && asked == op
            && argument == v && digits == digits_wanted(hint),
{
    reveal(unary_val);
}

/// A square root is cut off after the digits asked for: its square is not above the number,
/// and one more in the last place would take it above.
pub proof fn a_square_root_is_cut_off(v: Val, span: Span, hint: Option<Numeric>)
    requires
        v is Int || v is Deci,
    ensures
        unary_val(UnOp::Sqrt, v, span, hint) matches Ok(r) ==> {
            let q = number(r);
            let next = q + 1 as real / ten(root_digits(hint) as nat) as real;
            &&& is_number(r)
            &&& q >= 0 as real
            &&& q * q <= number(v)
            &&& number(v) < next * next
        },
        number(v) < 0 as real ==> unary_val(UnOp::Sqrt, v, span, hint) is Err,
{
    reveal(unary_val);
    let k = root_digits(hint);
    lemma_number_is_ratio(v);
    lemma_ratio_sign(numerator(v), denominator(v));
    let d = decimal_from(v)->0;
    lemma_numbers_as_decimals(v, v);
    if let Ok(r) = unary_val(UnOp::Sqrt, v, span, hint) {
        lemma_root(d, k);
        let q = square_root(d, k)->0;
        normal_keeps_the_value(q);
        lemma_whole_decimal(normal(q).mantissa);
    }
}

#[verifier::spinoff_prover]
proof fn lemma_root(d: Decimal, k: u32)
    requires
        d.mantissa >= 0,
    ensures
        square_root(d, k) matches Some(r) ==> {
            let q = decimal_value(r);
            let next = q + 1 as real / ten(k as nat) as real;
            &&& q >= 0 as real
            &&& q * q <= decimal_value(d)
            &&& decimal_value(d) < next * next
        },
{
    if let Some(r) = square_root(d, k) {
        let n = root_operand(d, k)->0;
        let m = d.mantissa as int;
        let s = d.scale as nat;
        let t = ten(k as nat);
        let u = ten(s);
        lemma_ten_positive(k as nat);
        lemma_ten_positive(s);
        let shift = 2 * k - d.scale;
        lemma_pow_adds(10, k as nat, k as nat);
        assert(ten((2 * k) as nat) == t * t);
        // n * u <= m * t * t < (n + 1) * u
        if shift >= 0 {
            lemma_ten_positive(shift as nat);
            lemma_pow_adds(10, shift as nat, s);
            assert(0 <= n) by (nonlinear_arith)
                requires
                    n == m * ten(shift as nat),
                    m >= 0,
                    ten(shift as nat) > 0,
            ;
            assert(n * u == m * (t * t)) by (nonlinear_arith)
                requires
                    n == m * ten(shift as nat),
                    ten(shift as nat) * u == t * t,
            ;
            assert(n * u < (n + 1) * u) by (nonlinear_arith)
                requires
                    u > 0,
            ;
        } else {
            let p = ten((-shift) as nat);
            lemma_ten_positive((-shift) as nat);
            lemma_pow_adds(10, (-shift) as nat, (2 * k) as nat);
            lemma_fundamental_div_mod(m, p);
            lemma_mod_bound(m, p);
            assert(n >= 0 && n * u <= m * (t * t) && m * (t * t) < (n + 1) * u) by (nonlinear_arith)
                requires
                    m == p * n + m % p,
                    0 <= m % p < p,
                    m >= 0,
                    p > 0,
                    t > 0,
                    u == p * (t * t),
            ;
        }
        let g = whole_root(n);
        assert(is_root(n, g)) by {
            lemma_root_exists(n);
        }
        assert(g <= n) by (nonlinear_arith)
            requires
                g * g <= n,
                g >= 0,
        ;
        lemma_root_real(g, n, m, u, t);
    }
}

proof fn lemma_root_exists(n: int)
    requires
        n >= 0,
    ensures
        exists|r: int| is_root(n, r),
    decreases n,
{
    if n == 0 {
        assert(is_root(0, 0));
    } else {
        lemma_root_exists(n - 1);
        let before = n - 1;
        let r = choose|r: int| is_root(before, r);
        if n < (r + 1) * (r + 1) {
            assert(is_root(n, r));
        } else {
            assert((r + 1) * (r + 1) < (r + 2) * (r + 2)) by (nonlinear_arith)
                requires
                    r >= 0,
            ;
            assert(is_root(n, r + 1));
        }
    }
}

#[verifier::spinoff_prover]
proof fn lemma_root_real(g: int, n: int, m: int, u: int, t: int)
    requires
        is_root(n, g),
        u > 0,
        t > 0,
        n * u <= m * (t * t),
        m * (t * t) < (n + 1) * u,
    ensures
        ({
            let q = (g as real) / (t as real);
            let v = (m as real) / (u as real);
            let next = q + 1 as real / t as real;
            q >= 0 as real && q * q <= v && v < next * next
        }),
{
    let rg = g as real;
    let rt = t as real;
    let rm = m as real;
    let ru = u as real;
    let q = rg / rt;
    let e = 1 as real / rt;
    let v = rm / ru;
    let next = q + e;
    assert(q * rt == rg && e * rt == 1 as real && v * ru == rm) by (nonlinear_arith)
        requires
            q == rg / rt,
            e == 1 as real / rt,
            v == rm / ru,
            rt > 0 as real,
            ru > 0 as real,
    ;
    assert(g * g * u <= m * (t * t)) by (nonlinear_arith)
        requires
            g * g <= n,
            n * u <= m * (t * t),
            u > 0,
    ;
    assert(m * (t * t) < (g + 1) * (g + 1) * u) by (nonlinear_arith)
        requires
            n + 1 <= (g + 1) * (g + 1),
            m * (t * t) < (n + 1) * u,
            u > 0,
    ;
    assert((g * g * u) as real == rg * rg * ru) by (nonlinear_arith)
        requires
            rg == g as real,
            ru == u as real,
    ;
    assert((m * (t * t)) as real == rm * (rt * rt)) by (nonlinear_arith)
        requires
            rm == m as real,
            rt == t as real,
    ;
    assert(((g + 1) * (g + 1) * u) as real == (rg + 1 as real) * (rg + 1 as real) * ru) by (nonlinear_arith)
        requires
            rg == g as real,
            ru == u as real,
    ;
    let w = rt * rt * ru;
    assert(w > 0 as real) by (nonlinear_arith)
        requires
            rt > 0 as real,
            ru > 0 as real,
            w == rt * rt * ru,
    ;
    assert((q * q) * w == rg * rg * ru) by (nonlinear_arith)
        requires
            q * rt == rg,
            w == rt * rt * ru,
    ;
    assert(v * w == rm * (rt * rt)) by (nonlinear_arith)
        requires
            v * ru == rm,
            w == rt * rt * ru,
    ;
    assert(next * rt == rg + 1 as real) by (nonlinear_arith)
        requires
            next == q + e,
            q * rt == rg,
            e * rt == 1 as real,
    ;
    assert((next * next) * w == (rg + 1 as real) * (rg + 1 as real) * ru) by (nonlinear_arith)
        requires
            next * rt == rg + 1 as real,
            w == rt * rt * ru,
    ;
    let a = q * q;
    let b = next * next;
    assert(a <= v) by (nonlinear_arith)
        requires
            a * w <= v * w,
            w > 0 as real,
    ;
    assert(v < b) by (nonlinear_arith)
        requires
            v * w < b * w,
            w > 0 as real,
    ;
    assert(q >= 0 as real) by (nonlinear_arith)
        requires
            q * rt == rg,
            rg >= 0 as real,
            rt > 0 as real,
    ;
}

// ── powers ──────────────────────────────────────────────────────────────────

/// A number multiplied by itself.
pub open spec fn to_the(x: real, n: nat) -> real
    decreases n,
{
    if n == 0 {
        1 as real
    } else {
        to_the(x, (n - 1) as nat) * x
    }
}

proof fn lemma_int_to_the(x: int, n: nat)
    ensures
        pow(x, n) as real == to_the(x as real, n),
    decreases n,
{
    if n == 0 {
        lemma_pow0(x);
    } else {
        lemma_int_to_the(x, (n - 1) as nat);
        lemma_pow_adds(x, (n - 1) as nat, 1);
        lemma_pow1(x);
        let p = pow(x, (n - 1) as nat);
        assert((p * x) as real == (p as real) * (x as real)) by (nonlinear_arith);
    }
}

proof fn lemma_decimal_to_the(a: Decimal, n: nat)
    ensures
        crate::eval::decimal::decimal_power(a, n) matches Some(r) ==> decimal_value(r) == to_the(decimal_value(a), n),
    decreases n,
{
    if n == 0 {
        lemma_whole_decimal(1);
    } else {
        lemma_decimal_to_the(a, (n - 1) as nat);
        if let Some(p) = crate::eval::decimal::decimal_power(a, (n - 1) as nat) {
            decimal_product_is_exact(p, a);
        }
    }
}

proof fn lemma_fraction_to_the(a: Rational, n: nat)
    requires
        a.den > 0,
    ensures
        crate::eval::rational::rational_power(a, n) matches Some(r) ==> r.den > 0 && rational_value(r) == to_the(rational_value(a), n),
    decreases n,
{
    if n == 0 {
        lemma_whole_fraction(1);
    } else {
        lemma_fraction_to_the(a, (n - 1) as nat);
        if let Some(p) = crate::eval::rational::rational_power(a, (n - 1) as nat) {
            rational_arithmetic_is_exact(p, a);
        }
    }
}

/// A whole power is the number multiplied by itself that many times; below zero, what it is
/// multiplied by is the fraction turned over. Of decimals, any other power is asked for.
pub proof fn powers_are_repeated_products(a: Val, b: Val, span: Span, hint: Option<Numeric>)
    requires
        is_number(a),
        b matches Val::Int(n) && -i32::MAX <= n <= u32::MAX,
    ensures
        b->Int_0 >= 0 && b->Int_0 <= i32::MAX ==> (arith(BinOp::Pow, a, b, span, hint) matches Ok(v) ==> is_number(v) && number(v) == to_the(
            number(a),
            b->Int_0 as nat,
        )),
        a matches Val::Int(x) ==> (b->Int_0 >= 0 && fits(pow(x as int, b->Int_0 as nat)) ==> arith(BinOp::Pow, a, b, span, hint) is Ok),
        b->Int_0 < 0 && a is Rat ==> (arith(BinOp::Pow, a, b, span, hint) matches Ok(v) ==> is_number(v) && number(a) != 0 as real
            && number(v) == to_the(1 as real / number(a), (-b->Int_0) as nat)),
        b->Int_0 < 0 && a is Int ==> arith(BinOp::Pow, a, b, span, hint) is Err,
{
    reveal(arith);
    let n = b->Int_0;
    match a {
        Val::Int(x) => {
            if n >= 0 {
                lemma_int_to_the(x as int, n as nat);
            }
        },
        Val::Deci(d) => {
            let y = Decimal { mantissa: n, scale: 0 };
            assert(normal(y) == y);
            if n >= 0 {
                lemma_decimal_to_the(d, n as nat);
                if let Some(r) = crate::eval::decimal::decimal_power(d, n as nat) {
                    normal_keeps_the_value(r);
                }
            }
        },
        Val::Rat(r) => {
            if n >= 0 {
                lemma_fraction_to_the(r, n as nat);
            } else {
                crate::eval::laws::reduced_is_in_lowest_terms(r.den as int, r.num as int);
                if let Some(q) = crate::eval::rational::reduced(r.den as int, r.num as int) {
                    lemma_fraction_to_the(q, (-n) as nat);
                    let x = (r.num as int) as real;
                    let y = (r.den as int) as real;
                    assert(y / x == 1 as real / (x / y) && x / y != 0 as real) by (nonlinear_arith)
                        requires
                            x != 0 as real,
                            y > 0 as real,
                    ;
                }
            }
        },
        _ => {},
    }
}

/// A power of a decimal with an exponent that is not whole is asked for, of the two numbers as
/// they are.
pub proof fn other_powers_are_asked_for(x: Decimal, y: Decimal, span: Span, hint: Option<Numeric>)
    requires
        normal(y).scale > 0 || y.mantissa < 0,
    ensures
        arith(BinOp::Pow, Val::Deci(x), Val::Deci(y), span, hint) == Err::<Val, StopView>(
            StopView::Ask(RequestView::Power { base: x, exponent: y, digits: digits_wanted(hint) }),
        ),
{
    reveal(arith);
    lemma_normal_sign(y);
}

proof fn lemma_normal_sign(y: Decimal)
    ensures
        y.mantissa < 0 <==> normal(y).mantissa < 0,
    decreases y.scale,
{
    if y.scale > 0 && y.mantissa as int % 10 == 0 {
        lemma_normal_sign(Decimal { mantissa: (y.mantissa as int / 10) as i128, scale: (y.scale - 1) as u32 });
    }
}

// ── comparing ───────────────────────────────────────────────────────────────

/// What a comparison says of two numbers.
pub open spec fn holds_of(op: BinOp, x: real, y: real) -> bool {
    match op {
        BinOp::Eq => x == y,
        BinOp::NotEq => x != y,
        BinOp::Less => x < y,
        BinOp::Greater => x > y,
        BinOp::LessEq => x <= y,
        _ => x >= y,
    }
}

/// Whether a number can be turned into a fraction.
pub open spec fn has_fraction(v: Val) -> bool {
    is_number(v) && (v matches Val::Deci(d) ==> fits(ten(d.scale as nat)))
}

proof fn lemma_has_fraction(v: Val)
    requires
        has_fraction(v),
    ensures
        rational_from(v).den > 0,
        rational_value(rational_from(v)) == number(v),
{
    if let Val::Int(n) = v {
        lemma_whole_fraction(n);
    } else if let Val::Deci(d) = v {
        lemma_ten_positive(d.scale as nat);
        let m = d.mantissa as int;
        let t = ten(d.scale as nat);
        let am = crate::text::abs_int(m);
        let at = crate::text::abs_int(t);
        crate::eval::rational::lemma_common_divides(am, at);
        let g = crate::eval::rational::common(am, at) as int;
        assert(0 <= am as int / g <= am && 0 <= at as int / g <= at) by (nonlinear_arith)
            requires
                g >= 1,
                am >= 0,
                at >= 0,
        ;
        assert(m == i128::MIN ==> am == 0x8000_0000_0000_0000_0000_0000_0000_0000);
        a_decimal_as_a_fraction_is_the_same_number(d);
    }
}

/// Numbers are compared as the numbers they stand for, whatever they are written as; whole
/// numbers always can be.
pub proof fn numbers_compare_as_numbers(op: BinOp, a: Val, b: Val, span: Span)
    requires
        is_comparison(op),
        has_fraction(a),
        has_fraction(b),
    ensures
        compared(op, a, b, span) matches Ok(v) ==> v == Val::Bool(holds_of(op, number(a), number(b))),
        a is Int && b is Int ==> compared(op, a, b, span) is Ok,
{
    reveal(compared);
    lemma_has_fraction(a);
    lemma_has_fraction(b);
    rational_order_is_the_order_of_values(rational_from(a), rational_from(b));
    if a is Int && b is Int {
        assert(a->Int_0 * 1 == a->Int_0 && b->Int_0 * 1 == b->Int_0);
    }
}

/// Whether one text comes before another: by the first character that differs, a text before
/// what it begins.
pub open spec fn comes_before(a: Seq<char>, b: Seq<char>, k: int) -> bool {
    &&& 0 <= k <= a.len()
    &&& k < b.len()
    &&& forall|i: int| 0 <= i < k ==> #[trigger] a[i] == b[i]
    &&& k == a.len() || a[k] < b[k]
}

proof fn lemma_text_before(a: Seq<char>, b: Seq<char>, k: int)
    requires
        comes_before(a, b, k),
    ensures
        text_order(a, b) == -1,
        text_order(b, a) == 1,
    decreases k,
{
    if k > 0 {
        assert(a[0] == b[0]);
        assert forall|i: int| 0 <= i < k - 1 implies #[trigger] a.skip(1)[i] == b.skip(1)[i] by {
            assert(a[i + 1] == b[i + 1]);
        }
        lemma_text_before(a.skip(1), b.skip(1), k - 1);
    }
}

proof fn lemma_text_same(a: Seq<char>)
    ensures
        text_order(a, a) == 0,
    decreases a.len(),
{
    if a.len() > 0 {
        lemma_text_same(a.skip(1));
    }
}

/// Texts are compared by the first character in which they differ, and are equal only where
/// they are the same; `false` comes before `true`.
pub proof fn texts_compare_by_their_first_difference(a: Seq<char>, b: Seq<char>, k: int, op: BinOp, span: Span)
    requires
        is_comparison(op),
    ensures
        comes_before(a, b, k) ==> {
            &&& compared(op, Val::Str(a), Val::Str(b), span) == Ok::<Val, StopView>(
                Val::Bool(op == BinOp::NotEq || op == BinOp::Less || op == BinOp::LessEq),
            )
            &&& compared(op, Val::Str(b), Val::Str(a), span) == Ok::<Val, StopView>(
                Val::Bool(op == BinOp::NotEq || op == BinOp::Greater || op == BinOp::GreaterEq),
            )
        },
        compared(op, Val::Str(a), Val::Str(a), span) == Ok::<Val, StopView>(
            Val::Bool(op == BinOp::Eq || op == BinOp::LessEq || op == BinOp::GreaterEq),
        ),
        compared(op, Val::Bool(false), Val::Bool(true), span) == Ok::<Val, StopView>(
            Val::Bool(op == BinOp::NotEq || op == BinOp::Less || op == BinOp::LessEq),
        ),
        compared(op, Val::Bool(true), Val::Bool(true), span) == compared(op, Val::Bool(false), Val::Bool(false), span),
        compared(op, Val::Bool(true), Val::Bool(false), span) == Ok::<Val, StopView>(
            Val::Bool(op == BinOp::NotEq || op == BinOp::Greater || op == BinOp::GreaterEq),
        ),
{
    reveal(compared);
    if comes_before(a, b, k) {
        lemma_text_before(a, b, k);
    }
    lemma_text_same(a);
}

// ── sums ────────────────────────────────────────────────────────────────────

/// The first `n` numbers added up.
pub open spec fn total(items: Seq<Val>, n: nat) -> real
    decreases n,
{
    if n == 0 {
        0 as real
    } else {
        total(items, (n - 1) as nat) + number(items[n - 1])
    }
}

proof fn lemma_total(items: Seq<Val>, n: nat)
    requires
        n <= items.len(),
        forall|i: int| 0 <= i < n ==> (#[trigger] items[i]) is Int || items[i] is Deci,
    ensures
        sum_of(items, n) matches Some(v) ==> (v is Int || v is Deci) && number(v) == total(items, n),
    decreases n,
{
    if n > 0 {
        lemma_total(items, (n - 1) as nat);
        if let Some(t) = sum_of(items, (n - 1) as nat) {
            let item = items[n - 1];
            lemma_numbers_as_decimals(t, item);
            let x = decimal_from(t)->0;
            let y = decimal_from(item)->0;
            decimal_sum_is_exact(x, y);
            if let Some(d) = decimal_sum(x, y) {
                normal_keeps_the_value(d);
            }
        }
    }
}

/// A bare array counts as the sum of its elements, exactly.
pub proof fn an_array_counts_as_its_sum(items: Seq<Val>, shape: Seq<usize>)
    requires
        forall|i: int| 0 <= i < items.len() ==> (#[trigger] items[i]) is Int || items[i] is Deci,
    ensures
        summed(Val::Array { items, shape }) matches Some(v) ==> number(v) == total(items, items.len()),
{
    reveal(summed);
    lemma_total(items, items.len());
}

// ── what literals and constants stand for ───────────────────────────────────

/// What the context makes of a number leaves its value alone.
pub proof fn coercion_keeps_the_number(v: Val, hint: Option<Numeric>)
    requires
        is_number(v),
    ensures
        is_number(coerced(v, hint)),
        number(coerced(v, hint)) == number(v),
        asks_for(hint, Family::Rat) && has_fraction(v) && v is Deci ==> coerced(v, hint) is Rat,
        asks_for(hint, Family::Deci) && v is Deci ==> coerced(v, hint) is Deci,
        (hint is None || asks_for(hint, Family::Int)) && (v matches Val::Deci(d) && d.scale == 0) ==> coerced(v, hint) is Int,
{
    if let Val::Deci(d) = v {
        a_decimal_as_a_fraction_is_the_same_number(d);
        lemma_whole_decimal(d.mantissa);
        if has_fraction(v) {
            lemma_has_fraction(v);
            lemma_fraction_there(d);
        }
    }
}

proof fn lemma_fraction_there(d: Decimal)
    requires
        fits(ten(d.scale as nat)),
    ensures
        rational_of_decimal(d) is Some,
{
    lemma_ten_positive(d.scale as nat);
    let m = d.mantissa as int;
    let t = ten(d.scale as nat);
    let am = crate::text::abs_int(m);
    let at = crate::text::abs_int(t);
    crate::eval::rational::lemma_common_divides(am, at);
    let g = crate::eval::rational::common(am, at) as int;
    assert(0 <= am as int / g <= am && 0 <= at as int / g <= at) by (nonlinear_arith)
        requires
            g >= 1,
            am >= 0,
            at >= 0,
    ;
}

/// A constant is within half a unit of its last place of the same constant to every place
/// that is known; τ is twice π.
pub proof fn constants_are_rounded(c: Constant, digits: u32)
    ensures
        ({
            let off = (decimal_value(constant_decimal(c, digits)) - decimal_value(constant_decimal(c, CONSTANT_DIGITS))) * ten(
                digits as nat,
            ) as real;
            -1 as real <= 2 as real * off <= 1 as real
        }),
        constant_decimal(c, digits).scale == (if digits < CONSTANT_DIGITS {
            digits
        } else {
            CONSTANT_DIGITS
        }),
        decimal_value(constant_decimal(Constant::Tau, CONSTANT_DIGITS)) == 2 as real * decimal_value(
            constant_decimal(Constant::Pi, CONSTANT_DIGITS),
        ),
{
    lemma_ten_positive(digits as nat);
    lemma_ten_positive(CONSTANT_DIGITS as nat);
    let m = crate::eval::numeric::constant_mantissa(c);
    let t36 = ten(CONSTANT_DIGITS as nat);
    let x36 = m as real / t36 as real;
    if digits < CONSTANT_DIGITS {
        let k = (CONSTANT_DIGITS - digits) as nat;
        lemma_ten_positive(k);
        lemma_pow_adds(10, digits as nat, k);
        let p = ten(k);
        let t = ten(digits as nat);
        crate::eval::laws::lemma_rounded(m, p);
        let r = crate::eval::decimal::rounded(m, p);
        assert(r <= m + 1 && r >= 0) by (nonlinear_arith)
            requires
                -p <= 2 * (r * p - m) <= p,
                p >= 1,
                m > 0,
        ;
        let x = r as real / t as real;
        let rt = t as real;
        let rp = p as real;
        let rr = r as real;
        let rm = m as real;
        assert((r * p - m) as real == rr * rp - rm) by (nonlinear_arith)
            requires
                rr == r as real,
                rp == p as real,
                rm == m as real,
        ;
        assert(t36 as real == rt * rp) by (nonlinear_arith)
            requires
                t36 == t * p,
                rt == t as real,
                rp == p as real,
        ;
        let off = (x - x36) * rt;
        assert(x * rt == rr) by (nonlinear_arith)
            requires
                x == rr / rt,
                rt > 0 as real,
        ;
        assert(x36 * (rt * rp) == rm) by (nonlinear_arith)
            requires
                x36 == rm / (rt * rp),
                rt > 0 as real,
                rp > 0 as real,
        ;
        assert(off * rp == rr * rp - rm) by (nonlinear_arith)
            requires
                off == (x - x36) * rt,
                x * rt == rr,
                x36 * (rt * rp) == rm,
        ;
        assert(-1 as real <= 2 as real * off <= 1 as real) by (nonlinear_arith)
            requires
                off * rp == rr * rp - rm,
                -rp <= 2 as real * (rr * rp - rm) <= rp,
                rp > 0 as real,
        ;
    } else {
        let rt = ten(digits as nat) as real;
        assert((0 as real) * rt == 0 as real) by (nonlinear_arith);
    }
    let rp = crate::eval::numeric::constant_mantissa(Constant::Pi) as real;
    let rt = t36 as real;
    assert((2 as real * rp) / rt == 2 as real * (rp / rt)) by (nonlinear_arith)
        requires
            rt > 0 as real,
    ;
}

// ── answers ─────────────────────────────────────────────────────────────────

/// An answer is taken for what it is: a number for the number asked for, a text for the text
/// of the file; without one there is an error.
pub proof fn answers_are_taken_for_what_they_are(op: UnOp, x: Val, base: Decimal, exponent: Decimal, digits: u32, d: Decimal, path: Seq<char>, text: Seq<char>, span: Span)
    ensures
        settled(RequestView::Function { op, argument: x, digits }, AnswerView::Number(Some(d)), span) matches Ok(v) && v is Deci && number(v)
            == decimal_value(d),
        settled(RequestView::Power { base, exponent, digits }, AnswerView::Number(Some(d)), span) matches Ok(v) && v is Deci && number(v)
            == decimal_value(d),
        settled(RequestView::Function { op, argument: x, digits }, AnswerView::Number(None), span) is Err,
        settled(RequestView::Power { base, exponent, digits }, AnswerView::Number(None), span) is Err,
        settled(RequestView::Read { path }, AnswerView::Text(text), span) == Ok::<Val, crate::diagnostics::error::ErrorView>(Val::Str(text)),
        settled(RequestView::Read { path }, AnswerView::Unreadable(text), span) is Err,
        settled(RequestView::Clock, AnswerView::Number(Some(d)), span) matches Ok(v) && number(v) == decimal_value(d),
{
    reveal(settled);
    normal_keeps_the_value(d);
}

} // verus!
