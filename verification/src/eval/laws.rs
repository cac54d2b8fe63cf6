//! What the exact arithmetic promises as a whole: results that are exact, not close.

use core::cmp::Ordering;

use vstd::arithmetic::div_mod::*;
use vstd::arithmetic::mul::*;
use vstd::arithmetic::power::*;
use vstd::prelude::*;

use crate::eval::decimal::{
    aligned, decimal_difference, decimal_order, decimal_power, decimal_product, decimal_quotient,
    decimal_remainder, decimal_sum, decimal_text, decimal_whole_quotient, first_index, larger, normal,
    padded_digits, parsed_decimal, places, ratio_of, rounded, sign_split, ten, Decimal,
};
use crate::eval::rational::{
    common, lemma_common_divides, rational_difference, rational_of_decimal, rational_order, rational_power,
    rational_product, rational_quotient, rational_sum, reduced, Rational,
};
use crate::text::{
    abs_int, all_digits, copies, digits_value, is_digit, is_space, lemma_digits_concat,
    lemma_digits_round_trip, nat_text, trimmed,
};

verus! {

/// The number a decimal stands for.
pub open spec fn decimal_value(d: Decimal) -> real {
    (d.mantissa as int) as real / ten(d.scale as nat) as real
}

/// The number a fraction stands for.
pub open spec fn rational_value(r: Rational) -> real {
    (r.num as int) as real / (r.den as int) as real
}

pub(crate) proof fn lemma_ten_positive(k: nat)
    ensures
        ten(k) > 0,
        ten(k) as real > 0 as real,
{
    lemma_pow_positive(10, k);
}

/// Scaling a mantissa up along with its scale leaves the number alone.
proof fn lemma_scaled_value(m: int, s: nat, k: nat)
    ensures
        (m * ten(k)) as real / ten(s + k) as real == m as real / ten(s) as real,
{
    lemma_ten_positive(s);
    lemma_ten_positive(k);
    lemma_pow_adds(10, s, k);
    let a = m as real;
    let p = ten(s) as real;
    let q = ten(k) as real;
    assert((m * ten(k)) as real == a * q) by (nonlinear_arith)
        requires
            a == m as real,
            q == ten(k) as real,
    ;
    assert(ten(s + k) as real == p * q) by (nonlinear_arith)
        requires
            p == ten(s) as real,
            q == ten(k) as real,
            ten(s + k) == ten(s) * ten(k),
    ;
    assert((a * q) / (p * q) == a / p) by (nonlinear_arith)
        requires
            p > 0 as real,
            q > 0 as real,
    ;
}

pub(crate) proof fn lemma_aligned_values(a: Decimal, b: Decimal)
    ensures
        aligned(a, b) matches Some((x, y)) ==> {
            let t = ten(larger(a.scale as int, b.scale as int) as nat) as real;
            &&& t > 0 as real
            &&& decimal_value(a) == x as real / t
            &&& decimal_value(b) == y as real / t
        },
{
    let s = larger(a.scale as int, b.scale as int);
    lemma_ten_positive(s as nat);
    lemma_scaled_value(a.mantissa as int, a.scale as nat, (s - a.scale) as nat);
    lemma_scaled_value(b.mantissa as int, b.scale as nat, (s - b.scale) as nat);
}

/// A sum of decimals is exact.
pub proof fn decimal_sum_is_exact(a: Decimal, b: Decimal)
    ensures
        decimal_sum(a, b) matches Some(r) ==> decimal_value(r) == decimal_value(a) + decimal_value(b),
{
    lemma_aligned_values(a, b);
    if let Some((x, y)) = aligned(a, b) {
        let t = ten(larger(a.scale as int, b.scale as int) as nat) as real;
        assert((x + y) as real / t == x as real / t + y as real / t) by (nonlinear_arith)
            requires
                t > 0 as real,
        ;
    }
}

/// A difference of decimals is exact.
pub proof fn decimal_difference_is_exact(a: Decimal, b: Decimal)
    ensures
        decimal_difference(a, b) matches Some(r) ==> decimal_value(r) == decimal_value(a) - decimal_value(b),
{
    lemma_aligned_values(a, b);
    if let Some((x, y)) = aligned(a, b) {
        let t = ten(larger(a.scale as int, b.scale as int) as nat) as real;
        assert((x - y) as real / t == x as real / t - y as real / t) by (nonlinear_arith)
            requires
                t > 0 as real,
        ;
    }
}

/// A product of decimals is exact.
pub proof fn decimal_product_is_exact(a: Decimal, b: Decimal)
    ensures
        decimal_product(a, b) matches Some(r) ==> decimal_value(r) == decimal_value(a) * decimal_value(b),
{
    let x = a.mantissa as int;
    let y = b.mantissa as int;
    lemma_ten_positive(a.scale as nat);
    lemma_ten_positive(b.scale as nat);
    lemma_pow_adds(10, a.scale as nat, b.scale as nat);
    lemma_fraction_product(x, ten(a.scale as nat), y, ten(b.scale as nat));
}

pub(crate) proof fn lemma_fraction_product(x: int, p: int, y: int, q: int)
    requires
        p != 0,
        q != 0,
    ensures
        (x * y) as real / (p * q) as real == (x as real / p as real) * (y as real / q as real),
        p * q != 0,
{
    let a = x as real;
    let b = y as real;
    let c = p as real;
    let d = q as real;
    assert((x * y) as real == a * b) by (nonlinear_arith)
        requires
            a == x as real,
            b == y as real,
    ;
    assert((p * q) as real == c * d && p * q != 0) by (nonlinear_arith)
        requires
            c == p as real,
            d == q as real,
            p != 0,
            q != 0,
    ;
    assert((a * b) / (c * d) == (a / c) * (b / d)) by (nonlinear_arith)
        requires
            c != 0 as real,
            d != 0 as real,
    ;
}

/// A whole power of a decimal has the power of the mantissa over the power of the scale:
/// no digit is lost on the way.
pub proof fn decimal_power_is_exact(a: Decimal, n: nat)
    ensures
        decimal_power(a, n) matches Some(r) ==> r.mantissa == pow(a.mantissa as int, n) && r.scale == n * a.scale,
    decreases n,
{
    if n == 0 {
        lemma_pow0(a.mantissa as int);
    } else {
        decimal_power_is_exact(a, (n - 1) as nat);
        lemma_pow_adds(a.mantissa as int, (n - 1) as nat, 1);
        lemma_pow1(a.mantissa as int);
        let k = (n - 1) as nat;
        let s = a.scale as int;
        assert(k * s + s == n * s) by (nonlinear_arith)
            requires
                k == n - 1,
        ;
    }
}

/// Decimals are ordered as the numbers they stand for.
pub proof fn decimal_order_is_the_order_of_values(a: Decimal, b: Decimal)
    ensures
        decimal_order(a, b) matches Some(o) ==> {
            &&& (o == Ordering::Less <==> decimal_value(a) < decimal_value(b))
            &&& (o == Ordering::Equal <==> decimal_value(a) == decimal_value(b))
            &&& (o == Ordering::Greater <==> decimal_value(a) > decimal_value(b))
        },
{
    lemma_aligned_order(a, b);
}

proof fn lemma_aligned_order(a: Decimal, b: Decimal)
    ensures
        aligned(a, b) matches Some((x, y)) ==> {
            &&& (x < y <==> decimal_value(a) < decimal_value(b))
            &&& (x == y <==> decimal_value(a) == decimal_value(b))
        },
{
    lemma_aligned_values(a, b);
    if let Some((x, y)) = aligned(a, b) {
        let t = ten(larger(a.scale as int, b.scale as int) as nat) as real;
        let p = x as real;
        let q = y as real;
        assert((p / t < q / t <==> p < q) && (p / t == q / t <==> p == q)) by (nonlinear_arith)
            requires
                t > 0 as real,
        ;
    }
}

/// Dropping trailing zeros does not change the number.
pub proof fn normal_keeps_the_value(d: Decimal)
    ensures
        decimal_value(normal(d)) == decimal_value(d),
    decreases d.scale,
{
    if d.scale > 0 && d.mantissa as int % 10 == 0 {
        let n = Decimal { mantissa: (d.mantissa as int / 10) as i128, scale: (d.scale - 1) as u32 };
        normal_keeps_the_value(n);
        lemma_scaled_value(n.mantissa as int, n.scale as nat, 1);
        lemma_pow1(10);
    }
}

/// Once trailing zeros are dropped, none is left to drop.
proof fn lemma_normal_is_normal(d: Decimal)
    ensures
        normal(d).scale == 0 || normal(d).mantissa as int % 10 != 0,
        normal(d).scale <= d.scale,
    decreases d.scale,
{
    if d.scale > 0 && d.mantissa as int % 10 == 0 {
        lemma_normal_is_normal(
            Decimal { mantissa: (d.mantissa as int / 10) as i128, scale: (d.scale - 1) as u32 },
        );
    }
}

/// Two decimals that stand for the same number look the same without trailing zeros.
pub proof fn equal_values_have_one_normal_form(a: Decimal, b: Decimal)
    requires
        decimal_value(a) == decimal_value(b),
    ensures
        normal(a) == normal(b),
{
    normal_keeps_the_value(a);
    normal_keeps_the_value(b);
    lemma_normal_is_normal(a);
    lemma_normal_is_normal(b);
    if normal(a).scale <= normal(b).scale {
        lemma_normal_unique(normal(a), normal(b));
    } else {
        lemma_normal_unique(normal(b), normal(a));
    }
}

proof fn lemma_normal_unique(a: Decimal, b: Decimal)
    requires
        decimal_value(a) == decimal_value(b),
        a.scale <= b.scale,
        b.scale == 0 || b.mantissa as int % 10 != 0,
    ensures
        a == b,
{
    let k = (b.scale - a.scale) as nat;
    lemma_scaled_value(a.mantissa as int, a.scale as nat, k);
    lemma_ten_positive(b.scale as nat);
    let x = a.mantissa * ten(k);
    let t = ten(b.scale as nat) as real;
    let p = x as real;
    let q = (b.mantissa as int) as real;
    assert(p == q) by (nonlinear_arith)
        requires
            p / t == q / t,
            t > 0 as real,
    ;
    assert(x == b.mantissa);
    if k > 0 {
        lemma_pow_adds(10, (k - 1) as nat, 1);
        lemma_pow1(10);
        let y = a.mantissa * ten((k - 1) as nat);
        let u = ten((k - 1) as nat);
        let m = a.mantissa as int;
        assert(m * (u * 10) == m * u * 10) by (nonlinear_arith);
        assert(x == y * 10);
        assert(b.mantissa as int % 10 == 0);
    } else {
        lemma_pow0(10);
    }
}

/// Addition and multiplication of decimals do not care about the order.
pub proof fn decimal_arithmetic_commutes(a: Decimal, b: Decimal)
    ensures
        decimal_sum(a, b) == decimal_sum(b, a),
        decimal_product(a, b) == decimal_product(b, a),
{
    assert(a.mantissa * b.mantissa == b.mantissa * a.mantissa) by (nonlinear_arith);
}

// ── division ────────────────────────────────────────────────────────────────

/// The whole-number ratio that division works on is the quotient of the two values.
pub(crate) proof fn lemma_ratio_value(a: Decimal, b: Decimal)
    ensures
        ratio_of(a, b) matches Some((n, d)) ==> {
            &&& d != 0
            &&& n as real / d as real == decimal_value(a) / decimal_value(b)
            &&& decimal_value(b) != 0 as real
        },
{
    if let Some((n, d)) = ratio_of(a, b) {
        lemma_ten_positive(a.scale as nat);
        lemma_ten_positive(b.scale as nat);
        let x = (a.mantissa as int) as real;
        let y = (b.mantissa as int) as real;
        let p = ten(a.scale as nat) as real;
        let q = ten(b.scale as nat) as real;
        let ti = ten(a.scale as nat);
        let tj = ten(b.scale as nat);
        let bm = b.mantissa as int;
        let am = a.mantissa as int;
        assert(d != 0 && d as real == y * p) by (nonlinear_arith)
            requires
                d == bm * ti,
                bm != 0,
                ti > 0,
                y == bm as real,
                p == ti as real,
        ;
        assert(n as real == x * q) by (nonlinear_arith)
            requires
                n == am * tj,
                x == am as real,
                q == tj as real,
        ;
        assert((x * q) / (y * p) == (x / p) / (y / q) && y / q != 0 as real) by (nonlinear_arith)
            requires
                p > 0 as real,
                q > 0 as real,
                y != 0 as real,
        ;
    }
}

/// Rounding is off by at most a half, and exact where nothing is left over.
pub(crate) proof fn lemma_rounded(n: int, d: int)
    requires
        d > 0,
    ensures
        -d <= 2 * (rounded(n, d) * d - n) <= d,
        n % d == 0 ==> rounded(n, d) * d == n,
{
    lemma_fundamental_div_mod(n, d);
    lemma_mod_bound(n, d);
    let q = n / d;
    let r = n % d;
    assert((q + 1) * d == q * d + d) by (nonlinear_arith);
    assert(q * d == d * q) by (nonlinear_arith);
}

pub(crate) proof fn lemma_places_even(n: int, d: int, j: nat, max: nat)
    requires
        j <= max,
    ensures
        ({
            let k = places(n, d, j, max);
            &&& j <= k <= max
            &&& (k < max ==> (n * ten(k)) % d == 0)
            &&& forall|i: nat| j <= i < k ==> (#[trigger] (n * ten(i)) % d) != 0
        }),
    decreases max - j,
{
    if !(j >= max || (n * ten(j)) % d == 0) {
        lemma_places_even(n, d, j + 1, max);
        let k = places(n, d, j, max);
        assert forall|i: nat| j <= i < k implies (#[trigger] (n * ten(i)) % d) != 0 by {
            if i > j {
                assert(j + 1 <= i < k);
            }
        }
    }
}

/// If some number of places suffices, so does every larger number of them.
pub(crate) proof fn lemma_even_stays_even(n: int, d: int, i: nat, k: nat)
    requires
        d > 0,
        i <= k,
        (n * ten(i)) % d == 0,
    ensures
        (n * ten(k)) % d == 0,
{
    lemma_pow_adds(10, i, (k - i) as nat);
    let x = n * ten(i);
    let t = ten((k - i) as nat);
    lemma_fundamental_div_mod(x, d);
    let q = x / d;
    let u = ten(i);
    assert(n * (u * t) == (q * t) * d) by (nonlinear_arith)
        requires
            n * u == d * q + 0,
    ;
    lemma_mod_multiples_basic(q * t, d);
}

/// A quotient of decimals is within half a unit of its last place of the true quotient, and
/// is the true quotient where it has fewer places than it may have.
pub proof fn decimal_quotient_is_rounded(a: Decimal, b: Decimal, max: nat)
    ensures
        decimal_quotient(a, b, max) matches Some(r) ==> {
            let off = (decimal_value(r) - decimal_value(a) / decimal_value(b)) * ten(r.scale as nat) as real;
            &&& decimal_value(b) != 0 as real
            &&& r.scale <= max
            &&& -1 as real <= 2 as real * off <= 1 as real
            &&& r.scale < max ==> decimal_value(r) == decimal_value(a) / decimal_value(b)
        },
{
    if let Some(r) = decimal_quotient(a, b, max) {
        let (num, den) = ratio_of(a, b)->0;
        lemma_ratio_value(a, b);
        let n = abs_int(num) as int;
        let d = abs_int(den) as int;
        lemma_places_even(n, d, 0, max);
        let k = places(n, d, 0, max);
        lemma_ten_positive(k);
        lemma_rounded(n * ten(k), d);
        let m = rounded(n * ten(k), d);
        let t = ten(k);
        let sm = r.mantissa as int;
        if (num < 0) != (den < 0) {
            assert(sm * den - num * t == -(m * d - n * t) || sm * den - num * t == m * d - n * t)
                by (nonlinear_arith)
                requires
                    sm == -m,
                    (num == n && den == -d) || (num == -n && den == d),
            ;
        } else {
            assert(sm * den - num * t == -(m * d - n * t) || sm * den - num * t == m * d - n * t)
                by (nonlinear_arith)
                requires
                    sm == m,
                    (num == n && den == d) || (num == -n && den == -d),
            ;
        }
        if k < max {
            lemma_even_value(sm, num, den, m, n, d, t);
        }
        lemma_real_rounding(sm, num, den, t);
    }
}

/// With signs put back, an even quotient is still even.
proof fn lemma_even_value(sm: int, num: int, den: int, m: int, n: int, d: int, t: int)
    requires
        m * d == n * t,
        (sm == -m && ((num == n && den == -d) || (num == -n && den == d))) || (sm == m && ((num == n && den == d) || (num == -n && den
            == -d))),
    ensures
        sm * den == num * t,
{
    assert(sm * den == num * t) by (nonlinear_arith)
        requires
            m * d == n * t,
            (sm == -m && ((num == n && den == -d) || (num == -n && den == d))) || (sm == m && ((num == n && den == d) || (num == -n && den
                == -d))),
    ;
}

proof fn lemma_real_rounding(m: int, num: int, den: int, t: int)
    requires
        den != 0,
        t > 0,
        -abs_int(den) <= 2 * (m * den - num * t) <= abs_int(den),
    ensures
        -1 as real <= 2 as real * ((m as real / t as real - num as real / den as real) * t as real) <= 1 as real,
        m * den == num * t ==> m as real / t as real == num as real / den as real,
{
    let rm = m as real;
    let rt = t as real;
    let rn = num as real;
    let rd = den as real;
    let x = rm / rt;
    let e = rn / rd;
    assert(x * rt == rm) by (nonlinear_arith)
        requires
            x == rm / rt,
            rt != 0 as real,
    ;
    assert(e * rd == rn) by (nonlinear_arith)
        requires
            e == rn / rd,
            rd != 0 as real,
    ;
    assert((m * den) as real == rm * rd && (num * t) as real == rn * rt) by (nonlinear_arith)
        requires
            rm == m as real,
            rd == den as real,
            rn == num as real,
            rt == t as real,
    ;
    let z = (x - e) * rt;
    assert(z * rd == rm * rd - rn * rt) by (nonlinear_arith)
        requires
            z == (x - e) * rt,
            x * rt == rm,
            e * rd == rn,
    ;
    let w = (m * den - num * t) as real;
    assert(w == z * rd);
    let ad = abs_int(den) as real;
    assert(-ad <= 2 as real * w <= ad);
    assert(-1 as real <= 2 as real * z <= 1 as real) by (nonlinear_arith)
        requires
            -ad <= 2 as real * w <= ad,
            w == z * rd,
            ad == rd || ad == -rd,
            ad > 0 as real,
    ;
    if m * den == num * t {
        assert(z == 0 as real) by (nonlinear_arith)
            requires
                z * rd == 0 as real,
                rd != 0 as real,
        ;
        assert(x == e) by (nonlinear_arith)
            requires
                (x - e) * rt == 0 as real,
                rt != 0 as real,
        ;
    }
}

/// Where some decimal of at most `max` places is the quotient, division finds it exactly.
pub proof fn decimal_quotient_is_exact_where_it_ends(a: Decimal, b: Decimal, max: nat, q: Decimal)
    requires
        q.scale <= max,
        decimal_value(q) * decimal_value(b) == decimal_value(a),
    ensures
        decimal_quotient(a, b, max) matches Some(r) ==> decimal_value(r) == decimal_value(q),
{
    if let Some(r) = decimal_quotient(a, b, max) {
        let (num, den) = ratio_of(a, b)->0;
        lemma_ratio_value(a, b);
        let n = abs_int(num) as int;
        let d = abs_int(den) as int;
        let s = q.scale as nat;
        let x = decimal_value(q);
        let y = decimal_value(b);
        let z = decimal_value(a);
        assert(x == z / y) by (nonlinear_arith)
            requires
                x * y == z,
                y != 0 as real,
        ;
        // q = num / den, so num * 10^s = mantissa * den.
        lemma_ten_positive(s);
        lemma_cross(q.mantissa as int, ten(s), num, den);
        let qm = q.mantissa as int;
        let t = ten(s);
        let qa = abs_int(qm) as int;
        assert(n * t == qa * d) by (nonlinear_arith)
            requires
                qm * den == num * t,
                t > 0,
                d > 0,
                n == num || n == -num,
                n >= 0,
                d == den || d == -den,
                qa == qm || qa == -qm,
                qa >= 0,
        ;
        lemma_mod_multiples_basic(qa, d);
        assert((n * ten(s)) % d == 0);
        lemma_places_even(n, d, 0, max);
        let k = places(n, d, 0, max);
        if k > s {
            assert((n * ten(s)) % d != 0);
        }
        if k == max {
            lemma_even_stays_even(n, d, s, k);
        }
        lemma_rounded(n * ten(k), d);
        lemma_ten_positive(k);
        let m = rounded(n * ten(k), d);
        let tk = ten(k);
        let sm = r.mantissa as int;
        assert(sm * den == num * tk) by (nonlinear_arith)
            requires
                m * d == n * tk,
                (sm == -m && ((num == n && den == -d) || (num == -n && den == d))) || (sm == m && ((num == n
                    && den == d) || (num == -n && den == -d))),
        ;
        lemma_real_rounding(sm, num, den, tk);
    }
}

/// Two equal fractions of whole numbers agree crosswise.
pub(crate) proof fn lemma_cross(x: int, p: int, y: int, q: int)
    requires
        p != 0,
        q != 0,
        x as real / p as real == y as real / q as real,
    ensures
        x * q == y * p,
{
    let a = x as real;
    let b = p as real;
    let c = y as real;
    let d = q as real;
    let e = a / b;
    assert(a == e * b) by (nonlinear_arith)
        requires
            e == a / b,
            b != 0 as real,
    ;
    assert(c == e * d) by (nonlinear_arith)
        requires
            e == c / d,
            d != 0 as real,
    ;
    assert(a * d == c * b) by (nonlinear_arith)
        requires
            a == e * b,
            c == e * d,
    ;
    assert((x * q) as real == a * d && (y * p) as real == c * b) by (nonlinear_arith)
        requires
            a == x as real,
            b == p as real,
            c == y as real,
            d == q as real,
    ;
}

/// The whole quotient and the remainder put the dividend together again, and the
/// remainder is never below zero nor as large as the divisor.
pub proof fn decimal_remainder_is_what_is_left(a: Decimal, b: Decimal)
    ensures
        decimal_remainder(a, b) matches Some(r) ==> {
            let q = decimal_whole_quotient(a, b)->0 as real;
            let y = decimal_value(b);
            &&& decimal_value(a) == y * q + decimal_value(r)
            &&& 0 as real <= decimal_value(r)
            &&& decimal_value(r) < if y < 0 as real { -y } else { y }
        },
{
    if let Some(r) = decimal_remainder(a, b) {
        let (n, d) = ratio_of(a, b)->0;
        lemma_ratio_value(a, b);
        let q = n / d;
        let w = Decimal { mantissa: q as i128, scale: 0 };
        let p = decimal_product(b, w)->0;
        decimal_product_is_exact(b, w);
        decimal_difference_is_exact(a, p);
        lemma_pow0(10);
        let rq = q as real;
        assert(decimal_value(w) == rq) by (nonlinear_arith)
            requires
                decimal_value(w) == rq / 1 as real,
        ;
        let y = decimal_value(b);
        let x = decimal_value(a);
        let z = decimal_value(r);
        assert(z == x - y * rq);
        // n = d * q + m with 0 <= m < |d|
        let m = n % d;
        assert(n == d * q + m && 0 <= m && m < abs_int(d)) by (nonlinear_arith)
            requires
                q == n / d,
                m == n % d,
                d != 0,
        ;
        let rn = n as real;
        let rd = d as real;
        let rm = m as real;
        assert(rn == rd * rq + rm) by {
            assert((d * q) as real == rd * rq) by (nonlinear_arith)
                requires
                    rd == d as real,
                    rq == q as real,
            ;
        }
        // x / y = n / d, so (x - y q) / y = m / d
        let e = x / y;
        assert(x == e * y) by (nonlinear_arith)
            requires
                e == x / y,
                y != 0 as real,
        ;
        assert(rn == e * rd) by (nonlinear_arith)
            requires
                e == rn / rd,
                rd != 0 as real,
        ;
        let f = e - rq;
        assert(z == f * y) by (nonlinear_arith)
            requires
                z == x - y * rq,
                x == e * y,
                f == e - rq,
        ;
        assert(rm == f * rd) by (nonlinear_arith)
            requires
                rn == rd * rq + rm,
                rn == e * rd,
                f == e - rq,
        ;
        lemma_same_sign(a, b);
        let ad = abs_int(d) as real;
        let ay = if y < 0 as real { -y } else { y };
        assert(0 as real <= z && z < ay) by (nonlinear_arith)
            requires
                z == f * y,
                rm == f * rd,
                0 as real <= rm,
                rm < ad,
                (rd > 0 as real && y > 0 as real && ad == rd && ay == y) || (rd < 0 as real && y < 0 as real && ad
                    == -rd && ay == -y),
        ;
    }
}

/// The denominator that division works on has the sign of the divisor.
pub(crate) proof fn lemma_same_sign(a: Decimal, b: Decimal)
    ensures
        ratio_of(a, b) matches Some((n, d)) ==> (d > 0 && decimal_value(b) > 0 as real) || (d < 0
            && decimal_value(b) < 0 as real),
{
    if let Some((n, d)) = ratio_of(a, b) {
        let bm = b.mantissa as int;
        let t = ten(a.scale as nat);
        lemma_ten_positive(a.scale as nat);
        lemma_ten_positive(b.scale as nat);
        assert((bm > 0 && d > 0) || (bm < 0 && d < 0)) by (nonlinear_arith)
            requires
                d == bm * t,
                t > 0,
                bm != 0,
        ;
        let x = bm as real;
        let u = ten(b.scale as nat) as real;
        assert((x > 0 as real ==> x / u > 0 as real) && (x < 0 as real ==> x / u < 0 as real)) by (nonlinear_arith)
            requires
                u > 0 as real,
        ;
    }
}

// ── printing and reading back ───────────────────────────────────────────────

/// A text that neither starts nor ends with white space is its own trimmed form.
pub(crate) proof fn lemma_nothing_to_trim(t: Seq<char>)
    requires
        t.len() > 0,
        !is_space(t[0]),
        !is_space(t.last()),
    ensures
        trimmed(t) == t,
{
}

pub(crate) proof fn lemma_first_index(a: Seq<char>, b: Seq<char>, c: char)
    requires
        forall|i: int| 0 <= i < a.len() ==> a[i] != c,
        b.len() == 0 || b[0] == c,
    ensures
        first_index(a + b, c) == a.len(),
    decreases a.len(),
{
    if a.len() == 0 {
        assert(a + b =~= b);
    } else {
        assert((a + b).skip(1) =~= a.skip(1) + b);
        assert((a + b)[0] == a[0]);
        lemma_first_index(a.skip(1), b, c);
    }
}

proof fn lemma_zeros(n: nat)
    ensures
        digits_value(copies('0', n)) == 0,
    decreases n,
{
    if n > 0 {
        assert(copies('0', n).drop_last() =~= copies('0', (n - 1) as nat));
        lemma_zeros((n - 1) as nat);
    }
}

pub(crate) proof fn lemma_padded(m: nat, scale: nat)
    ensures
        all_digits(padded_digits(m, scale)),
        digits_value(padded_digits(m, scale)) == m,
        padded_digits(m, scale).len() > scale,
{
    lemma_digits_round_trip(m);
    let t = nat_text(m);
    if t.len() <= scale {
        let z = copies('0', (scale - t.len() + 1) as nat);
        lemma_zeros((scale - t.len() + 1) as nat);
        lemma_digits_concat(z, t);
        let p = z + t;
        assert forall|i: int| 0 <= i < p.len() implies is_digit(#[trigger] p[i]) by {
            if i >= z.len() {
                assert(p[i] == t[i - z.len()]);
            }
        }
    }
}

/// What is printed of a decimal reads back as the same decimal, without trailing zeros.
/// The one mantissa left out has no positive counterpart to be read digit by digit.
pub proof fn printed_decimals_read_back(d: Decimal)
    requires
        normal(d).mantissa != i128::MIN,
    ensures
        parsed_decimal(decimal_text(d)) == Some(normal(d)),
        trimmed(decimal_text(d)) == decimal_text(d),
{
    let v = normal(d);
    let t = decimal_text(d);
    let m = abs_int(v.mantissa as int);
    lemma_digits_round_trip(m);
    lemma_padded(m, v.scale as nat);
    let p = padded_digits(m, v.scale as nat);
    let body = if v.scale == 0 {
        nat_text(m)
    } else {
        p.take(p.len() - v.scale) + seq!['.'] + p.skip(p.len() - v.scale)
    };
    let whole = if v.scale == 0 {
        nat_text(m)
    } else {
        p.take(p.len() - v.scale)
    };
    let tail = if v.scale == 0 {
        Seq::<char>::empty()
    } else {
        seq!['.'] + p.skip(p.len() - v.scale)
    };
    assert(body =~= whole + tail);
    assert(is_digit(whole[0])) by {
        if v.scale != 0 {
            assert(is_digit(p[0]));
        }
    }
    assert(body[0] == whole[0]);
    assert(is_digit(body.last())) by {
        if v.scale != 0 {
            assert(is_digit(p[p.len() - 1]));
            assert(body.last() == p.last());
        } else {
            assert(is_digit(nat_text(m)[nat_text(m).len() - 1]));
        }
    }
    if v.mantissa < 0 {
        assert(t =~= seq!['-'] + body);
        assert(t.skip(1) =~= body);
    } else {
        assert(t =~= body);
    }
    lemma_nothing_to_trim(t);
    assert(sign_split(t) == (v.mantissa < 0, body));
    assert forall|i: int| 0 <= i < whole.len() implies whole[i] != '.' by {
        if v.scale == 0 {
            assert(is_digit(nat_text(m)[i]));
        } else {
            assert(is_digit(p[i]));
        }
    }
    lemma_first_index(whole, tail, '.');
    let at = first_index(body, '.');
    assert(body.take(at) =~= whole);
    if v.scale == 0 {
        assert(whole + Seq::<char>::empty() =~= whole);
    } else {
        assert(body.skip(at + 1) =~= p.skip(p.len() - v.scale));
        assert(whole + p.skip(p.len() - v.scale) =~= p);
    }
}

// ── fractions ───────────────────────────────────────────────────────────────

/// A fraction in lowest terms with a positive denominator.
pub open spec fn is_reduced(r: Rational) -> bool {
    &&& r.den > 0
    &&& common(abs_int(r.num as int), abs_int(r.den as int)) == 1
}

/// Taking out a common factor takes it out of the common divisor.
proof fn lemma_common_scales(k: nat, a: nat, b: nat)
    requires
        k > 0,
    ensures
        common(k * a, k * b) == k * common(a, b),
    decreases b,
{
    if b == 0 {
        assert(k * b == 0);
    } else {
        assert(k * b > 0) by (nonlinear_arith)
            requires
                k > 0,
                b > 0,
        ;
        lemma_fundamental_div_mod(a as int, b as int);
        lemma_mod_bound(a as int, b as int);
        let q = a as int / b as int;
        let r = a as int % b as int;
        assert((k * a) as int == q * (k * b) as int + k * r) by (nonlinear_arith)
            requires
                a as int == b as int * q + r,
        ;
        assert(0 <= k * r < k * b) by (nonlinear_arith)
            requires
                k > 0,
                0 <= r < b,
        ;
        lemma_fundamental_div_mod_converse((k * a) as int, (k * b) as int, q, k * r);
        lemma_common_scales(k, b, (a % b) as nat);
    }
}

/// Whatever divides both numbers divides their greatest common divisor.
proof fn lemma_divides_common(g: nat, a: nat, b: nat)
    requires
        g > 0,
        a as int % g as int == 0,
        b as int % g as int == 0,
    ensures
        common(a, b) as int % g as int == 0,
    decreases b,
{
    if b > 0 {
        lemma_fundamental_div_mod(a as int, b as int);
        lemma_fundamental_div_mod(a as int, g as int);
        lemma_fundamental_div_mod(b as int, g as int);
        let q = a as int / b as int;
        let x = a as int / g as int;
        let y = b as int / g as int;
        let r = a as int % b as int;
        assert(r == (x - y * q) * g as int) by (nonlinear_arith)
            requires
                a as int == b as int * q + r,
                a as int == g as int * x,
                b as int == g as int * y,
        ;
        lemma_mod_multiples_basic(x - y * q, g as int);
        lemma_divides_common(g, b, (a % b) as nat);
    }
}

/// Reducing a fraction gives lowest terms, a positive denominator, and the same number.
pub proof fn reduced_is_in_lowest_terms(n: int, d: int)
    ensures
        reduced(n, d) matches Some(r) ==> {
            &&& is_reduced(r)
            &&& r.num * d == n * r.den
            &&& rational_value(r) == n as real / d as real
        },
{
    if let Some(r) = reduced(n, d) {
        let a = abs_int(n);
        let b = abs_int(d);
        lemma_common_divides(a, b);
        let g = common(a, b);
        lemma_fundamental_div_mod(a as int, g as int);
        lemma_fundamental_div_mod(b as int, g as int);
        let x = a as int / g as int;
        let y = b as int / g as int;
        assert(x >= 0 && y > 0) by (nonlinear_arith)
            requires
                a as int == g as int * x,
                b as int == g as int * y,
                b > 0,
                a >= 0,
                g > 0,
        ;
        lemma_common_scales(g, x as nat, y as nat);
        let c = common(x as nat, y as nat);
        assert(g == g * c);
        assert(c == 1) by (nonlinear_arith)
            requires
                g == g * c,
                g > 0,
        ;
        let num = r.num as int;
        assert(num * d == n * y) by (nonlinear_arith)
            requires
                a as int == g as int * x,
                b as int == g as int * y,
                (num == -x && ((n == a && d == -b) || (n == -a && d == b))) || (num == x && ((n == a && d == b) || (n
                    == -a && d == -b))),
        ;
        lemma_equal_fractions(num, y, n, d);
    }
}

/// Fractions that agree crosswise are the same number.
proof fn lemma_equal_fractions(x: int, p: int, y: int, q: int)
    requires
        p != 0,
        q != 0,
        x * q == y * p,
    ensures
        x as real / p as real == y as real / q as real,
{
    let a = x as real;
    let b = p as real;
    let c = y as real;
    let d = q as real;
    assert((x * q) as real == a * d && (y * p) as real == c * b) by (nonlinear_arith)
        requires
            a == x as real,
            b == p as real,
            c == y as real,
            d == q as real,
    ;
    let e = a / b;
    assert(a == e * b) by (nonlinear_arith)
        requires
            e == a / b,
            b != 0 as real,
    ;
    assert(c == e * d) by (nonlinear_arith)
        requires
            a * d == c * b,
            a == e * b,
            b != 0 as real,
    ;
    assert(c / d == e) by (nonlinear_arith)
        requires
            c == e * d,
            d != 0 as real,
    ;
}

proof fn lemma_fraction_sum(x: int, p: int, y: int, q: int)
    requires
        p != 0,
        q != 0,
    ensures
        p * q != 0,
        (x * q + y * p) as real / (p * q) as real == x as real / p as real + y as real / q as real,
        (x * q - y * p) as real / (p * q) as real == x as real / p as real - y as real / q as real,
{
    let a = x as real;
    let b = p as real;
    let c = y as real;
    let d = q as real;
    assert((x * q) as real == a * d && (y * p) as real == c * b && (p * q) as real == b * d && p * q != 0)
        by (nonlinear_arith)
        requires
            a == x as real,
            b == p as real,
            c == y as real,
            d == q as real,
            p != 0,
            q != 0,
    ;
    let e = a / b;
    let f = c / d;
    assert(a == e * b) by (nonlinear_arith)
        requires
            e == a / b,
            b != 0 as real,
    ;
    assert(c == f * d) by (nonlinear_arith)
        requires
            f == c / d,
            d != 0 as real,
    ;
    let bd = b * d;
    assert(bd != 0 as real);
    assert(a * d + c * b == (e + f) * bd && a * d - c * b == (e - f) * bd) by (nonlinear_arith)
        requires
            a == e * b,
            c == f * d,
            bd == b * d,
    ;
    let s = a * d + c * b;
    let t = a * d - c * b;
    assert(s / bd == e + f && t / bd == e - f) by (nonlinear_arith)
        requires
            s == (e + f) * bd,
            t == (e - f) * bd,
            bd != 0 as real,
    ;
}

/// Sums, differences and products of fractions are exact and in lowest terms.
pub proof fn rational_arithmetic_is_exact(a: Rational, b: Rational)
    requires
        a.den != 0,
        b.den != 0,
    ensures
        rational_sum(a, b) matches Some(r) ==> is_reduced(r) && rational_value(r) == rational_value(a)
            + rational_value(b),
        rational_difference(a, b) matches Some(r) ==> is_reduced(r) && rational_value(r) == rational_value(a)
            - rational_value(b),
        rational_product(a, b) matches Some(r) ==> is_reduced(r) && rational_value(r) == rational_value(a)
            * rational_value(b),
{
    let x = a.num as int;
    let p = a.den as int;
    let y = b.num as int;
    let q = b.den as int;
    lemma_fraction_sum(x, p, y, q);
    lemma_fraction_product(x, p, y, q);
    reduced_is_in_lowest_terms(x * q + y * p, p * q);
    reduced_is_in_lowest_terms(x * q - y * p, p * q);
    reduced_is_in_lowest_terms(x * y, p * q);
}

/// Quotients of fractions are exact and in lowest terms.
pub proof fn rational_quotient_is_exact(a: Rational, b: Rational)
    requires
        a.den != 0,
        b.den != 0,
    ensures
        rational_quotient(a, b) matches Some(r) ==> is_reduced(r) && rational_value(r) == rational_value(a)
            / rational_value(b),
{
    if b.num != 0 {
        let x = a.num as int;
        let p = a.den as int;
        let y = b.num as int;
        let q = b.den as int;
        lemma_fraction_product(x, p, q, y);
        reduced_is_in_lowest_terms(x * q, p * y);
        let f = y as real / q as real;
        let g = q as real / y as real;
        let e = x as real / p as real;
        let c = q as real;
        let d = y as real;
        assert(f * g == 1 as real) by (nonlinear_arith)
            requires
                f == d / c,
                g == c / d,
                c != 0 as real,
                d != 0 as real,
        ;
        assert(e / f == e * g) by (nonlinear_arith)
            requires
                f * g == 1 as real,
        ;
    }
}

/// A fraction in lowest terms is determined by the number it stands for.
pub proof fn equal_fractions_are_identical(a: Rational, b: Rational)
    requires
        is_reduced(a),
        is_reduced(b),
        rational_value(a) == rational_value(b),
    ensures
        a == b,
{
    let x = a.num as int;
    let p = a.den as int;
    let y = b.num as int;
    let q = b.den as int;
    lemma_cross(x, p, y, q);
    lemma_coprime_divides(abs_int(x), p as nat, abs_int(y), q as nat, x, y);
    assert(y * p == x * q);
    lemma_coprime_divides(abs_int(y), q as nat, abs_int(x), p as nat, y, x);
    lemma_fundamental_div_mod(p, q);
    lemma_fundamental_div_mod(q, p);
    let u = p / q;
    let v = q / p;
    assert(p == q) by (nonlinear_arith)
        requires
            p == q * u,
            q == p * v,
            p > 0,
            q > 0,
    ;
    assert(x == y) by (nonlinear_arith)
        requires
            x * q == y * q,
            q > 0,
    ;
}

proof fn lemma_coprime_divides(ax: nat, p: nat, ay: nat, q: nat, x: int, y: int)
    requires
        p > 0,
        q > 0,
        ax == abs_int(x),
        ay == abs_int(y),
        common(ax, p) == 1,
        x * q == y * p,
    ensures
        q as int % p as int == 0,
{
    assert(ax * q == ay * p) by (nonlinear_arith)
        requires
            x * q == y * p,
            ax == x || ax == -x,
            ay == y || ay == -y,
            ax >= 0,
            ay >= 0,
            p > 0,
            q > 0,
    ;
    lemma_mod_multiples_basic(ay as int, p as int);
    lemma_mod_multiples_basic(q as int, p as int);
    assert((q * ax) as int == ay * p) by (nonlinear_arith)
        requires
            ax * q == ay * p,
    ;
    lemma_divides_common(p, q * ax, q * p);
    lemma_common_scales(q, ax, p);
}

/// A whole power of a fraction is the power of its numerator over the power of its
/// denominator.
pub proof fn rational_power_is_exact(a: Rational, n: nat)
    requires
        a.den != 0,
    ensures
        rational_power(a, n) matches Some(r) ==> is_reduced(r) && rational_value(r) == pow(a.num as int, n) as real
            / pow(a.den as int, n) as real && pow(a.den as int, n) != 0,
    decreases n,
{
    let x = a.num as int;
    let p = a.den as int;
    if n == 0 {
        lemma_pow0(x);
        lemma_pow0(p);
        assert(common(1, 1) == 1) by {
            assert(common(1, 1) == common(1, 1nat % 1));
        }
        reveal_with_fuel(common, 3);
    } else {
        rational_power_is_exact(a, (n - 1) as nat);
        if let Some(prior) = rational_power(a, (n - 1) as nat) {
            rational_arithmetic_is_exact(prior, a);
            lemma_pow_adds(x, (n - 1) as nat, 1);
            lemma_pow_adds(p, (n - 1) as nat, 1);
            lemma_pow1(x);
            lemma_pow1(p);
            lemma_fraction_product(pow(x, (n - 1) as nat), pow(p, (n - 1) as nat), x, p);
        }
    }
}

/// A decimal turned into a fraction is the same number.
pub proof fn a_decimal_as_a_fraction_is_the_same_number(d: Decimal)
    ensures
        rational_of_decimal(d) matches Some(r) ==> is_reduced(r) && rational_value(r) == decimal_value(d),
{
    reduced_is_in_lowest_terms(d.mantissa as int, ten(d.scale as nat));
}

/// Fractions are ordered as the numbers they stand for.
pub proof fn rational_order_is_the_order_of_values(a: Rational, b: Rational)
    requires
        a.den > 0,
        b.den > 0,
    ensures
        rational_order(a, b) matches Some(o) ==> {
            &&& (o == Ordering::Less <==> rational_value(a) < rational_value(b))
            &&& (o == Ordering::Equal <==> rational_value(a) == rational_value(b))
            &&& (o == Ordering::Greater <==> rational_value(a) > rational_value(b))
        },
{
    lemma_cross_order(a, b);
}

proof fn lemma_cross_order(a: Rational, b: Rational)
    requires
        a.den > 0,
        b.den > 0,
    ensures
        a.num * b.den < b.num * a.den <==> rational_value(a) < rational_value(b),
        a.num * b.den == b.num * a.den <==> rational_value(a) == rational_value(b),
{
    let x = a.num as int;
    let p = a.den as int;
    let y = b.num as int;
    let q = b.den as int;
    let rx = x as real;
    let rp = p as real;
    let ry = y as real;
    let rq = q as real;
    let e = rx / rp;
    let f = ry / rq;
    assert((x * q) as real == rx * rq && (y * p) as real == ry * rp) by (nonlinear_arith)
        requires
            rx == x as real,
            rp == p as real,
            ry == y as real,
            rq == q as real,
    ;
    assert(rx == e * rp && ry == f * rq) by (nonlinear_arith)
        requires
            e == rx / rp,
            f == ry / rq,
            rp > 0 as real,
            rq > 0 as real,
    ;
    let pq = rp * rq;
    assert(pq > 0 as real) by (nonlinear_arith)
        requires
            pq == rp * rq,
            rp > 0 as real,
            rq > 0 as real,
    ;
    assert(rx * rq == e * pq && ry * rp == f * pq) by (nonlinear_arith)
        requires
            rx == e * rp,
            ry == f * rq,
            pq == rp * rq,
    ;
    assert((e * pq < f * pq <==> e < f) && (e * pq == f * pq <==> e == f)) by (nonlinear_arith)
        requires
            pq > 0 as real,
    ;
}

} // verus!
