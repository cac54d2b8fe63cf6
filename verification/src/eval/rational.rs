//! Exact fractions.
//!
//! Every operation hands back a fraction in lowest terms with a positive denominator.

use core::cmp::Ordering;

use vstd::arithmetic::div_mod::*;
use vstd::arithmetic::mul::*;
use vstd::arithmetic::power::*;
use vstd::prelude::*;
use vstd::string::*;

use crate::eval::decimal::{order_of, pow10, ten, Decimal};
use crate::text::{abs_int, fits, i128_text, int_text, magnitude, signed};

verus! {

/// An exact rational. What the operations hand back is always reduced, with a positive
/// denominator.
#[derive(Debug, Clone, Copy, PartialEq, Eq, Structural)]
pub struct Rational {
    pub num: i128,
    pub den: i128,
}

// ── what the operations give ────────────────────────────────────────────────

/// The greatest common divisor.
pub open spec fn common(a: nat, b: nat) -> nat
    decreases b,
{
    if b == 0 {
        a
    } else {
        common(b, a % b)
    }
}

/// `n / d` in lowest terms with a positive denominator, where it fits.
pub open spec fn reduced(n: int, d: int) -> Option<Rational> {
    if d == 0 {
        None
    } else {
        let g = common(abs_int(n), abs_int(d)) as int;
        let m = abs_int(n) as int / g;
        let num = if (n < 0) != (d < 0) {
            -m
        } else {
            m
        };
        let den = abs_int(d) as int / g;
        if fits(num) && fits(den) {
            Some(Rational { num: num as i128, den: den as i128 })
        } else {
            None
        }
    }
}

/// A fraction made of two whole numbers, each of which must fit before it is reduced.
pub open spec fn fraction(n: int, d: int) -> Option<Rational> {
    if fits(n) && fits(d) {
        reduced(n, d)
    } else {
        None
    }
}

pub open spec fn rational_sum(a: Rational, b: Rational) -> Option<Rational> {
    if fits(a.num * b.den) && fits(b.num * a.den) {
        fraction(a.num * b.den + b.num * a.den, a.den * b.den)
    } else {
        None
    }
}

pub open spec fn rational_difference(a: Rational, b: Rational) -> Option<Rational> {
    if fits(a.num * b.den) && fits(b.num * a.den) {
        fraction(a.num * b.den - b.num * a.den, a.den * b.den)
    } else {
        None
    }
}

pub open spec fn rational_product(a: Rational, b: Rational) -> Option<Rational> {
    fraction(a.num * b.num, a.den * b.den)
}

pub open spec fn rational_quotient(a: Rational, b: Rational) -> Option<Rational> {
    if b.num == 0 {
        None
    } else {
        fraction(a.num * b.den, a.den * b.num)
    }
}

/// A fraction multiplied by itself, starting from one; nothing once a step does not fit.
pub open spec fn rational_power(a: Rational, n: nat) -> Option<Rational>
    decreases n,
{
    if n == 0 {
        Some(Rational { num: 1, den: 1 })
    } else {
        match rational_power(a, (n - 1) as nat) {
            Some(p) => rational_product(p, a),
            None => None,
        }
    }
}

/// A whole power of either sign: below zero, of the fraction turned over.
pub open spec fn rational_int_power(a: Rational, exp: int) -> Option<Rational> {
    if exp < 0 {
        match reduced(a.den as int, a.num as int) {
            Some(b) => rational_power(b, (-exp) as nat),
            None => None,
        }
    } else {
        rational_power(a, exp as nat)
    }
}

pub open spec fn rational_order(a: Rational, b: Rational) -> Option<Ordering> {
    if fits(a.num * b.den) && fits(b.num * a.den) {
        Some(order_of(a.num * b.den, b.num * a.den))
    } else {
        None
    }
}

pub open spec fn rational_of_decimal(d: Decimal) -> Option<Rational> {
    fraction(d.mantissa as int, ten(d.scale as nat))
}

/// A fraction as it is printed: a whole number without its denominator.
pub open spec fn rational_text(r: Rational) -> Seq<char> {
    if r.den == 1 {
        int_text(r.num as int)
    } else {
        int_text(r.num as int) + "/"@ + int_text(r.den as int)
    }
}

// ── the operations ──────────────────────────────────────────────────────────

pub fn gcd(a: u128, b: u128) -> (r: u128)
    ensures
        r == common(a as nat, b as nat),
    decreases b,
{
    if b == 0 {
        a
    } else {
        gcd(b, a % b)
    }
}

impl Rational {
    pub fn new(num: i128, den: i128) -> (r: Option<Rational>)
        ensures
            r == reduced(num as int, den as int),
    {
        if den == 0 {
            return None;
        }
        let negative: bool = (num < 0) != (den < 0);
        let n: u128 = magnitude(num);
        let d: u128 = magnitude(den);
        let g: u128 = gcd(n, d);
        proof {
            lemma_common_divides(n as nat, d as nat);
        }
        match signed(negative, n / g) {
            None => None,
            Some(rn) => match signed(false, d / g) {
                None => None,
                Some(rd) => Some(Rational { num: rn, den: rd }),
            },
        }
    }

    pub fn from_int(v: i128) -> (r: Rational)
        ensures
            r == (Rational { num: v, den: 1 }),
    {
        Rational { num: v, den: 1 }
    }

    pub fn from_decimal(d: Decimal) -> (r: Option<Rational>)
        ensures
            r == rational_of_decimal(d),
    {
        match pow10(d.scale) {
            None => None,
            Some(p) => Rational::new(d.mantissa, p),
        }
    }

    pub fn add(self, o: Rational) -> (r: Option<Rational>)
        ensures
            r == rational_sum(self, o),
    {
        match (self.num.checked_mul(o.den), o.num.checked_mul(self.den), self.den.checked_mul(o.den)) {
            (Some(a), Some(b), Some(d)) => match a.checked_add(b) {
                Some(n) => Rational::new(n, d),
                None => None,
            },
            _ => None,
        }
    }

    pub fn sub(self, o: Rational) -> (r: Option<Rational>)
        ensures
            r == rational_difference(self, o),
    {
        match (self.num.checked_mul(o.den), o.num.checked_mul(self.den), self.den.checked_mul(o.den)) {
            (Some(a), Some(b), Some(d)) => match a.checked_sub(b) {
                Some(n) => Rational::new(n, d),
                None => None,
            },
            _ => None,
        }
    }

    pub fn mul(self, o: Rational) -> (r: Option<Rational>)
        ensures
            r == rational_product(self, o),
    {
        match (self.num.checked_mul(o.num), self.den.checked_mul(o.den)) {
            (Some(n), Some(d)) => Rational::new(n, d),
            _ => None,
        }
    }

    pub fn div(self, o: Rational) -> (r: Option<Rational>)
        ensures
            r == rational_quotient(self, o),
    {
        if o.num == 0 {
            return None;
        }
        match (self.num.checked_mul(o.den), self.den.checked_mul(o.num)) {
            (Some(n), Some(d)) => Rational::new(n, d),
            _ => None,
        }
    }

    /// Exact integer power.
    pub fn pow_int(self, exp: i32) -> (r: Option<Rational>)
        ensures
            r == rational_int_power(self, exp as int),
    {
        if exp < 0 {
            match Rational::new(self.den, self.num) {
                None => None,
                Some(base) => base.pow_times((-(exp as i64)) as u32),
            }
        } else {
            self.pow_times(exp as u32)
        }
    }

    /// Exact power by repeated multiplication.
    pub fn pow_times(self, exp: u32) -> (r: Option<Rational>)
        ensures
            r == rational_power(self, exp as nat),
    {
        let mut acc: Rational = Rational::from_int(1);
        let mut i: u32 = 0;
        while i < exp
            invariant
                i <= exp,
                rational_power(self, i as nat) == Some(acc),
            decreases exp - i,
        {
            match acc.mul(self) {
                None => {
                    proof {
                        lemma_power_stays_none(self, (i + 1) as nat, exp as nat);
                    }
                    return None;
                },
                Some(v) => {
                    acc = v;
                },
            }
            i = i + 1;
        }
        Some(acc)
    }

    pub fn compare(self, o: Rational) -> (r: Option<Ordering>)
        ensures
            r == rational_order(self, o),
    {
        match (self.num.checked_mul(o.den), o.num.checked_mul(self.den)) {
            (Some(a), Some(b)) => Some(
                if a < b {
                    Ordering::Less
                } else if a == b {
                    Ordering::Equal
                } else {
                    Ordering::Greater
                },
            ),
            _ => None,
        }
    }

    /// The fraction as it is printed.
    pub fn text(&self) -> (r: String)
        ensures
            r@ == rational_text(*self),
    {
        let mut out: String = i128_text(self.num);
        if self.den != 1 {
            out.append("/");
            out.append(i128_text(self.den).as_str());
        }
        out
    }
}

proof fn lemma_power_stays_none(a: Rational, k: nat, n: nat)
    requires
        k <= n,
        rational_power(a, k) is None,
    ensures
        rational_power(a, n) is None,
    decreases n,
{
    if k < n {
        lemma_power_stays_none(a, k, (n - 1) as nat);
    }
}

/// The greatest common divisor divides both numbers, and is not zero unless both are.
pub proof fn lemma_common_divides(a: nat, b: nat)
    ensures
        (a > 0 || b > 0) ==> {
            &&& common(a, b) > 0
            &&& a as int % common(a, b) as int == 0
            &&& b as int % common(a, b) as int == 0
            &&& (b > 0 ==> common(a, b) <= b)
            &&& (a > 0 ==> common(a, b) <= a)
        },
    decreases b,
{
    if b > 0 {
        lemma_common_divides(b, a % b);
        let g = common(a, b) as int;
        lemma_fundamental_div_mod(a as int, b as int);
        let q = a as int / b as int;
        lemma_fundamental_div_mod(b as int, g);
        lemma_fundamental_div_mod((a % b) as int, g);
        let x = b as int / g;
        let y = (a % b) as int / g;
        assert(a as int == (q * x + y) * g) by (nonlinear_arith)
            requires
                a as int == b as int * q + (a % b) as int,
                b as int == g * x,
                (a % b) as int == g * y,
        ;
        lemma_mod_multiples_basic(q * x + y, g);
        if a > 0 {
            lemma_fundamental_div_mod(a as int, g);
            let z = a as int / g;
            assert(g <= a as int) by (nonlinear_arith)
                requires
                    a as int == g * z,
                    a > 0,
                    g > 0,
            ;
        }
    } else if a > 0 {
        lemma_mod_self_0(a as int);
        lemma_small_mod(0, a);
    }
}

} // verus!
