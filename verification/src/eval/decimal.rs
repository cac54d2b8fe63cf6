//! Exact decimals.
//!
//! A decimal is a scaled integer, `mantissa / 10^scale`, never a binary fraction. The
//! arithmetic is exact wherever its result fits, and says so where it does not.

use core::cmp::Ordering;

use vstd::arithmetic::div_mod::*;
use vstd::arithmetic::mul::*;
use vstd::arithmetic::power::*;
use vstd::prelude::*;
use vstd::slice::slice_subrange;
use vstd::string::*;

use crate::text::{
    abs_int, all_digits, chars_of, copies, digits_number, digits_value, fits, int_text, is_digit_char,
    magnitude, nat_text, repeated, signed, text_of, trim_chars, trimmed, u128_text, i128_text,
};

verus! {

/// An exact decimal: `mantissa / 10^scale`. `0.1` is `Decimal { mantissa: 1, scale: 1 }`,
/// which is why `0.1 + 0.2` lands exactly on `0.3`.
#[derive(Debug, Clone, Copy, PartialEq, Eq, Structural)]
pub struct Decimal {
    pub mantissa: i128,
    pub scale: u32,
}

// ── what the operations give ────────────────────────────────────────────────

/// Ten to a power.
pub open spec fn ten(n: nat) -> int {
    pow(10, n)
}

/// `m * 10^k`, where both the factor and the product fit.
pub open spec fn scaled(m: int, k: int) -> Option<int> {
    if k >= 0 && fits(ten(k as nat)) && fits(m * ten(k as nat)) {
        Some(m * ten(k as nat))
    } else {
        None
    }
}

pub open spec fn larger(a: int, b: int) -> int {
    if a >= b {
        a
    } else {
        b
    }
}

/// The two mantissas at the larger of the two scales.
pub open spec fn aligned(a: Decimal, b: Decimal) -> Option<(int, int)> {
    let s = larger(a.scale as int, b.scale as int);
    match (scaled(a.mantissa as int, s - a.scale), scaled(b.mantissa as int, s - b.scale)) {
        (Some(x), Some(y)) => Some((x, y)),
        _ => None,
    }
}

/// A mantissa and a scale, where both fit.
pub open spec fn decimal_of(m: int, s: int) -> Option<Decimal> {
    if fits(m) && 0 <= s <= u32::MAX {
        Some(Decimal { mantissa: m as i128, scale: s as u32 })
    } else {
        None
    }
}

pub open spec fn decimal_sum(a: Decimal, b: Decimal) -> Option<Decimal> {
    match aligned(a, b) {
        Some((x, y)) => decimal_of(x + y, larger(a.scale as int, b.scale as int)),
        None => None,
    }
}

pub open spec fn decimal_difference(a: Decimal, b: Decimal) -> Option<Decimal> {
    match aligned(a, b) {
        Some((x, y)) => decimal_of(x - y, larger(a.scale as int, b.scale as int)),
        None => None,
    }
}

pub open spec fn decimal_product(a: Decimal, b: Decimal) -> Option<Decimal> {
    decimal_of(a.mantissa * b.mantissa, a.scale + b.scale)
}

/// A decimal multiplied by itself, starting from one; nothing once a step does not fit.
pub open spec fn decimal_power(a: Decimal, n: nat) -> Option<Decimal>
    decreases n,
{
    if n == 0 {
        Some(Decimal { mantissa: 1, scale: 0 })
    } else {
        match decimal_power(a, (n - 1) as nat) {
            Some(p) => decimal_product(p, a),
            None => None,
        }
    }
}

/// The numerator and the denominator of `a / b` as whole numbers, where they fit.
pub open spec fn ratio_of(a: Decimal, b: Decimal) -> Option<(int, int)> {
    if b.mantissa == 0 {
        None
    } else {
        match (scaled(a.mantissa as int, b.scale as int), scaled(b.mantissa as int, a.scale as int)) {
            (Some(n), Some(d)) => Some((n, d)),
            _ => None,
        }
    }
}

/// The first number of places, from `j` on, at which `n / d` comes out even; `max` where
/// none before it does.
pub open spec fn places(n: int, d: int, j: nat, max: nat) -> nat
    decreases max - j,
{
    if j >= max || (n * ten(j)) % d == 0 {
        j
    } else {
        places(n, d, j + 1, max)
    }
}

/// `n / d`, rounded to the nearest whole number, halves upwards.
pub open spec fn rounded(n: int, d: int) -> int {
    if (n % d) * 2 >= d {
        n / d + 1
    } else {
        n / d
    }
}

/// Whether every remainder that long division meets on the way to `k` places leaves room
/// for one more digit.
pub open spec fn remainders_fit(n: int, d: int, k: nat) -> bool {
    forall|j: nat| j < k ==> (#[trigger] (n * ten(j)) % d) * 10 <= u128::MAX
}

/// A quotient to at most `max` places: exact where it ends within them, else rounded.
pub open spec fn decimal_quotient(a: Decimal, b: Decimal, max: nat) -> Option<Decimal> {
    match ratio_of(a, b) {
        None => None,
        Some((num, den)) => {
            let n = abs_int(num) as int;
            let d = abs_int(den) as int;
            let k = places(n, d, 0, max);
            let m = rounded(n * ten(k), d);
            if remainders_fit(n, d, k) {
                decimal_of(if (num < 0) != (den < 0) { -m } else { m }, k as int)
            } else {
                None
            }
        },
    }
}

/// The whole part of a quotient, in the Euclidean sense: what is left over is never
/// below zero.
pub open spec fn decimal_whole_quotient(a: Decimal, b: Decimal) -> Option<int> {
    match ratio_of(a, b) {
        Some((n, d)) => if fits(n / d) {
            Some(n / d)
        } else {
            None
        },
        None => None,
    }
}

pub open spec fn decimal_remainder(a: Decimal, b: Decimal) -> Option<Decimal> {
    match decimal_whole_quotient(a, b) {
        Some(q) => match decimal_product(b, Decimal { mantissa: q as i128, scale: 0 }) {
            Some(p) => decimal_difference(a, p),
            None => None,
        },
        None => None,
    }
}

pub open spec fn order_of(a: int, b: int) -> Ordering {
    if a < b {
        Ordering::Less
    } else if a == b {
        Ordering::Equal
    } else {
        Ordering::Greater
    }
}

pub open spec fn decimal_order(a: Decimal, b: Decimal) -> Option<Ordering> {
    match aligned(a, b) {
        Some((x, y)) => Some(order_of(x, y)),
        None => None,
    }
}

/// A decimal without the zeros at the end of its fraction.
pub open spec fn normal(d: Decimal) -> Decimal
    decreases d.scale,
{
    if d.scale > 0 && d.mantissa as int % 10 == 0 {
        normal(Decimal { mantissa: (d.mantissa as int / 10) as i128, scale: (d.scale - 1) as u32 })
    } else {
        d
    }
}

/// The digits of a mantissa, with zeros in front where the fraction needs them.
pub open spec fn padded_digits(m: nat, scale: nat) -> Seq<char> {
    let t = nat_text(m);
    if t.len() <= scale {
        copies('0', (scale - t.len() + 1) as nat) + t
    } else {
        t
    }
}

/// A decimal as it is printed: `0.30` is `0.3`, `3.0` is `3`.
pub open spec fn decimal_text(v: Decimal) -> Seq<char> {
    let d = normal(v);
    if d.scale == 0 {
        int_text(d.mantissa as int)
    } else {
        let p = padded_digits(abs_int(d.mantissa as int), d.scale as nat);
        let split = p.len() - d.scale;
        (if d.mantissa < 0 {
            seq!['-']
        } else {
            Seq::<char>::empty()
        }) + p.take(split) + seq!['.'] + p.skip(split)
    }
}

/// The sign in front of a number, and what follows it.
pub open spec fn sign_split(t: Seq<char>) -> (bool, Seq<char>) {
    if t.len() > 0 && t[0] == '-' {
        (true, t.skip(1))
    } else if t.len() > 0 && t[0] == '+' {
        (false, t.skip(1))
    } else {
        (false, t)
    }
}

/// Where a character first stands in a text; the text's length where it does not.
pub open spec fn first_index(t: Seq<char>, c: char) -> int
    decreases t.len(),
{
    if t.len() == 0 || t[0] == c {
        0
    } else {
        1 + first_index(t.skip(1), c)
    }
}

/// The decimal that a text spells: an optional sign, then digits with at most one point
/// among them, at least one digit in all, white space around them ignored.
pub open spec fn parsed_decimal(s: Seq<char>) -> Option<Decimal> {
    let (negative, digits) = sign_split(trimmed(s));
    let at = first_index(digits, '.');
    let whole = digits.take(at);
    let frac = if at < digits.len() {
        digits.skip(at + 1)
    } else {
        Seq::empty()
    };
    let v = digits_value(whole + frac);
    if all_digits(whole + frac) && whole.len() + frac.len() > 0 && fits(v) {
        Some(
            Decimal {
                mantissa: (if negative { -v } else { v }) as i128,
                scale: (frac.len() % 0x1_0000_0000) as u32,
            },
        )
    } else {
        None
    }
}

// ── the operations ──────────────────────────────────────────────────────────

/// Ten to a power, where it fits.
pub fn pow10(n: u32) -> (r: Option<i128>)
    ensures
        r == if fits(ten(n as nat)) { Some(ten(n as nat) as i128) } else { None },
{
    let mut acc: i128 = 1;
    let mut i: u32 = 0;
    proof {
        lemma_pow0(10);
    }
    while i < n
        invariant
            i <= n,
            acc == ten(i as nat),
            acc >= 1,
        decreases n - i,
    {
        proof {
            lemma_pow_adds(10, i as nat, 1);
            lemma_pow1(10);
            lemma_pow_increases(10, (i + 1) as nat, n as nat);
        }
        match acc.checked_mul(10) {
            None => {
                return None;
            },
            Some(v) => {
                acc = v;
            },
        }
        i = i + 1;
    }
    Some(acc)
}

fn scale_up(m: i128, k: u32) -> (r: Option<i128>)
    ensures
        r == (match scaled(m as int, k as int) { Some(v) => Some(v as i128), None => None }),
{
    match pow10(k) {
        None => None,
        Some(p) => m.checked_mul(p),
    }
}

/// Long division of whole numbers to at most `max` places, the last digit rounded.
///
/// Nothing where a digit or a remainder outgrows its 128 bits; a quotient too long for
/// its digits is then no `i128` either.
fn long_division(n: u128, d: u128, max: u32) -> (r: Option<(u128, u32)>)
    requires
        d > 0,
        d <= 0x8000_0000_0000_0000_0000_0000_0000_0000,
        n <= 0x8000_0000_0000_0000_0000_0000_0000_0000,
    ensures
        ({
            let k = places(n as int, d as int, 0, max as nat);
            let m = rounded(n * ten(k), d as int);
            match r {
                Some((digits, scale)) => digits == m && scale == k && remainders_fit(n as int, d as int, k),
                None => !remainders_fit(n as int, d as int, k) || m > u128::MAX,
            }
        }),
{
    let mut digits: u128 = n / d;
    let mut remainder: u128 = n % d;
    let mut scale: u32 = 0;
    proof {
        lemma_pow0(10);
        assert(n * 1 == n);
    }
    while remainder != 0 && scale < max
        invariant
            d > 0,
            scale <= max,
            digits == (n * ten(scale as nat)) / d as int,
            remainder == (n * ten(scale as nat)) % (d as int),
            remainder < d,
            places(n as int, d as int, 0, max as nat) == places(n as int, d as int, scale as nat, max as nat),
            remainders_fit(n as int, d as int, scale as nat),
        decreases max - scale,
    {
        let ghost k = places(n as int, d as int, 0, max as nat);
        proof {
            lemma_places_bound(n as int, d as int, (scale + 1) as nat, max as nat);
            lemma_next_digit(n as int, d as int, scale as nat);
            lemma_quotient_grows(n as int, d as int, (scale + 1) as nat, k);
        }
        let d10: u128 = match digits.checked_mul(10) {
            None => {
                return None;
            },
            Some(v) => v,
        };
        let r10: u128 = match remainder.checked_mul(10) {
            None => {
                assert((n * ten(scale as nat)) % (d as int) * 10 > u128::MAX);
                return None;
            },
            Some(v) => v,
        };
        digits = match d10.checked_add(r10 / d) {
            None => {
                return None;
            },
            Some(v) => v,
        };
        remainder = r10 % d;
        scale = scale + 1;
    }
    if remainder != 0 && remainder >= d - remainder {
        match digits.checked_add(1) {
            None => None,
            Some(v) => Some((v, scale)),
        }
    } else {
        Some((digits, scale))
    }
}

impl Decimal {
    pub fn new(mantissa: i128, scale: u32) -> (r: Decimal)
        ensures
            r == (Decimal { mantissa, scale }),
    {
        Decimal { mantissa, scale }
    }

    pub fn from_int(v: i128) -> (r: Decimal)
        ensures
            r == (Decimal { mantissa: v, scale: 0 }),
    {
        Decimal { mantissa: v, scale: 0 }
    }

    /// Raise both to a common scale so they can be added exactly.
    pub fn align(a: Decimal, b: Decimal) -> (r: Option<(i128, i128, u32)>)
        ensures
            match aligned(a, b) {
                Some((x, y)) => fits(x) && fits(y) && r == Some(
                    (x as i128, y as i128, larger(a.scale as int, b.scale as int) as u32),
                ),
                None => r is None,
            },
    {
        let scale: u32 = if a.scale >= b.scale {
            a.scale
        } else {
            b.scale
        };
        match scale_up(a.mantissa, scale - a.scale) {
            None => None,
            Some(am) => match scale_up(b.mantissa, scale - b.scale) {
                None => None,
                Some(bm) => Some((am, bm, scale)),
            },
        }
    }

    pub fn add(self, other: Decimal) -> (r: Option<Decimal>)
        ensures
            r == decimal_sum(self, other),
    {
        match Decimal::align(self, other) {
            None => None,
            Some((a, b, scale)) => match a.checked_add(b) {
                None => None,
                Some(mantissa) => Some(Decimal { mantissa, scale }),
            },
        }
    }

    pub fn sub(self, other: Decimal) -> (r: Option<Decimal>)
        ensures
            r == decimal_difference(self, other),
    {
        match Decimal::align(self, other) {
            None => None,
            Some((a, b, scale)) => match a.checked_sub(b) {
                None => None,
                Some(mantissa) => Some(Decimal { mantissa, scale }),
            },
        }
    }

    /// The exact product; nothing where its mantissa or its scale does not fit.
    pub fn mul(self, other: Decimal) -> (r: Option<Decimal>)
        ensures
            r == decimal_product(self, other),
    {
        match self.mantissa.checked_mul(other.mantissa) {
            None => None,
            Some(mantissa) => match self.scale.checked_add(other.scale) {
                None => None,
                Some(scale) => Some(Decimal { mantissa, scale }),
            },
        }
    }

    /// Exact integer power, by repeated exact multiplication.
    pub fn pow_int(self, exp: u32) -> (r: Option<Decimal>)
        ensures
            r == decimal_power(self, exp as nat),
    {
        let mut acc: Decimal = Decimal::from_int(1);
        let mut i: u32 = 0;
        while i < exp
            invariant
                i <= exp,
                decimal_power(self, i as nat) == Some(acc),
            decreases exp - i,
        {
            match acc.mul(self) {
                None => {
                    proof {
                        lemma_power_stays_none(self, (i + 1) as nat, exp as nat);
                    }
                    return None;
                },
                Some(v) => {
                    acc = v;
                },
            }
            i = i + 1;
        }
        Some(acc)
    }

    /// Exact division when the quotient terminates within `max_digits`, otherwise the
    /// correctly-rounded value at that many places. Long division, so the digits are the
    /// true ones.
    pub fn div_exact(self, other: Decimal, max_digits: u32) -> (r: Option<Decimal>)
        ensures
            r == decimal_quotient(self, other, max_digits as nat),
    {
        if other.is_zero() {
            return None;
        }
        match scale_up(self.mantissa, other.scale) {
            None => None,
            Some(num) => match scale_up(other.mantissa, self.scale) {
                None => None,
                Some(den) => {
                    proof {
                        lemma_scaled_nonzero(other.mantissa as int, self.scale as int);
                    }
                    match long_division(magnitude(num), magnitude(den), max_digits) {
                        None => None,
                        Some((digits, scale)) => match signed((num < 0) != (den < 0), digits) {
                            None => None,
                            Some(mantissa) => Some(Decimal { mantissa, scale }),
                        },
                    }
                },
            },
        }
    }

    /// Truncating division, which is what `//` asks for.
    pub fn int_div(self, other: Decimal) -> (r: Option<i128>)
        ensures
            r == (match decimal_whole_quotient(self, other) {
                Some(q) => Some(q as i128),
                None => None,
            }),
    {
        if other.is_zero() {
            return None;
        }
        match scale_up(self.mantissa, other.scale) {
            None => None,
            Some(num) => match scale_up(other.mantissa, self.scale) {
                None => None,
                Some(den) => {
                    proof {
                        lemma_scaled_nonzero(other.mantissa as int, self.scale as int);
                    }
                    num.checked_div_euclid(den)
                },
            },
        }
    }

    /// Remainder, exactly.
    pub fn rem(self, other: Decimal) -> (r: Option<Decimal>)
        ensures
            r == decimal_remainder(self, other),
    {
        match self.int_div(other) {
            None => None,
            Some(q) => match other.mul(Decimal::from_int(q)) {
                None => None,
                Some(p) => self.sub(p),
            },
        }
    }

    pub fn compare(self, other: Decimal) -> (r: Option<Ordering>)
        ensures
            r == decimal_order(self, other),
    {
        match Decimal::align(self, other) {
            None => None,
            Some((a, b, _)) => Some(
                if a < b {
                    Ordering::Less
                } else if a == b {
                    Ordering::Equal
                } else {
                    Ordering::Greater
                },
            ),
        }
    }

    pub fn is_zero(self) -> (r: bool)
        ensures
            r == (self.mantissa == 0),
    {
        self.mantissa == 0
    }

    /// Drop trailing zeros, so `0.30` prints as `0.3`.
    pub fn normalised(self) -> (r: Decimal)
        ensures
            r == normal(self),
    {
        let mut d: Decimal = self;
        while d.scale > 0 && d.mantissa.checked_rem_euclid(10) == Some(0i128)
            invariant
                normal(d) == normal(self),
            decreases d.scale,
        {
            d = match d.mantissa.checked_div_euclid(10) {
                Some(m) => Decimal { mantissa: m, scale: d.scale - 1 },
                None => d,
            };
        }
        d
    }

    /// The decimal as it is printed.
    pub fn text(&self) -> (r: String)
        ensures
            r@ == decimal_text(*self),
    {
        let d: Decimal = self.normalised();
        if d.scale == 0 {
            return i128_text(d.mantissa);
        }
        let digits: String = u128_text(magnitude(d.mantissa));
        let scale: usize = d.scale as usize;
        let mut padded: Vec<char> = chars_of(digits.as_str());
        if padded.len() <= scale {
            let mut zeros: Vec<char> = chars_of(repeated('0', scale - padded.len() + 1).as_str());
            zeros.append(&mut padded);
            padded = zeros;
        }
        let split: usize = padded.len() - scale;
        let mut out: String = String::new();
        if d.mantissa < 0 {
            out.push('-');
        }
        assert(out@ =~= if d.mantissa < 0 { seq!['-'] } else { Seq::<char>::empty() });
        out.append(text_of(slice_subrange(padded.as_slice(), 0, split)).as_str());
        out.append(".");
        out.append(text_of(slice_subrange(padded.as_slice(), split, padded.len())).as_str());
        proof {
            reveal_strlit(".");
            assert("."@ =~= seq!['.']);
            assert(padded@.subrange(0, split as int) =~= padded@.take(split as int));
            assert(padded@.subrange(split as int, padded@.len() as int) =~= padded@.skip(split as int));
        }
        out
    }

    /// Parse `"0.1"`, `"-42"`, `".5"`. Returns `None` on anything else.
    pub fn parse(text: &str) -> (r: Option<Decimal>)
        ensures
            r == parsed_decimal(text@),
    {
        let all: Vec<char> = chars_of(text);
        let t: Vec<char> = trim_chars(all.as_slice());
        let negative: bool = t.len() > 0 && t[0] == '-';
        let from: usize = if t.len() > 0 && (t[0] == '-' || t[0] == '+') {
            1
        } else {
            0
        };
        let ghost digits = sign_split(trimmed(text@)).1;
        assert(digits =~= t@.skip(from as int));
        let at: usize = index_of(t.as_slice(), from, '.');
        let mut joined: Vec<char> = Vec::new();
        let mut frac_len: usize = 0;
        let mut i: usize = from;
        let ghost whole = digits.take(at - from);
        let ghost frac = if at < t.len() { digits.skip(at - from + 1) } else { Seq::<char>::empty() };
        while i < t.len()
            invariant
                from <= i <= t.len(),
                from <= at <= t.len(),
                digits == t@.skip(from as int),
                digits == sign_split(trimmed(text@)).1,
                at == from + first_index(digits, '.'),
                whole == digits.take(at - from),
                frac == (if at < t.len() { digits.skip(at - from + 1) } else { Seq::<char>::empty() }),
                i <= at ==> joined@ == whole.take(i - from) && frac_len == 0,
                i > at ==> joined@ == whole + frac.take(i - at - 1) && frac_len == i - at - 1,
                all_digits(joined@),
            decreases t.len() - i,
        {
            if i != at {
                if !is_digit_char(t[i]) {
                    proof {
                        let j = if i < at { i - from } else { i - from - 1 };
                        assert((whole + frac)[j] == t@[i as int]);
                        assert(!all_digits(whole + frac));
                    }
                    return None;
                }
                joined.push(t[i]);
                if i > at {
                    frac_len = frac_len + 1;
                }
            }
            i = i + 1;
            proof {
                if i <= at {
                    assert(joined@ =~= whole.take(i - from));
                } else {
                    assert(whole.take(at - from) =~= whole);
                    assert(joined@ =~= whole + frac.take(i - at - 1));
                }
            }
        }
        proof {
            if at == t.len() {
                assert(whole.take(at - from) =~= whole);
            } else {
                assert(frac.take(i - at - 1) =~= frac);
            }
            assert(joined@ =~= whole + frac);
        }
        if joined.len() == 0 {
            return None;
        }
        let mantissa: i128 = match digits_number(joined.as_slice()) {
            None => {
                return None;
            },
            Some(v) => v,
        };
        proof {
            crate::text::lemma_digits_bound(joined@);
        }
        let signed_mantissa: i128 = if negative {
            -mantissa
        } else {
            mantissa
        };
        Some(Decimal { mantissa: signed_mantissa, scale: (frac_len as u64 % 0x1_0000_0000) as u32 })
    }
}

/// Where a character first stands at or after `from`; the length where it does not.
fn index_of(t: &[char], from: usize, c: char) -> (r: usize)
    requires
        from <= t.len(),
    ensures
        r == from + first_index(t@.skip(from as int), c),
        from <= r <= t.len(),
{
    let mut i: usize = from;
    while i < t.len() && t[i] != c
        invariant
            from <= i <= t.len(),
            from + first_index(t@.skip(from as int), c) == i + first_index(t@.skip(i as int), c),
        decreases t.len() - i,
    {
        assert(t@.skip(i as int).skip(1) =~= t@.skip(i as int + 1));
        i = i + 1;
    }
    i
}

proof fn lemma_scaled_nonzero(m: int, k: int)
    requires
        m != 0,
        k >= 0,
    ensures
        m * ten(k as nat) != 0,
{
    lemma_pow_positive(10, k as nat);
    let t = ten(k as nat);
    assert(m * t != 0) by (nonlinear_arith)
        requires
            m != 0,
            t > 0,
    ;
}

proof fn lemma_places_bound(n: int, d: int, j: nat, max: nat)
    ensures
        places(n, d, j, max) >= j,
        j <= max ==> places(n, d, j, max) <= max,
    decreases max - j,
{
    if !(j >= max || (n * ten(j)) % d == 0) {
        lemma_places_bound(n, d, j + 1, max);
    }
}

/// One step of long division.
proof fn lemma_next_digit(n: int, d: int, j: nat)
    requires
        d > 0,
        n >= 0,
    ensures
        (n * ten(j + 1)) / d == (n * ten(j)) / d * 10 + (n * ten(j)) % d * 10 / d,
        (n * ten(j + 1)) % d == ((n * ten(j)) % d * 10) % d,
        n * ten(j) >= 0,
{
    lemma_pow_adds(10, j, 1);
    lemma_pow1(10);
    lemma_pow_positive(10, j);
    let x = n * ten(j);
    assert(x >= 0) by (nonlinear_arith)
        requires
            n >= 0,
            ten(j) >= 0,
            x == n * ten(j),
    ;
    assert(n * ten(j + 1) == x * 10) by (nonlinear_arith)
        requires
            ten(j + 1) == ten(j) * 10,
            x == n * ten(j),
    ;
    lemma_fundamental_div_mod(x, d);
    let q = x / d;
    let r = x % d;
    lemma_fundamental_div_mod(r * 10, d);
    let q2 = r * 10 / d;
    let r2 = (r * 10) % d;
    assert(x * 10 == (q * 10 + q2) * d + r2) by (nonlinear_arith)
        requires
            x == d * q + r,
            r * 10 == d * q2 + r2,
    ;
    lemma_mod_bound(r * 10, d);
    lemma_fundamental_div_mod_converse(x * 10, d, q * 10 + q2, r2);
}

/// Asking for more places never makes the scaled quotient smaller.
proof fn lemma_quotient_grows(n: int, d: int, j: nat, k: nat)
    requires
        d > 0,
        n >= 0,
        j <= k,
    ensures
        (n * ten(j)) / d <= (n * ten(k)) / d,
        (n * ten(k)) / d <= rounded(n * ten(k), d),
{
    lemma_pow_increases(10, j, k);
    assert(n * ten(j) <= n * ten(k)) by (nonlinear_arith)
        requires
            n >= 0,
            ten(j) <= ten(k),
    ;
    lemma_div_is_ordered(n * ten(j), n * ten(k), d);
}

proof fn lemma_power_stays_none(a: Decimal, k: nat, n: nat)
    requires
        k <= n,
        decimal_power(a, k) is None,
    ensures
        decimal_power(a, n) is None,
    decreases n,
{
    if k < n {
        lemma_power_stays_none(a, k, (n - 1) as nat);
    }
}

} // verus!
