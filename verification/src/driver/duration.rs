//! Durations as they are shown.
//!
//! A duration is divided in double precision before it is rounded to the places that are
//! shown, so the last digit is that of the nearest double.

use vstd::prelude::*;
use vstd::string::*;

use crate::text::{cat2, cat3, cat4, nat_text, u128_text};

verus! {

/// The most nanoseconds that a duration holds: a 64-bit count of seconds, and a fraction.
pub const LONGEST: u128 = 18446744073709551615999999999;

/// A quotient rounded to the nearest whole number, to the even one where two are as near.
pub open spec fn half_even(n: int, d: int) -> int {
    let q = n / d;
    let r = n % d;
    if 2 * r < d {
        q
    } else if 2 * r > d {
        q + 1
    } else if q % 2 == 0 {
        q
    } else {
        q + 1
    }
}

/// A quotient doubled until it has at least the 53 bits of a double's mantissa, and by how
/// much.
pub open spec fn raised(num: int, den: int, up: int) -> (int, int)
    decreases
        if num < 0x10_0000_0000_0000 * den {
            0x10_0000_0000_0000 * den - num
        } else {
            0
        },
{
    if 0 < num < 0x10_0000_0000_0000 * den {
        raised(2 * num, den, 2 * up)
    } else {
        (num, up)
    }
}

/// A quotient halved until it has at most 53 bits, and by how much.
pub open spec fn lowered(num: int, den: int, down: int) -> (int, int)
    decreases num - den,
{
    if den > 0 && num >= 0x20_0000_0000_0000 * den {
        lowered(num, 2 * den, 2 * down)
    } else {
        (den, down)
    }
}

/// The double nearest to a quotient: a mantissa, what to divide it by and what to multiply
/// it with.
pub open spec fn nearest_double(n: int, d: int) -> (int, int, int) {
    let (num, up) = raised(n, d, 1);
    let (den, down) = lowered(num, d, 1);
    (half_even(num, den), up, down)
}

/// A whole number as a double.
pub open spec fn as_double(n: int) -> int {
    let (m, up, down) = nearest_double(n, 1);
    m * down / up
}

/// A count of nanoseconds in a larger unit, rounded to so many parts of it.
pub open spec fn parts_shown(ns: int, unit: int, parts: int) -> int {
    let (m, up, down) = nearest_double(as_double(ns), unit);
    half_even(m * parts * down, up)
}

/// A duration as it is shown. Sub-millisecond work is common, so microseconds matter.
pub open spec fn duration_text(ns: int) -> Seq<char> {
    if ns < 1000 {
        nat_text(ns as nat) + "ns"@
    } else if ns < 1000000 {
        tenths_text(parts_shown(ns, 1000, 10)) + "µs"@
    } else if ns < 1000000000 {
        tenths_text(parts_shown(ns, 1000000, 10)) + "ms"@
    } else {
        hundredths_text(parts_shown(ns, 1000000000, 100)) + "s"@
    }
}

pub open spec fn tenths_text(v: int) -> Seq<char> {
    nat_text((v / 10) as nat) + "."@ + nat_text((v % 10) as nat)
}

pub open spec fn hundredths_text(v: int) -> Seq<char> {
    nat_text((v / 100) as nat) + "."@ + nat_text((v % 100 / 10) as nat) + nat_text((v % 10) as nat)
}

fn round_half_even(n: u128, d: u128) -> (r: u128)
    requires
        0 < d <= u128::MAX / 2,
        n < u128::MAX,
    ensures
        r == half_even(n as int, d as int),
        r <= n + 1,
{
    let q: u128 = n / d;
    let rest: u128 = n % d;
    proof {
        vstd::arithmetic::div_mod::lemma_div_is_ordered_by_denominator(n as int, 1, d as int);
        vstd::arithmetic::div_mod::lemma_mod_bound(n as int, d as int);
    }
    if 2 * rest < d {
        q
    } else if 2 * rest > d {
        q + 1
    } else if q % 2 == 0 {
        q
    } else {
        q + 1
    }
}

/// A mantissa, what to divide it by and what to multiply it with.
struct Double {
    mantissa: u128,
    up: u128,
    down: u128,
}

fn nearest(n: u128, d: u128) -> (r: Double)
    requires
        0 < n <= 0x1_0000_0000_0000_0000_0000_0000,
        0 < d <= 1000000000,
    ensures
        (r.mantissa as int, r.up as int, r.down as int) == nearest_double(n as int, d as int),
        0x10_0000_0000_0000 <= r.mantissa <= 0x20_0000_0000_0000,
        d == 1 && r.down == 1 ==> r.mantissa == n * r.up,
        0 < r.up <= 0x1_0000_0000_0000_0000_0000_0000,
        0 < r.down <= 0x1_0000_0000_0000_0000_0000_0000,
        r.down > 1 ==> r.up == 1 && r.down * 0x10_0000_0000_0000 <= n,
{
    let mut num: u128 = n;
    let mut up: u128 = 1;
    while num < 0x10_0000_0000_0000 * d
        invariant
            0 < d <= 1000000000,
            0 < n <= 0x1_0000_0000_0000_0000_0000_0000,
            0 < up,
            num == n * up,
            up <= num <= 0x1_0000_0000_0000_0000_0000_0000,
            up > 1 ==> num < 0x20_0000_0000_0000 * d,
            raised(n as int, d as int, 1) == raised(num as int, d as int, up as int),
        decreases
            if num < 0x10_0000_0000_0000 * d {
                0x10_0000_0000_0000 * d - num
            } else {
                0
            },
    {
        proof {
            assert(n * (2 * up) == 2 * (n * up)) by (nonlinear_arith);
        }
        num = num * 2;
        up = up * 2;
    }
    let mut den: u128 = d;
    let mut down: u128 = 1;
    while num >= 0x20_0000_0000_0000 * den
        invariant
            0 < d <= den <= 0x1_0000_0000_0000_0000_0000_0000,
            0 < down <= den,
            num <= 0x1_0000_0000_0000_0000_0000_0000,
            num >= 0x10_0000_0000_0000 * d,
            up > 1 ==> num < 0x20_0000_0000_0000 * d,
            den == d * down,
            0x10_0000_0000_0000 * den <= num,
            lowered(num as int, d as int, 1) == lowered(num as int, den as int, down as int),
        decreases num - den,
    {
        proof {
            assert(d * (2 * down) == 2 * (d * down)) by (nonlinear_arith);
        }
        den = den * 2;
        down = down * 2;
    }
    let mantissa: u128 = round_half_even(num, den);
    proof {
        let q = num as int / den as int;
        assert(q < 0x20_0000_0000_0000) by (nonlinear_arith)
            requires
                q == num as int / den as int,
                num < 0x20_0000_0000_0000 * den,
                den > 0,
        ;
        assert(q >= 0x10_0000_0000_0000) by (nonlinear_arith)
            requires
                q == num as int / den as int,
                num >= 0x10_0000_0000_0000 * den,
                den > 0,
        ;
        assert(down * 0x10_0000_0000_0000 <= den * 0x10_0000_0000_0000) by (nonlinear_arith)
            requires
                down <= den,
        ;
        if d == 1 && down == 1 {
            assert(d * down == 1);
            assert(num as int / 1 == num && num as int % 1 == 0);
        }
        if down > 1 {
            assert(den >= 2 * d) by (nonlinear_arith)
                requires
                    den == d * down,
                    down > 1,
                    d > 0,
            ;
            assert(num >= 0x20_0000_0000_0000 * d);
            assert(up <= 1);
            assert(n * 1 == n);
        }
    }
    Double { mantissa, up, down }
}

/// What a double stands for as a whole number keeps its size.
proof fn lemma_as_double(n: int, m: int, up: int, down: int)
    requires
        0 < n <= LONGEST,
        0x10_0000_0000_0000 <= m <= 0x20_0000_0000_0000,
        0 < up,
        0 < down,
        down == 1 ==> m == n * up,
        down > 1 ==> up == 1 && down * 0x10_0000_0000_0000 <= n,
    ensures
        0 < m * down <= u128::MAX,
        0 < m * down / up <= 0x1_0000_0000_0000_0000_0000_0000,
{
    if down == 1 {
        assert((n * up) / up == n) by (nonlinear_arith)
            requires
                up > 0,
        ;
    } else {
        assert(m * down <= 2 * (down * 0x10_0000_0000_0000)) by (nonlinear_arith)
            requires
                m <= 0x20_0000_0000_0000,
                down > 0,
        ;
        assert(m * down > 0) by (nonlinear_arith)
            requires
                m > 0,
                down > 0,
        ;
        assert((m * down) / 1 == m * down);
    }
}

proof fn lemma_product_bound(m: int, parts: int, down: int, n: int)
    requires
        0 < m <= 0x20_0000_0000_0000,
        0 < parts <= 100,
        0 < down,
        0 < n <= 0x1_0000_0000_0000_0000_0000_0000,
        down > 1 ==> down * 0x10_0000_0000_0000 <= n,
    ensures
        0 < m * parts,
        m * parts <= (100 * 0x20_0000_0000_0000),
        0 < m * parts * down < u128::MAX,
{
    assert(0 < m * parts <= 0x20_0000_0000_0000 * 100) by (nonlinear_arith)
        requires
            0 < m <= 0x20_0000_0000_0000,
            0 < parts <= 100,
    ;
    let p = m * parts;
    let most = 17592186044416int;
    assert(down <= most) by {
        if down > 1 {
            assert(down * 0x10_0000_0000_0000 <= most * 0x10_0000_0000_0000);
        }
    }
    assert(0 < p * down <= (100 * 0x20_0000_0000_0000) * most) by (nonlinear_arith)
        requires
            0 < p <= (100 * 0x20_0000_0000_0000),
            0 < down <= most,
    ;
}

fn whole_double(n: u128) -> (r: u128)
    requires
        0 < n <= LONGEST,
    ensures
        r == as_double(n as int),
        0 < r <= 0x1_0000_0000_0000_0000_0000_0000,
{
    let x: Double = nearest(n, 1);
    proof {
        lemma_as_double(n as int, x.mantissa as int, x.up as int, x.down as int);
    }
    x.mantissa * x.down / x.up
}

/// A count of nanoseconds in a larger unit, rounded to so many parts of it.
fn rounded_parts(ns: u128, unit: u128, parts: u128) -> (r: u128)
    requires
        0 < ns <= LONGEST,
        0 < unit <= 1000000000,
        0 < parts <= 100,
    ensures
        r == parts_shown(ns as int, unit as int, parts as int),
{
    let n: u128 = whole_double(ns);
    let x: Double = nearest(n, unit);
    proof {
        lemma_product_bound(x.mantissa as int, parts as int, x.down as int, n as int);
    }
    round_half_even(x.mantissa * parts * x.down, x.up)
}

/// Human-readable durations, from nanoseconds.
pub fn format_duration(ns: u128) -> (r: String)
    requires
        ns <= LONGEST,
    ensures
        r@ == duration_text(ns as int),
{
    if ns < 1000 {
        return cat2(u128_text(ns).as_str(), "ns");
    }
    if ns < 1000000000 {
        let (unit, name): (u128, &str) = if ns < 1000000 {
            (1000, "µs")
        } else {
            (1000000, "ms")
        };
        let v: u128 = rounded_parts(ns, unit, 10);
        return cat4(u128_text(v / 10).as_str(), ".", u128_text(v % 10).as_str(), name);
    }
    let v: u128 = rounded_parts(ns, 1000000000, 100);
    let head: String = cat3(u128_text(v / 100).as_str(), ".", u128_text(v % 100 / 10).as_str());
    cat3(head.as_str(), u128_text(v % 10).as_str(), "s")
}

/// A quotient is rounded to the nearest whole number, to an even one where two are as near.
pub proof fn rounding_is_to_the_nearest(n: int, d: int)
    requires
        d > 0,
    ensures
        -d <= 2 * (half_even(n, d) * d - n) <= d,
        2 * (half_even(n, d) * d - n) == d || 2 * (half_even(n, d) * d - n) == -d ==> half_even(n, d) % 2 == 0,
{
    vstd::arithmetic::div_mod::lemma_fundamental_div_mod(n, d);
    vstd::arithmetic::div_mod::lemma_mod_bound(n, d);
    let q = n / d;
    vstd::arithmetic::mul::lemma_mul_is_commutative(d, q);
    vstd::arithmetic::mul::lemma_mul_is_distributive_add_other_way(d, q, 1);
}

/// Below a microsecond a duration is shown as it is, in nanoseconds; above, in the largest
/// unit of which there is one.
pub proof fn a_duration_is_shown_in_its_unit(ns: int)
    requires
        0 <= ns,
    ensures
        ns < 1000 ==> duration_text(ns) == nat_text(ns as nat) + "ns"@,
        1000 <= ns < 1000000 ==> duration_text(ns).len() >= 2 && duration_text(ns).subrange(
            duration_text(ns).len() - 2,
            duration_text(ns).len() as int,
        ) == "µs"@,
        1000000 <= ns < 1000000000 ==> duration_text(ns).len() >= 2 && duration_text(ns).subrange(
            duration_text(ns).len() - 2,
            duration_text(ns).len() as int,
        ) == "ms"@,
        1000000000 <= ns ==> duration_text(ns).len() >= 1 && duration_text(ns).last() == 's',
{
    reveal_strlit("µs");
    reveal_strlit("ms");
    reveal_strlit("s");
    let t = duration_text(ns);
    if 1000 <= ns < 1000000 {
        assert(t.subrange(t.len() - 2, t.len() as int) =~= "µs"@);
    } else if 1000000 <= ns < 1000000000 {
        assert(t.subrange(t.len() - 2, t.len() as int) =~= "ms"@);
    }
}

} // verus!
