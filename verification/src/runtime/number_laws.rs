//! What compiled arithmetic comes to, said of the numbers that cells hold.

use vstd::prelude::*;

use crate::ast::BinOp;
use crate::codegen::steps::arithmetic_tag;
use crate::eval::decimal::{aligned, decimal_product, larger, ten, Decimal};
use crate::eval::laws::{decimal_product_is_exact, decimal_value, lemma_aligned_values, normal_keeps_the_value};
use crate::eval::number_laws::{lemma_euclid, lemma_whole_decimal, lemma_zero_decimal, number, times, to_the};
use crate::eval::ops::RequestView;
use crate::runtime::array::CellView;
use crate::runtime::exact::{held, steady_power, whole_of, AhpclDecimal, HaltView};
use crate::runtime::laws::value_held;
use crate::runtime::num::cell_arith;

verus! {

/// What is left of a dividend at a common scale.
#[verifier::spinoff_prover]
proof fn lemma_left(x: int, y: int, t: real)
    requires
        y != 0,
        t > 0 as real,
    ensures
        ({
            let a = x as real / t;
            let b = y as real / t;
            let left = (x % y) as real / t;
            &&& a == b * ((x / y) as real) + left
            &&& 0 as real <= left
            &&& left < b || left < -b
        }),
{
    lemma_euclid(x, y);
    let q = x / y;
    let r = x % y;
    let rx = x as real;
    let ry = y as real;
    let rq = q as real;
    let rr = r as real;
    assert((y * q) as real == ry * rq) by (nonlinear_arith)
        requires
            ry == y as real,
            rq == q as real,
    ;
    let a = rx / t;
    let b = ry / t;
    let l = rr / t;
    assert(a * t == rx) by (nonlinear_arith)
        requires
            a == rx / t,
            t > 0 as real,
    ;
    assert(b * t == ry) by (nonlinear_arith)
        requires
            b == ry / t,
            t > 0 as real,
    ;
    assert(l * t == rr) by (nonlinear_arith)
        requires
            l == rr / t,
            t > 0 as real,
    ;
    assert((b * rq + l) * t == ry * rq + rr) by (nonlinear_arith)
        requires
            b * t == ry,
            l * t == rr,
    ;
    let c = b * rq + l;
    assert(a == c) by (nonlinear_arith)
        requires
            a * t == c * t,
            t > 0 as real,
    ;
    assert(0 as real <= l) by (nonlinear_arith)
        requires
            l * t == rr,
            rr >= 0 as real,
            t > 0 as real,
    ;
    if r < y {
        assert(l < b) by (nonlinear_arith)
            requires
                l * t == rr,
                b * t == ry,
                rr < ry,
                t > 0 as real,
        ;
    } else {
        assert(l < -b) by (nonlinear_arith)
            requires
                l * t == rr,
                b * t == ry,
                rr < -ry,
                t > 0 as real,
        ;
    }
}

/// Compiled, a whole quotient of decimals leaves a remainder that is never below zero nor as
/// large as the divisor, and a remainder is what it leaves.
pub proof fn compiled_quotients_leave_remainders(a: AhpclDecimal, b: AhpclDecimal)
    ensures
        cell_arith(arithmetic_tag(BinOp::IntDiv)->0, CellView::Deci(a), CellView::Deci(b)) matches Ok(q) ==> {
            let y = decimal_value(held(b));
            let left = decimal_value(held(a)) - y * number(value_held(q));
            0 as real <= left && (left < y || left < -y)
        },
        cell_arith(arithmetic_tag(BinOp::Mod)->0, CellView::Deci(a), CellView::Deci(b)) matches Ok(r) ==> {
            let y = decimal_value(held(b));
            let left = number(value_held(r));
            &&& 0 as real <= left && (left < y || left < -y)
            &&& exists|q: int| decimal_value(held(a)) == #[trigger] times(q, y) + left
        },
        b.mantissa == 0 ==> cell_arith(arithmetic_tag(BinOp::IntDiv)->0, CellView::Deci(a), CellView::Deci(b)) is Err,
        b.mantissa == 0 ==> cell_arith(arithmetic_tag(BinOp::Mod)->0, CellView::Deci(a), CellView::Deci(b)) is Err,
{
    reveal(cell_arith);
    let p = held(a);
    let o = held(b);
    if b.mantissa != 0 {
        if let Some((x, y)) = aligned(p, o) {
            lemma_aligned_values(p, o);
            lemma_zero_decimal(o);
            let s = larger(p.scale as int, o.scale as int);
            let t = ten(s as nat) as real;
            if y == 0 {
                assert(0 as real / t == 0 as real) by (nonlinear_arith)
                    requires
                        t > 0 as real,
                ;
            }
            lemma_left(x, y, t);
            let q = x / y;
            if crate::text::fits(q) {
                lemma_whole_decimal(q as i128);
                normal_keeps_the_value(Decimal { mantissa: q as i128, scale: 0 });
            }
            if crate::text::fits(x % y) {
                normal_keeps_the_value(Decimal { mantissa: (x % y) as i128, scale: s as u32 });
            }
            let d = decimal_value(o);
            assert(times(q, d) == d * (q as real));
        }
    }
}

proof fn lemma_steady_power(a: Decimal, n: nat)
    ensures
        steady_power(a, n) matches Some(r) ==> decimal_value(r) == to_the(decimal_value(a), n),
    decreases n,
{
    if n == 0 {
        lemma_whole_decimal(1);
    } else {
        lemma_steady_power(a, (n - 1) as nat);
        if let Some(p) = steady_power(a, (n - 1) as nat) {
            decimal_product_is_exact(p, a);
            if let Some(q) = decimal_product(p, a) {
                normal_keeps_the_value(q);
            }
        }
    }
}

/// Compiled, a whole power of a decimal is the number multiplied by itself; any other power is
/// asked for, of the numbers as they are.
pub proof fn compiled_powers_are_repeated_products(a: AhpclDecimal, b: AhpclDecimal)
    ensures
        whole_of(held(b)) matches Some(n) && 0 <= n <= u32::MAX ==> (cell_arith(
            arithmetic_tag(BinOp::Pow)->0,
            CellView::Deci(a),
            CellView::Deci(b),
        ) matches Ok(r) ==> number(value_held(r)) == to_the(decimal_value(held(a)), whole_of(held(b))->0 as nat)),
        whole_of(held(b)) is None ==> (cell_arith(arithmetic_tag(BinOp::Pow)->0, CellView::Deci(a), CellView::Deci(b)) matches Err(
            HaltView::Ask(RequestView::Power { base, exponent, .. }),
        ) && base == held(a) && exponent == held(b)),
{
    reveal(cell_arith);
    if let Some(n) = whole_of(held(b)) {
        if 0 <= n <= u32::MAX {
            lemma_steady_power(held(a), n as nat);
            if let Some(r) = steady_power(held(a), n as nat) {
                normal_keeps_the_value(r);
            }
        }
    }
}

} // verus!
