//! Ranges are no wider than they have to be.

use vstd::prelude::*;

use crate::ast::{BinOp, Expr, ExprKind, UnOp, VarDecl};
use crate::eval::parse::parsed_int;
use crate::sema::analysis::{after_bindings, before_binding, binding_range, expr_range, Ranges};
use crate::sema::interval::{
    met, only_value, range_difference, range_in, range_negation, range_product, range_sum, widened, within,
    Interval,
};
use crate::text::fits;

verus! {

/// A range with numbers in it.
pub open spec fn held(a: Interval) -> bool {
    a.lo is Some && a.hi is Some ==> a.lo->0 <= a.hi->0
}

/// An end of a range is a number that is really reached, and an end that can be written is
/// not left open.
pub open spec fn reached_by(end: Option<i128>, v: int) -> bool {
    fits(v) ==> end == Some(v as i128)
}

/// The ends of a sum, a difference and a product are those of the ends they are made of.
pub proof fn ends_are_reached(a: Interval, b: Interval, x: int, y: int)
    requires
        a.lo is Some && a.hi is Some && b.lo is Some && b.hi is Some,
        held(a),
        held(b),
    ensures
        reached_by(range_sum(a, b).lo, a.lo->0 + b.lo->0),
        reached_by(range_sum(a, b).hi, a.hi->0 + b.hi->0),
        reached_by(range_difference(a, b).lo, a.lo->0 - b.hi->0),
        reached_by(range_difference(a, b).hi, a.hi->0 - b.lo->0),
        reached_by(range_negation(a).lo, -a.hi->0),
        reached_by(range_negation(a).hi, -a.lo->0),
        ({
            let p = range_product(a, b);
            let (al, ah, bl, bh) = (a.lo->0 as int, a.hi->0 as int, b.lo->0 as int, b.hi->0 as int);
            fits(al * bl) && fits(al * bh) && fits(ah * bl) && fits(ah * bh) ==> {
                &&& p.lo matches Some(l) && (l == al * bl || l == al * bh || l == ah * bl || l == ah * bh)
                &&& p.hi matches Some(h) && (h == al * bl || h == al * bh || h == ah * bl || h == ah * bh)
            }
        }),
{
}

/// What two ranges both allow is exactly what is in both.
pub proof fn a_meeting_is_exact(a: Interval, b: Interval, v: int)
    ensures
        within(met(a, b), v) <==> within(a, v) && within(b, v),
{
}

/// Only an end that moved is widened.
pub proof fn widening_keeps_steady_ends(a: Interval, next: Interval)
    ensures
        a.lo == next.lo ==> widened(a, next).lo == a.lo,
        a.hi == next.hi ==> widened(a, next).hi == a.hi,
{
}

/// What a calculation on written numbers comes to, where every step of it fits.
pub open spec fn worth(e: Expr) -> Option<int>
    decreases e,
{
    match e.kind {
        ExprKind::Math(inner) => worth(*inner),
        ExprKind::Number(t) => parsed_int(t@, 10),
        ExprKind::Literal(t) => parsed_int(t@, 10),
        ExprKind::Unary { op, operand } => match worth(*operand) {
            Some(x) => if op == UnOp::Neg && fits(-x) {
                Some(-x)
            } else {
                None
            },
            None => None,
        },
        ExprKind::Binary { op, lhs, rhs } => match (worth(*lhs), worth(*rhs)) {
            (Some(x), Some(y)) => {
                let v = if op == BinOp::Add {
                    x + y
                } else if op == BinOp::Sub {
                    x - y
                } else {
                    x * y
                };
                if (op == BinOp::Add || op == BinOp::Sub || op == BinOp::Mul) && fits(v) {
                    Some(v)
                } else {
                    None
                }
            },
            _ => None,
        },
        _ => None,
    }
}

/// Sums, differences, products and opposites of known numbers are known: analysis gives the
/// one number that they come to.
pub proof fn a_calculation_on_known_numbers_is_known(e: Expr, s: Ranges)
    ensures
        worth(e) matches Some(v) ==> fits(v) && expr_range(e, s) == (Interval { lo: Some(v as i128), hi: Some(v as i128) }) && only_value(
            expr_range(e, s),
        ) == Some(v as i128),
    decreases e,
{
    match e.kind {
        ExprKind::Math(inner) => a_calculation_on_known_numbers_is_known(*inner, s),
        ExprKind::Unary { op, operand } => a_calculation_on_known_numbers_is_known(*operand, s),
        ExprKind::Binary { op, lhs, rhs } => {
            a_calculation_on_known_numbers_is_known(*lhs, s);
            a_calculation_on_known_numbers_is_known(*rhs, s);
        },
        _ => {},
    }
}

/// A variable is known to be in the range of the value it was declared with.
pub proof fn a_declaration_is_known_as_its_value(fs: Seq<Seq<char>>, s: Ranges, v: VarDecl, n: nat)
    requires
        0 < n <= v.bindings@.len(),
    ensures
        ({
            let b = v.bindings@[n - 1];
            range_in(after_bindings(fs, s, v, n), b.name@) == binding_range(
                b,
                before_binding(fs, after_bindings(fs, s, v, (n - 1) as nat), b),
            )
        }),
{
}

} // verus!
