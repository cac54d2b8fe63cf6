//! What types expressions have, said of the values they can have.

use vstd::arithmetic::div_mod::*;
use vstd::arithmetic::mul::*;
use vstd::prelude::*;

use crate::ast::{BinOp, Dim, Expr, ExprKind, Selector, UnOp};
use crate::diagnostics::position::Span;
use crate::eval::ops::is_comparison;
use crate::eval::select::in_range;
use crate::sema::scope::found;
use crate::sema::types::{
    base_fits, keeps_sign, rung, scalar_type, shapes_agree, sign_algebra_is_sound, Base, TypeView,
};
use crate::sema::typing::{
    arithmetic_type, array_operator_type, array_type, call_type, chain_selected, count_between, expr_type,
    is_logical, run_selected, selector_checked, unary_type, Findings,
};

verus! {

/// The type of arithmetic holds both operands and nothing wider; of its sign, every result
/// keeps what it promises; an array on either side makes the result one.
pub proof fn arithmetic_has_the_narrowest_type(
    s: Findings,
    op: BinOp,
    a: TypeView,
    b: TypeView,
    a_dims: Option<Seq<Dim>>,
    b_dims: Option<Seq<Dim>>,
    span: Span,
    expected: Option<TypeView>,
    x: int,
    y: int,
)
    requires
        keeps_sign(a.sign, x),
        keeps_sign(b.sign, y),
    ensures
        arithmetic_type(s, op, a, b, a_dims, b_dims, span, expected).1 matches Some(t) ==> {
            &&& rung(a.base) is Some && rung(b.base) is Some
            &&& op != BinOp::Div && op != BinOp::IntDiv ==> base_fits(a.base, t.base) && base_fits(b.base, t.base) && (t.base == a.base
                || t.base == b.base)
            &&& op == BinOp::IntDiv ==> t.base == Base::Int
            &&& op == BinOp::Div ==> expected is Some && t.base == expected->0.base && t.base != Base::Int && t.base != Base::Num
            &&& op == BinOp::Add ==> keeps_sign(t.sign, x + y)
            &&& op == BinOp::Sub ==> t.sign is None
            &&& op == BinOp::Mod ==> t.sign is None
            &&& op == BinOp::Mul ==> keeps_sign(t.sign, x * y)
            &&& op == BinOp::Mul && a.sign is Some && b.sign is Some ==> t.sign is Some
            &&& op == BinOp::Add && a.sign is Some && a.sign == b.sign ==> t.sign == a.sign
            &&& a_dims is Some ==> t.shape == a_dims
            &&& a_dims is None ==> t.shape == b_dims
            &&& a_dims is Some && b_dims is Some ==> shapes_agree(a_dims->0, b_dims->0)
        },
{
    sign_algebra_is_sound(a.sign, b.sign, x, y);
}

/// Comparisons and logic come to truth values, rounding to whole numbers, and a name to what
/// it was declared as.
pub proof fn operators_have_the_type_of_what_they_come_to(s: Findings, e: Expr, expected: Option<TypeView>)
    ensures
        e.kind matches ExprKind::Binary { op, .. } ==> (is_comparison(op) || is_logical(op) ==> (expr_type(s, e, expected).1 matches Some(t)
            && t.base == Base::Bool && t.sign is None)),
        e.kind matches ExprKind::Unary { op, .. } ==> {
            &&& op == UnOp::Not ==> (expr_type(s, e, expected).1 matches Some(t) && t == scalar_type(Base::Bool))
            &&& op == UnOp::Floor || op == UnOp::Ceil ==> (expr_type(s, e, expected).1 matches Some(t) ==> t.shape is None && t.sign is None && (
            t.base == Base::Int || rung(t.base) is None))
        },
        e.kind matches ExprKind::Str(_) ==> expr_type(s, e, expected).1 == Some(scalar_type(Base::Str)),
        e.kind matches ExprKind::Ref { name, selectors } ==> (selectors@.len() == 0 ==> expr_type(s, e, expected).1 == (match found(
            s.scopes,
            name@,
        ) {
            Some(v) => Some(v.ty),
            None => None,
        })),
        e.kind matches ExprKind::Call { name, .. } ==> expr_type(s, e, expected).1 == (if s.scopes.functions.dom().contains(name@) {
            Some(s.scopes.functions[name@].returns)
        } else {
            None
        }),
{
    reveal_with_fuel(expr_type, 2);
    reveal_with_fuel(unary_type, 2);
    reveal_with_fuel(call_type, 2);
    reveal_with_fuel(chain_selected, 2);
    reveal_with_fuel(run_selected, 2);
    if let ExprKind::Ref { name, selectors } = e.kind {
        if selectors@.len() == 0 {
            if let Some(v) = found(s.scopes, name@) {
                assert(run_selected(s, v.ty, selectors, 0, 0, e.span) == (s, Some(v.ty)));
                assert(chain_selected(s, v.ty, selectors, 0, 0, e.span) == (s, Some(v.ty)));
                assert(expr_type(s, e, expected) == chain_selected(s, v.ty, selectors, 0, 0, e.span));
            }
        }
    }
}

/// The opposite of a number has the opposite sign, and an absolute value promises none.
pub proof fn opposites_turn_promises_round(s: Findings, operand: Expr, span: Span, expected: Option<TypeView>, x: int)
    ensures
        expr_type(s, operand, expected).1 matches Some(t) ==> {
            &&& unary_type(s, UnOp::Neg, operand, span, expected).1 matches Some(r) && r.base == t.base && r.shape == t.shape && (keeps_sign(
                t.sign,
                x,
            ) <==> keeps_sign(r.sign, -x))
            &&& unary_type(s, UnOp::Abs, operand, span, expected).1 matches Some(r) && r.base == t.base && r.shape == t.shape && r.sign is None
        },
{
}

/// The shapes that the array operators come to.
pub proof fn array_operators_have_their_shapes(s: Findings, a: TypeView, b: TypeView, span: Span)
    requires
        a.shape is Some,
        b.shape is Some,
    ensures
        array_operator_type(s, BinOp::Tensor, a, b, span).1 matches Some(t) ==> t.shape == Some(a.shape->0 + b.shape->0),
        array_operator_type(s, BinOp::Hadamard, a, b, span).1 matches Some(t) ==> t.shape == a.shape && shapes_agree(a.shape->0, b.shape->0),
        array_operator_type(s, BinOp::Cross, a, b, span).1 matches Some(t) ==> t.shape == a.shape && a.shape->0.len() == 1
            && a.shape->0[0] == Dim::Known(3),
        array_operator_type(s, BinOp::Dot, a, b, span).1 matches Some(t) ==> {
            let x = a.shape->0;
            let y = b.shape->0;
            &&& x.len() == 1 && y.len() == 1 ==> t.shape is None
            &&& x.len() == 2 && y.len() == 1 ==> t.shape == Some(seq![x[0]])
            &&& x.len() == 1 && y.len() == 2 ==> t.shape == Some(seq![y[1]])
            &&& x.len() == 2 && y.len() == 2 ==> t.shape == Some(seq![x[0], y[1]])
        },
        array_operator_type(s, BinOp::Dot, a, b, span).1 matches Some(t) ==> base_fits(a.base, t.base) && base_fits(b.base, t.base),
{
}

/// An array literal has as many elements as are written, in front of the shape of its rows.
pub proof fn a_literal_has_the_shape_it_is_written_in(n: nat, inner: Option<Seq<Dim>>, expected: Option<TypeView>)
    requires
        n <= u64::MAX,
    ensures
        array_type(n, inner, expected).shape matches Some(dims) && dims.len() == 1 + (if inner is Some {
            inner->0.len()
        } else {
            0
        }) && dims[0] == Dim::Known(n as u64) && (inner is Some ==> dims.skip(1) == inner->0),
{
    if let Some(d) = inner {
        assert((seq![Dim::Known(n as u64)] + d).skip(1) =~= d);
    }
}

/// A range of whole numbers has as many as it takes steps to pass its end.
pub proof fn a_range_counts_its_steps(from: int, to: int, step: int, k: int)
    requires
        step != 0,
        k >= 0,
    ensures
        in_range(from + k * step, to, step) <==> k < count_between(from, to, step),
{
    if step > 0 {
        let d = to - from;
        if d >= 0 {
            lemma_fundamental_div_mod(d, step);
            lemma_mod_bound(d, step);
            let q = d / step;
            if k <= q {
                lemma_mul_inequality(k, q, step);
                lemma_mul_is_commutative(step, q);
            } else {
                lemma_mul_inequality(q + 1, k, step);
                lemma_mul_is_distributive_add_other_way(step, q, 1);
                lemma_mul_is_commutative(step, q);
            }
        } else {
            lemma_mul_nonnegative(k, step);
        }
    } else {
        let n = -step;
        let d = from - to;
        assert(k * step == -(k * n)) by {
            lemma_mul_unary_negation(k, n);
        }
        if d >= 0 {
            lemma_fundamental_div_mod(d, n);
            lemma_mod_bound(d, n);
            let q = d / n;
            if k <= q {
                lemma_mul_inequality(k, q, n);
                lemma_mul_is_commutative(n, q);
            } else {
                lemma_mul_inequality(q + 1, k, n);
                lemma_mul_is_distributive_add_other_way(n, q, 1);
                lemma_mul_is_commutative(n, q);
            }
        } else {
            lemma_mul_nonnegative(k, n);
        }
    }
}

/// One index takes a dimension away; several, or a range, or `:all;`, keep it.
pub proof fn one_index_takes_a_dimension_away(s: Findings, sel: Selector, dim: Dim)
    ensures
        sel matches Selector::Indices(items) ==> (items@.len() == 1 ==> selector_checked(s, sel, dim).1.len() == 0) && (1 < items@.len()
            <= u64::MAX ==> selector_checked(s, sel, dim).1 == seq![Dim::Known(items@.len() as u64)]),
        sel is All ==> selector_checked(s, sel, dim).1 == seq![dim],
        sel is Range ==> selector_checked(s, sel, dim).1.len() == 1,
{
    reveal_with_fuel(selector_checked, 2);
}

/// A type's name is read as the type, each name as another.
pub proof fn type_names_read_back(b: Base)
    ensures
        crate::sema::types::base_named(crate::sema::types::base_text(b)) == Some(b),
{
    reveal_strlit("num");
    reveal_strlit("rat");
    reveal_strlit("deci");
    reveal_strlit("int");
    reveal_strlit("infnum");
    reveal_strlit("∞num");
    reveal_strlit("str");
    reveal_strlit("nna");
    reveal_strlit("bool");
    reveal_strlit("none");
    assert("num"@.len() == 3 && "rat"@.len() == 3 && "int"@.len() == 3 && "str"@.len() == 3 && "nna"@.len() == 3);
    assert("deci"@.len() == 4 && "bool"@.len() == 4 && "none"@.len() == 4 && "∞num"@.len() == 4 && "infnum"@.len() == 6);
    assert("num"@[0] == 'n' && "num"@[1] == 'u' && "rat"@[0] == 'r' && "int"@[0] == 'i' && "str"@[0] == 's' && "nna"@[1] == 'n');
    assert("deci"@[0] == 'd' && "bool"@[0] == 'b' && "none"@[0] == 'n' && "∞num"@[0] == '∞');
}

/// Narrower numbers pass into wider ones and never the reverse; text and truth values pass
/// into nothing else.
pub proof fn narrower_numbers_pass_into_wider_ones(b: Base)
    ensures
        base_fits(Base::Int, Base::Deci) && base_fits(Base::Deci, Base::Rat) && base_fits(Base::Deci, Base::InfNum),
        base_fits(Base::Rat, Base::Num) && base_fits(Base::InfNum, Base::Num),
        !base_fits(Base::Deci, Base::Int) && !base_fits(Base::Rat, Base::Deci) && !base_fits(Base::InfNum, Base::Deci),
        !base_fits(Base::Num, Base::Rat) && !base_fits(Base::Num, Base::InfNum) && !base_fits(Base::Num, Base::Int),
        base_fits(b, Base::Str) <==> b == Base::Str,
        base_fits(Base::Str, b) <==> b == Base::Str,
        base_fits(b, Base::Bool) <==> b == Base::Bool,
        base_fits(Base::Bool, b) <==> b == Base::Bool,
{
}

/// A value fits where its own type is wanted, never where its shape or a sign it does not
/// promise is.
pub proof fn fitting_asks_for_shape_and_sign(a: TypeView, b: TypeView)
    ensures
        crate::sema::types::type_fits(a, b) ==> {
            &&& base_fits(a.base, b.base)
            &&& b.sign is Some ==> a.sign == b.sign
            &&& a.shape is Some <==> b.shape is Some
            &&& a.shape is Some ==> a.shape->0.len() == b.shape->0.len() && forall|d: int|
                #![trigger a.shape->0[d]]
                0 <= d < a.shape->0.len() ==> (a.shape->0[d] is Known && b.shape->0[d] is Known ==> a.shape->0[d] == b.shape->0[d])
        },
        a.base == b.base && a.sign == b.sign && a.shape is None && b.shape is None ==> crate::sema::types::type_fits(a, b),
{
    if a.shape is Some && b.shape is Some && crate::sema::types::type_fits(a, b) {
        assert forall|d: int| #![trigger a.shape->0[d]] 0 <= d < a.shape->0.len() implies (a.shape->0[d] is Known && b.shape->0[d] is Known ==> a.shape->0[d]
            == b.shape->0[d]) by {
            assert(crate::sema::types::dims_agree(a.shape->0[d], b.shape->0[d]));
        }
    }
}

} // verus!
