//! What a program that checks without an error is like: every name is known, every value fits
//! where it goes, every function hands back what it promises.

use vstd::prelude::*;

use crate::ast::{
    BinOp, Binding, ChangeStmt, ChangeTarget, Dim, Expr, ExprKind, FuncDecl, IfChain, LoopKind, LoopStmt,
    Precision, Program, Selector, Sign, Stmt, TypeRef, UnOp, VarDecl,
};
use crate::diagnostics::informer::InformerView;
use crate::diagnostics::position::Span;
use crate::eval::numeric::width_bounds;
use crate::eval::ops::is_comparison;
use crate::eval::parse::parsed_int;
use crate::eval::semantics::{bare, is_array_operator};
use crate::sema::scope::{found, FunctionView};
use crate::sema::types::{
    base_fits, dims_view, rung, scalar_type, shapes_agree, type_fits, written_type, Base, TypeView,
};
use crate::sema::typing::{
    all_hand_back, arguments_checked, arms_checked, binary_type, binding_checked, bindings_checked,
    body_checked, builtin_type, call_type, chain_selected, chain_type, condition_checked, constant_type,
    counter_type, declared, dims_selected, each_checked, element_of, expr_type, first_handback,
    function_checked, hands_back, has_else, has_point, initialised, inner_body, irrational_type, is_logical,
    kept_dims, literal_type, looks_numeric, looks_zero, loop_checked, must_fit, must_fit_parameter,
    naming_checked, numeric_or_decimal, optional_checked, parameters_declared, precision_checked,
    program_checked, rank_checked, reach_checked, restated_checked, row_checked, row_expectation,
    rows_checked, run_selected, scope_opened, second_expectation, selector_checked, shape_query_type,
    starting, statement_checked, target_checked, targets_checked, unary_type, unrefined, Findings,
};

verus! {

/// Nothing was reported in between.
pub open spec fn quiet(s: Findings, t: Findings) -> bool {
    t.errors == s.errors
}

pub open spec fn grown(s: Findings, t: Findings) -> bool {
    s.errors.is_prefix_of(t.errors)
}

// ── what is asked of each part ──────────────────────────────────────────────

/// A number is written as its context asks: without a fraction where it is whole, on the
/// promised side of zero, within the stated width.
pub open spec fn number_suits(text: Seq<char>, t: TypeView) -> bool {
    &&& rung(t.base) is Some
    &&& t.base == Base::Int ==> !has_point(text)
    &&& t.sign == Some(Sign::Positive) ==> !looks_zero(text) && !(text.len() > 0 && text[0] == '-')
    &&& t.sign == Some(Sign::Negative) ==> !looks_zero(text) && text.len() > 0 && text[0] == '-'
    &&& t.base == Base::Int && t.precision is Some ==> (t.precision->0 matches Precision::Bits(b) ==> (parsed_int(text, 10) matches Some(
        v,
    ) ==> width_bounds(b, t.sign).0 <= v <= width_bounds(b, t.sign).1))
}

pub open spec fn proper_literal(text: Seq<char>, expected: Option<TypeView>) -> bool {
    looks_numeric(text) ==> (expected matches Some(t) && number_suits(text, t))
}

/// Arrays that agree, one of them taking the place of both where the other is a single value.
pub open spec fn dims_agree_if_both(a: Option<Seq<Dim>>, b: Option<Seq<Dim>>) -> bool {
    a is Some && b is Some ==> shapes_agree(a->0, b->0)
}

pub open spec fn of_three(dims: Seq<Dim>) -> bool {
    dims == seq![Dim::Known(3)]
}

/// The last dimension of one array is the first of the other, as far as they are known.
pub open spec fn inner_dims_agree(x: Seq<Dim>, y: Seq<Dim>) -> bool {
    x.len() > 0 && y.len() > 0 && x.last() is Known && y[0] is Known ==> x.last() == y[0]
}

/// Whether an operator takes operands of two types.
pub open spec fn proper_operation(op: BinOp, lhs: Expr, a: Option<TypeView>, rhs: Expr, b: Option<TypeView>, expected: Option<TypeView>) -> bool {
    !is_comparison(op) && a is Some && b is Some ==> {
        let x = a->0;
        let y = b->0;
        if is_array_operator(op) {
            &&& x.shape is Some
            &&& y.shape is Some
            &&& op == BinOp::Dot ==> inner_dims_agree(x.shape->0, y.shape->0)
            &&& op == BinOp::Cross ==> of_three(x.shape->0) && of_three(y.shape->0)
            &&& op == BinOp::Hadamard ==> shapes_agree(x.shape->0, y.shape->0)
        } else {
            &&& rung(x.base) is Some
            &&& rung(y.base) is Some
            &&& op == BinOp::Div ==> (expected matches Some(t) && (t.base == Base::Rat || t.base == Base::Deci || t.base == Base::InfNum))
            &&& dims_agree_if_both(kept_dims(op, lhs, a), kept_dims(op, rhs, b))
        }
    }
}

/// A value can be stored: it fits, or only a sign promise is still to be verified.
pub open spec fn storable(got: TypeView, want: TypeView) -> bool {
    &&& base_fits(got.base, want.base)
    &&& got.shape is Some <==> want.shape is Some
    &&& dims_agree_if_both(got.shape, want.shape)
}

/// An array is not named a second time without a word on whether it is copied.
pub open spec fn named_once(want: TypeView, got: TypeView, value: Expr) -> bool {
    !(want.shape is Some && got.shape is Some && bare(value))
}

pub open spec fn precision_offered(t: TypeView) -> bool {
    t.precision matches Some(Precision::Bits(b)) ==> {
        &&& t.base != Base::InfNum
        &&& t.base == Base::Deci ==> b == 32 || b == 64 || b == 128
        &&& b == 8 || b == 16 || b == 32 || b == 64 || b == 128
    }
}

pub open spec fn rank_kept(ty_ref: TypeRef, t: TypeView) -> bool {
    ty_ref.rank is Some && t.shape is Some ==> (match ty_ref.rank->0 {
        crate::ast::Rank::Vector => t.shape->0.len() == 1,
        crate::ast::Rank::Matrix => t.shape->0.len() == 2,
        crate::ast::Rank::Tensor => t.shape->0.len() >= 3,
    })
}

/// Nothing stands behind a handback in the same block.
pub open spec fn all_reached(stmts: Seq<Stmt>) -> bool {
    forall|i: int| 0 <= i < stmts.len() - 1 ==> !((#[trigger] stmts[i]) is Handback)
}

pub open spec fn proper_bindings(s: Findings, v: VarDecl, i: nat) -> bool
    decreases v, v.bindings@.len() - i,
{
    i < v.bindings@.len() ==> proper_binding(s, v, v.bindings@[i as int]) && proper_bindings(
        binding_checked(s, v, v.bindings@[i as int]),
        v,
        i + 1,
    )
}

pub open spec fn proper_binding(s: Findings, v: VarDecl, b: Binding) -> bool
    decreases b, 0nat,
{
    written_type(v.ty, dims_view(b.shape), b.precision) matches Some(ty) ==> {
        &&& precision_offered(ty)
        &&& rank_kept(v.ty, ty)
        &&& b.value matches Some(value) && proper_expr(s, value, Some(ty)) && (expr_type(s, value, Some(ty)).1 matches Some(got) ==> storable(
            got,
            ty,
        ) && named_once(ty, got, value))
    }
}

pub open spec fn proper_targets(s: Findings, c: ChangeStmt, stated: TypeView, i: nat) -> bool
    decreases c, c.targets@.len() - i,
{
    i < c.targets@.len() ==> proper_target(s, c.targets@[i as int], stated) && proper_targets(
        target_checked(s, c, c.targets@[i as int], stated),
        c,
        stated,
        i + 1,
    )
}

/// What is changed is a variable, declared as the change says, and takes the value.
pub open spec fn proper_target(s: Findings, t: ChangeTarget, stated: TypeView) -> bool
    decreases t, 0nat,
{
    found(s.scopes, t.name@) matches Some(v) && {
        let want = if t.selectors@.len() == 0 {
            v.ty
        } else {
            TypeView { shape: None, ..v.ty }
        };
        &&& !v.read_only
        &&& stated.base == want.base
        &&& stated.sign == want.sign
        &&& proper_expr(s, t.value, Some(want))
        &&& expr_type(s, t.value, Some(want)).1 matches Some(got) ==> storable(got, want) && named_once(want, got, t.value)
    }
}

pub open spec fn proper_body(s: Findings, stmts: Vec<Stmt>, i: nat, want: Option<TypeView>) -> bool
    decreases stmts, stmts@.len() - i,
{
    i < stmts@.len() ==> proper_statement(s, stmts@[i as int], want) && proper_body(
        statement_checked(s, stmts@[i as int], want),
        stmts,
        i + 1,
        want,
    )
}

pub open spec fn proper_inner(s: Findings, stmts: Vec<Stmt>, want: Option<TypeView>) -> bool
    decreases stmts, stmts@.len() + 1,
{
    all_reached(stmts@) && proper_body(s, stmts, 0, want)
}

/// What a statement is like that is checked without an error, where `want` is what a handback
/// must produce.
pub open spec fn proper_statement(s: Findings, stmt: Stmt, want: Option<TypeView>) -> bool
    decreases stmt, 0nat,
{
    match stmt {
        Stmt::Var(v) => proper_bindings(s, v, 0),
        Stmt::Change(c) => written_type(c.ty, None, None) matches Some(stated) ==> proper_targets(s, c, stated, 0),
        Stmt::Func(f) => proper_function(s, f),
        Stmt::If(chain) => proper_chain(s, chain, None, want),
        Stmt::Loop(l) => proper_loop(s, l, want),
        Stmt::Print { args, .. } => proper_each(s, args, None, 0),
        Stmt::Handback { value, .. } => {
            &&& proper_expr(s, value, want)
            &&& want matches Some(w) ==> (expr_type(s, value, want).1 matches Some(got) ==> type_fits(got, w))
        },
        Stmt::Expr(e) => proper_expr(s, e, None),
    }
}

pub open spec fn proper_each(s: Findings, items: Vec<Expr>, expected: Option<TypeView>, i: nat) -> bool
    decreases items, items@.len() - i,
{
    i < items@.len() ==> proper_expr(s, items@[i as int], expected) && proper_each(
        expr_type(s, items@[i as int], expected).0,
        items,
        expected,
        i + 1,
    )
}

pub open spec fn params_kept(f: FuncDecl, n: nat) -> bool {
    forall|i: int|
        0 <= i < n ==> (written_type((#[trigger] f.params@[i]).ty, dims_view(f.params@[i].shape), f.params@[i].precision) matches Some(ty)
            ==> rank_kept(f.params@[i].ty, ty))
}

/// A function that promises a value has a body whose handbacks fit the promise, and hands back
/// on every path.
pub open spec fn proper_function(s: Findings, f: FuncDecl) -> bool
    decreases f, 0nat,
{
    written_type(f.returns, None, None) matches Some(result) ==> {
        let promised = result.base != Base::Nothing;
        &&& params_kept(f, f.params@.len())
        &&& proper_inner(
            parameters_declared(scope_opened(s), f, f.params@.len()),
            f.body,
            if promised {
                Some(result)
            } else {
                None
            },
        )
        &&& promised ==> hands_back(f.body, 0)
    }
}

pub open spec fn proper_condition(s: Findings, cond: Expr) -> bool
    decreases cond, 2nat,
{
    &&& proper_expr(s, cond, Some(scalar_type(Base::Bool)))
    &&& expr_type(s, cond, Some(scalar_type(Base::Bool))).1 matches Some(t) ==> t.base == Base::Bool
}

pub open spec fn proper_arms(s: Findings, chain: IfChain, want: Option<TypeView>, i: nat) -> bool
    decreases chain, chain.arms@.len() - i,
{
    i < chain.arms@.len() ==> {
        let arm = chain.arms@[i as int];
        let s1 = match arm.condition {
            Some(cond) => condition_checked(s, cond, false),
            None => s,
        };
        &&& arm.condition matches Some(cond) ==> proper_condition(s, cond)
        &&& proper_inner(scope_opened(s1), arm.body, want)
        &&& proper_arms(inner_body(scope_opened(s1), arm.body, want), chain, want, i + 1)
    }
}

/// A conditional used for its value hands one back whichever way it goes.
pub open spec fn proper_chain(s: Findings, chain: IfChain, expected: Option<TypeView>, outer: Option<TypeView>) -> bool
    decreases chain, chain.arms@.len() + 1,
{
    &&& proper_arms(
        s,
        chain,
        if expected is Some {
            expected
        } else {
            outer
        },
        0,
    )
    &&& expected is Some ==> chain.arms@.len() > 0 && all_hand_back(chain, 0) && has_else(chain)
}

pub open spec fn proper_loop(s: Findings, l: LoopStmt, want: Option<TypeView>) -> bool
    decreases l, 0nat,
{
    match l.kind {
        LoopKind::Counted { ty, var, var_span, range } => {
            let expected = Some(counter_type(ty));
            &&& proper_expr(scope_opened(s), range, expected)
            &&& proper_inner(
                declared(expr_type(scope_opened(s), range, expected).0, var@, counter_type(ty), var_span, true),
                l.body,
                want,
            )
        },
        LoopKind::While { condition } => {
            &&& proper_condition(scope_opened(s), condition)
            &&& proper_inner(condition_checked(scope_opened(s), condition, true), l.body, want)
        },
    }
}

/// What an expression is like that is checked without an error.
pub open spec fn proper_expr(s: Findings, e: Expr, expected: Option<TypeView>) -> bool
    decreases e, 1nat,
{
    match e.kind {
        ExprKind::Literal(text) => proper_literal(text@, expected),
        ExprKind::Number(text) => proper_literal(text@, expected),
        ExprKind::Str(_) => true,
        ExprKind::Option { .. } => true,
        ExprKind::Constant(_) => expected matches Some(t) ==> (rung(t.base) is Some ==> (t.precision matches Some(Precision::Digits(n))
            ==> n <= 36)),
        ExprKind::Ref { name, selectors } => found(s.scopes, name@) matches Some(v) && proper_chain_of(s, v.ty, selectors, 0, 0, e.span),
        ExprKind::Math(inner) => proper_expr(s, *inner, expected),
        ExprKind::Binary { op, lhs, rhs } => if is_logical(op) {
            let want = Some(scalar_type(Base::Bool));
            proper_expr(s, *lhs, want) && proper_expr(expr_type(s, *lhs, want).0, *rhs, want)
        } else {
            let first = if is_comparison(op) {
                None
            } else {
                unrefined(expected)
            };
            let (s1, a) = expr_type(s, *lhs, first);
            let second = second_expectation(op, a, expected);
            &&& proper_expr(s, *lhs, first)
            &&& proper_expr(s1, *rhs, second)
            &&& proper_operation(op, *lhs, a, *rhs, expr_type(s1, *rhs, second).1, expected)
        },
        ExprKind::Unary { op, operand } => proper_unary(s, op, *operand, expected),
        ExprKind::Call { name, args } => {
            &&& s.scopes.functions.dom().contains(name@)
            &&& args@.len() == s.scopes.functions[name@].params.len()
            &&& proper_args(s, s.scopes.functions[name@], args, 0)
        },
        ExprKind::Builtin { name, args } => proper_builtin(s, name@, args, expected),
        ExprKind::ArrayLit(items) => proper_rows(s, items, expected, 0, None),
        ExprKind::If(chain) => proper_chain(s, chain, expected, None),
        ExprKind::Loop(l) => proper_loop(s, *l, element_of(expected)),
        ExprKind::Range { from, to, by } => {
            let want = Some(scalar_type(Base::Int));
            &&& proper_expr(s, *from, want)
            &&& proper_expr(expr_type(s, *from, want).0, *to, want)
            &&& proper_optional(expr_type(expr_type(s, *from, want).0, *to, want).0, by, want)
        },
    }
}

pub open spec fn proper_optional(s: Findings, by: Option<Box<Expr>>, want: Option<TypeView>) -> bool
    decreases by, 0nat,
{
    by matches Some(b) ==> proper_expr(s, *b, want)
}

pub open spec fn proper_unary(s: Findings, op: UnOp, operand: Expr, expected: Option<TypeView>) -> bool
    decreases operand, 2nat,
{
    match op {
        UnOp::Not => proper_expr(s, operand, Some(scalar_type(Base::Bool))),
        UnOp::Neg | UnOp::Abs => proper_expr(s, operand, expected),
        UnOp::Floor | UnOp::Ceil => proper_expr(s, operand, Some(scalar_type(Base::Deci))),
        _ => {
            let result = numeric_or_decimal(expected);
            &&& proper_expr(s, operand, Some(result))
            &&& expr_type(s, operand, Some(result)).1 matches Some(t) ==> rung(t.base) is Some
            &&& result.base != Base::Int
            &&& op == UnOp::Sqrt ==> (result.precision matches Some(Precision::Digits(n)) ==> n <= 18)
        },
    }
}

/// Rows of an array literal are of one shape.
pub open spec fn proper_rows(s: Findings, items: Vec<Expr>, expected: Option<TypeView>, i: nat, first: Option<Seq<Dim>>) -> bool
    decreases items, items@.len() - i,
{
    i < items@.len() ==> {
        let item = items@[i as int];
        match item.kind {
            ExprKind::ArrayLit(_) => {
                let (s1, row) = expr_type(s, item, row_expectation(expected));
                let dims = match row {
                    Some(t) => t.shape,
                    None => None,
                };
                &&& proper_expr(s, item, row_expectation(expected))
                &&& dims is Some && first is Some ==> shapes_agree(first->0, dims->0)
                &&& proper_rows(
                    row_checked(s1, row, first, item.span).0,
                    items,
                    expected,
                    i + 1,
                    if first is Some {
                        first
                    } else {
                        dims
                    },
                )
            },
            _ => {
                &&& proper_expr(s, item, element_of(expected))
                &&& proper_rows(expr_type(s, item, element_of(expected)).0, items, expected, i + 1, first)
            },
        }
    }
}

/// Every argument fits its parameter.
pub open spec fn proper_args(s: Findings, f: FunctionView, args: Vec<Expr>, i: nat) -> bool
    decreases args, args@.len() - i,
{
    i < args@.len() ==> {
        let arg = args@[i as int];
        let want = if i < f.params.len() {
            Some(f.params[i as int])
        } else {
            None
        };
        let (s1, got) = expr_type(s, arg, want);
        let s2 = if want is Some && got is Some {
            must_fit_parameter(s1, got->0, want->0, arg.span, crate::sema::typing::name_at(f.param_names, i))
        } else {
            s1
        };
        &&& proper_expr(s, arg, want)
        &&& want is Some && got is Some ==> type_fits(got->0, want->0)
        &&& proper_args(s2, f, args, i + 1)
    }
}

pub open spec fn proper_builtin(s: Findings, name: Seq<char>, args: Vec<Expr>, expected: Option<TypeView>) -> bool
    decreases args, args@.len() + 1,
{
    if name == "print"@ {
        proper_each(s, args, None, 0)
    } else if name == "read"@ {
        proper_each(s, args, Some(scalar_type(Base::Str)), 0)
    } else if name == "parse"@ {
        &&& args@.len() > 0 ==> proper_expr(s, args@[0], Some(scalar_type(Base::Str)))
        &&& expected matches Some(t) && rung(t.base) is Some
    } else {
        name == "clock"@
    }
}

/// Selectors are applied to arrays only, at most one to each dimension, and are whole numbers.
pub open spec fn proper_chain_of(s: Findings, ty: TypeView, sels: Vec<Selector>, start: nat, i: nat, span: Span) -> bool
    decreases sels, sels@.len() + 2 + (if i < sels@.len() { sels@.len() - i } else { 0 }),
{
    if i >= sels@.len() {
        proper_run(s, ty, sels, start, sels@.len())
    } else {
        match sels@[i as int] {
            Selector::Length => proper_run(s, ty, sels, start, i) && {
                let (s1, t) = run_selected(s, ty, sels, start, i, span);
                t is Some ==> proper_chain_of(s1, scalar_type(Base::Int), sels, i + 1, i + 1, span)
            },
            Selector::Shape => proper_run(s, ty, sels, start, i) && {
                let (s1, t) = run_selected(s, ty, sels, start, i, span);
                t is Some ==> proper_chain_of(s1, shape_query_type(t->0), sels, i + 1, i + 1, span)
            },
            _ => proper_chain_of(s, ty, sels, start, i + 1, span),
        }
    }
}

pub open spec fn proper_run(s: Findings, ty: TypeView, sels: Vec<Selector>, start: nat, end: nat) -> bool
    decreases sels, sels@.len() + 1,
{
    start < end ==> {
        &&& ty.shape is Some
        &&& end - start <= ty.shape->0.len()
        &&& proper_selectors(s, ty.shape->0, sels, start, start, end)
    }
}

pub open spec fn proper_selectors(s: Findings, dims: Seq<Dim>, sels: Vec<Selector>, start: nat, k: nat, end: nat) -> bool
    decreases sels, (if k < sels@.len() { sels@.len() - k } else { 0 }),
{
    k < end && k < sels@.len() ==> {
        &&& proper_selector(s, sels@[k as int])
        &&& proper_selectors(selector_checked(s, sels@[k as int], dims[k - start]).0, dims, sels, start, k + 1, end)
    }
}

pub open spec fn proper_selector(s: Findings, sel: Selector) -> bool
    decreases sel, 0nat,
{
    let want = Some(scalar_type(Base::Int));
    match sel {
        Selector::Indices(items) => proper_each(s, items, want, 0),
        Selector::Range { from, to, by } => {
            &&& proper_expr(s, *from, want)
            &&& proper_expr(expr_type(s, *from, want).0, *to, want)
            &&& proper_optional(expr_type(expr_type(s, *from, want).0, *to, want).0, by, want)
        },
        _ => true,
    }
}

/// What a program is like that is checked without an error.
pub open spec fn proper_program(p: Program, informer: InformerView) -> bool {
    proper_body(starting(p, informer), p.statements, 0, None)
}

// ── an error is reported exactly where something is wrong ───────────────────

/// What was reported stays, and something was added exactly where all was not well.
pub open spec fn tells(s: Findings, t: Findings, well: bool) -> bool {
    grown(s, t) && (quiet(s, t) <==> well)
}

proof fn lemma_then(s: Findings, t: Findings, u: Findings, a: bool, b: bool)
    requires
        tells(s, t, a),
        tells(t, u, b),
    ensures
        tells(s, u, a && b),
{
    assert(s.errors =~= t.errors.take(s.errors.len() as int));
    assert(t.errors =~= u.errors.take(t.errors.len() as int));
    assert(s.errors =~= u.errors.take(s.errors.len() as int));
    if quiet(s, u) {
        assert(t.errors =~= s.errors);
    }
}

proof fn lemma_still(s: Findings)
    ensures
        tells(s, s, true),
        forall|t: Findings| t.errors == s.errors ==> #[trigger] tells(s, t, true),
        forall|e: crate::diagnostics::error::ErrorView| tells(s, #[trigger] crate::sema::typing::reported(s, e), false),
{
    assert(s.errors =~= s.errors.take(s.errors.len() as int));
    assert forall|e: crate::diagnostics::error::ErrorView| tells(s, #[trigger] crate::sema::typing::reported(s, e), false) by {
        let t = crate::sema::typing::reported(s, e);
        assert(t.errors.take(s.errors.len() as int) =~= s.errors);
        assert(t.errors.len() == s.errors.len() + 1);
    }
}

#[verifier::spinoff_prover]
proof fn lemma_literal(s: Findings, text: Seq<char>, span: Span, expected: Option<TypeView>)
    ensures
        tells(s, literal_type(s, text, span, expected).0, proper_literal(text, expected)),
{
    lemma_still(s);
    if looks_numeric(text) {
        if let Some(t) = expected {
            if rung(t.base) is Some {
                let elem = crate::sema::types::element_type(t);
                let s1 = crate::sema::typing::literal_sign_checked(s, text, elem, span);
                let s2 = crate::sema::typing::literal_width_checked(s1, text, elem, span);
                lemma_still(s1);
                lemma_still(s2);
                let ok1 = quiet(s, s1);
                let ok2 = quiet(s1, s2);
                let s3 = literal_type(s, text, span, expected).0;
                lemma_then(s, s1, s2, ok1, ok2);
                lemma_then(s, s2, s3, ok1 && ok2, quiet(s2, s3));
            }
        }
    }
}

#[verifier::spinoff_prover]
proof fn lemma_operation(
    s: Findings,
    op: BinOp,
    lhs: Expr,
    a: Option<TypeView>,
    rhs: Expr,
    b: Option<TypeView>,
    span: Span,
    expected: Option<TypeView>,
)
    requires
        !is_logical(op),
    ensures
        tells(s, binary_type(s, op, lhs, a, rhs, b, span, expected).0, proper_operation(op, lhs, a, rhs, b, expected)),
{
    lemma_still(s);
    if !is_comparison(op) && a is Some && b is Some {
        let x = a->0;
        let y = b->0;
        if is_array_operator(op) {
            if x.shape is Some && y.shape is Some {
                let p = x.shape->0;
                let q = y.shape->0;
                assert(crate::sema::typing::is_three(p) <==> of_three(p)) by {
                    if crate::sema::typing::is_three(p) {
                        assert(p =~= seq![Dim::Known(3)]);
                    }
                }
                assert(crate::sema::typing::is_three(q) <==> of_three(q)) by {
                    if crate::sema::typing::is_three(q) {
                        assert(q =~= seq![Dim::Known(3)]);
                    }
                }
            }
        } else {
            crate::sema::types::a_join_holds_both(x.base, y.base);
        }
    }
}

proof fn lemma_fits(s: Findings, got: TypeView, want: TypeView, span: Span, what: Seq<char>)
    ensures
        tells(s, must_fit(s, got, want, span, what), type_fits(got, want)),
        tells(s, must_fit_parameter(s, got, want, span, what), type_fits(got, want)),
{
    lemma_still(s);
}

#[verifier::spinoff_prover]
proof fn lemma_stored(s: Findings, name: Seq<char>, ty: TypeView, got: TypeView, value: Expr)
    ensures
        tells(s, initialised(s, name, ty, got, value), storable(got, ty) && named_once(ty, got, value)),
{
    let shape_only = base_fits(got.base, ty.base) && got.shape is Some && ty.shape is Some && !type_fits(got, ty);
    let s1 = if shape_only {
        s
    } else {
        crate::sema::typing::must_fit_but_for_sign(s, got, ty, value.span, "assigned"@)
    };
    let s2 = crate::sema::typing::literal_shape_checked(s1, name, ty, got, value.span);
    let s3 = naming_checked(s2, name, ty, got, value);
    lemma_still(s);
    lemma_still(s1);
    lemma_still(s2);
    lemma_fits(s, got, ty, value.span, "assigned"@);
    lemma_shapes(got, ty);
    lemma_then(s, s1, s2, quiet(s, s1), quiet(s1, s2));
    lemma_then(s, s2, s3, quiet(s, s1) && quiet(s1, s2), quiet(s2, s3));
}

proof fn lemma_shapes(got: TypeView, ty: TypeView)
    ensures
        got.shape is Some && ty.shape is Some ==> shapes_agree(got.shape->0, ty.shape->0) == shapes_agree(ty.shape->0, got.shape->0),
{
    if got.shape is Some && ty.shape is Some {
        crate::sema::types::agreement_is_symmetric(got.shape->0, ty.shape->0);
    }
}

#[verifier::spinoff_prover]
proof fn lemma_changed(s: Findings, name: Seq<char>, want: TypeView, got: TypeView, value: Expr)
    ensures
        tells(
            s,
            naming_checked(
                crate::sema::typing::must_fit_but_for_sign(s, got, want, value.span, "assigned"@),
                name,
                want,
                got,
                value,
            ),
            storable(got, want) && named_once(want, got, value),
        ),
{
    let s1 = crate::sema::typing::must_fit_but_for_sign(s, got, want, value.span, "assigned"@);
    let s2 = naming_checked(s1, name, want, got, value);
    lemma_still(s);
    lemma_still(s1);
    lemma_fits(s, got, want, value.span, "assigned"@);
    lemma_then(s, s1, s2, quiet(s, s1), quiet(s1, s2));
}

proof fn lemma_declared(s: Findings, name: Seq<char>, ty: TypeView, span: Span, read_only: bool)
    ensures
        declared(s, name, ty, span, read_only).errors == s.errors,
        tells(s, declared(s, name, ty, span, read_only), true),
{
    lemma_still(s);
}

#[verifier::spinoff_prover]
proof fn lemma_ranked(s: Findings, ty_ref: TypeRef, ty: TypeView, at: Span, name_at: Span)
    ensures
        tells(s, rank_checked(s, ty_ref, ty, name_at), rank_kept(ty_ref, ty)),
        rank_kept(ty_ref, ty) ==> rank_checked(s, ty_ref, ty, name_at) == s,
        tells(s, precision_checked(s, ty, at), precision_offered(ty)),
        precision_offered(ty) ==> precision_checked(s, ty, at) == s,
{
    lemma_still(s);
}

proof fn lemma_first_handback(stmts: Seq<Stmt>, i: nat)
    requires
        forall|k: int| 0 <= k < i && k < stmts.len() ==> !((#[trigger] stmts[k]) is Handback),
    ensures
        first_handback(stmts, i) matches Some(at) ==> i <= at < stmts.len() && stmts[at] is Handback && forall|k: int|
            0 <= k < at ==> !((#[trigger] stmts[k]) is Handback),
        first_handback(stmts, i) is None ==> forall|k: int| 0 <= k < stmts.len() ==> !((#[trigger] stmts[k]) is Handback),
    decreases stmts.len() - i,
{
    if i < stmts.len() && !(stmts[i as int] is Handback) {
        lemma_first_handback(stmts, i + 1);
    }
}

proof fn lemma_reached(s: Findings, stmts: Seq<Stmt>)
    ensures
        tells(s, reach_checked(s, stmts), all_reached(stmts)),
        all_reached(stmts) ==> reach_checked(s, stmts) == s,
{
    lemma_still(s);
    lemma_first_handback(stmts, 0);
}

#[verifier::spinoff_prover]
proof fn lemma_parameters(s: Findings, f: FuncDecl, n: nat)
    requires
        n <= f.params@.len(),
    ensures
        tells(s, parameters_declared(s, f, n), params_kept(f, n)),
    decreases n,
{
    lemma_still(s);
    if n > 0 {
        lemma_parameters(s, f, (n - 1) as nat);
        let before = parameters_declared(s, f, (n - 1) as nat);
        lemma_still(before);
        let p = f.params@[n - 1];
        if let Some(ty) = written_type(p.ty, dims_view(p.shape), p.precision) {
            lemma_ranked(before, p.ty, ty, p.name_span, p.name_span);
            let mid = rank_checked(before, p.ty, ty, p.name_span);
            lemma_declared(mid, p.name@, ty, p.name_span, false);
            lemma_then(s, before, mid, params_kept(f, (n - 1) as nat), rank_kept(p.ty, ty));
            let after = declared(mid, p.name@, ty, p.name_span, false);
            lemma_then(s, mid, after, params_kept(f, (n - 1) as nat) && rank_kept(p.ty, ty), true);
            if params_kept(f, (n - 1) as nat) && rank_kept(p.ty, ty) {
                assert forall|i: int| 0 <= i < n implies (written_type(
                    (#[trigger] f.params@[i]).ty,
                    dims_view(f.params@[i].shape),
                    f.params@[i].precision,
                ) matches Some(t) ==> rank_kept(f.params@[i].ty, t)) by {}
            }
            if params_kept(f, n) {
                assert(rank_kept(f.params@[n - 1].ty, ty));
            }
        } else {
            if params_kept(f, (n - 1) as nat) {
                assert forall|i: int| 0 <= i < n implies (written_type(
                    (#[trigger] f.params@[i]).ty,
                    dims_view(f.params@[i].shape),
                    f.params@[i].precision,
                ) matches Some(t) ==> rank_kept(f.params@[i].ty, t)) by {}
            }
        }
    }
}

#[verifier::spinoff_prover]
proof fn tells_binding(s: Findings, v: VarDecl, b: Binding)
    ensures
        tells(s, binding_checked(s, v, b), proper_binding(s, v, b)),
    decreases b, 0nat,
{
    lemma_still(s);
    if let Some(ty) = written_type(v.ty, dims_view(b.shape), b.precision) {
        let s0 = precision_checked(s, ty, v.ty.span);
        let s1 = rank_checked(s0, v.ty, ty, b.name_span);
        lemma_ranked(s, v.ty, ty, v.ty.span, b.name_span);
        lemma_ranked(s0, v.ty, ty, v.ty.span, b.name_span);
        let fine = precision_offered(ty) && rank_kept(v.ty, ty);
        lemma_then(s, s0, s1, precision_offered(ty), rank_kept(v.ty, ty));
        if let Some(value) = b.value {
            tells_expr(s1, value, Some(ty));
            lemma_given(s1, b, ty, value);
            let after = given_value(s1, b, ty, value);
            let ok = value_suits(s1, ty, value);
            lemma_then(s, s1, after, fine, ok);
            assert(binding_checked(s, v, b) == after);
        } else {
            lemma_still(s1);
            let s2 = crate::sema::typing::no_value(s1, v, b);
            lemma_declared(s2, b.name@, ty, b.name_span, false);
            lemma_then(s, s1, s2, fine, false);
            lemma_then(s, s2, declared(s2, b.name@, ty, b.name_span, false), false, true);
        }
    }
}

/// What is known once a declaration's value has been checked.
spec fn given_value(s: Findings, b: Binding, ty: TypeView, value: Expr) -> Findings {
    match expr_type(s, value, Some(ty)) {
        (s2, None) => declared(s2, b.name@, ty, b.name_span, false),
        (s2, Some(got)) => declared(
            initialised(s2, b.name@, ty, got, value),
            b.name@,
            crate::sema::typing::settled_type(ty, got),
            b.name_span,
            false,
        ),
    }
}

spec fn value_suits(s: Findings, ty: TypeView, value: Expr) -> bool {
    proper_expr(s, value, Some(ty)) && (expr_type(s, value, Some(ty)).1 matches Some(got) ==> storable(got, ty) && named_once(
        ty,
        got,
        value,
    ))
}

#[verifier::spinoff_prover]
proof fn lemma_given(s: Findings, b: Binding, ty: TypeView, value: Expr)
    requires
        tells(s, expr_type(s, value, Some(ty)).0, proper_expr(s, value, Some(ty))),
    ensures
        tells(s, given_value(s, b, ty, value), value_suits(s, ty, value)),
{
    let (s2, t) = expr_type(s, value, Some(ty));
    let first = proper_expr(s, value, Some(ty));
    if let Some(got) = t {
        lemma_stored(s2, b.name@, ty, got, value);
        let s3 = initialised(s2, b.name@, ty, got, value);
        let ok = storable(got, ty) && named_once(ty, got, value);
        lemma_then(s, s2, s3, first, ok);
        lemma_declared(s3, b.name@, crate::sema::typing::settled_type(ty, got), b.name_span, false);
        lemma_then(s, s3, declared(s3, b.name@, crate::sema::typing::settled_type(ty, got), b.name_span, false), first && ok, true);
    } else {
        lemma_declared(s2, b.name@, ty, b.name_span, false);
        lemma_then(s, s2, declared(s2, b.name@, ty, b.name_span, false), first, true);
    }
}

proof fn tells_bindings(s: Findings, v: VarDecl, i: nat)
    ensures
        tells(s, bindings_checked(s, v, i), proper_bindings(s, v, i)),
    decreases v, v.bindings@.len() - i,
{
    lemma_still(s);
    if i < v.bindings@.len() {
        let b = v.bindings@[i as int];
        tells_binding(s, v, b);
        let s1 = binding_checked(s, v, b);
        tells_bindings(s1, v, i + 1);
        lemma_then(s, s1, bindings_checked(s1, v, i + 1), proper_binding(s, v, b), proper_bindings(s1, v, i + 1));
    }
}

proof fn tells_target(s: Findings, c: ChangeStmt, t: ChangeTarget, stated: TypeView)
    ensures
        tells(s, target_checked(s, c, t, stated), proper_target(s, t, stated)),
    decreases t, 0nat,
{
    lemma_still(s);
    if let Some(v) = found(s.scopes, t.name@) {
        if !v.read_only {
            let want = if t.selectors@.len() == 0 {
                v.ty
            } else {
                crate::sema::types::element_type(v.ty)
            };
            let s1 = restated_checked(s, c, t, stated, want, v.declared_at);
            let same = stated.base == want.base && stated.sign == want.sign;
            assert(tells(s, s1, same));
            assert(same ==> s1 == s);
            tells_expr(s1, t.value, Some(want));
            let (s2, got) = expr_type(s1, t.value, Some(want));
            lemma_then(s, s1, s2, same, proper_expr(s1, t.value, Some(want)));
            if let Some(g) = got {
                lemma_changed(s2, t.name@, want, g, t.value);
                lemma_then(
                    s,
                    s2,
                    target_checked(s, c, t, stated),
                    same && proper_expr(s1, t.value, Some(want)),
                    storable(g, want) && named_once(want, g, t.value),
                );
            }
        }
    }
}

proof fn tells_targets(s: Findings, c: ChangeStmt, stated: TypeView, i: nat)
    ensures
        tells(s, targets_checked(s, c, stated, i), proper_targets(s, c, stated, i)),
    decreases c, c.targets@.len() - i,
{
    lemma_still(s);
    if i < c.targets@.len() {
        let t = c.targets@[i as int];
        tells_target(s, c, t, stated);
        let s1 = target_checked(s, c, t, stated);
        tells_targets(s1, c, stated, i + 1);
        lemma_then(s, s1, targets_checked(s1, c, stated, i + 1), proper_target(s, t, stated), proper_targets(s1, c, stated, i + 1));
    }
}

proof fn tells_body(s: Findings, stmts: Vec<Stmt>, i: nat, want: Option<TypeView>)
    ensures
        tells(s, body_checked(s, stmts, i, want), proper_body(s, stmts, i, want)),
    decreases stmts, stmts@.len() - i,
{
    lemma_still(s);
    if i < stmts@.len() {
        let st = stmts@[i as int];
        tells_statement(s, st, want);
        let s1 = statement_checked(s, st, want);
        tells_body(s1, stmts, i + 1, want);
        lemma_then(s, s1, body_checked(s1, stmts, i + 1, want), proper_statement(s, st, want), proper_body(s1, stmts, i + 1, want));
    }
}

proof fn tells_inner(s: Findings, stmts: Vec<Stmt>, want: Option<TypeView>)
    ensures
        tells(s, inner_body(s, stmts, want), proper_inner(s, stmts, want)),
    decreases stmts, stmts@.len() + 1,
{
    lemma_reached(s, stmts@);
    let s1 = reach_checked(s, stmts@);
    tells_body(s1, stmts, 0, want);
    let s2 = body_checked(s1, stmts, 0, want);
    lemma_still(s2);
    lemma_then(s, s1, s2, all_reached(stmts@), proper_body(s1, stmts, 0, want));
    lemma_then(s, s2, inner_body(s, stmts, want), all_reached(stmts@) && proper_body(s1, stmts, 0, want), true);
}

proof fn tells_statement(s: Findings, stmt: Stmt, want: Option<TypeView>)
    ensures
        tells(s, statement_checked(s, stmt, want), proper_statement(s, stmt, want)),
    decreases stmt, 0nat,
{
    lemma_still(s);
    match stmt {
        Stmt::Var(v) => tells_bindings(s, v, 0),
        Stmt::Change(c) => {
            if let Some(stated) = written_type(c.ty, None, None) {
                tells_targets(s, c, stated, 0);
            }
        },
        Stmt::Func(f) => tells_function(s, f),
        Stmt::If(chain) => tells_chain(s, chain, None, want),
        Stmt::Loop(l) => tells_loop(s, l, want),
        Stmt::Print { args, .. } => tells_each(s, args, None, 0),
        Stmt::Handback { value, span } => {
            tells_expr(s, value, want);
            let (s1, got) = expr_type(s, value, want);
            if want is Some && got is Some {
                lemma_fits(s1, got->0, want->0, span, "handed back"@);
                lemma_then(
                    s,
                    s1,
                    statement_checked(s, stmt, want),
                    proper_expr(s, value, want),
                    type_fits(got->0, want->0),
                );
            }
        },
        Stmt::Expr(e) => tells_expr(s, e, None),
    }
}

proof fn tells_each(s: Findings, items: Vec<Expr>, expected: Option<TypeView>, i: nat)
    ensures
        tells(s, each_checked(s, items, expected, i), proper_each(s, items, expected, i)),
    decreases items, items@.len() - i,
{
    lemma_still(s);
    if i < items@.len() {
        let e = items@[i as int];
        tells_expr(s, e, expected);
        let s1 = expr_type(s, e, expected).0;
        tells_each(s1, items, expected, i + 1);
        lemma_then(s, s1, each_checked(s1, items, expected, i + 1), proper_expr(s, e, expected), proper_each(s1, items, expected, i + 1));
    }
}

proof fn tells_function(s: Findings, f: FuncDecl)
    ensures
        tells(s, function_checked(s, f), proper_function(s, f)),
    decreases f, 0nat,
{
    lemma_still(s);
    if let Some(result) = written_type(f.returns, None, None) {
        let promised = result.base != Base::Nothing;
        let want = if promised {
            Some(result)
        } else {
            None
        };
        let s0 = scope_opened(s);
        let s1 = parameters_declared(s0, f, f.params@.len());
        lemma_parameters(s0, f, f.params@.len());
        lemma_then(s, s0, s1, true, params_kept(f, f.params@.len()));
        tells_inner(s1, f.body, want);
        let s2 = inner_body(s1, f.body, want);
        lemma_then(s, s1, s2, params_kept(f, f.params@.len()), proper_inner(s1, f.body, want));
        lemma_still(s2);
        lemma_then(
            s,
            s2,
            function_checked(s, f),
            params_kept(f, f.params@.len()) && proper_inner(s1, f.body, want),
            promised ==> hands_back(f.body, 0),
        );
    }
}

proof fn tells_condition(s: Findings, cond: Expr, in_loop: bool)
    ensures
        tells(s, condition_checked(s, cond, in_loop), proper_condition(s, cond)),
    decreases cond, 2nat,
{
    let want = Some(scalar_type(Base::Bool));
    tells_expr(s, cond, want);
    let (s1, t) = expr_type(s, cond, want);
    lemma_still(s1);
    if let Some(g) = t {
        lemma_then(s, s1, condition_checked(s, cond, in_loop), proper_expr(s, cond, want), g.base == Base::Bool);
    }
}

proof fn tells_arms(s: Findings, chain: IfChain, want: Option<TypeView>, i: nat)
    ensures
        tells(s, arms_checked(s, chain, want, i), proper_arms(s, chain, want, i)),
    decreases chain, chain.arms@.len() - i,
{
    lemma_still(s);
    if i < chain.arms@.len() {
        let arm = chain.arms@[i as int];
        let s1 = match arm.condition {
            Some(cond) => condition_checked(s, cond, false),
            None => s,
        };
        let ok1 = match arm.condition {
            Some(cond) => proper_condition(s, cond),
            None => true,
        };
        if let Some(cond) = arm.condition {
            tells_condition(s, cond, false);
        }
        lemma_still(s1);
        let s2 = scope_opened(s1);
        lemma_then(s, s1, s2, ok1, true);
        tells_inner(s2, arm.body, want);
        let s3 = inner_body(s2, arm.body, want);
        lemma_then(s, s2, s3, ok1, proper_inner(s2, arm.body, want));
        tells_arms(s3, chain, want, i + 1);
        lemma_then(
            s,
            s3,
            arms_checked(s3, chain, want, i + 1),
            ok1 && proper_inner(s2, arm.body, want),
            proper_arms(s3, chain, want, i + 1),
        );
    }
}

proof fn tells_chain(s: Findings, chain: IfChain, expected: Option<TypeView>, outer: Option<TypeView>)
    ensures
        tells(s, chain_type(s, chain, expected, outer).0, proper_chain(s, chain, expected, outer)),
    decreases chain, chain.arms@.len() + 1,
{
    let want = match expected {
        Some(_) => expected,
        None => outer,
    };
    tells_arms(s, chain, want, 0);
    let s1 = arms_checked(s, chain, want, 0);
    lemma_still(s1);
    lemma_then(
        s,
        s1,
        chain_type(s, chain, expected, outer).0,
        proper_arms(s, chain, want, 0),
        expected is Some ==> chain.arms@.len() > 0 && all_hand_back(chain, 0) && has_else(chain),
    );
}

proof fn tells_loop(s: Findings, l: LoopStmt, want: Option<TypeView>)
    ensures
        tells(s, loop_checked(s, l, want), proper_loop(s, l, want)),
    decreases l, 0nat,
{
    lemma_still(s);
    let s0 = scope_opened(s);
    match l.kind {
        LoopKind::Counted { ty, var, var_span, range } => {
            let expected = Some(counter_type(ty));
            tells_expr(s0, range, expected);
            let s1 = expr_type(s0, range, expected).0;
            lemma_then(s, s0, s1, true, proper_expr(s0, range, expected));
            lemma_declared(s1, var@, counter_type(ty), var_span, true);
            let s2 = declared(s1, var@, counter_type(ty), var_span, true);
            lemma_then(s, s1, s2, proper_expr(s0, range, expected), true);
            tells_inner(s2, l.body, want);
            lemma_then(s, s2, inner_body(s2, l.body, want), proper_expr(s0, range, expected), proper_inner(s2, l.body, want));
        },
        LoopKind::While { condition } => {
            tells_condition(s0, condition, true);
            let s1 = condition_checked(s0, condition, true);
            lemma_then(s, s0, s1, true, proper_condition(s0, condition));
            tells_inner(s1, l.body, want);
            lemma_then(s, s1, inner_body(s1, l.body, want), proper_condition(s0, condition), proper_inner(s1, l.body, want));
        },
    }
}

#[verifier::spinoff_prover]
proof fn lemma_constant(s: Findings, span: Span, expected: Option<TypeView>)
    ensures
        tells(
            s,
            constant_type(s, span, expected).0,
            expected matches Some(t) ==> (rung(t.base) is Some ==> (t.precision matches Some(Precision::Digits(n)) ==> n <= 36)),
        ),
{
    lemma_still(s);
}

#[verifier::spinoff_prover]
#[verifier::rlimit(40)]
proof fn tells_expr(s: Findings, e: Expr, expected: Option<TypeView>)
    ensures
        tells(s, expr_type(s, e, expected).0, proper_expr(s, e, expected)),
    decreases e, 1nat,
{
    lemma_still(s);
    match e.kind {
        ExprKind::Literal(text) => {
            lemma_literal(s, text@, e.span, expected);
        },
        ExprKind::Number(text) => {
            lemma_literal(s, text@, e.span, expected);
        },
        ExprKind::Constant(_) => {
            lemma_constant(s, e.span, expected);
        },
        ExprKind::Ref { name, selectors } => {
            if let Some(v) = found(s.scopes, name@) {
                tells_selected(s, v.ty, selectors, 0, 0, e.span);
            }
        },
        ExprKind::Math(inner) => tells_expr(s, *inner, expected),
        ExprKind::Binary { op, lhs, rhs } => if is_logical(op) {
            let want = Some(scalar_type(Base::Bool));
            tells_expr(s, *lhs, want);
            let s1 = expr_type(s, *lhs, want).0;
            tells_expr(s1, *rhs, want);
            lemma_then(s, s1, expr_type(s1, *rhs, want).0, proper_expr(s, *lhs, want), proper_expr(s1, *rhs, want));
        } else {
            let first = if is_comparison(op) {
                None
            } else {
                unrefined(expected)
            };
            tells_expr(s, *lhs, first);
            let (s1, a) = expr_type(s, *lhs, first);
            let second = second_expectation(op, a, expected);
            tells_expr(s1, *rhs, second);
            let (s2, b) = expr_type(s1, *rhs, second);
            lemma_then(s, s1, s2, proper_expr(s, *lhs, first), proper_expr(s1, *rhs, second));
            lemma_operation(s2, op, *lhs, a, *rhs, b, e.span, expected);
            lemma_then(
                s,
                s2,
                binary_type(s2, op, *lhs, a, *rhs, b, e.span, expected).0,
                proper_expr(s, *lhs, first) && proper_expr(s1, *rhs, second),
                proper_operation(op, *lhs, a, *rhs, b, expected),
            );
        },
        ExprKind::Unary { op, operand } => tells_unary(s, op, *operand, e.span, expected),
        ExprKind::Call { name, args } => {
            if s.scopes.functions.dom().contains(name@) {
                let f = s.scopes.functions[name@];
                let s1 = if args@.len() != f.params.len() {
                    crate::sema::typing::wrong_count(s, name@, f.params.len(), args@.len(), e.span)
                } else {
                    s
                };
                let ok = args@.len() == f.params.len();
                assert(tells(s, s1, ok));
                tells_arguments(s1, f, args, 0);
                lemma_then(s, s1, arguments_checked(s1, f, args, 0), ok, proper_args(s1, f, args, 0));
                assert(call_type(s, name@, args, e.span).0 == arguments_checked(s1, f, args, 0));
            } else {
                assert(call_type(s, name@, args, e.span).0 == crate::sema::typing::unknown_function(s, name@, e.span));
            }
            assert(expr_type(s, e, expected) == call_type(s, name@, args, e.span));
        },
        ExprKind::Builtin { name, args } => tells_builtin(s, name@, args, e.span, expected),
        ExprKind::ArrayLit(items) => tells_rows(s, items, expected, 0, None),
        ExprKind::If(chain) => tells_chain(s, chain, expected, None),
        ExprKind::Loop(l) => tells_loop(s, *l, element_of(expected)),
        ExprKind::Range { from, to, by } => {
            let want = Some(scalar_type(Base::Int));
            tells_expr(s, *from, want);
            let s1 = expr_type(s, *from, want).0;
            tells_expr(s1, *to, want);
            let s2 = expr_type(s1, *to, want).0;
            lemma_then(s, s1, s2, proper_expr(s, *from, want), proper_expr(s1, *to, want));
            tells_optional(s2, by, want);
            lemma_then(
                s,
                s2,
                optional_checked(s2, by, want),
                proper_expr(s, *from, want) && proper_expr(s1, *to, want),
                proper_optional(s2, by, want),
            );
        },
        _ => {},
    }
}

proof fn tells_optional(s: Findings, by: Option<Box<Expr>>, want: Option<TypeView>)
    ensures
        tells(s, optional_checked(s, by, want), proper_optional(s, by, want)),
    decreases by, 0nat,
{
    lemma_still(s);
    if let Some(b) = by {
        tells_expr(s, *b, want);
    }
}

proof fn tells_unary(s: Findings, op: UnOp, operand: Expr, span: Span, expected: Option<TypeView>)
    ensures
        tells(s, unary_type(s, op, operand, span, expected).0, proper_unary(s, op, operand, expected)),
    decreases operand, 2nat,
{
    match op {
        UnOp::Not => tells_expr(s, operand, Some(scalar_type(Base::Bool))),
        UnOp::Neg | UnOp::Abs => tells_expr(s, operand, expected),
        UnOp::Floor | UnOp::Ceil => tells_expr(s, operand, Some(scalar_type(Base::Deci))),
        _ => {
            let result = numeric_or_decimal(expected);
            tells_expr(s, operand, Some(result));
            let (s1, t) = expr_type(s, operand, Some(result));
            lemma_still(s1);
            let ok = (t is Some ==> rung(t->0.base) is Some) && result.base != Base::Int && (op == UnOp::Sqrt ==> (result.precision matches Some(
                Precision::Digits(n),
            ) ==> n <= 18));
            assert(tells(s1, irrational_type(s1, op, t, span, expected).0, ok));
            lemma_then(s, s1, irrational_type(s1, op, t, span, expected).0, proper_expr(s, operand, Some(result)), ok);
        },
    }
}

proof fn tells_rows(s: Findings, items: Vec<Expr>, expected: Option<TypeView>, i: nat, first: Option<Seq<Dim>>)
    ensures
        tells(s, rows_checked(s, items, expected, i, first).0, proper_rows(s, items, expected, i, first)),
    decreases items, items@.len() - i,
{
    lemma_still(s);
    if i < items@.len() {
        let item = items@[i as int];
        if let ExprKind::ArrayLit(_) = item.kind {
            let want = row_expectation(expected);
            tells_expr(s, item, want);
            let (s1, row) = expr_type(s, item, want);
            let (s2, next) = row_checked(s1, row, first, item.span);
            lemma_still(s1);
            let dims = match row {
                Some(t) => t.shape,
                None => None,
            };
            let agree = dims is Some && first is Some ==> shapes_agree(first->0, dims->0);
            assert(tells(s1, s2, agree));
            lemma_then(s, s1, s2, proper_expr(s, item, want), agree);
            tells_rows(s2, items, expected, i + 1, next);
            assert(next == (if first is Some {
                first
            } else {
                dims
            }));
            lemma_then(
                s,
                s2,
                rows_checked(s2, items, expected, i + 1, next).0,
                proper_expr(s, item, want) && agree,
                proper_rows(s2, items, expected, i + 1, next),
            );
        } else {
            let want = element_of(expected);
            tells_expr(s, item, want);
            let s1 = expr_type(s, item, want).0;
            tells_rows(s1, items, expected, i + 1, first);
            lemma_then(
                s,
                s1,
                rows_checked(s1, items, expected, i + 1, first).0,
                proper_expr(s, item, want),
                proper_rows(s1, items, expected, i + 1, first),
            );
        }
    }
}

proof fn tells_arguments(s: Findings, f: FunctionView, args: Vec<Expr>, i: nat)
    ensures
        tells(s, arguments_checked(s, f, args, i), proper_args(s, f, args, i)),
    decreases args, args@.len() - i,
{
    lemma_still(s);
    if i < args@.len() {
        let arg = args@[i as int];
        let want = if i < f.params.len() {
            Some(f.params[i as int])
        } else {
            None
        };
        tells_expr(s, arg, want);
        let (s1, got) = expr_type(s, arg, want);
        lemma_still(s1);
        let name = crate::sema::typing::name_at(f.param_names, i);
        let s2 = if want is Some && got is Some {
            must_fit_parameter(s1, got->0, want->0, arg.span, name)
        } else {
            s1
        };
        let fits = want is Some && got is Some ==> type_fits(got->0, want->0);
        if want is Some && got is Some {
            lemma_fits(s1, got->0, want->0, arg.span, name);
        }
        lemma_then(s, s1, s2, proper_expr(s, arg, want), fits);
        tells_arguments(s2, f, args, i + 1);
        lemma_then(s, s2, arguments_checked(s2, f, args, i + 1), proper_expr(s, arg, want) && fits, proper_args(s2, f, args, i + 1));
    }
}

proof fn tells_builtin(s: Findings, name: Seq<char>, args: Vec<Expr>, span: Span, expected: Option<TypeView>)
    ensures
        tells(s, builtin_type(s, name, args, span, expected).0, proper_builtin(s, name, args, expected)),
    decreases args, args@.len() + 1,
{
    lemma_still(s);
    if name == "print"@ {
        tells_each(s, args, None, 0);
    } else if name == "read"@ {
        tells_each(s, args, Some(scalar_type(Base::Str)), 0);
    } else if name == "parse"@ {
        let want = Some(scalar_type(Base::Str));
        let s1 = if args@.len() > 0 {
            expr_type(s, args@[0], want).0
        } else {
            s
        };
        if args@.len() > 0 {
            tells_expr(s, args@[0], want);
        }
        lemma_still(s1);
        lemma_then(
            s,
            s1,
            builtin_type(s, name, args, span, expected).0,
            args@.len() > 0 ==> proper_expr(s, args@[0], want),
            expected is Some && rung(expected->0.base) is Some,
        );
    }
}

proof fn tells_selected(s: Findings, ty: TypeView, sels: Vec<Selector>, start: nat, i: nat, span: Span)
    ensures
        tells(s, chain_selected(s, ty, sels, start, i, span).0, proper_chain_of(s, ty, sels, start, i, span)),
    decreases sels, sels@.len() + 2 + (if i < sels@.len() { sels@.len() - i } else { 0 }),
{
    lemma_still(s);
    if i >= sels@.len() {
        tells_run(s, ty, sels, start, sels@.len(), span);
    } else {
        match sels@[i as int] {
            Selector::Length | Selector::Shape => {
                tells_run(s, ty, sels, start, i, span);
                let (s1, t) = run_selected(s, ty, sels, start, i, span);
                if let Some(g) = t {
                    let next = if sels@[i as int] is Length {
                        scalar_type(Base::Int)
                    } else {
                        shape_query_type(g)
                    };
                    tells_selected(s1, next, sels, i + 1, i + 1, span);
                    lemma_then(
                        s,
                        s1,
                        chain_selected(s1, next, sels, i + 1, i + 1, span).0,
                        proper_run(s, ty, sels, start, i),
                        proper_chain_of(s1, next, sels, i + 1, i + 1, span),
                    );
                }
            },
            _ => tells_selected(s, ty, sels, start, i + 1, span),
        }
    }
}

proof fn tells_run(s: Findings, ty: TypeView, sels: Vec<Selector>, start: nat, end: nat, span: Span)
    ensures
        tells(s, run_selected(s, ty, sels, start, end, span).0, proper_run(s, ty, sels, start, end)),
        run_selected(s, ty, sels, start, end, span).1 is None ==> !proper_run(s, ty, sels, start, end),
    decreases sels, sels@.len() + 1,
{
    lemma_still(s);
    if start < end {
        if let Some(dims) = ty.shape {
            if end - start <= dims.len() {
                tells_dims(s, dims, sels, start, start, end, Seq::empty());
            }
        }
    }
}

proof fn tells_dims(s: Findings, dims: Seq<Dim>, sels: Vec<Selector>, start: nat, k: nat, end: nat, acc: Seq<Dim>)
    ensures
        tells(s, dims_selected(s, dims, sels, start, k, end, acc).0, proper_selectors(s, dims, sels, start, k, end)),
    decreases sels, (if k < sels@.len() { sels@.len() - k } else { 0 }),
{
    lemma_still(s);
    if k < end && k < sels@.len() {
        let sel = sels@[k as int];
        tells_selector(s, sel, dims[k - start]);
        let (s1, more) = selector_checked(s, sel, dims[k - start]);
        tells_dims(s1, dims, sels, start, k + 1, end, acc + more);
        lemma_then(
            s,
            s1,
            dims_selected(s1, dims, sels, start, k + 1, end, acc + more).0,
            proper_selector(s, sel),
            proper_selectors(s1, dims, sels, start, k + 1, end),
        );
    }
}

proof fn tells_selector(s: Findings, sel: Selector, dim: Dim)
    ensures
        tells(s, selector_checked(s, sel, dim).0, proper_selector(s, sel)),
    decreases sel, 0nat,
{
    lemma_still(s);
    let want = Some(scalar_type(Base::Int));
    match sel {
        Selector::Indices(items) => tells_each(s, items, want, 0),
        Selector::Range { from, to, by } => {
            tells_expr(s, *from, want);
            let s1 = expr_type(s, *from, want).0;
            tells_expr(s1, *to, want);
            let s2 = expr_type(s1, *to, want).0;
            lemma_then(s, s1, s2, proper_expr(s, *from, want), proper_expr(s1, *to, want));
            tells_optional(s2, by, want);
            lemma_then(
                s,
                s2,
                optional_checked(s2, by, want),
                proper_expr(s, *from, want) && proper_expr(s1, *to, want),
                proper_optional(s2, by, want),
            );
        },
        _ => {},
    }
}

// ── laws ────────────────────────────────────────────────────────────────────

/// A program is checked without an error exactly where all is well with it: names are known,
/// values fit where they go, conditions are truth values, and each function that promises a
/// value hands one back on every path, each of them of a type that fits the promise.
pub proof fn a_program_checks_exactly_where_all_is_well(p: Program, informer: InformerView)
    ensures
        program_checked(p, informer).errors.len() == 0 <==> proper_program(p, informer),
{
    tells_body(starting(p, informer), p.statements, 0, None);
    assert(starting(p, informer).errors =~= Seq::empty());
    if program_checked(p, informer).errors.len() == 0 {
        assert(program_checked(p, informer).errors =~= starting(p, informer).errors);
    }
}

/// Each error stays reported, whatever is checked behind it.
pub proof fn errors_stay_reported(s: Findings, stmt: Stmt, want: Option<TypeView>)
    ensures
        s.errors.is_prefix_of(statement_checked(s, stmt, want).errors),
{
    tells_statement(s, stmt, want);
}

/// A handback of a type that does not fit what is promised is an error, and one that fits is
/// none.
pub proof fn a_handback_fits_the_promise(s: Findings, value: Expr, span: Span, promised: TypeView)
    requires
        proper_expr(s, value, Some(promised)),
        expr_type(s, value, Some(promised)).1 is Some,
    ensures
        statement_checked(s, Stmt::Handback { value, span }, Some(promised)).errors == s.errors <==> type_fits(
            expr_type(s, value, Some(promised)).1->0,
            promised,
        ),
{
    tells_statement(s, Stmt::Handback { value, span }, Some(promised));
}

} // verus!
