//! What a run makes of the answers it is given: those that it has no use for change
//! nothing.

use vstd::prelude::*;

use crate::ast::{
    BinOp, ChangeStmt, ChangeTarget, Expr, ExprKind, FuncDecl, IfChain, LoopKind, LoopStmt, Program, Selector,
    Stmt, UnOp, VarDecl,
};
use crate::diagnostics::position::Span;
use crate::eval::numeric::{binding_context, context_of, index_from, whole, Numeric};
use crate::eval::ops::{unary_val, AnswerView, StopView};
use crate::eval::select::{in_range, range_left};
use crate::eval::semantics::{
    admitted, arguments_from, assigned, attempted, bare, binary_result, bindings_from, block_from,
    bounds_result, broadcast_item, builtin_result, call_result, chain_from, closed_scope, collected,
    counted_from, defined, dimension_result, element_change, expr_result, first_text, fresh_world,
    function_named, functions_in, index_list_from, indices_from, int_result_of, is_array_operator, looked_up,
    loop_result, opened, operand, pair_result, pairs_from, parameter_context, parameters_given, picks_from,
    positions_result, queried, range_inside, run_meaning, run_result, scoped, selectors_from,
    statement_result, step_result, targets_from, texts_from, ticked, ticks_left, unary_from, unary_result,
    values_from, while_from, with_parameters, FlowView, World,
};
use crate::eval::value::{val_text, Val};

verus! {

/// A world with more answers than it had.
pub open spec fn answered(w: World, extra: Seq<AnswerView>) -> World {
    World { answers: w.answers + extra, ..w }
}

/// Whether a computation comes to the same with more answers, unless it stopped for want of
/// one.
pub open spec fn replays<T>(
    a: (World, Result<T, StopView>),
    b: (World, Result<T, StopView>),
    extra: Seq<AnswerView>,
) -> bool {
    (a.1 matches Err(StopView::Ask(_))) || (b.0 == answered(a.0, extra) && b.1 == a.1)
}

proof fn replay_attempted(w: World, r: Result<Val, StopView>, span: Span, extra: Seq<AnswerView>)
    ensures
        replays(attempted(w, r, span), attempted(answered(w, extra), r, span), extra),
{
}

proof fn replay_ticked(w: World, span: Span, extra: Seq<AnswerView>)
    ensures
        replays(ticked(w, span), ticked(answered(w, extra), span), extra),
        ticked(w, span).1 is Ok ==> ticked(w, span).0.steps > w.steps,
{
}

proof fn replay_pairs(
    w: World,
    op: BinOp,
    a: Val,
    b: Val,
    n: nat,
    acc: Seq<Val>,
    span: Span,
    hint: Option<Numeric>,
    extra: Seq<AnswerView>,
)
    ensures
        replays(
            pairs_from(w, op, a, b, n, acc, span, hint),
            pairs_from(answered(w, extra), op, a, b, n, acc, span, hint),
            extra,
        ),
    decreases n - acc.len(),
{
    if acc.len() < n {
        let i = acc.len() as int;
        let (w1, r) = pair_result(w, op, broadcast_item(a, i), broadcast_item(b, i), span, hint);
        if r is Ok {
            replay_pairs(w1, op, a, b, n, acc.push(r->Ok_0), span, hint, extra);
        }
    }
}

proof fn replay_binary(
    w: World,
    op: BinOp,
    a: Val,
    b: Val,
    span: Span,
    hint: Option<Numeric>,
    extra: Seq<AnswerView>,
)
    ensures
        replays(
            binary_result(w, op, a, b, span, hint),
            binary_result(answered(w, extra), op, a, b, span, hint),
            extra,
        ),
{
    match (a, b) {
        (Val::Array { items: x, .. }, Val::Array { items: y, .. }) => {
            replay_pairs(w, op, a, b, x.len(), Seq::empty(), span, hint, extra);
        },
        (Val::Array { items: x, .. }, _) => {
            replay_pairs(w, op, a, b, x.len(), Seq::empty(), span, hint, extra);
        },
        (_, Val::Array { items: y, .. }) => {
            replay_pairs(w, op, a, b, y.len(), Seq::empty(), span, hint, extra);
        },
        _ => {},
    }
}

proof fn replay_unaries(
    w: World,
    op: UnOp,
    items: Seq<Val>,
    acc: Seq<Val>,
    span: Span,
    hint: Option<Numeric>,
    extra: Seq<AnswerView>,
)
    ensures
        replays(
            unary_from(w, op, items, acc, span, hint),
            unary_from(answered(w, extra), op, items, acc, span, hint),
            extra,
        ),
    decreases items.len() - acc.len(),
{
    if acc.len() < items.len() {
        let r = attempted(w, unary_val(op, items[acc.len() as int], span, hint), span);
        replay_attempted(w, unary_val(op, items[acc.len() as int], span, hint), span, extra);
        if r.1 is Ok {
            replay_unaries(r.0, op, items, acc.push(r.1->Ok_0), span, hint, extra);
        }
    }
}

proof fn replay_unary(w: World, op: UnOp, v: Val, span: Span, hint: Option<Numeric>, extra: Seq<AnswerView>)
    ensures
        replays(unary_result(w, op, v, span, hint), unary_result(answered(w, extra), op, v, span, hint), extra),
{
    match v {
        Val::Array { items, .. } => {
            replay_unaries(w, op, items, Seq::empty(), span, hint, extra);
        },
        _ => {},
    }
}

proof fn replay_parameters(w: World, f: FuncDecl, vs: Seq<Val>, n: nat, extra: Seq<AnswerView>)
    ensures
        with_parameters(answered(w, extra), f, vs, n) == answered(with_parameters(w, f, vs, n), extra),
    decreases n,
{
    if n > 0 {
        replay_parameters(w, f, vs, (n - 1) as nat, extra);
    }
}

// ── statements ──────────────────────────────────────────────────────────────

#[verifier::spinoff_prover]
proof fn replay_block(d: nat, w: World, stmts: Vec<Stmt>, i: nat, extra: Seq<AnswerView>)
    ensures
        replays(block_from(d, w, stmts, i), block_from(d, answered(w, extra), stmts, i), extra),
    decreases d, stmts, stmts@.len() - i,
{
    if i < stmts@.len() {
        replay_statement(d, w, stmts@[i as int], extra);
        let (w1, r) = statement_result(d, w, stmts@[i as int]);
        if r matches Ok(FlowView::Normal) {
            replay_block(d, w1, stmts, i + 1, extra);
        }
    }
}

#[verifier::spinoff_prover]
proof fn replay_scoped(d: nat, w: World, stmts: Vec<Stmt>, extra: Seq<AnswerView>)
    ensures
        replays(scoped(d, w, stmts), scoped(d, answered(w, extra), stmts), extra),
    decreases d, stmts, stmts@.len() + 1,
{
    replay_block(d, opened(w), stmts, 0, extra);
}

#[verifier::spinoff_prover]
proof fn replay_statement(d: nat, w: World, s: Stmt, extra: Seq<AnswerView>)
    ensures
        replays(statement_result(d, w, s), statement_result(d, answered(w, extra), s), extra),
    decreases d, s, 0nat,
{
    match s {
        Stmt::Var(v) => {
            replay_bindings(d, w, v, 0, extra);
        },
        Stmt::Change(c) => {
            replay_targets(d, w, c, 0, extra);
        },
        Stmt::Func(_) => {},
        Stmt::If(chain) => {
            replay_chain(d, w, chain, 0, extra);
        },
        Stmt::Loop(l) => {
            replay_loop(d, w, l, extra);
        },
        Stmt::Print { args, .. } => {
            replay_texts(d, w, args, 0, Seq::empty(), extra);
        },
        Stmt::Handback { value, .. } => {
            replay_expr(d, w, value, None, extra);
        },
        Stmt::Expr(e) => {
            replay_expr(d, w, e, None, extra);
        },
    }
}

#[verifier::spinoff_prover]
proof fn replay_bindings(d: nat, w: World, v: VarDecl, i: nat, extra: Seq<AnswerView>)
    ensures
        replays(bindings_from(d, w, v, i), bindings_from(d, answered(w, extra), v, i), extra),
    decreases d, v, v.bindings@.len() - i,
{
    if i < v.bindings@.len() {
        let b = v.bindings@[i as int];
        match b.value {
            None => {
                let w1 = defined(w, b.name@, Val::Nothing);
                replay_bindings(d, w1, v, i + 1, extra);
            },
            Some(value) => {
                let hint = binding_context(v.ty, b.precision);
                replay_expr(d, w, value, hint, extra);
                let (w1, r) = expr_result(d, w, value, hint);
                if r is Ok {
                    match admitted(r->Ok_0, v.ty, b, value.span) {
                        Ok(t) => {
                            let w2 = defined(w1, b.name@, t);
                            replay_bindings(d, w2, v, i + 1, extra);
                        },
                        Err(_) => {},
                    }
                }
            },
        }
    }
}

#[verifier::spinoff_prover]
proof fn replay_targets(d: nat, w: World, c: ChangeStmt, i: nat, extra: Seq<AnswerView>)
    ensures
        replays(targets_from(d, w, c, i), targets_from(d, answered(w, extra), c, i), extra),
    decreases d, c, c.targets@.len() - i,
{
    if i < c.targets@.len() {
        let t = c.targets@[i as int];
        let hint = context_of(c.ty.base@, c.ty.precision);
        replay_expr(d, w, t.value, hint, extra);
        let (w1, r) = expr_result(d, w, t.value, hint);
        if r is Ok {
            let v = r->Ok_0;
            if t.selectors@.len() == 0 {
                let w2 = assigned(w1, t.name@, v);
                replay_targets(d, w2, c, i + 1, extra);
            } else {
                replay_element_change(d, w1, t, v, extra);
                let (w2, r2) = element_change(d, w1, t, v);
                if r2 is Ok {
                    replay_targets(d, w2, c, i + 1, extra);
                }
            }
        }
    }
}

#[verifier::spinoff_prover]
proof fn replay_element_change(d: nat, w: World, t: ChangeTarget, v: Val, extra: Seq<AnswerView>)
    ensures
        replays(element_change(d, w, t, v), element_change(d, answered(w, extra), t, v), extra),
    decreases d, t, 0nat,
{
    replay_indices(d, w, t.selectors, 0, Seq::empty(), extra);
}

#[verifier::spinoff_prover]
proof fn replay_indices(d: nat, w: World, sels: Vec<Selector>, i: nat, acc: Seq<i128>, extra: Seq<AnswerView>)
    ensures
        replays(indices_from(d, w, sels, i, acc), indices_from(d, answered(w, extra), sels, i, acc), extra),
    decreases d, sels, sels@.len() - i,
{
    if i < sels@.len() {
        match sels@[i as int] {
            Selector::Indices(items) => {
                replay_index_list(d, w, items, 0, acc, extra);
                let (w1, r) = index_list_from(d, w, items, 0, acc);
                if r is Ok {
                    replay_indices(d, w1, sels, i + 1, r->Ok_0, extra);
                }
            },
            _ => {
                replay_indices(d, w, sels, i + 1, acc, extra);
            },
        }
    }
}

#[verifier::spinoff_prover]
proof fn replay_index_list(d: nat, w: World, items: Vec<Expr>, i: nat, acc: Seq<i128>, extra: Seq<AnswerView>)
    ensures
        replays(
            index_list_from(d, w, items, i, acc),
            index_list_from(d, answered(w, extra), items, i, acc),
            extra,
        ),
    decreases d, items, items@.len() - i,
{
    if i < items@.len() {
        let hint = whole();
        replay_expr(d, w, items@[i as int], hint, extra);
        let (w1, r) = expr_result(d, w, items@[i as int], hint);
        if r is Ok {
            match index_from(r->Ok_0, items@[i as int].span) {
                Ok(n) => {
                    replay_index_list(d, w1, items, i + 1, acc.push(n), extra);
                },
                Err(_) => {},
            }
        }
    }
}

#[verifier::spinoff_prover]
proof fn replay_chain(d: nat, w: World, chain: IfChain, i: nat, extra: Seq<AnswerView>)
    ensures
        replays(chain_from(d, w, chain, i), chain_from(d, answered(w, extra), chain, i), extra),
    decreases d, chain, chain.arms@.len() - i,
{
    if i < chain.arms@.len() {
        let arm = chain.arms@[i as int];
        match arm.condition {
            None => {
                replay_scoped(d, w, arm.body, extra);
            },
            Some(cond) => {
                replay_expr(d, w, cond, None, extra);
                let (w1, r) = expr_result(d, w, cond, None);
                replay_scoped(d, w1, arm.body, extra);
                replay_chain(d, w1, chain, i + 1, extra);
            },
        }
    }
}

// ── loops ───────────────────────────────────────────────────────────────────

#[verifier::spinoff_prover]
proof fn replay_bounds(d: nat, w: World, range: Expr, extra: Seq<AnswerView>)
    ensures
        replays(bounds_result(d, w, range), bounds_result(d, answered(w, extra), range), extra),
    decreases d, range, 0nat,
{
    let hint = whole();
    match range_inside(range).kind {
        ExprKind::Range { from, to, by } => {
            replay_expr(d, w, *from, hint, extra);
            let (w1, f) = expr_result(d, w, *from, hint);
            if f is Ok {
                replay_expr(d, w1, *to, hint, extra);
                let (w2, t) = expr_result(d, w1, *to, hint);
                if t is Ok {
                    replay_step(d, w2, by, extra);
                }
            }
        },
        _ => {},
    }
}

#[verifier::spinoff_prover]
proof fn replay_step(d: nat, w: World, by: Option<Box<Expr>>, extra: Seq<AnswerView>)
    ensures
        replays(step_result(d, w, by), step_result(d, answered(w, extra), by), extra),
    decreases d, by, 0nat,
{
    match by {
        Some(b) => {
            replay_expr(d, w, *b, whole(), extra);
        },
        None => {},
    }
}

#[verifier::spinoff_prover]
proof fn replay_loop(d: nat, w: World, l: LoopStmt, extra: Seq<AnswerView>)
    ensures
        replays(loop_result(d, w, l), loop_result(d, answered(w, extra), l), extra),
    decreases d, l, u64::MAX + 1,
{
    match l.kind {
        LoopKind::Counted { var, range, .. } => {
            replay_bounds(d, w, range, extra);
            let (w1, r) = bounds_result(d, w, range);
            if r is Ok {
                let (from, to, by) = r->Ok_0;
                replay_counted(d, w1, l.body, var@, l.span, from as int, to as int, by as int, Seq::empty(), extra);
            }
        },
        LoopKind::While { .. } => {
            replay_while(d, w, l, Seq::empty(), extra);
        },
    }
}

#[verifier::spinoff_prover]
proof fn replay_counted(
    d: nat,
    w: World,
    body: Vec<Stmt>,
    var: Seq<char>,
    span: Span,
    i: int,
    to: int,
    by: int,
    acc: Seq<Val>,
    extra: Seq<AnswerView>,
)
    ensures
        replays(
            counted_from(d, w, body, var, span, i, to, by, acc),
            counted_from(d, answered(w, extra), body, var, span, i, to, by, acc),
            extra,
        ),
    decreases d, body, body@.len() + 2 + range_left(i, to, by),
{
    if in_range(i, to, by) {
        let (w1, t) = ticked(w, span);
        replay_ticked(w, span, extra);
        if t is Ok {
            let start = defined(opened(w1), var, Val::Int(i as i128));
            replay_block(d, start, body, 0, extra);
            let (w2, r) = block_from(d, start, body, 0);
            if r is Ok {
                replay_counted(d, closed_scope(w2), body, var, span, i + by, to, by, collected(acc, r->Ok_0), extra);
            }
        }
    }
}

#[verifier::spinoff_prover]
proof fn replay_while(d: nat, w: World, l: LoopStmt, acc: Seq<Val>, extra: Seq<AnswerView>)
    ensures
        replays(while_from(d, w, l, acc), while_from(d, answered(w, extra), l, acc), extra),
    decreases d, l, ticks_left(w),
{
    match l.kind {
        LoopKind::Counted { .. } => {},
        LoopKind::While { condition } => {
            let (w1, t) = ticked(w, l.span);
            replay_ticked(w, l.span, extra);
            if t is Ok {
                replay_expr(d, w1, condition, None, extra);
                let (w2, c) = expr_result(d, w1, condition, None);
                if c matches Ok(Val::Bool(true)) {
                    replay_scoped(d, w2, l.body, extra);
                    let (w3, r) = scoped(d, w2, l.body);
                    if r is Ok && w3.steps > w.steps {
                        replay_while(d, w3, l, collected(acc, r->Ok_0), extra);
                    }
                }
            }
        },
    }
}

// ── expressions ─────────────────────────────────────────────────────────────

#[verifier::spinoff_prover]
proof fn replay_expr(d: nat, w: World, e: Expr, hint: Option<Numeric>, extra: Seq<AnswerView>)
    ensures
        replays(expr_result(d, w, e, hint), expr_result(d, answered(w, extra), e, hint), extra),
    decreases d, e, 1nat,
{
    match e.kind {
        ExprKind::Math(inner) => {
            replay_expr(d, w, *inner, hint, extra);
        },
        ExprKind::Ref { name, selectors } => {
            match looked_up(w, name@) {
                Some(v) => {
                    replay_selectors(d, w, v, selectors, 0, 0, e.span, extra);
                },
                None => {},
            }
        },
        ExprKind::Binary { op, lhs, rhs } => {
            replay_expr(d, w, *lhs, hint, extra);
            let (w1, a) = expr_result(d, w, *lhs, hint);
            if a is Ok {
                replay_expr(d, w1, *rhs, hint, extra);
                let (w2, b) = expr_result(d, w1, *rhs, hint);
                if b is Ok {
                    let sums = !is_array_operator(op);
                    let x = operand(a->Ok_0, sums && bare(*lhs), lhs.span);
                    let y = operand(b->Ok_0, sums && bare(*rhs), rhs.span);
                    if x is Ok && y is Ok {
                        replay_binary(w2, op, x->Ok_0, y->Ok_0, e.span, hint, extra);
                    }
                }
            }
        },
        ExprKind::Unary { op, operand: inner } => {
            replay_expr(d, w, *inner, hint, extra);
            let (w1, r) = expr_result(d, w, *inner, hint);
            if r is Ok {
                match operand(r->Ok_0, op != UnOp::Not && bare(*inner), e.span) {
                    Ok(x) => {
                        replay_unary(w1, op, x, e.span, hint, extra);
                    },
                    Err(_) => {},
                }
            }
        },
        ExprKind::ArrayLit(items) => {
            replay_values(d, w, items, hint, 0, Seq::empty(), extra);
        },
        ExprKind::If(chain) => {
            replay_chain(d, w, chain, 0, extra);
        },
        ExprKind::Loop(l) => {
            replay_loop(d, w, *l, extra);
        },
        ExprKind::Call { name, args } => {
            replay_call(d, w, name@, args, e.span, extra);
        },
        ExprKind::Builtin { name, args } => {
            replay_builtin(d, w, name@, args, e.span, hint, extra);
        },
        _ => {},
    }
}

#[verifier::spinoff_prover]
proof fn replay_values(
    d: nat,
    w: World,
    items: Vec<Expr>,
    hint: Option<Numeric>,
    i: nat,
    acc: Seq<Val>,
    extra: Seq<AnswerView>,
)
    ensures
        replays(
            values_from(d, w, items, hint, i, acc),
            values_from(d, answered(w, extra), items, hint, i, acc),
            extra,
        ),
    decreases d, items, items@.len() - i,
{
    if i < items@.len() {
        replay_expr(d, w, items@[i as int], hint, extra);
        let (w1, r) = expr_result(d, w, items@[i as int], hint);
        if r is Ok {
            replay_values(d, w1, items, hint, i + 1, acc.push(r->Ok_0), extra);
        }
    }
}

#[verifier::spinoff_prover]
proof fn replay_texts(d: nat, w: World, items: Vec<Expr>, i: nat, acc: Seq<char>, extra: Seq<AnswerView>)
    ensures
        replays(texts_from(d, w, items, i, acc), texts_from(d, answered(w, extra), items, i, acc), extra),
    decreases d, items, items@.len() - i,
{
    if i < items@.len() {
        replay_expr(d, w, items@[i as int], None, extra);
        let (w1, r) = expr_result(d, w, items@[i as int], None);
        if r is Ok {
            replay_texts(d, w1, items, i + 1, acc + val_text(r->Ok_0), extra);
        }
    }
}

#[verifier::spinoff_prover]
proof fn replay_arguments(
    d: nat,
    w: World,
    f: FuncDecl,
    args: Vec<Expr>,
    i: nat,
    acc: Seq<Val>,
    extra: Seq<AnswerView>,
)
    ensures
        replays(
            arguments_from(d, w, f, args, i, acc),
            arguments_from(d, answered(w, extra), f, args, i, acc),
            extra,
        ),
    decreases d, args, args@.len() - i,
{
    if i < args@.len() {
        let hint = parameter_context(f, i);
        replay_expr(d, w, args@[i as int], hint, extra);
        let (w1, r) = expr_result(d, w, args@[i as int], hint);
        if r is Ok {
            replay_arguments(d, w1, f, args, i + 1, acc.push(r->Ok_0), extra);
        }
    }
}

#[verifier::spinoff_prover]
proof fn replay_call(d: nat, w: World, name: Seq<char>, args: Vec<Expr>, span: Span, extra: Seq<AnswerView>)
    ensures
        replays(call_result(d, w, name, args, span), call_result(d, answered(w, extra), name, args, span), extra),
    decreases d, args, args@.len() + 1,
{
    match function_named(w.functions, name, w.functions.len()) {
        None => {},
        Some(k) => {
            let f = w.functions[k];
            replay_arguments(d, w, f, args, 0, Seq::empty(), extra);
            let (w1, r) = arguments_from(d, w, f, args, 0, Seq::empty());
            if r is Ok && d > 0 {
                let vs = r->Ok_0;
                let n = parameters_given(f, vs);
                let start = with_parameters(opened(w1), f, vs, n);
                replay_parameters(opened(w1), f, vs, n, extra);
                replay_block((d - 1) as nat, start, f.body, 0, extra);
            }
        },
    }
}

#[verifier::spinoff_prover]
proof fn replay_first_text(d: nat, w: World, args: Vec<Expr>, extra: Seq<AnswerView>)
    ensures
        replays(first_text(d, w, args), first_text(d, answered(w, extra), args), extra),
    decreases d, args, args@.len() + 1,
{
    if args@.len() > 0 {
        replay_expr(d, w, args@[0], None, extra);
    }
}

#[verifier::spinoff_prover]
proof fn replay_builtin(
    d: nat,
    w: World,
    name: Seq<char>,
    args: Vec<Expr>,
    span: Span,
    hint: Option<Numeric>,
    extra: Seq<AnswerView>,
)
    ensures
        replays(
            builtin_result(d, w, name, args, span, hint),
            builtin_result(d, answered(w, extra), name, args, span, hint),
            extra,
        ),
    decreases d, args, args@.len() + 2,
{
    if name == "print"@ {
        replay_texts(d, w, args, 0, Seq::empty(), extra);
    } else if name == "read"@ {
        replay_first_text(d, w, args, extra);
    } else if name == "parse"@ {
        replay_first_text(d, w, args, extra);
    }
}

// ── selectors ───────────────────────────────────────────────────────────────

#[verifier::spinoff_prover]
proof fn replay_selectors(
    d: nat,
    w: World,
    v: Val,
    sels: Vec<Selector>,
    start: nat,
    i: nat,
    span: Span,
    extra: Seq<AnswerView>,
)
    ensures
        replays(
            selectors_from(d, w, v, sels, start, i, span),
            selectors_from(d, answered(w, extra), v, sels, start, i, span),
            extra,
        ),
    decreases d, sels, sels@.len() + 2 + (if i < sels@.len() { sels@.len() - i } else { 0 }),
{
    if i >= sels@.len() {
        replay_run(d, w, v, sels, start, sels@.len(), span, extra);
    } else {
        replay_run(d, w, v, sels, start, i, span, extra);
        replay_selectors(d, w, v, sels, start, i + 1, span, extra);
        let (w1, r) = run_result(d, w, v, sels, start, i, span);
        if r is Ok {
            match queried(r->Ok_0, sels@[i as int], span) {
                Ok(y) => {
                    replay_selectors(d, w1, y, sels, i + 1, i + 1, span, extra);
                },
                Err(_) => {},
            }
        }
    }
}

#[verifier::spinoff_prover]
proof fn replay_run(
    d: nat,
    w: World,
    v: Val,
    sels: Vec<Selector>,
    start: nat,
    end: nat,
    span: Span,
    extra: Seq<AnswerView>,
)
    ensures
        replays(
            run_result(d, w, v, sels, start, end, span),
            run_result(d, answered(w, extra), v, sels, start, end, span),
            extra,
        ),
    decreases d, sels, sels@.len() + 1,
{
    match v {
        Val::Array { shape, .. } => {
            replay_picks(d, w, shape, sels, start, start, end, span, Seq::empty(), Seq::empty(), extra);
        },
        _ => {},
    }
}

#[verifier::spinoff_prover]
proof fn replay_picks(
    d: nat,
    w: World,
    shape: Seq<usize>,
    sels: Vec<Selector>,
    start: nat,
    k: nat,
    end: nat,
    span: Span,
    picks: Seq<Seq<i128>>,
    single: Seq<bool>,
    extra: Seq<AnswerView>,
)
    ensures
        replays(
            picks_from(d, w, shape, sels, start, k, end, span, picks, single),
            picks_from(d, answered(w, extra), shape, sels, start, k, end, span, picks, single),
            extra,
        ),
    decreases d, sels, (if k < sels@.len() { sels@.len() - k } else { 0 }),
{
    if k < end && k < sels@.len() {
        let dim = k - start;
        replay_dimension(d, w, sels@[k as int], dim, shape[dim], span, extra);
        let (w1, r) = dimension_result(d, w, sels@[k as int], dim, shape[dim], span);
        if r is Ok {
            let (chosen, one) = r->Ok_0;
            replay_picks(d, w1, shape, sels, start, k + 1, end, span, picks.push(chosen), single.push(one), extra);
        }
    }
}

#[verifier::spinoff_prover]
proof fn replay_dimension(
    d: nat,
    w: World,
    sel: Selector,
    dim: int,
    extent: usize,
    span: Span,
    extra: Seq<AnswerView>,
)
    ensures
        replays(
            dimension_result(d, w, sel, dim, extent, span),
            dimension_result(d, answered(w, extra), sel, dim, extent, span),
            extra,
        ),
    decreases d, sel, 1nat,
{
    replay_positions(d, w, sel, extent, span, extra);
}

#[verifier::spinoff_prover]
proof fn replay_int(d: nat, w: World, e: Expr, extra: Seq<AnswerView>)
    ensures
        replays(int_result_of(d, w, e), int_result_of(d, answered(w, extra), e), extra),
    decreases d, e, 2nat,
{
    replay_expr(d, w, e, whole(), extra);
}

#[verifier::spinoff_prover]
proof fn replay_positions(d: nat, w: World, sel: Selector, extent: usize, span: Span, extra: Seq<AnswerView>)
    ensures
        replays(
            positions_result(d, w, sel, extent, span),
            positions_result(d, answered(w, extra), sel, extent, span),
            extra,
        ),
    decreases d, sel, 0nat,
{
    match sel {
        Selector::Indices(items) => {
            replay_index_list(d, w, items, 0, Seq::empty(), extra);
        },
        Selector::Range { from, to, by } => {
            replay_int(d, w, *from, extra);
            let (w1, f) = int_result_of(d, w, *from);
            if f is Ok {
                replay_int(d, w1, *to, extra);
                let (w2, t) = int_result_of(d, w1, *to);
                if t is Ok {
                    replay_step(d, w2, by, extra);
                }
            }
        },
        _ => {},
    }
}

// ── laws ────────────────────────────────────────────────────────────────────

/// A program that did not stop for want of an answer prints the same and ends the same
/// whatever else is answered.
pub proof fn further_answers_change_nothing(p: Program, answers: Seq<AnswerView>, extra: Seq<AnswerView>)
    requires
        run_meaning(p, answers).request is None,
    ensures
        run_meaning(p, answers + extra) == run_meaning(p, answers),
{
    let w = fresh_world(functions_in(p.statements@, p.statements@.len()), answers);
    replay_block(u64::MAX as nat, w, p.statements, 0, extra);
}

} // verus!
