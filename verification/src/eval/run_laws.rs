//! What holds of every run: output only grows, names stay in the block that declares them,
//! and the count of steps never goes back.

use vstd::prelude::*;

use crate::ast::{
    BinOp, ChangeStmt, ChangeTarget, Expr, ExprKind, FuncDecl, IfChain, LoopKind, LoopStmt, Selector, Stmt,
    UnOp, VarDecl,
};
use crate::diagnostics::position::Span;
use crate::eval::numeric::{binding_context, context_of, Numeric};
use crate::eval::ops::StopView;
use crate::eval::select::{in_range, range_left};
use crate::eval::semantics::{
    admitted, arguments_from, assigned, attempted, binary_result, bindings_from, block_from, bounds_result,
    broadcast_item, builtin_result, call_result, chain_from, closed_scope, collected, counted_from, defined,
    dimension_result, element_change, expr_result, first_text, function_named, holder, index_list_from,
    indices_from, int_result_of, loop_result, opened, pair_result, pairs_from, parameter_context,
    parameters_given, picks_from, positions_result, printed, queried, range_inside, run_result, scoped,
    selectors_from, statement_result, step_result, targets_from, texts_from, ticked, ticks_left, unary_from,
    unary_result, values_from, while_from, with_element, with_parameters, FlowView, World,
};
use crate::eval::value::Val;

verus! {

/// What no step of a run takes back.
pub open spec fn kept(a: World, b: World) -> bool {
    &&& a.frames.len() == b.frames.len()
    &&& a.functions == b.functions
    &&& a.limit == b.limit
    &&& a.answers == b.answers
    &&& a.steps <= b.steps
    &&& a.asked <= b.asked
    &&& a.lines.len() <= b.lines.len()
    &&& forall|i: int| 0 <= i < a.lines.len() ==> #[trigger] b.lines[i] == a.lines[i]
}

/// A step after which every scope has the names it had.
pub open spec fn still(a: World, b: World) -> bool {
    &&& kept(a, b)
    &&& forall|i: int| 0 <= i < a.frames.len() ==> (#[trigger] b.frames[i]).dom() == a.frames[i].dom()
}

/// A step that may declare names in the innermost scope, and in no other.
pub open spec fn grown(a: World, b: World) -> bool {
    &&& kept(a, b)
    &&& a.frames.len() > 0
    &&& forall|i: int| 0 <= i < a.frames.len() - 1 ==> (#[trigger] b.frames[i]).dom() == a.frames[i].dom()
    &&& a.frames.last().dom().subset_of(b.frames.last().dom())
}

proof fn lemma_still_then(a: World, b: World, c: World)
    requires
        still(a, b),
        still(b, c),
    ensures
        still(a, c),
{
    assert forall|i: int| 0 <= i < a.lines.len() implies #[trigger] c.lines[i] == a.lines[i] by {
        assert(b.lines[i] == a.lines[i]);
    }
    assert forall|i: int| 0 <= i < a.frames.len() implies (#[trigger] c.frames[i]).dom() == a.frames[i].dom() by {
        assert(b.frames[i].dom() == a.frames[i].dom());
    }
}

proof fn lemma_grown_then(a: World, b: World, c: World)
    requires
        grown(a, b),
        grown(b, c),
    ensures
        grown(a, c),
{
    assert forall|i: int| 0 <= i < a.lines.len() implies #[trigger] c.lines[i] == a.lines[i] by {
        assert(b.lines[i] == a.lines[i]);
    }
    assert forall|i: int| 0 <= i < a.frames.len() - 1 implies (#[trigger] c.frames[i]).dom() == a.frames[i].dom() by {
        assert(b.frames[i].dom() == a.frames[i].dom());
    }
}

proof fn lemma_still_grows(a: World, b: World)
    requires
        still(a, b),
        a.frames.len() > 0,
    ensures
        grown(a, b),
{
    assert(b.frames[a.frames.len() - 1].dom() == a.frames[a.frames.len() - 1].dom());
}

proof fn lemma_defined(w: World, name: Seq<char>, v: Val)
    requires
        w.frames.len() > 0,
    ensures
        grown(w, defined(w, name, v)),
{
}

proof fn lemma_holder(frames: Seq<Map<Seq<char>, Val>>, name: Seq<char>, n: nat)
    requires
        n <= frames.len(),
    ensures
        holder(frames, name, n) matches Some(i) ==> 0 <= i < n && frames[i].dom().contains(name),
    decreases n,
{
    if n > 0 && !frames[n - 1].dom().contains(name) {
        lemma_holder(frames, name, (n - 1) as nat);
    }
}

proof fn lemma_assigned(w: World, name: Seq<char>, v: Val)
    requires
        w.frames.len() > 0,
    ensures
        grown(w, assigned(w, name, v)),
        holder(w.frames, name, w.frames.len()) is Some ==> still(w, assigned(w, name, v)),
{
    lemma_holder(w.frames, name, w.frames.len());
    match holder(w.frames, name, w.frames.len()) {
        Some(i) => {
            assert(w.frames[i].insert(name, v).dom() =~= w.frames[i].dom());
        },
        None => {},
    }
}

/// A scope opened, worked in and closed again leaves the names outside as they were.
proof fn lemma_closed(a: World, b: World)
    requires
        grown(opened(a), b),
    ensures
        still(a, closed_scope(b)),
{
    let o = opened(a);
    let c = closed_scope(b);
    assert forall|i: int| 0 <= i < a.lines.len() implies #[trigger] c.lines[i] == a.lines[i] by {
        assert(b.lines[i] == o.lines[i]);
    }
    assert forall|i: int| 0 <= i < a.frames.len() implies (#[trigger] c.frames[i]).dom() == a.frames[i].dom() by {
        assert(b.frames[i].dom() == o.frames[i].dom());
    }
}

proof fn lemma_printed(w: World, line: Seq<char>)
    ensures
        still(w, printed(w, line)),
{
}

proof fn lemma_attempted(w: World, r: Result<Val, StopView>, span: Span)
    ensures
        still(w, attempted(w, r, span).0),
{
}

proof fn lemma_ticked(w: World, span: Span)
    ensures
        still(w, ticked(w, span).0),
        ticked(w, span).1 is Ok ==> ticked(w, span).0.steps > w.steps && w.steps < u64::MAX,
{
}

proof fn lemma_pairs(
    w: World,
    op: BinOp,
    a: Val,
    b: Val,
    n: nat,
    acc: Seq<Val>,
    span: Span,
    hint: Option<Numeric>,
)
    ensures
        still(w, pairs_from(w, op, a, b, n, acc, span, hint).0),
    decreases n - acc.len(),
{
    if acc.len() < n {
        let i = acc.len() as int;
        let (w1, r) = pair_result(w, op, broadcast_item(a, i), broadcast_item(b, i), span, hint);
        assert(still(w, w1));
        if r is Ok {
            lemma_pairs(w1, op, a, b, n, acc.push(r->Ok_0), span, hint);
            lemma_still_then(w, w1, pairs_from(w, op, a, b, n, acc, span, hint).0);
        }
    }
}

proof fn lemma_binary(w: World, op: BinOp, a: Val, b: Val, span: Span, hint: Option<Numeric>)
    ensures
        still(w, binary_result(w, op, a, b, span, hint).0),
{
    match (a, b) {
        (Val::Array { items: x, .. }, Val::Array { items: y, .. }) => {
            lemma_pairs(w, op, a, b, x.len(), Seq::empty(), span, hint);
        },
        (Val::Array { items: x, .. }, _) => {
            lemma_pairs(w, op, a, b, x.len(), Seq::empty(), span, hint);
        },
        (_, Val::Array { items: y, .. }) => {
            lemma_pairs(w, op, a, b, y.len(), Seq::empty(), span, hint);
        },
        _ => {},
    }
}

proof fn lemma_unaries(w: World, op: UnOp, items: Seq<Val>, acc: Seq<Val>, span: Span, hint: Option<Numeric>)
    ensures
        still(w, unary_from(w, op, items, acc, span, hint).0),
    decreases items.len() - acc.len(),
{
    if acc.len() < items.len() {
        let r = attempted(w, crate::eval::ops::unary_val(op, items[acc.len() as int], span, hint), span);
        lemma_attempted(w, crate::eval::ops::unary_val(op, items[acc.len() as int], span, hint), span);
        if r.1 is Ok {
            lemma_unaries(r.0, op, items, acc.push(r.1->Ok_0), span, hint);
            lemma_still_then(w, r.0, unary_from(w, op, items, acc, span, hint).0);
        }
    }
}

proof fn lemma_unary(w: World, op: UnOp, v: Val, span: Span, hint: Option<Numeric>)
    ensures
        still(w, unary_result(w, op, v, span, hint).0),
{
    match v {
        Val::Array { items, .. } => {
            lemma_unaries(w, op, items, Seq::empty(), span, hint);
        },
        _ => {},
    }
}

proof fn lemma_parameters(w: World, f: FuncDecl, vs: Seq<Val>, n: nat)
    requires
        w.frames.len() > 0,
    ensures
        grown(w, with_parameters(w, f, vs, n)),
    decreases n,
{
    if n > 0 {
        lemma_parameters(w, f, vs, (n - 1) as nat);
        let w1 = with_parameters(w, f, vs, (n - 1) as nat);
        lemma_defined(w1, f.params@[n - 1].name@, vs[n - 1]);
        lemma_grown_then(w, w1, with_parameters(w, f, vs, n));
    }
}

// ── statements ──────────────────────────────────────────────────────────────

proof fn lemma_block(d: nat, w: World, stmts: Vec<Stmt>, i: nat)
    requires
        w.frames.len() > 0,
    ensures
        grown(w, block_from(d, w, stmts, i).0),
    decreases d, stmts, stmts@.len() - i,
{
    if i < stmts@.len() {
        lemma_statement(d, w, stmts@[i as int]);
        let (w1, r) = statement_result(d, w, stmts@[i as int]);
        if r matches Ok(FlowView::Normal) {
            lemma_block(d, w1, stmts, i + 1);
            lemma_grown_then(w, w1, block_from(d, w, stmts, i).0);
        }
    }
}

proof fn lemma_scoped(d: nat, w: World, stmts: Vec<Stmt>)
    ensures
        still(w, scoped(d, w, stmts).0),
    decreases d, stmts, stmts@.len() + 1,
{
    lemma_block(d, opened(w), stmts, 0);
    lemma_closed(w, block_from(d, opened(w), stmts, 0).0);
}

proof fn lemma_statement(d: nat, w: World, s: Stmt)
    requires
        w.frames.len() > 0,
    ensures
        grown(w, statement_result(d, w, s).0),
    decreases d, s, 0nat,
{
    match s {
        Stmt::Var(v) => {
            lemma_bindings(d, w, v, 0);
        },
        Stmt::Change(c) => {
            lemma_targets(d, w, c, 0);
        },
        Stmt::Func(_) => {},
        Stmt::If(chain) => {
            lemma_chain(d, w, chain, 0);
            lemma_still_grows(w, chain_from(d, w, chain, 0).0);
        },
        Stmt::Loop(l) => {
            lemma_loop(d, w, l);
            lemma_still_grows(w, loop_result(d, w, l).0);
        },
        Stmt::Print { args, .. } => {
            lemma_texts(d, w, args, 0, Seq::empty());
            let (w1, r) = texts_from(d, w, args, 0, Seq::empty());
            if r is Ok {
                lemma_printed(w1, r->Ok_0);
                lemma_still_then(w, w1, printed(w1, r->Ok_0));
            }
            lemma_still_grows(w, statement_result(d, w, s).0);
        },
        Stmt::Handback { value, .. } => {
            lemma_expr(d, w, value, None);
            lemma_still_grows(w, expr_result(d, w, value, None).0);
        },
        Stmt::Expr(e) => {
            lemma_expr(d, w, e, None);
            lemma_still_grows(w, expr_result(d, w, e, None).0);
        },
    }
}

proof fn lemma_bindings(d: nat, w: World, v: VarDecl, i: nat)
    requires
        w.frames.len() > 0,
    ensures
        grown(w, bindings_from(d, w, v, i).0),
    decreases d, v, v.bindings@.len() - i,
{
    if i < v.bindings@.len() {
        let b = v.bindings@[i as int];
        match b.value {
            None => {
                let w1 = defined(w, b.name@, Val::Nothing);
                lemma_defined(w, b.name@, Val::Nothing);
                lemma_bindings(d, w1, v, i + 1);
                lemma_grown_then(w, w1, bindings_from(d, w, v, i).0);
            },
            Some(value) => {
                let hint = binding_context(v.ty, b.precision);
                lemma_expr(d, w, value, hint);
                let (w1, r) = expr_result(d, w, value, hint);
                lemma_still_grows(w, w1);
                if r is Ok {
                    match admitted(r->Ok_0, v.ty, b, value.span) {
                        Ok(t) => {
                            let w2 = defined(w1, b.name@, t);
                            lemma_defined(w1, b.name@, t);
                            lemma_grown_then(w, w1, w2);
                            lemma_bindings(d, w2, v, i + 1);
                            lemma_grown_then(w, w2, bindings_from(d, w, v, i).0);
                        },
                        Err(_) => {},
                    }
                }
            },
        }
    }
}

proof fn lemma_targets(d: nat, w: World, c: ChangeStmt, i: nat)
    requires
        w.frames.len() > 0,
    ensures
        grown(w, targets_from(d, w, c, i).0),
    decreases d, c, c.targets@.len() - i,
{
    if i < c.targets@.len() {
        let t = c.targets@[i as int];
        let hint = context_of(c.ty.base@, c.ty.precision);
        lemma_expr(d, w, t.value, hint);
        let (w1, r) = expr_result(d, w, t.value, hint);
        lemma_still_grows(w, w1);
        if r is Ok {
            let v = r->Ok_0;
            if t.selectors@.len() == 0 {
                let w2 = assigned(w1, t.name@, v);
                lemma_assigned(w1, t.name@, v);
                lemma_grown_then(w, w1, w2);
                lemma_targets(d, w2, c, i + 1);
                lemma_grown_then(w, w2, targets_from(d, w2, c, i + 1).0);
            } else {
                lemma_element_change(d, w1, t, v);
                let (w2, r2) = element_change(d, w1, t, v);
                lemma_still_grows(w1, w2);
                lemma_grown_then(w, w1, w2);
                if r2 is Ok {
                    lemma_targets(d, w2, c, i + 1);
                    lemma_grown_then(w, w2, targets_from(d, w2, c, i + 1).0);
                }
            }
        }
    }
}

proof fn lemma_element_change(d: nat, w: World, t: ChangeTarget, v: Val)
    requires
        w.frames.len() > 0,
    ensures
        still(w, element_change(d, w, t, v).0),
    decreases d, t, 0nat,
{
    lemma_indices(d, w, t.selectors, 0, Seq::empty());
    let (w1, r) = indices_from(d, w, t.selectors, 0, Seq::empty());
    if r is Ok {
        let w2 = with_element(w1, t, r->Ok_0, v).0;
        match crate::eval::semantics::looked_up(w1, t.name@) {
            Some(Val::Array { items, shape }) => {
                match crate::eval::select::element_at(items.len(), shape, r->Ok_0) {
                    Some(o) => {
                        lemma_assigned(w1, t.name@, Val::Array { items: items.update(o, v), shape });
                    },
                    None => {},
                }
            },
            _ => {},
        }
        assert(still(w1, w2));
        lemma_still_then(w, w1, w2);
    }
}

proof fn lemma_indices(d: nat, w: World, sels: Vec<Selector>, i: nat, acc: Seq<i128>)
    ensures
        still(w, indices_from(d, w, sels, i, acc).0),
    decreases d, sels, sels@.len() - i,
{
    if i < sels@.len() {
        match sels@[i as int] {
            Selector::Indices(items) => {
                lemma_index_list(d, w, items, 0, acc);
                let (w1, r) = index_list_from(d, w, items, 0, acc);
                if r is Ok {
                    lemma_indices(d, w1, sels, i + 1, r->Ok_0);
                    lemma_still_then(w, w1, indices_from(d, w, sels, i, acc).0);
                }
            },
            _ => {
                lemma_indices(d, w, sels, i + 1, acc);
            },
        }
    }
}

proof fn lemma_index_list(d: nat, w: World, items: Vec<Expr>, i: nat, acc: Seq<i128>)
    ensures
        still(w, index_list_from(d, w, items, i, acc).0),
    decreases d, items, items@.len() - i,
{
    if i < items@.len() {
        let hint = crate::eval::numeric::whole();
        lemma_expr(d, w, items@[i as int], hint);
        let (w1, r) = expr_result(d, w, items@[i as int], hint);
        if r is Ok {
            match crate::eval::numeric::index_from(r->Ok_0, items@[i as int].span) {
                Ok(n) => {
                    lemma_index_list(d, w1, items, i + 1, acc.push(n));
                    lemma_still_then(w, w1, index_list_from(d, w, items, i, acc).0);
                },
                Err(_) => {},
            }
        }
    }
}

proof fn lemma_chain(d: nat, w: World, chain: IfChain, i: nat)
    ensures
        still(w, chain_from(d, w, chain, i).0),
    decreases d, chain, chain.arms@.len() - i,
{
    if i < chain.arms@.len() {
        let arm = chain.arms@[i as int];
        match arm.condition {
            None => {
                lemma_scoped(d, w, arm.body);
            },
            Some(cond) => {
                lemma_expr(d, w, cond, None);
                let (w1, r) = expr_result(d, w, cond, None);
                lemma_scoped(d, w1, arm.body);
                lemma_still_then(w, w1, scoped(d, w1, arm.body).0);
                lemma_chain(d, w1, chain, i + 1);
                lemma_still_then(w, w1, chain_from(d, w1, chain, i + 1).0);
            },
        }
    }
}

// ── loops ───────────────────────────────────────────────────────────────────

proof fn lemma_bounds(d: nat, w: World, range: Expr)
    ensures
        still(w, bounds_result(d, w, range).0),
    decreases d, range, 0nat,
{
    let hint = crate::eval::numeric::whole();
    match range_inside(range).kind {
        ExprKind::Range { from, to, by } => {
            lemma_expr(d, w, *from, hint);
            let (w1, f) = expr_result(d, w, *from, hint);
            if f is Ok {
                lemma_expr(d, w1, *to, hint);
                let (w2, t) = expr_result(d, w1, *to, hint);
                lemma_still_then(w, w1, w2);
                if t is Ok {
                    lemma_step(d, w2, by);
                    lemma_still_then(w, w2, step_result(d, w2, by).0);
                }
            }
        },
        _ => {},
    }
}

proof fn lemma_step(d: nat, w: World, by: Option<Box<Expr>>)
    ensures
        still(w, step_result(d, w, by).0),
    decreases d, by, 0nat,
{
    match by {
        Some(b) => {
            lemma_expr(d, w, *b, crate::eval::numeric::whole());
        },
        None => {},
    }
}

proof fn lemma_loop(d: nat, w: World, l: LoopStmt)
    ensures
        still(w, loop_result(d, w, l).0),
    decreases d, l, u64::MAX + 1,
{
    match l.kind {
        LoopKind::Counted { var, range, .. } => {
            lemma_bounds(d, w, range);
            let (w1, r) = bounds_result(d, w, range);
            if r is Ok {
                let (from, to, by) = r->Ok_0;
                lemma_counted(d, w1, l.body, var@, l.span, from as int, to as int, by as int, Seq::empty());
                lemma_still_then(w, w1, loop_result(d, w, l).0);
            }
        },
        LoopKind::While { .. } => {
            lemma_while(d, w, l, Seq::empty());
        },
    }
}

proof fn lemma_counted(
    d: nat,
    w: World,
    body: Vec<Stmt>,
    var: Seq<char>,
    span: Span,
    i: int,
    to: int,
    by: int,
    acc: Seq<Val>,
)
    ensures
        still(w, counted_from(d, w, body, var, span, i, to, by, acc).0),
    decreases d, body, body@.len() + 2 + range_left(i, to, by),
{
    if in_range(i, to, by) {
        let (w1, t) = ticked(w, span);
        lemma_ticked(w, span);
        if t is Ok {
            let start = defined(opened(w1), var, Val::Int(i as i128));
            lemma_defined(opened(w1), var, Val::Int(i as i128));
            lemma_block(d, start, body, 0);
            let (w2, r) = block_from(d, start, body, 0);
            lemma_grown_then(opened(w1), start, w2);
            lemma_closed(w1, w2);
            lemma_still_then(w, w1, closed_scope(w2));
            if r is Ok {
                lemma_counted(d, closed_scope(w2), body, var, span, i + by, to, by, collected(acc, r->Ok_0));
                lemma_still_then(
                    w,
                    closed_scope(w2),
                    counted_from(d, w, body, var, span, i, to, by, acc).0,
                );
            }
        }
    }
}

proof fn lemma_while(d: nat, w: World, l: LoopStmt, acc: Seq<Val>)
    ensures
        still(w, while_from(d, w, l, acc).0),
    decreases d, l, ticks_left(w),
{
    match l.kind {
        LoopKind::Counted { .. } => {},
        LoopKind::While { condition } => {
            let (w1, t) = ticked(w, l.span);
            lemma_ticked(w, l.span);
            if t is Ok {
                lemma_expr(d, w1, condition, None);
                let (w2, c) = expr_result(d, w1, condition, None);
                lemma_still_then(w, w1, w2);
                if c matches Ok(Val::Bool(true)) {
                    lemma_scoped(d, w2, l.body);
                    let (w3, r) = scoped(d, w2, l.body);
                    lemma_still_then(w, w2, w3);
                    assert(w3.steps > w.steps);
                    if r is Ok {
                        lemma_while(d, w3, l, collected(acc, r->Ok_0));
                        lemma_still_then(w, w3, while_from(d, w3, l, collected(acc, r->Ok_0)).0);
                    }
                }
            }
        },
    }
}

// ── expressions ─────────────────────────────────────────────────────────────

proof fn lemma_expr(d: nat, w: World, e: Expr, hint: Option<Numeric>)
    ensures
        still(w, expr_result(d, w, e, hint).0),
    decreases d, e, 1nat,
{
    let out = expr_result(d, w, e, hint).0;
    match e.kind {
        ExprKind::Math(inner) => {
            lemma_expr(d, w, *inner, hint);
        },
        ExprKind::Ref { name, selectors } => {
            match crate::eval::semantics::looked_up(w, name@) {
                Some(v) => {
                    lemma_selectors(d, w, v, selectors, 0, 0, e.span);
                },
                None => {},
            }
        },
        ExprKind::Binary { op, lhs, rhs } => {
            lemma_expr(d, w, *lhs, hint);
            let (w1, a) = expr_result(d, w, *lhs, hint);
            if a is Ok {
                lemma_expr(d, w1, *rhs, hint);
                let (w2, b) = expr_result(d, w1, *rhs, hint);
                lemma_still_then(w, w1, w2);
                if out != w2 {
                    lemma_operands(d, w, e, hint);
                }
            }
        },
        ExprKind::Unary { op, operand: inner } => {
            lemma_expr(d, w, *inner, hint);
            let (w1, r) = expr_result(d, w, *inner, hint);
            if r is Ok {
                match crate::eval::semantics::operand(
                    r->Ok_0,
                    op != UnOp::Not && crate::eval::semantics::bare(*inner),
                    e.span,
                ) {
                    Ok(x) => {
                        lemma_unary(w1, op, x, e.span, hint);
                        lemma_still_then(w, w1, unary_result(w1, op, x, e.span, hint).0);
                    },
                    Err(_) => {},
                }
            }
        },
        ExprKind::ArrayLit(items) => {
            lemma_values(d, w, items, hint, 0, Seq::empty());
        },
        ExprKind::If(chain) => {
            lemma_chain(d, w, chain, 0);
        },
        ExprKind::Loop(l) => {
            lemma_loop(d, w, *l);
        },
        ExprKind::Call { name, args } => {
            lemma_call(d, w, name@, args, e.span);
        },
        ExprKind::Builtin { name, args } => {
            lemma_builtin(d, w, name@, args, e.span, hint);
        },
        _ => {},
    }
}

/// The operator itself, once both sides are values.
proof fn lemma_operands(d: nat, w: World, e: Expr, hint: Option<Numeric>)
    requires
        e.kind is Binary,
        expr_result(d, w, *e.kind->Binary_lhs, hint).1 is Ok,
        ({
            let w1 = expr_result(d, w, *e.kind->Binary_lhs, hint).0;
            still(w, expr_result(d, w1, *e.kind->Binary_rhs, hint).0)
        }),
    ensures
        still(w, expr_result(d, w, e, hint).0),
{
    match e.kind {
        ExprKind::Binary { op, lhs, rhs } => {
            let (w1, a) = expr_result(d, w, *lhs, hint);
            let (w2, b) = expr_result(d, w1, *rhs, hint);
            if b is Ok {
                let sums = !crate::eval::semantics::is_array_operator(op);
                let x = crate::eval::semantics::operand(
                    a->Ok_0,
                    sums && crate::eval::semantics::bare(*lhs),
                    lhs.span,
                );
                let y = crate::eval::semantics::operand(
                    b->Ok_0,
                    sums && crate::eval::semantics::bare(*rhs),
                    rhs.span,
                );
                if x is Ok && y is Ok {
                    lemma_binary(w2, op, x->Ok_0, y->Ok_0, e.span, hint);
                    lemma_still_then(w, w2, binary_result(w2, op, x->Ok_0, y->Ok_0, e.span, hint).0);
                }
            }
        },
        _ => {},
    }
}

proof fn lemma_values(d: nat, w: World, items: Vec<Expr>, hint: Option<Numeric>, i: nat, acc: Seq<Val>)
    ensures
        still(w, values_from(d, w, items, hint, i, acc).0),
    decreases d, items, items@.len() - i,
{
    if i < items@.len() {
        lemma_expr(d, w, items@[i as int], hint);
        let (w1, r) = expr_result(d, w, items@[i as int], hint);
        if r is Ok {
            lemma_values(d, w1, items, hint, i + 1, acc.push(r->Ok_0));
            lemma_still_then(w, w1, values_from(d, w, items, hint, i, acc).0);
        }
    }
}

proof fn lemma_texts(d: nat, w: World, items: Vec<Expr>, i: nat, acc: Seq<char>)
    ensures
        still(w, texts_from(d, w, items, i, acc).0),
    decreases d, items, items@.len() - i,
{
    if i < items@.len() {
        lemma_expr(d, w, items@[i as int], None);
        let (w1, r) = expr_result(d, w, items@[i as int], None);
        if r is Ok {
            lemma_texts(d, w1, items, i + 1, acc + crate::eval::value::val_text(r->Ok_0));
            lemma_still_then(w, w1, texts_from(d, w, items, i, acc).0);
        }
    }
}

proof fn lemma_arguments(d: nat, w: World, f: FuncDecl, args: Vec<Expr>, i: nat, acc: Seq<Val>)
    ensures
        still(w, arguments_from(d, w, f, args, i, acc).0),
    decreases d, args, args@.len() - i,
{
    if i < args@.len() {
        let hint = parameter_context(f, i);
        lemma_expr(d, w, args@[i as int], hint);
        let (w1, r) = expr_result(d, w, args@[i as int], hint);
        if r is Ok {
            lemma_arguments(d, w1, f, args, i + 1, acc.push(r->Ok_0));
            lemma_still_then(w, w1, arguments_from(d, w, f, args, i, acc).0);
        }
    }
}

proof fn lemma_call(d: nat, w: World, name: Seq<char>, args: Vec<Expr>, span: Span)
    ensures
        still(w, call_result(d, w, name, args, span).0),
    decreases d, args, args@.len() + 1,
{
    match function_named(w.functions, name, w.functions.len()) {
        None => {},
        Some(k) => {
            let f = w.functions[k];
            lemma_arguments(d, w, f, args, 0, Seq::empty());
            let (w1, r) = arguments_from(d, w, f, args, 0, Seq::empty());
            if r is Ok && d > 0 {
                let vs = r->Ok_0;
                let n = parameters_given(f, vs);
                let start = with_parameters(opened(w1), f, vs, n);
                lemma_parameters(opened(w1), f, vs, n);
                lemma_block((d - 1) as nat, start, f.body, 0);
                let w2 = block_from((d - 1) as nat, start, f.body, 0).0;
                lemma_grown_then(opened(w1), start, w2);
                lemma_closed(w1, w2);
                lemma_still_then(w, w1, closed_scope(w2));
            }
        },
    }
}

proof fn lemma_first_text(d: nat, w: World, args: Vec<Expr>)
    ensures
        still(w, first_text(d, w, args).0),
    decreases d, args, args@.len() + 1,
{
    if args@.len() > 0 {
        lemma_expr(d, w, args@[0], None);
    }
}

proof fn lemma_builtin(d: nat, w: World, name: Seq<char>, args: Vec<Expr>, span: Span, hint: Option<Numeric>)
    ensures
        still(w, builtin_result(d, w, name, args, span, hint).0),
    decreases d, args, args@.len() + 2,
{
    let out = builtin_result(d, w, name, args, span, hint).0;
    if name == "print"@ {
        lemma_texts(d, w, args, 0, Seq::empty());
        let (w1, r) = texts_from(d, w, args, 0, Seq::empty());
        if r is Ok {
            lemma_printed(w1, r->Ok_0);
            lemma_still_then(w, w1, out);
        }
    } else if name == "read"@ {
        lemma_first_text(d, w, args);
        let (w1, r) = first_text(d, w, args);
        if r is Ok {
            assert(still(w1, out));
            lemma_still_then(w, w1, out);
        }
    } else if name == "parse"@ {
        lemma_first_text(d, w, args);
    }
}

// ── selectors ───────────────────────────────────────────────────────────────

proof fn lemma_selectors(d: nat, w: World, v: Val, sels: Vec<Selector>, start: nat, i: nat, span: Span)
    ensures
        still(w, selectors_from(d, w, v, sels, start, i, span).0),
    decreases d, sels, sels@.len() + 2 + (if i < sels@.len() { sels@.len() - i } else { 0 }),
{
    if i >= sels@.len() {
        lemma_run(d, w, v, sels, start, sels@.len(), span);
    } else {
        lemma_run(d, w, v, sels, start, i, span);
        lemma_selectors(d, w, v, sels, start, i + 1, span);
        let (w1, r) = run_result(d, w, v, sels, start, i, span);
        if r is Ok {
            match queried(r->Ok_0, sels@[i as int], span) {
                Ok(y) => {
                    lemma_selectors(d, w1, y, sels, i + 1, i + 1, span);
                    lemma_still_then(w, w1, selectors_from(d, w1, y, sels, i + 1, i + 1, span).0);
                },
                Err(_) => {},
            }
        }
    }
}

proof fn lemma_run(d: nat, w: World, v: Val, sels: Vec<Selector>, start: nat, end: nat, span: Span)
    ensures
        still(w, run_result(d, w, v, sels, start, end, span).0),
    decreases d, sels, sels@.len() + 1,
{
    match v {
        Val::Array { shape, .. } => {
            lemma_picks(d, w, shape, sels, start, start, end, span, Seq::empty(), Seq::empty());
        },
        _ => {},
    }
}

proof fn lemma_picks(
    d: nat,
    w: World,
    shape: Seq<usize>,
    sels: Vec<Selector>,
    start: nat,
    k: nat,
    end: nat,
    span: Span,
    picks: Seq<Seq<i128>>,
    single: Seq<bool>,
)
    ensures
        still(w, picks_from(d, w, shape, sels, start, k, end, span, picks, single).0),
    decreases d, sels, (if k < sels@.len() { sels@.len() - k } else { 0 }),
{
    if k < end && k < sels@.len() {
        let dim = k - start;
        lemma_dimension(d, w, sels@[k as int], dim, shape[dim], span);
        let (w1, r) = dimension_result(d, w, sels@[k as int], dim, shape[dim], span);
        if r is Ok {
            let (chosen, one) = r->Ok_0;
            lemma_picks(d, w1, shape, sels, start, k + 1, end, span, picks.push(chosen), single.push(one));
            lemma_still_then(w, w1, picks_from(d, w, shape, sels, start, k, end, span, picks, single).0);
        }
    }
}

proof fn lemma_dimension(d: nat, w: World, sel: Selector, dim: int, extent: usize, span: Span)
    ensures
        still(w, dimension_result(d, w, sel, dim, extent, span).0),
    decreases d, sel, 1nat,
{
    lemma_positions(d, w, sel, extent, span);
}

proof fn lemma_int(d: nat, w: World, e: Expr)
    ensures
        still(w, int_result_of(d, w, e).0),
    decreases d, e, 2nat,
{
    lemma_expr(d, w, e, crate::eval::numeric::whole());
}

proof fn lemma_positions(d: nat, w: World, sel: Selector, extent: usize, span: Span)
    ensures
        still(w, positions_result(d, w, sel, extent, span).0),
    decreases d, sel, 0nat,
{
    match sel {
        Selector::Indices(items) => {
            lemma_index_list(d, w, items, 0, Seq::empty());
        },
        Selector::Range { from, to, by } => {
            lemma_int(d, w, *from);
            let (w1, f) = int_result_of(d, w, *from);
            if f is Ok {
                lemma_int(d, w1, *to);
                let (w2, t) = int_result_of(d, w1, *to);
                lemma_still_then(w, w1, w2);
                if t is Ok {
                    lemma_step(d, w2, by);
                    lemma_still_then(w, w2, step_result(d, w2, by).0);
                }
            }
        },
        _ => {},
    }
}

// ── laws ────────────────────────────────────────────────────────────────────

/// A block declares nothing outside itself, however it ends: every scope around it has the
/// names it had, what was printed stays printed, and no step is uncounted.
pub proof fn a_block_keeps_its_names_to_itself(d: nat, w: World, stmts: Vec<Stmt>)
    ensures
        still(w, scoped(d, w, stmts).0),
{
    lemma_scoped(d, w, stmts);
}

/// Evaluating an expression declares nothing, even where it calls functions or runs blocks.
pub proof fn an_expression_declares_nothing(d: nat, w: World, e: Expr, hint: Option<Numeric>)
    ensures
        still(w, expr_result(d, w, e, hint).0),
{
    lemma_expr(d, w, e, hint);
}

/// A statement declares names in its own scope only, and takes back nothing that was
/// printed.
pub proof fn a_statement_declares_in_its_own_scope(d: nat, w: World, s: Stmt)
    requires
        w.frames.len() > 0,
    ensures
        grown(w, statement_result(d, w, s).0),
{
    lemma_statement(d, w, s);
}

} // verus!
