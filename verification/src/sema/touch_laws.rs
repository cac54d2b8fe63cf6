//! What evaluating may change is not believed afterwards.

use vstd::prelude::*;

use crate::ast::{ChangeStmt, Expr, ExprKind, IfChain, LoopKind, LoopStmt, Selector, Stmt, VarDecl};
use crate::sema::analysis::{
    calm, calmed, touched_arms, touched_bindings, touched_block, touched_by_functions, touched_expr,
    touched_exprs, touched_head, touched_loop, touched_maybe, touched_selector, touched_selectors,
    touched_statement, touched_targets, untouched, without, Ranges, Touched,
};
use crate::sema::interval::{anything, range_in};

verus! {

/// What evaluating may do: change a variable, or call a function.
pub enum Deed {
    Changes(Seq<char>),
    Calls,
}

/// Whether something is among what may be touched.
pub open spec fn noted(t: Touched, d: Deed) -> bool {
    match d {
        Deed::Changes(name) => t.names.contains(name),
        Deed::Calls => t.calls,
    }
}

// ── what does it ────────────────────────────────────────────────────────────

pub open spec fn expr_does(e: Expr, d: Deed) -> bool
    decreases e, 1nat,
{
    match e.kind {
        ExprKind::Math(inner) => expr_does(*inner, d),
        ExprKind::Ref { selectors, .. } => selectors_do(selectors, 0, d),
        ExprKind::Binary { lhs, rhs, .. } => expr_does(*lhs, d) || expr_does(*rhs, d),
        ExprKind::Unary { operand, .. } => expr_does(*operand, d),
        ExprKind::ArrayLit(items) => exprs_do(items, 0, d),
        ExprKind::If(chain) => arms_do(chain, 0, d),
        ExprKind::Loop(l) => loop_does(*l, d),
        ExprKind::Range { from, to, by } => expr_does(*from, d) || expr_does(*to, d) || maybe_does(by, d),
        ExprKind::Call { args, .. } => d is Calls || exprs_do(args, 0, d),
        ExprKind::Builtin { args, .. } => exprs_do(args, 0, d),
        _ => false,
    }
}

pub open spec fn exprs_do(items: Vec<Expr>, i: nat, d: Deed) -> bool
    decreases items, items@.len() - i,
{
    i < items@.len() && (expr_does(items@[i as int], d) || exprs_do(items, i + 1, d))
}

pub open spec fn maybe_does(e: Option<Box<Expr>>, d: Deed) -> bool
    decreases e, 0nat,
{
    match e {
        Some(x) => expr_does(*x, d),
        None => false,
    }
}

pub open spec fn selector_does(sel: Selector, d: Deed) -> bool
    decreases sel, 0nat,
{
    match sel {
        Selector::Indices(items) => exprs_do(items, 0, d),
        Selector::Range { from, to, by } => expr_does(*from, d) || expr_does(*to, d) || maybe_does(by, d),
        _ => false,
    }
}

pub open spec fn selectors_do(sels: Vec<Selector>, i: nat, d: Deed) -> bool
    decreases sels, sels@.len() - i,
{
    i < sels@.len() && (selector_does(sels@[i as int], d) || selectors_do(sels, i + 1, d))
}

pub open spec fn bindings_do(v: VarDecl, i: nat, d: Deed) -> bool
    decreases v, v.bindings@.len() - i,
{
    i < v.bindings@.len() && ((match v.bindings@[i as int].value {
        Some(e) => expr_does(e, d),
        None => false,
    }) || bindings_do(v, i + 1, d))
}

pub open spec fn targets_do(c: ChangeStmt, i: nat, d: Deed) -> bool
    decreases c, c.targets@.len() - i,
{
    i < c.targets@.len() && (d == Deed::Changes(c.targets@[i as int].name@) || expr_does(c.targets@[i as int].value, d) || selectors_do(
        c.targets@[i as int].selectors,
        0,
        d,
    ) || targets_do(c, i + 1, d))
}

pub open spec fn arms_do(chain: IfChain, i: nat, d: Deed) -> bool
    decreases chain, chain.arms@.len() - i,
{
    i < chain.arms@.len() && ((match chain.arms@[i as int].condition {
        Some(e) => expr_does(e, d),
        None => false,
    }) || block_does(chain.arms@[i as int].body, 0, d) || arms_do(chain, i + 1, d))
}

pub open spec fn loop_does(l: LoopStmt, d: Deed) -> bool
    decreases l, 1nat,
{
    (match l.kind {
        LoopKind::Counted { range, .. } => expr_does(range, d),
        LoopKind::While { condition } => expr_does(condition, d),
    }) || block_does(l.body, 0, d)
}

/// Whether a statement does it, in what stands inside it too. A function does nothing until it
/// is called.
pub open spec fn statement_does(stmt: Stmt, d: Deed) -> bool
    decreases stmt, 0nat,
{
    match stmt {
        Stmt::Var(v) => bindings_do(v, 0, d),
        Stmt::Change(c) => targets_do(c, 0, d),
        Stmt::Func(_) => false,
        Stmt::If(chain) => arms_do(chain, 0, d),
        Stmt::Loop(l) => loop_does(l, d),
        Stmt::Print { args, .. } => exprs_do(args, 0, d),
        Stmt::Handback { value, .. } => expr_does(value, d),
        Stmt::Expr(e) => expr_does(e, d),
    }
}

pub open spec fn block_does(stmts: Vec<Stmt>, i: nat, d: Deed) -> bool
    decreases stmts, stmts@.len() - i,
{
    i < stmts@.len() && (statement_does(stmts@[i as int], d) || block_does(stmts, i + 1, d))
}

// ── all of it is noted ──────────────────────────────────────────────────────

proof fn notes_expr(e: Expr, t: Touched, d: Deed)
    ensures
        noted(t, d) || expr_does(e, d) ==> noted(touched_expr(e, t), d),
    decreases e, 1nat,
{
    match e.kind {
        ExprKind::Math(inner) => notes_expr(*inner, t, d),
        ExprKind::Ref { selectors, .. } => notes_selectors(selectors, 0, t, d),
        ExprKind::Binary { lhs, rhs, .. } => {
            notes_expr(*lhs, t, d);
            notes_expr(*rhs, touched_expr(*lhs, t), d);
        },
        ExprKind::Unary { operand, .. } => notes_expr(*operand, t, d),
        ExprKind::ArrayLit(items) => notes_exprs(items, 0, t, d),
        ExprKind::If(chain) => notes_arms(chain, 0, t, d),
        ExprKind::Loop(l) => notes_loop(*l, t, d),
        ExprKind::Range { from, to, by } => {
            notes_expr(*from, t, d);
            notes_expr(*to, touched_expr(*from, t), d);
            notes_maybe(by, touched_expr(*to, touched_expr(*from, t)), d);
        },
        ExprKind::Call { args, .. } => notes_exprs(args, 0, Touched { calls: true, ..t }, d),
        ExprKind::Builtin { args, .. } => notes_exprs(args, 0, t, d),
        _ => {},
    }
}

proof fn notes_exprs(items: Vec<Expr>, i: nat, t: Touched, d: Deed)
    ensures
        noted(t, d) || exprs_do(items, i, d) ==> noted(touched_exprs(items, i, t), d),
    decreases items, items@.len() - i,
{
    if i < items@.len() {
        notes_expr(items@[i as int], t, d);
        notes_exprs(items, i + 1, touched_expr(items@[i as int], t), d);
    }
}

proof fn notes_maybe(e: Option<Box<Expr>>, t: Touched, d: Deed)
    ensures
        noted(t, d) || maybe_does(e, d) ==> noted(touched_maybe(e, t), d),
    decreases e, 0nat,
{
    if let Some(x) = e {
        notes_expr(*x, t, d);
    }
}

proof fn notes_selector(sel: Selector, t: Touched, d: Deed)
    ensures
        noted(t, d) || selector_does(sel, d) ==> noted(touched_selector(sel, t), d),
    decreases sel, 0nat,
{
    match sel {
        Selector::Indices(items) => notes_exprs(items, 0, t, d),
        Selector::Range { from, to, by } => {
            notes_expr(*from, t, d);
            notes_expr(*to, touched_expr(*from, t), d);
            notes_maybe(by, touched_expr(*to, touched_expr(*from, t)), d);
        },
        _ => {},
    }
}

proof fn notes_selectors(sels: Vec<Selector>, i: nat, t: Touched, d: Deed)
    ensures
        noted(t, d) || selectors_do(sels, i, d) ==> noted(touched_selectors(sels, i, t), d),
    decreases sels, sels@.len() - i,
{
    if i < sels@.len() {
        notes_selector(sels@[i as int], t, d);
        notes_selectors(sels, i + 1, touched_selector(sels@[i as int], t), d);
    }
}

proof fn notes_bindings(v: VarDecl, i: nat, t: Touched, d: Deed)
    ensures
        noted(t, d) || bindings_do(v, i, d) ==> noted(touched_bindings(v, i, t), d),
    decreases v, v.bindings@.len() - i,
{
    if i < v.bindings@.len() {
        if let Some(e) = v.bindings@[i as int].value {
            notes_expr(e, t, d);
            notes_bindings(v, i + 1, touched_expr(e, t), d);
        } else {
            notes_bindings(v, i + 1, t, d);
        }
    }
}

proof fn notes_targets(c: ChangeStmt, i: nat, t: Touched, d: Deed)
    ensures
        noted(t, d) || targets_do(c, i, d) ==> noted(touched_targets(c, i, true, t), d),
    decreases c, c.targets@.len() - i,
{
    if i < c.targets@.len() {
        let x = c.targets@[i as int];
        let t0 = touched_selectors(x.selectors, 0, t);
        let t1 = touched_expr(x.value, t0);
        notes_selectors(x.selectors, 0, t, d);
        notes_expr(x.value, t0, d);
        let t2 = Touched { names: t1.names.push(x.name@), ..t1 };
        assert(t2.names[t1.names.len() as int] == x.name@);
        if let Deed::Changes(name) = d {
            if t1.names.contains(name) {
                let k = choose|k: int| 0 <= k < t1.names.len() && t1.names[k] == name;
                assert(t2.names[k] == name);
            }
        }
        notes_targets(c, i + 1, t2, d);
    }
}

proof fn notes_arms(chain: IfChain, i: nat, t: Touched, d: Deed)
    ensures
        noted(t, d) || arms_do(chain, i, d) ==> noted(touched_arms(chain, i, t), d),
    decreases chain, chain.arms@.len() - i,
{
    if i < chain.arms@.len() {
        let arm = chain.arms@[i as int];
        let t1 = match arm.condition {
            Some(e) => touched_expr(e, t),
            None => t,
        };
        if let Some(e) = arm.condition {
            notes_expr(e, t, d);
        }
        notes_block(arm.body, 0, t1, d);
        notes_arms(chain, i + 1, touched_block(arm.body, 0, t1), d);
    }
}

proof fn notes_loop(l: LoopStmt, t: Touched, d: Deed)
    ensures
        noted(t, d) || loop_does(l, d) ==> noted(touched_loop(l, t), d),
    decreases l, 1nat,
{
    match l.kind {
        LoopKind::Counted { range, .. } => notes_expr(range, t, d),
        LoopKind::While { condition } => notes_expr(condition, t, d),
    }
    notes_block(l.body, 0, touched_head(l, t), d);
}

proof fn notes_statement(stmt: Stmt, t: Touched, d: Deed)
    ensures
        noted(t, d) || statement_does(stmt, d) ==> noted(touched_statement(stmt, t), d),
    decreases stmt, 0nat,
{
    match stmt {
        Stmt::Var(v) => notes_bindings(v, 0, t, d),
        Stmt::Change(c) => notes_targets(c, 0, t, d),
        Stmt::Func(_) => {},
        Stmt::If(chain) => notes_arms(chain, 0, t, d),
        Stmt::Loop(l) => notes_loop(l, t, d),
        Stmt::Print { args, .. } => notes_exprs(args, 0, t, d),
        Stmt::Handback { value, .. } => notes_expr(value, t, d),
        Stmt::Expr(e) => notes_expr(e, t, d),
    }
}

proof fn notes_block(stmts: Vec<Stmt>, i: nat, t: Touched, d: Deed)
    ensures
        noted(t, d) || block_does(stmts, i, d) ==> noted(touched_block(stmts, i, t), d),
    decreases stmts, stmts@.len() - i,
{
    if i < stmts@.len() {
        notes_statement(stmts@[i as int], t, d);
        notes_block(stmts, i + 1, touched_statement(stmts@[i as int], t), d);
    }
}

// ── laws ────────────────────────────────────────────────────────────────────

/// Whatever the body of a function changes, in conditionals, loops and expressions too, is
/// among what a call may change.
pub proof fn what_functions_change_is_noted(stmts: Seq<Stmt>, n: nat, k: int, name: Seq<char>)
    requires
        0 <= k < n <= stmts.len(),
        stmts[k] matches Stmt::Func(f) && block_does(f.body, 0, Deed::Changes(name)),
    ensures
        touched_by_functions(stmts, n).names.contains(name),
    decreases n,
{
    let d = Deed::Changes(name);
    let t = touched_by_functions(stmts, (n - 1) as nat);
    if k < n - 1 {
        what_functions_change_is_noted(stmts, (n - 1) as nat, k, name);
    }
    if let Stmt::Func(f) = stmts[n - 1] {
        notes_block(f.body, 0, t, d);
    }
}

proof fn lemma_forgotten(s: Ranges, names: Seq<Seq<char>>, n: nat, name: Seq<char>)
    requires
        n <= names.len(),
    ensures
        (exists|k: int| 0 <= k < n && names[k] == name) ==> !without(s, names, n).dom().contains(name),
        !s.dom().contains(name) ==> !without(s, names, n).dom().contains(name),
        (forall|k: int| 0 <= k < n ==> names[k] != name) ==> range_in(without(s, names, n), name) == range_in(s, name),
    decreases n,
{
    if n > 0 {
        lemma_forgotten(s, names, (n - 1) as nat, name);
        if exists|k: int| 0 <= k < n && names[k] == name {
            let k = choose|k: int| 0 <= k < n && names[k] == name;
            if k < n - 1 {
                assert(names[k] == name);
            }
        }
    }
}

/// Once an expression has been evaluated nothing is believed of what it may have changed: what
/// it changes itself, and where it calls a function what any function changes.
pub proof fn what_may_have_changed_is_forgotten(fs: Seq<Seq<char>>, s: Ranges, e: Expr, name: Seq<char>)
    requires
        expr_does(e, Deed::Changes(name)) || (expr_does(e, Deed::Calls) && fs.contains(name)),
    ensures
        range_in(calm(fs, s, e), name) == anything(),
{
    notes_expr(e, untouched(), Deed::Changes(name));
    notes_expr(e, untouched(), Deed::Calls);
    let t = touched_expr(e, untouched());
    let s1 = without(s, t.names, t.names.len());
    lemma_forgotten(s, t.names, t.names.len(), name);
    lemma_forgotten(s1, fs, fs.len(), name);
    if t.names.contains(name) {
        let k = choose|k: int| 0 <= k < t.names.len() && t.names[k] == name;
        assert(t.names[k] == name);
    }
    if fs.contains(name) {
        let k = choose|k: int| 0 <= k < fs.len() && fs[k] == name;
        assert(fs[k] == name);
    }
}

/// What nothing evaluated can change is known as before.
pub proof fn nothing_else_is_forgotten(fs: Seq<Seq<char>>, s: Ranges, t: Touched, name: Seq<char>)
    requires
        !t.names.contains(name),
        t.calls ==> !fs.contains(name),
    ensures
        range_in(calmed(fs, s, t), name) == range_in(s, name),
{
    lemma_forgotten(s, t.names, t.names.len(), name);
    lemma_forgotten(without(s, t.names, t.names.len()), fs, fs.len(), name);
}

} // verus!
