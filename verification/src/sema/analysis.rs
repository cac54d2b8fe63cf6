//! What range analysis knows at each point of a program, and what follows from it.

use vstd::prelude::*;

use crate::ast::{
    BinOp, Binding, ChangeStmt, ChangeTarget, Expr, ExprKind, FuncDecl, IfChain, LoopKind, LoopStmt,
    Precision, Program, Selector, Sign, Stmt, TypeRef, UnOp, VarDecl,
};
use crate::diagnostics::error::{fault_view, Category, ErrorView};
use crate::diagnostics::informer::{told, InformerView};
use crate::diagnostics::position::{BytePos, Span};
use crate::eval::numeric::width_bounds;
use crate::eval::parse::parsed_int;
use crate::eval::semantics::range_inside;
use crate::sema::interval::{
    anything, joined, joined_states, met, only_value, range_above, range_at_least, range_at_most, range_below,
    range_difference, range_in, range_negation, range_product, range_sum, range_text, stays, widened_states,
    Interval,
};
use crate::text::{int_text, nat_text};

verus! {

/// What each variable can hold.
pub type Ranges = Map<Seq<char>, Interval>;

// ── expressions ─────────────────────────────────────────────────────────────

/// The range of a number as it is written.
pub open spec fn literal_range(t: Seq<char>) -> Interval {
    match parsed_int(t, 10) {
        Some(n) => Interval { lo: Some(n as i128), hi: Some(n as i128) },
        None => anything(),
    }
}

/// The range an expression can produce.
pub open spec fn expr_range(e: Expr, s: Ranges) -> Interval
    decreases e,
{
    match e.kind {
        ExprKind::Math(inner) => expr_range(*inner, s),
        ExprKind::Number(t) => literal_range(t@),
        ExprKind::Literal(t) => literal_range(t@),
        ExprKind::Ref { name, selectors } => if selectors@.len() == 0 {
            range_in(s, name@)
        } else {
            anything()
        },
        ExprKind::Unary { op, operand } => if op == UnOp::Neg {
            range_negation(expr_range(*operand, s))
        } else {
            anything()
        },
        ExprKind::Binary { op, lhs, rhs } => match op {
            BinOp::Add => range_sum(expr_range(*lhs, s), expr_range(*rhs, s)),
            BinOp::Sub => range_difference(expr_range(*lhs, s), expr_range(*rhs, s)),
            BinOp::Mul => range_product(expr_range(*lhs, s), expr_range(*rhs, s)),
            _ => anything(),
        },
        _ => anything(),
    }
}

/// The variable that an expression names, where it names one and nothing else.
pub open spec fn named_by(e: Expr) -> Option<Seq<char>>
    decreases e,
{
    match e.kind {
        ExprKind::Ref { name, selectors } => if selectors@.len() == 0 {
            Some(name@)
        } else {
            None
        },
        ExprKind::Math(inner) => named_by(*inner),
        _ => None,
    }
}

/// The comparison that holds where another does not.
pub open spec fn opposite(op: BinOp) -> BinOp {
    match op {
        BinOp::Greater => BinOp::LessEq,
        BinOp::GreaterEq => BinOp::Less,
        BinOp::Less => BinOp::GreaterEq,
        BinOp::LessEq => BinOp::Greater,
        BinOp::Eq => BinOp::NotEq,
        BinOp::NotEq => BinOp::Eq,
        _ => op,
    }
}

/// A range once a comparison with a number is known to hold.
pub open spec fn narrowed_range(op: BinOp, current: Interval, b: i128) -> Interval {
    match op {
        BinOp::Greater => range_above(current, b),
        BinOp::GreaterEq => range_at_least(current, b),
        BinOp::Less => range_below(current, b),
        BinOp::LessEq => range_at_most(current, b),
        BinOp::Eq => met(current, Interval { lo: Some(b), hi: Some(b) }),
        _ => current,
    }
}

/// A condition applied, either as taken or as not taken. Only comparisons of a variable
/// with one number say anything.
pub open spec fn narrowed(s: Ranges, cond: Expr, taken: bool) -> Ranges {
    match range_inside(cond).kind {
        ExprKind::Binary { op, lhs, rhs } => match (named_by(*lhs), only_value(expr_range(*rhs, s))) {
            (Some(name), Some(b)) => s.insert(
                name,
                narrowed_range(
                    if taken {
                        op
                    } else {
                        opposite(op)
                    },
                    range_in(s, name),
                    b,
                ),
            ),
            _ => s,
        },
        _ => s,
    }
}

/// The range a counted loop's counter takes.
pub open spec fn counter_range(range: Expr, s: Ranges) -> Interval {
    match range_inside(range).kind {
        ExprKind::Range { from, to, .. } => {
            let f = expr_range(*from, s);
            let t = expr_range(*to, s);
            joined(Interval { lo: f.lo, hi: t.hi }, Interval { lo: t.lo, hi: f.hi })
        },
        _ => anything(),
    }
}

/// The range a value starts with, from its declared refinement.
pub open spec fn promised_range(sign: Option<Sign>) -> Interval {
    match sign {
        Some(Sign::Positive) => Interval { lo: Some(1), hi: None },
        Some(Sign::Negative) => Interval { lo: None, hi: Some((-1) as i128) },
        None => anything(),
    }
}

pub open spec fn binding_range(b: Binding, s: Ranges) -> Interval {
    match b.value {
        Some(e) => expr_range(e, s),
        None => anything(),
    }
}

// ── what evaluating may change ──────────────────────────────────────────────

/// What evaluating something may change: the names it changes itself, and what functions
/// change where it calls any.
#[verifier::ext_equal]
pub struct Touched {
    pub names: Seq<Seq<char>>,
    pub calls: bool,
}

pub open spec fn untouched() -> Touched {
    Touched { names: Seq::empty(), calls: false }
}

pub open spec fn touched_expr(e: Expr, t: Touched) -> Touched
    decreases e, 1nat,
{
    match e.kind {
        ExprKind::Math(inner) => touched_expr(*inner, t),
        ExprKind::Ref { selectors, .. } => touched_selectors(selectors, 0, t),
        ExprKind::Binary { lhs, rhs, .. } => touched_expr(*rhs, touched_expr(*lhs, t)),
        ExprKind::Unary { operand, .. } => touched_expr(*operand, t),
        ExprKind::ArrayLit(items) => touched_exprs(items, 0, t),
        ExprKind::If(chain) => touched_arms(chain, 0, t),
        ExprKind::Loop(l) => touched_loop(*l, t),
        ExprKind::Range { from, to, by } => touched_maybe(by, touched_expr(*to, touched_expr(*from, t))),
        ExprKind::Call { args, .. } => touched_exprs(args, 0, Touched { calls: true, ..t }),
        ExprKind::Builtin { args, .. } => touched_exprs(args, 0, t),
        _ => t,
    }
}

pub open spec fn touched_exprs(items: Vec<Expr>, i: nat, t: Touched) -> Touched
    decreases items, items@.len() - i,
{
    if i >= items@.len() {
        t
    } else {
        touched_exprs(items, i + 1, touched_expr(items@[i as int], t))
    }
}

pub open spec fn touched_maybe(e: Option<Box<Expr>>, t: Touched) -> Touched
    decreases e, 0nat,
{
    match e {
        Some(x) => touched_expr(*x, t),
        None => t,
    }
}

pub open spec fn touched_selector(sel: Selector, t: Touched) -> Touched
    decreases sel, 0nat,
{
    match sel {
        Selector::Indices(items) => touched_exprs(items, 0, t),
        Selector::Range { from, to, by } => touched_maybe(by, touched_expr(*to, touched_expr(*from, t))),
        _ => t,
    }
}

pub open spec fn touched_selectors(sels: Vec<Selector>, i: nat, t: Touched) -> Touched
    decreases sels, sels@.len() - i,
{
    if i >= sels@.len() {
        t
    } else {
        touched_selectors(sels, i + 1, touched_selector(sels@[i as int], t))
    }
}

pub open spec fn touched_bindings(v: VarDecl, i: nat, t: Touched) -> Touched
    decreases v, v.bindings@.len() - i,
{
    if i >= v.bindings@.len() {
        t
    } else {
        touched_bindings(
            v,
            i + 1,
            match v.bindings@[i as int].value {
                Some(e) => touched_expr(e, t),
                None => t,
            },
        )
    }
}

/// What the values and selectors of a change touch; `names` says whether the names that it
/// changes count too.
pub open spec fn touched_targets(c: ChangeStmt, i: nat, names: bool, t: Touched) -> Touched
    decreases c, c.targets@.len() - i,
{
    if i >= c.targets@.len() {
        t
    } else {
        let x = c.targets@[i as int];
        let t1 = touched_expr(x.value, touched_selectors(x.selectors, 0, t));
        touched_targets(
            c,
            i + 1,
            names,
            if names {
                Touched { names: t1.names.push(x.name@), ..t1 }
            } else {
                t1
            },
        )
    }
}

/// The conditions of a conditional from the `i`-th arm on.
pub open spec fn touched_conditions(chain: IfChain, i: nat, t: Touched) -> Touched
    decreases chain, chain.arms@.len() - i,
{
    if i >= chain.arms@.len() {
        t
    } else {
        touched_conditions(
            chain,
            i + 1,
            match chain.arms@[i as int].condition {
                Some(e) => touched_expr(e, t),
                None => t,
            },
        )
    }
}

/// A conditional from its `i`-th arm on.
pub open spec fn touched_arms(chain: IfChain, i: nat, t: Touched) -> Touched
    decreases chain, chain.arms@.len() - i,
{
    if i >= chain.arms@.len() {
        t
    } else {
        let arm = chain.arms@[i as int];
        let t1 = match arm.condition {
            Some(e) => touched_expr(e, t),
            None => t,
        };
        touched_arms(chain, i + 1, touched_block(arm.body, 0, t1))
    }
}

/// The range or the condition of a loop.
pub open spec fn touched_head(l: LoopStmt, t: Touched) -> Touched
    decreases l, 0nat,
{
    match l.kind {
        LoopKind::Counted { range, .. } => touched_expr(range, t),
        LoopKind::While { condition } => touched_expr(condition, t),
    }
}

pub open spec fn touched_loop(l: LoopStmt, t: Touched) -> Touched
    decreases l, 1nat,
{
    touched_block(l.body, 0, touched_head(l, t))
}

pub open spec fn touched_statement(stmt: Stmt, t: Touched) -> Touched
    decreases stmt, 0nat,
{
    match stmt {
        Stmt::Var(v) => touched_bindings(v, 0, t),
        Stmt::Change(c) => touched_targets(c, 0, true, t),
        Stmt::Func(_) => t,
        Stmt::If(chain) => touched_arms(chain, 0, t),
        Stmt::Loop(l) => touched_loop(l, t),
        Stmt::Print { args, .. } => touched_exprs(args, 0, t),
        Stmt::Handback { value, .. } => touched_expr(value, t),
        Stmt::Expr(e) => touched_expr(e, t),
    }
}

pub open spec fn touched_block(stmts: Vec<Stmt>, i: nat, t: Touched) -> Touched
    decreases stmts, stmts@.len() - i,
{
    if i >= stmts@.len() {
        t
    } else {
        touched_block(stmts, i + 1, touched_statement(stmts@[i as int], t))
    }
}

/// What the functions among the first `n` statements touch.
pub open spec fn touched_by_functions(stmts: Seq<Stmt>, n: nat) -> Touched
    decreases n,
{
    if n == 0 {
        untouched()
    } else {
        let t = touched_by_functions(stmts, (n - 1) as nat);
        match stmts[n - 1] {
            Stmt::Func(f) => touched_block(f.body, 0, t),
            _ => t,
        }
    }
}

/// What a statement's own expressions touch, those of the statements inside it aside.
pub open spec fn own_touched(stmt: Stmt) -> Touched {
    match stmt {
        Stmt::Var(v) => touched_bindings(v, 0, untouched()),
        Stmt::Change(c) => touched_targets(c, 0, false, untouched()),
        Stmt::Func(_) => untouched(),
        Stmt::If(chain) => touched_conditions(chain, 0, untouched()),
        Stmt::Loop(l) => touched_head(l, untouched()),
        Stmt::Print { args, .. } => touched_exprs(args, 0, untouched()),
        Stmt::Handback { value, .. } => touched_expr(value, untouched()),
        Stmt::Expr(e) => touched_expr(e, untouched()),
    }
}

/// The first `n` of some names forgotten.
pub open spec fn without(s: Ranges, names: Seq<Seq<char>>, n: nat) -> Ranges
    decreases n,
{
    if n == 0 {
        s
    } else {
        without(s, names, (n - 1) as nat).remove(names[n - 1])
    }
}

/// What is still known once something has been evaluated: nothing of the names that it may
/// have changed. A call may change whatever the functions of the program change.
pub open spec fn calmed(fs: Seq<Seq<char>>, s: Ranges, t: Touched) -> Ranges {
    let s1 = without(s, t.names, t.names.len());
    if t.calls {
        without(s1, fs, fs.len())
    } else {
        s1
    }
}

pub open spec fn calm(fs: Seq<Seq<char>>, s: Ranges, e: Expr) -> Ranges {
    calmed(fs, s, touched_expr(e, untouched()))
}

// ── what is known afterwards ────────────────────────────────────────────────

pub open spec fn after_bindings(fs: Seq<Seq<char>>, s: Ranges, v: VarDecl, n: nat) -> Ranges
    decreases n,
{
    if n == 0 {
        s
    } else {
        let b = v.bindings@[n - 1];
        let before = before_binding(fs, after_bindings(fs, s, v, (n - 1) as nat), b);
        before.insert(b.name@, binding_range(b, before))
    }
}

/// What is still known once a declaration's value has been evaluated.
pub open spec fn before_binding(fs: Seq<Seq<char>>, s: Ranges, b: Binding) -> Ranges {
    match b.value {
        Some(e) => calm(fs, s, e),
        None => s,
    }
}

pub open spec fn after_targets(fs: Seq<Seq<char>>, s: Ranges, c: ChangeStmt, n: nat) -> Ranges
    decreases n,
{
    if n == 0 {
        s
    } else {
        let t = c.targets@[n - 1];
        let before = before_target(fs, after_targets(fs, s, c, (n - 1) as nat), t);
        before.insert(t.name@, target_range(t, before))
    }
}

pub open spec fn before_target(fs: Seq<Seq<char>>, s: Ranges, t: ChangeTarget) -> Ranges {
    calmed(fs, s, touched_expr(t.value, touched_selectors(t.selectors, 0, untouched())))
}

/// Changing an element says nothing of the whole.
pub open spec fn target_range(t: ChangeTarget, s: Ranges) -> Interval {
    if t.selectors@.len() == 0 {
        expr_range(t.value, s)
    } else {
        anything()
    }
}

/// What is known after the statements of a block from the `i`-th on.
pub open spec fn after_block(fs: Seq<Seq<char>>, s: Ranges, stmts: Vec<Stmt>, i: nat) -> Ranges
    decreases stmts, stmts@.len() - i,
{
    if i >= stmts@.len() {
        s
    } else {
        after_block(fs, after_statement(fs, s, stmts@[i as int]), stmts, i + 1)
    }
}

/// The names that the first `n` bindings of a declaration declare, forgotten.
pub open spec fn without_bindings(s: Ranges, v: VarDecl, n: nat) -> Ranges
    decreases n,
{
    if n == 0 {
        s
    } else {
        without_bindings(s, v, (n - 1) as nat).remove(v.bindings@[n - 1].name@)
    }
}

/// The names that the first `n` statements of a block declare in it, forgotten.
pub open spec fn undeclared(s: Ranges, stmts: Seq<Stmt>, n: nat) -> Ranges
    decreases n,
{
    if n == 0 {
        s
    } else {
        match stmts[n - 1] {
            Stmt::Var(v) => without_bindings(undeclared(s, stmts, (n - 1) as nat), v, v.bindings@.len()),
            _ => undeclared(s, stmts, (n - 1) as nat),
        }
    }
}

/// What is known behind a block that is a scope: nothing of the names that it declared, for
/// there they stand for something else.
pub open spec fn after_scope(fs: Seq<Seq<char>>, s: Ranges, stmts: Vec<Stmt>) -> Ranges
    decreases stmts, stmts@.len() + 1,
{
    undeclared(after_block(fs, s, stmts, 0), stmts@, stmts@.len())
}

pub open spec fn after_statement(fs: Seq<Seq<char>>, s: Ranges, stmt: Stmt) -> Ranges
    decreases stmt, 0nat,
{
    match stmt {
        Stmt::Var(v) => after_bindings(fs, s, v, v.bindings@.len()),
        Stmt::Change(c) => after_targets(fs, s, c, c.targets@.len()),
        Stmt::If(chain) => {
            let calm = calmed(fs, s, own_touched(stmt));
            match after_arms(fs, calm, chain, 0, None) {
                Some(m) => joined_states(calm, m),
                None => calm,
            }
        },
        Stmt::Loop(l) => after_loop(fs, s, l),
        _ => calmed(fs, s, own_touched(stmt)),
    }
}

/// A condition that may be absent, applied as taken.
pub open spec fn narrowed_by(s: Ranges, cond: Option<Expr>) -> Ranges {
    match cond {
        Some(c) => narrowed(s, c, true),
        None => s,
    }
}

/// What the arms of a conditional from the `i`-th on leave, joined to what those before
/// left. Each arm runs from the incoming state, narrowed by its condition.
pub open spec fn after_arms(fs: Seq<Seq<char>>, s: Ranges, chain: IfChain, i: nat, merged: Option<Ranges>) -> Option<Ranges>
    decreases chain, chain.arms@.len() - i,
{
    if i >= chain.arms@.len() {
        merged
    } else {
        let arm = chain.arms@[i as int];
        let branch = after_scope(fs, narrowed_by(s, arm.condition), arm.body);
        after_arms(
            fs,
            s,
            chain,
            i + 1,
            Some(
                match merged {
                    Some(m) => joined_states(m, branch),
                    None => branch,
                },
            ),
        )
    }
}

/// More rounds than any loop needs: every round but the last two opens an end of a range
/// for good.
pub const WIDEN_ROUNDS: usize = 1_000_000;

pub const NARROW_ROUNDS: usize = 8;

/// What is known at the top of a loop's body, from what is known around it: the counter's
/// range, or that the condition holds.
pub open spec fn at_top(fs: Seq<Seq<char>>, s: Ranges, l: LoopStmt, counter: Interval) -> Ranges {
    match l.kind {
        LoopKind::Counted { var, .. } => s.insert(var@, counter),
        LoopKind::While { condition } => narrowed(calm(fs, s, condition), condition, true),
    }
}

/// What is known around a loop once its body has run.
pub open spec fn once_round(fs: Seq<Seq<char>>, s: Ranges, l: LoopStmt, counter: Interval) -> Ranges
    decreases l, 0nat,
{
    let behind = after_scope(fs, at_top(fs, s, l, counter), l.body);
    match l.kind {
        LoopKind::Counted { var, .. } => behind.remove(var@),
        LoopKind::While { .. } => behind,
    }
}

/// The widening rounds of a loop's analysis from the given one on. A range that keeps
/// moving outward jumps straight to unbounded.
pub open spec fn widening_from(fs: Seq<Seq<char>>, s: Ranges, l: LoopStmt, counter: Interval, round: nat) -> Ranges
    decreases l, 1 + (WIDEN_ROUNDS - round),
{
    if round >= WIDEN_ROUNDS {
        s
    } else {
        let once = joined_states(s, once_round(fs, s, l, counter));
        let next = if round >= 1 {
            widened_states(s, once)
        } else {
            once
        };
        if next == s {
            next
        } else {
            widening_from(fs, next, l, counter, round + 1)
        }
    }
}

/// The narrowing rounds of a loop's analysis from the given one on: the body again, without
/// widening, from what was known at the start.
pub open spec fn narrowing_from(
    fs: Seq<Seq<char>>,
    entry: Ranges,
    s: Ranges,
    l: LoopStmt,
    counter: Interval,
    round: nat,
) -> Ranges
    decreases l, 1 + (NARROW_ROUNDS - round),
{
    if round >= NARROW_ROUNDS {
        s
    } else {
        let next = joined_states(entry, once_round(fs, s, l, counter));
        if next == s {
            next
        } else {
            narrowing_from(fs, entry, next, l, counter, round + 1)
        }
    }
}

/// Whether a state is true in every iteration: it allows what comes into the loop, and what
/// one more time round leaves.
pub open spec fn steady(fs: Seq<Seq<char>>, entry: Ranges, s: Ranges, l: LoopStmt, counter: Interval) -> bool
    decreases l, 1nat,
{
    stays(entry, s) && stays(once_round(fs, s, l, counter), s)
}

/// What is known around a loop's body in every iteration: the narrowed state where it has
/// settled, else the widened one; a state that has not settled is not believed.
pub open spec fn settled_state(fs: Seq<Seq<char>>, entry: Ranges, l: LoopStmt, counter: Interval) -> Ranges
    decreases l, WIDEN_ROUNDS + 2,
{
    let wide = widening_from(fs, entry, l, counter, 0);
    let narrow = narrowing_from(fs, entry, wide, l, counter, 0);
    if steady(fs, entry, narrow, l, counter) {
        narrow
    } else if steady(fs, entry, wide, l, counter) {
        wide
    } else {
        Map::empty()
    }
}

/// What is known where a loop is entered.
pub open spec fn at_entry(fs: Seq<Seq<char>>, s: Ranges, l: LoopStmt) -> Ranges {
    match l.kind {
        LoopKind::Counted { var, range, .. } => calm(fs, s, range).remove(var@),
        LoopKind::While { condition } => calm(fs, s, condition),
    }
}

/// The range of a loop's counter, where it has one.
pub open spec fn counter_of(fs: Seq<Seq<char>>, s: Ranges, l: LoopStmt) -> Interval {
    match l.kind {
        LoopKind::Counted { range, .. } => counter_range(range, calm(fs, s, range)),
        LoopKind::While { .. } => anything(),
    }
}

/// What is known around a loop's body.
pub open spec fn inside_loop(fs: Seq<Seq<char>>, s: Ranges, l: LoopStmt) -> Ranges
    decreases l, WIDEN_ROUNDS + 3,
{
    settled_state(fs, at_entry(fs, s, l), l, counter_of(fs, s, l))
}

pub open spec fn after_loop(fs: Seq<Seq<char>>, s: Ranges, l: LoopStmt) -> Ranges
    decreases l, WIDEN_ROUNDS + 4,
{
    let inside = inside_loop(fs, s, l);
    match l.kind {
        LoopKind::Counted { .. } => joined_states(at_entry(fs, s, l), inside),
        // On exit the condition is false.
        LoopKind::While { condition } => joined_states(
            at_entry(fs, s, l),
            narrowed(calm(fs, inside, condition), condition, false),
        ),
    }
}

/// What a loop's findings are reported from: the settled state, as it is at the top of the
/// body.
pub open spec fn reporting_state(fs: Seq<Seq<char>>, s: Ranges, l: LoopStmt) -> Ranges {
    at_top(fs, inside_loop(fs, s, l), l, counter_of(fs, s, l))
}

/// What is known of a function's parameters on entry: what the first `n` promise.
pub open spec fn entry_state(f: FuncDecl, n: nat) -> Ranges
    decreases n,
{
    if n == 0 {
        Map::empty()
    } else {
        entry_state(f, (n - 1) as nat).insert(f.params@[n - 1].name@, promised_range(f.params@[n - 1].ty.sign))
    }
}

// ── findings ────────────────────────────────────────────────────────────────

/// What verification has found so far.
#[verifier::ext_equal]
pub struct Verdicts {
    pub errors: Seq<ErrorView>,
    /// Places where nothing was proved, so a check happens while running.
    pub checks: Seq<Span>,
    pub informer: InformerView,
    /// How many more values may be evaluated; no number where any.
    pub left: Option<u64>,
}

/// One evaluation less is left.
pub open spec fn spent(f: Verdicts) -> Verdicts {
    Verdicts {
        left: match f.left {
            Some(n) => Some((n - 1) as u64),
            None => None,
        },
        ..f
    }
}

pub open spec fn broken(f: Verdicts, e: ErrorView) -> Verdicts {
    Verdicts { errors: f.errors.push(e), ..f }
}

pub open spec fn remarked(f: Verdicts, at: BytePos, message: Seq<char>) -> Verdicts {
    Verdicts { informer: told(f.informer, Some(at), message), ..f }
}

pub open spec fn prefix_of(s: Sign) -> Seq<char> {
    match s {
        Sign::Positive => "+"@,
        Sign::Negative => "-"@,
    }
}

/// Whether every number of a range keeps a sign promise, as far as its ends show.
pub open spec fn proves(sign: Sign, range: Interval) -> bool {
    match sign {
        Sign::Positive => range.lo matches Some(l) && l > 0,
        Sign::Negative => range.hi matches Some(h) && h < 0,
    }
}

/// Whether no number of a range keeps a sign promise, as far as its ends show.
pub open spec fn refutes(sign: Sign, range: Interval) -> bool {
    match sign {
        Sign::Positive => range.hi matches Some(h) && h <= 0,
        Sign::Negative => range.lo matches Some(l) && l >= 0,
    }
}

/// A sign refinement, each layer tried in turn: the value itself, its range, a check while
/// running.
pub open spec fn sign_verified(f: Verdicts, ty: TypeRef, name: Seq<char>, range: Interval, span: Span) -> Verdicts {
    match ty.sign {
        None => f,
        Some(sign) => match if f.left == Some(0u64) {
            None
        } else {
            only_value(range)
        } {
            Some(v) => if (sign == Sign::Positive && v > 0) || (sign == Sign::Negative && v < 0) {
                remarked(
                    spent(f),
                    span.start,
                    "'"@ + name + "' evaluated at compile time to "@ + int_text(v as int) + "; "@ + prefix_of(sign)
                        + ty.base@ + " verified"@,
                )
            } else {
                broken(
                    spent(f),
                    fault_view(
                        Category::Sign,
                        3,
                        span,
                        "'"@ + name + "' evaluates to "@ + int_text(v as int)
                            + ", which breaks the promise that it is "@ + prefix_of(sign) + ty.base@ + "."@,
                        "declare it :"@ + ty.base@ + " instead."@,
                    ),
                )
            },
            None => if proves(sign, range) {
                remarked(
                    f,
                    span.start,
                    "range analysis proved '"@ + name + "' ∈ "@ + range_text(range) + "; "@ + prefix_of(sign)
                        + ty.base@ + " verified"@,
                )
            } else if refutes(sign, range) {
                broken(
                    f,
                    fault_view(
                        Category::Sign,
                        3,
                        span,
                        "'"@ + name + "' is "@ + range_text(range) + ", which breaks the promise that it is "@
                            + prefix_of(sign) + ty.base@ + "."@,
                        "declare it :"@ + ty.base@ + " instead."@,
                    ),
                )
            } else {
                remarked(
                    Verdicts { checks: f.checks.push(span), ..f },
                    span.start,
                    prefix_of(sign) + ty.base@ + " on '"@ + name + "' unproven ("@ + range_text(range)
                        + "); runtime check inserted"@,
                )
            },
        },
    }
}

/// Whether a width holds every number from `lo` to `hi`.
pub open spec fn width_holds(bits: u32, sign: Option<Sign>, lo: i128, hi: i128) -> bool {
    width_bounds(bits, sign).0 <= lo && hi <= width_bounds(bits, sign).1
}

/// The narrowest offered width that holds every number from `lo` to `hi`.
pub open spec fn narrowest_width(lo: i128, hi: i128, sign: Option<Sign>) -> Option<u32> {
    if width_holds(8, sign, lo, hi) {
        Some(8)
    } else if width_holds(16, sign, lo, hi) {
        Some(16)
    } else if width_holds(32, sign, lo, hi) {
        Some(32)
    } else if width_holds(64, sign, lo, hi) {
        Some(64)
    } else if width_holds(128, sign, lo, hi) {
        Some(128)
    } else {
        None
    }
}

/// The width of an integer: inferred from its range, or held against it where one is stated.
pub open spec fn width_verified(f: Verdicts, ty: TypeRef, b: Binding, range: Interval) -> Verdicts {
    if ty.base@ != "int"@ || b.shape is Some {
        f
    } else {
        match b.precision {
            Some(Precision::Bits(bits)) => match (range.lo, range.hi) {
                (Some(lo), Some(hi)) => if !width_holds(bits, ty.sign, lo, hi) {
                    broken(
                        f,
                        fault_view(
                            Category::Prec,
                            4,
                            b.name_span,
                            "'"@ + b.name@ + "' reaches "@ + range_text(range) + ", which does not fit in ["@
                                + nat_text(bits as nat) + " bit] — that holds ["@ + int_text(
                                width_bounds(bits, ty.sign).0,
                            ) + ", "@ + int_text(width_bounds(bits, ty.sign).1) + "]."@,
                            "widen the type, or use infnum."@,
                        ),
                    )
                } else {
                    f
                },
                _ => f,
            },
            Some(_) => f,
            None => match (range.lo, range.hi) {
                (Some(lo), Some(hi)) => match narrowest_width(lo, hi, ty.sign) {
                    Some(w) => remarked(
                        f,
                        b.name_span.start,
                        "'"@ + b.name@ + "' inferred as ["@ + nat_text(w as nat) + " bit] from its range "@
                            + range_text(range),
                    ),
                    None => broken(
                        f,
                        fault_view(
                            Category::Prec,
                            4,
                            b.name_span,
                            "'"@ + b.name@ + "' reaches "@ + range_text(range) + ", which no fixed width holds."@,
                            "use infnum, which is unbounded."@,
                        ),
                    ),
                },
                _ => broken(
                    f,
                    fault_view(
                        Category::Prec,
                        1,
                        b.name_span,
                        "'"@ + b.name@
                            + "' has a value that is not knowable at compile time, so no width can be inferred."@,
                        "state a precision, as in [32 bit], or use infnum which is unbounded."@,
                    ),
                ),
            },
        }
    }
}

// ── every use of a variable ─────────────────────────────────────────────────

/// Whether evaluating may change a variable.
pub open spec fn stirred(fs: Seq<Seq<char>>, name: Seq<char>, t: Touched) -> bool {
    t.names.contains(name) || (t.calls && fs.contains(name))
}

/// Whether one of the first `n` bindings of a declaration is of a name.
pub open spec fn binds(v: VarDecl, name: Seq<char>, n: nat) -> bool
    decreases n,
{
    n > 0 && (v.bindings@[n - 1].name@ == name || binds(v, name, (n - 1) as nat))
}

pub open spec fn declares(stmt: Stmt, name: Seq<char>) -> bool {
    stmt matches Stmt::Var(v) && binds(v, name, v.bindings@.len())
}

/// A range with what the first `n` targets of a change give a variable.
pub open spec fn reach_targets(fs: Seq<Seq<char>>, name: Seq<char>, s: Ranges, c: ChangeStmt, n: nat, acc: Interval) -> Interval
    decreases n,
{
    if n == 0 {
        acc
    } else {
        let before = reach_targets(fs, name, s, c, (n - 1) as nat, acc);
        let t = c.targets@[n - 1];
        if t.name@ == name && t.selectors@.len() == 0 {
            joined(before, expr_range(t.value, before_target(fs, after_targets(fs, s, c, (n - 1) as nat), t)))
        } else {
            before
        }
    }
}

pub open spec fn reach_statement(fs: Seq<Seq<char>>, name: Seq<char>, s: Ranges, stmt: Stmt, acc: Interval) -> Interval
    decreases stmt, 0nat,
{
    if stirred(fs, name, own_touched(stmt)) {
        anything()
    } else {
        match stmt {
            Stmt::Change(c) => reach_targets(fs, name, s, c, c.targets@.len(), acc),
            Stmt::If(chain) => reach_arms(fs, name, calmed(fs, s, own_touched(stmt)), chain, 0, acc),
            Stmt::Loop(l) => if l.kind matches LoopKind::Counted { var, .. } && var@ == name {
                acc
            } else {
                reach_block(fs, name, reporting_state(fs, s, l), l.body, 0, acc)
            },
            _ => acc,
        }
    }
}

pub open spec fn reach_arms(fs: Seq<Seq<char>>, name: Seq<char>, s: Ranges, chain: IfChain, i: nat, acc: Interval) -> Interval
    decreases chain, chain.arms@.len() - i,
{
    if i >= chain.arms@.len() {
        acc
    } else {
        let arm = chain.arms@[i as int];
        reach_arms(
            fs,
            name,
            s,
            chain,
            i + 1,
            reach_block(fs, name, narrowed_by(s, arm.condition), arm.body, 0, acc),
        )
    }
}

/// A range with all that the statements of a block from the `i`-th on give a variable, up to
/// where its name is declared anew.
pub open spec fn reach_block(fs: Seq<Seq<char>>, name: Seq<char>, s: Ranges, stmts: Vec<Stmt>, i: nat, acc: Interval) -> Interval
    decreases stmts, stmts@.len() - i,
{
    if i >= stmts@.len() || declares(stmts@[i as int], name) {
        acc
    } else {
        reach_block(
            fs,
            name,
            after_statement(fs, s, stmts@[i as int]),
            stmts,
            i + 1,
            reach_statement(fs, name, s, stmts@[i as int], acc),
        )
    }
}

// ── what is found ───────────────────────────────────────────────────────────

/// What is found in the first `n` bindings of the declaration in front of the `i`-th
/// statement of a block. A width has to fit every use of the variable in its scope.
pub open spec fn found_bindings(
    fs: Seq<Seq<char>>,
    f: Verdicts,
    s: Ranges,
    v: VarDecl,
    n: nat,
    stmts: Vec<Stmt>,
    i: nat,
) -> Verdicts
    decreases n,
{
    if n == 0 {
        f
    } else {
        let before = found_bindings(fs, f, s, v, (n - 1) as nat, stmts, i);
        let b = v.bindings@[n - 1];
        let range = binding_range(b, before_binding(fs, after_bindings(fs, s, v, (n - 1) as nat), b));
        width_verified(
            sign_verified(before, v.ty, b.name@, range, b.name_span),
            v.ty,
            b,
            reach_block(fs, b.name@, after_bindings(fs, s, v, v.bindings@.len()), stmts, i, range),
        )
    }
}

pub open spec fn found_targets(fs: Seq<Seq<char>>, f: Verdicts, s: Ranges, c: ChangeStmt, n: nat) -> Verdicts
    decreases n,
{
    if n == 0 {
        f
    } else {
        let before = found_targets(fs, f, s, c, (n - 1) as nat);
        let t = c.targets@[n - 1];
        sign_verified(
            before,
            c.ty,
            t.name@,
            expr_range(t.value, before_target(fs, after_targets(fs, s, c, (n - 1) as nat), t)),
            t.name_span,
        )
    }
}

/// What is found in the statements of a block from the `i`-th on.
pub open spec fn found_in_block(fs: Seq<Seq<char>>, f: Verdicts, s: Ranges, stmts: Vec<Stmt>, i: nat) -> Verdicts
    decreases stmts, stmts@.len() - i,
{
    if i >= stmts@.len() {
        f
    } else {
        found_in_block(
            fs,
            match stmts@[i as int] {
                Stmt::Var(v) => found_bindings(fs, f, s, v, v.bindings@.len(), stmts, i + 1),
                stmt => found_in_statement(fs, f, s, stmt),
            },
            after_statement(fs, s, stmts@[i as int]),
            stmts,
            i + 1,
        )
    }
}

/// What is found in a statement that declares nothing.
pub open spec fn found_in_statement(fs: Seq<Seq<char>>, f: Verdicts, s: Ranges, stmt: Stmt) -> Verdicts
    decreases stmt, 0nat,
{
    match stmt {
        Stmt::Change(c) => found_targets(fs, f, s, c, c.targets@.len()),
        Stmt::Func(d) => found_in_block(fs, f, entry_state(d, d.params@.len()), d.body, 0),
        Stmt::If(chain) => found_in_arms(fs, f, calmed(fs, s, own_touched(stmt)), chain, 0),
        Stmt::Loop(l) => found_in_block(fs, f, reporting_state(fs, s, l), l.body, 0),
        _ => f,
    }
}

pub open spec fn found_in_arms(fs: Seq<Seq<char>>, f: Verdicts, s: Ranges, chain: IfChain, i: nat) -> Verdicts
    decreases chain, chain.arms@.len() - i,
{
    if i >= chain.arms@.len() {
        f
    } else {
        let arm = chain.arms@[i as int];
        found_in_arms(fs, found_in_block(fs, f, narrowed_by(s, arm.condition), arm.body, 0), s, chain, i + 1)
    }
}

/// What verification finds in a program, where so many values may be evaluated.
pub open spec fn program_verified(p: Program, informer: InformerView, left: Option<u64>) -> Verdicts {
    found_in_block(
        touched_by_functions(p.statements@, p.statements@.len()).names,
        Verdicts { errors: Seq::empty(), checks: Seq::empty(), informer, left },
        Map::empty(),
        p.statements,
        0,
    )
}

} // verus!
