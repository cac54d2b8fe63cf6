//! What verification owes a program: every sign promise is proved, reported as broken, or
//! checked while running, and every width is held against what it has to hold.

use vstd::prelude::*;

use crate::ast::{
    Binding, ChangeStmt, FuncDecl, IfChain, LoopKind, Precision, Program, Sign, Stmt, TypeRef, VarDecl,
};
use crate::diagnostics::error::{Category, Code};
use crate::diagnostics::informer::InformerView;
use crate::diagnostics::position::Span;
use crate::eval::numeric::width_bounds;
use crate::sema::analysis::{
    after_bindings, after_statement, after_targets, before_binding, before_target, binding_range, calmed,
    declares, entry_state, expr_range, found_bindings, found_in_arms, found_in_block, found_in_statement,
    found_targets, narrowed_by, own_touched, program_verified, proves, refutes, reach_arms, reach_block,
    reach_statement, reach_targets, reporting_state, sign_verified, stirred, touched_by_functions,
    width_verified, Ranges, Verdicts,
};
use crate::sema::interval::{anything, joined, range_in, within, Interval};
use crate::sema::types::keeps_sign;

verus! {

/// Whether every whole number of a range keeps a promise.
pub open spec fn all_keep(sign: Sign, range: Interval) -> bool {
    forall|n: int| within(range, n) ==> #[trigger] keeps_sign(Some(sign), n)
}

/// Whether an error of a code is reported at a place.
pub open spec fn error_at(f: Verdicts, code: Code, at: Span) -> bool {
    exists|k: int| 0 <= k < f.errors.len() && (#[trigger] f.errors[k]).code == code && f.errors[k].primary == at
}

/// A promise is proved of its range, or reported as broken, or checked while running.
pub open spec fn promise_handled(f: Verdicts, sign: Option<Sign>, range: Interval, at: Span) -> bool {
    sign matches Some(p) ==> {
        ||| all_keep(p, range)
        ||| error_at(f, Code { category: Category::Sign, number: 3 }, at)
        ||| f.checks.contains(at)
    }
}

/// Whether a number of bits is enough for a range.
pub open spec fn enough(bits: u32, sign: Option<Sign>, range: Interval) -> bool {
    range.lo is Some && range.hi is Some && width_bounds(bits, sign).0 <= range.lo->0 && range.hi->0 <= width_bounds(bits, sign).1
}

/// A width that is stated holds the range, where that is known; one that is not is found; or
/// else there is an error.
pub open spec fn width_handled(f: Verdicts, ty: TypeRef, b: Binding, range: Interval) -> bool {
    ty.base@ == "int"@ && b.shape is None ==> (match b.precision {
        Some(Precision::Bits(bits)) => {
            ||| range.lo is None
            ||| range.hi is None
            ||| enough(bits, ty.sign, range)
            ||| error_at(f, Code { category: Category::Prec, number: 4 }, b.name_span)
        },
        Some(_) => true,
        None => {
            ||| enough(128, ty.sign, range)
            ||| enough(64, ty.sign, range)
            ||| enough(32, ty.sign, range)
            ||| enough(16, ty.sign, range)
            ||| enough(8, ty.sign, range)
            ||| error_at(f, Code { category: Category::Prec, number: 4 }, b.name_span)
            ||| error_at(f, Code { category: Category::Prec, number: 1 }, b.name_span)
        },
    })
}

/// Whether verdicts hold all that others hold.
pub open spec fn extends(f: Verdicts, g: Verdicts) -> bool {
    f.errors.is_prefix_of(g.errors) && f.checks.is_prefix_of(g.checks)
}

// ── everything in a program ─────────────────────────────────────────────────

pub open spec fn bindings_handled(fs: Seq<Seq<char>>, f: Verdicts, s: Ranges, v: VarDecl, n: nat, stmts: Vec<Stmt>, i: nat) -> bool {
    forall|j: int|
        0 <= j < n ==> ({
            let b = #[trigger] v.bindings@[j];
            let range = binding_range(b, before_binding(fs, after_bindings(fs, s, v, j as nat), b));
            &&& promise_handled(f, v.ty.sign, range, b.name_span)
            &&& width_handled(f, v.ty, b, reach_block(fs, b.name@, after_bindings(fs, s, v, v.bindings@.len()), stmts, i, range))
        })
}

pub open spec fn targets_handled(fs: Seq<Seq<char>>, f: Verdicts, s: Ranges, c: ChangeStmt, n: nat) -> bool {
    forall|j: int|
        0 <= j < n ==> ({
            let t = #[trigger] c.targets@[j];
            promise_handled(f, c.ty.sign, expr_range(t.value, before_target(fs, after_targets(fs, s, c, j as nat), t)), t.name_span)
        })
}

/// Every promise and width in the statements of a block from the `i`-th on is handled.
pub open spec fn block_handled(fs: Seq<Seq<char>>, f: Verdicts, s: Ranges, stmts: Vec<Stmt>, i: nat) -> bool
    decreases stmts, stmts@.len() - i,
{
    i < stmts@.len() ==> {
        let stmt = stmts@[i as int];
        &&& stmt matches Stmt::Var(v) ==> bindings_handled(fs, f, s, v, v.bindings@.len(), stmts, i + 1)
        &&& statement_handled(fs, f, s, stmt)
        &&& block_handled(fs, f, after_statement(fs, s, stmt), stmts, i + 1)
    }
}

/// Those inside a statement: in what it changes, in the bodies of functions, in the arms of
/// conditionals, in loops.
pub open spec fn statement_handled(fs: Seq<Seq<char>>, f: Verdicts, s: Ranges, stmt: Stmt) -> bool
    decreases stmt, 0nat,
{
    match stmt {
        Stmt::Change(c) => targets_handled(fs, f, s, c, c.targets@.len()),
        Stmt::Func(d) => block_handled(fs, f, entry_state(d, d.params@.len()), d.body, 0),
        Stmt::If(chain) => arms_handled(fs, f, calmed(fs, s, own_touched(stmt)), chain, 0),
        Stmt::Loop(l) => block_handled(fs, f, reporting_state(fs, s, l), l.body, 0),
        _ => true,
    }
}

pub open spec fn arms_handled(fs: Seq<Seq<char>>, f: Verdicts, s: Ranges, chain: IfChain, i: nat) -> bool
    decreases chain, chain.arms@.len() - i,
{
    i < chain.arms@.len() ==> {
        let arm = chain.arms@[i as int];
        &&& block_handled(fs, f, narrowed_by(s, arm.condition), arm.body, 0)
        &&& arms_handled(fs, f, s, chain, i + 1)
    }
}

// ── verdicts stay ───────────────────────────────────────────────────────────

proof fn lemma_extends_then(f: Verdicts, g: Verdicts, h: Verdicts)
    requires
        extends(f, g),
        extends(g, h),
    ensures
        extends(f, h),
{
    assert(f.errors =~= h.errors.take(f.errors.len() as int)) by {
        assert(f.errors =~= g.errors.take(f.errors.len() as int));
        assert(g.errors =~= h.errors.take(g.errors.len() as int));
    }
    assert(f.checks =~= h.checks.take(f.checks.len() as int)) by {
        assert(f.checks =~= g.checks.take(f.checks.len() as int));
        assert(g.checks =~= h.checks.take(g.checks.len() as int));
    }
}

proof fn lemma_same_extends(f: Verdicts, g: Verdicts)
    requires
        f.errors == g.errors,
        f.checks == g.checks,
    ensures
        extends(f, g),
{
    assert(f.errors =~= g.errors.take(f.errors.len() as int));
    assert(f.checks =~= g.checks.take(f.checks.len() as int));
}

proof fn lemma_error_stays(f: Verdicts, g: Verdicts, code: Code, at: Span)
    requires
        extends(f, g),
        error_at(f, code, at),
    ensures
        error_at(g, code, at),
{
    let k = choose|k: int| 0 <= k < f.errors.len() && (#[trigger] f.errors[k]).code == code && f.errors[k].primary == at;
    assert(f.errors =~= g.errors.take(f.errors.len() as int));
    assert(g.errors[k] == f.errors[k]);
}

proof fn lemma_promise_stays(f: Verdicts, g: Verdicts, sign: Option<Sign>, range: Interval, at: Span)
    requires
        extends(f, g),
        promise_handled(f, sign, range, at),
    ensures
        promise_handled(g, sign, range, at),
{
    let code = Code { category: Category::Sign, number: 3 };
    if error_at(f, code, at) {
        lemma_error_stays(f, g, code, at);
    }
    if f.checks.contains(at) {
        let k = choose|k: int| 0 <= k < f.checks.len() && f.checks[k] == at;
        assert(f.checks =~= g.checks.take(f.checks.len() as int));
        assert(g.checks[k] == at);
    }
}

proof fn lemma_width_stays(f: Verdicts, g: Verdicts, ty: TypeRef, b: Binding, range: Interval)
    requires
        extends(f, g),
        width_handled(f, ty, b, range),
    ensures
        width_handled(g, ty, b, range),
{
    let four = Code { category: Category::Prec, number: 4 };
    let one = Code { category: Category::Prec, number: 1 };
    if error_at(f, four, b.name_span) {
        lemma_error_stays(f, g, four, b.name_span);
    }
    if error_at(f, one, b.name_span) {
        lemma_error_stays(f, g, one, b.name_span);
    }
}

proof fn lemma_bindings_stay(fs: Seq<Seq<char>>, f: Verdicts, g: Verdicts, s: Ranges, v: VarDecl, n: nat, stmts: Vec<Stmt>, i: nat)
    requires
        extends(f, g),
        bindings_handled(fs, f, s, v, n, stmts, i),
    ensures
        bindings_handled(fs, g, s, v, n, stmts, i),
{
    assert forall|j: int| 0 <= j < n implies ({
        let b = #[trigger] v.bindings@[j];
        let range = binding_range(b, before_binding(fs, after_bindings(fs, s, v, j as nat), b));
        &&& promise_handled(g, v.ty.sign, range, b.name_span)
        &&& width_handled(g, v.ty, b, reach_block(fs, b.name@, after_bindings(fs, s, v, v.bindings@.len()), stmts, i, range))
    }) by {
        let b = v.bindings@[j];
        let range = binding_range(b, before_binding(fs, after_bindings(fs, s, v, j as nat), b));
        lemma_promise_stays(f, g, v.ty.sign, range, b.name_span);
        lemma_width_stays(f, g, v.ty, b, reach_block(fs, b.name@, after_bindings(fs, s, v, v.bindings@.len()), stmts, i, range));
    }
}

proof fn lemma_targets_stay(fs: Seq<Seq<char>>, f: Verdicts, g: Verdicts, s: Ranges, c: ChangeStmt, n: nat)
    requires
        extends(f, g),
        targets_handled(fs, f, s, c, n),
    ensures
        targets_handled(fs, g, s, c, n),
{
    assert forall|j: int| 0 <= j < n implies ({
        let t = #[trigger] c.targets@[j];
        promise_handled(g, c.ty.sign, expr_range(t.value, before_target(fs, after_targets(fs, s, c, j as nat), t)), t.name_span)
    }) by {
        let t = c.targets@[j];
        lemma_promise_stays(f, g, c.ty.sign, expr_range(t.value, before_target(fs, after_targets(fs, s, c, j as nat), t)), t.name_span);
    }
}

proof fn lemma_block_stays(fs: Seq<Seq<char>>, f: Verdicts, g: Verdicts, s: Ranges, stmts: Vec<Stmt>, i: nat)
    requires
        extends(f, g),
        block_handled(fs, f, s, stmts, i),
    ensures
        block_handled(fs, g, s, stmts, i),
    decreases stmts, stmts@.len() - i,
{
    if i < stmts@.len() {
        let stmt = stmts@[i as int];
        if let Stmt::Var(v) = stmt {
            lemma_bindings_stay(fs, f, g, s, v, v.bindings@.len(), stmts, i + 1);
        }
        lemma_statement_stays(fs, f, g, s, stmt);
        lemma_block_stays(fs, f, g, after_statement(fs, s, stmt), stmts, i + 1);
    }
}

proof fn lemma_statement_stays(fs: Seq<Seq<char>>, f: Verdicts, g: Verdicts, s: Ranges, stmt: Stmt)
    requires
        extends(f, g),
        statement_handled(fs, f, s, stmt),
    ensures
        statement_handled(fs, g, s, stmt),
    decreases stmt, 0nat,
{
    match stmt {
        Stmt::Change(c) => lemma_targets_stay(fs, f, g, s, c, c.targets@.len()),
        Stmt::Func(d) => lemma_block_stays(fs, f, g, entry_state(d, d.params@.len()), d.body, 0),
        Stmt::If(chain) => lemma_arms_stay(fs, f, g, calmed(fs, s, own_touched(stmt)), chain, 0),
        Stmt::Loop(l) => lemma_block_stays(fs, f, g, reporting_state(fs, s, l), l.body, 0),
        _ => {},
    }
}

proof fn lemma_arms_stay(fs: Seq<Seq<char>>, f: Verdicts, g: Verdicts, s: Ranges, chain: IfChain, i: nat)
    requires
        extends(f, g),
        arms_handled(fs, f, s, chain, i),
    ensures
        arms_handled(fs, g, s, chain, i),
    decreases chain, chain.arms@.len() - i,
{
    if i < chain.arms@.len() {
        let arm = chain.arms@[i as int];
        lemma_block_stays(fs, f, g, narrowed_by(s, arm.condition), arm.body, 0);
        lemma_arms_stay(fs, f, g, s, chain, i + 1);
    }
}

// ── one promise, one width ──────────────────────────────────────────────────

/// A promise is settled by its range alone: proved where every number of it keeps the promise,
/// an error where none does, and a check while running where some may and some may not.
pub proof fn a_promise_is_settled_by_its_range(f: Verdicts, ty: TypeRef, name: Seq<char>, range: Interval, at: Span)
    requires
        range.lo is Some && range.hi is Some ==> range.lo->0 <= range.hi->0,
    ensures
        ({
            let g = sign_verified(f, ty, name, range, at);
            &&& extends(f, g)
            &&& promise_handled(g, ty.sign, range, at)
            &&& g.errors.len() + g.checks.len() <= f.errors.len() + f.checks.len() + 1
            &&& (forall|n: int| within(range, n) ==> #[trigger] keeps_sign(ty.sign, n)) <==> g.errors == f.errors && g.checks == f.checks
            &&& (forall|n: int| within(range, n) ==> !(#[trigger] keeps_sign(ty.sign, n))) <==> g.errors != f.errors
        }),
{
    lemma_sign(f, ty, name, range, at);
    let g = sign_verified(f, ty, name, range, at);
    // one number of the range, and one nearer to each open end
    let some = match (range.lo, range.hi) {
        (Some(l), _) => l as int,
        (None, Some(h)) => h as int,
        (None, None) => 0,
    };
    assert(within(range, some));
    if let Some(sign) = ty.sign {
        let low = match range.lo {
            Some(l) => l as int,
            None => if range.hi is Some && range.hi->0 < -1 {
                range.hi->0 as int
            } else {
                -1
            },
        };
        let high = match range.hi {
            Some(h) => h as int,
            None => if range.lo is Some && range.lo->0 > 1 {
                range.lo->0 as int
            } else {
                1
            },
        };
        assert(within(range, low));
        assert(within(range, high));
        let all = forall|n: int| within(range, n) ==> #[trigger] keeps_sign(ty.sign, n);
        let none = forall|n: int| within(range, n) ==> !(#[trigger] keeps_sign(ty.sign, n));
        assert(all <==> proves(sign, range)) by {
            if all {
                assert(keeps_sign(ty.sign, low) && keeps_sign(ty.sign, high));
            }
        }
        assert(none <==> refutes(sign, range)) by {
            if none {
                assert(!keeps_sign(ty.sign, low) && !keeps_sign(ty.sign, high));
            }
        }
        lemma_more(f, g);
        assert(proves(sign, range) ==> g.errors == f.errors && g.checks == f.checks);
        assert(refutes(sign, range) ==> g.errors.len() == f.errors.len() + 1);
        assert(!proves(sign, range) && !refutes(sign, range) ==> g.errors == f.errors && g.checks.len() == f.checks.len() + 1);
    } else {
        assert(keeps_sign(ty.sign, some));
    }
}

proof fn lemma_more(f: Verdicts, g: Verdicts)
    ensures
        g.errors.len() != f.errors.len() ==> g.errors != f.errors,
        g.checks.len() != f.checks.len() ==> g.checks != f.checks,
{
}

proof fn lemma_sign(f: Verdicts, ty: TypeRef, name: Seq<char>, range: Interval, at: Span)
    ensures
        extends(f, sign_verified(f, ty, name, range, at)),
        promise_handled(sign_verified(f, ty, name, range, at), ty.sign, range, at),
{
    let g = sign_verified(f, ty, name, range, at);
    assert(g.errors.take(f.errors.len() as int) =~= f.errors);
    assert(g.checks.take(f.checks.len() as int) =~= f.checks);
    if g.errors.len() > f.errors.len() {
        assert(g.errors[f.errors.len() as int].primary == at);
    }
    if g.checks.len() > f.checks.len() {
        assert(g.checks[f.checks.len() as int] == at);
    }
}

#[verifier::spinoff_prover]
proof fn lemma_width(f: Verdicts, ty: TypeRef, b: Binding, range: Interval)
    ensures
        extends(f, width_verified(f, ty, b, range)),
        width_handled(width_verified(f, ty, b, range), ty, b, range),
{
    let g = width_verified(f, ty, b, range);
    assert(g.errors.take(f.errors.len() as int) =~= f.errors);
    assert(g.checks.take(f.checks.len() as int) =~= f.checks);
    if g.errors.len() > f.errors.len() {
        assert(g.errors[f.errors.len() as int].primary == b.name_span);
    }
}

/// A width that is enough for every use is no error, nor is one that has to be found and can
/// be.
pub proof fn a_width_that_is_enough_is_no_error(f: Verdicts, ty: TypeRef, b: Binding, range: Interval)
    requires
        match b.precision {
            Some(Precision::Bits(bits)) => enough(bits, ty.sign, range) || range.lo is None || range.hi is None,
            Some(_) => true,
            None => enough(8, ty.sign, range) || enough(16, ty.sign, range) || enough(32, ty.sign, range) || enough(64, ty.sign, range)
                || enough(128, ty.sign, range),
        },
    ensures
        width_verified(f, ty, b, range).errors == f.errors,
        width_verified(f, ty, b, range).checks == f.checks,
{
}

// ── everything is handled ───────────────────────────────────────────────────

#[verifier::spinoff_prover]
proof fn handles_bindings(fs: Seq<Seq<char>>, f: Verdicts, s: Ranges, v: VarDecl, n: nat, stmts: Vec<Stmt>, i: nat)
    requires
        n <= v.bindings@.len(),
    ensures
        extends(f, found_bindings(fs, f, s, v, n, stmts, i)),
        bindings_handled(fs, found_bindings(fs, f, s, v, n, stmts, i), s, v, n, stmts, i),
    decreases n,
{
    if n == 0 {
        lemma_same_extends(f, f);
    } else {
        handles_bindings(fs, f, s, v, (n - 1) as nat, stmts, i);
        let before = found_bindings(fs, f, s, v, (n - 1) as nat, stmts, i);
        let b = v.bindings@[n - 1];
        let range = binding_range(b, before_binding(fs, after_bindings(fs, s, v, (n - 1) as nat), b));
        let all = reach_block(fs, b.name@, after_bindings(fs, s, v, v.bindings@.len()), stmts, i, range);
        lemma_sign(before, v.ty, b.name@, range, b.name_span);
        let mid = sign_verified(before, v.ty, b.name@, range, b.name_span);
        lemma_width(mid, v.ty, b, all);
        let g = width_verified(mid, v.ty, b, all);
        lemma_promise_stays(mid, g, v.ty.sign, range, b.name_span);
        lemma_extends_then(before, mid, g);
        lemma_extends_then(f, before, g);
        lemma_bindings_stay(fs, before, g, s, v, (n - 1) as nat, stmts, i);
        assert(g == found_bindings(fs, f, s, v, n, stmts, i));
    }
}

#[verifier::spinoff_prover]
proof fn handles_targets(fs: Seq<Seq<char>>, f: Verdicts, s: Ranges, c: ChangeStmt, n: nat)
    requires
        n <= c.targets@.len(),
    ensures
        extends(f, found_targets(fs, f, s, c, n)),
        targets_handled(fs, found_targets(fs, f, s, c, n), s, c, n),
    decreases n,
{
    if n == 0 {
        lemma_same_extends(f, f);
    } else {
        handles_targets(fs, f, s, c, (n - 1) as nat);
        let before = found_targets(fs, f, s, c, (n - 1) as nat);
        let t = c.targets@[n - 1];
        let range = expr_range(t.value, before_target(fs, after_targets(fs, s, c, (n - 1) as nat), t));
        lemma_sign(before, c.ty, t.name@, range, t.name_span);
        let g = sign_verified(before, c.ty, t.name@, range, t.name_span);
        lemma_extends_then(f, before, g);
        lemma_targets_stay(fs, before, g, s, c, (n - 1) as nat);
    }
}

/// What is found in one statement of a block.
spec fn found_one(fs: Seq<Seq<char>>, f: Verdicts, s: Ranges, stmts: Vec<Stmt>, i: nat) -> Verdicts {
    match stmts@[i as int] {
        Stmt::Var(v) => found_bindings(fs, f, s, v, v.bindings@.len(), stmts, i + 1),
        stmt => found_in_statement(fs, f, s, stmt),
    }
}

spec fn one_handled(fs: Seq<Seq<char>>, f: Verdicts, s: Ranges, stmts: Vec<Stmt>, i: nat) -> bool {
    let stmt = stmts@[i as int];
    &&& stmt matches Stmt::Var(v) ==> bindings_handled(fs, f, s, v, v.bindings@.len(), stmts, i + 1)
    &&& statement_handled(fs, f, s, stmt)
}

#[verifier::spinoff_prover]
proof fn lemma_found_step(fs: Seq<Seq<char>>, f: Verdicts, s: Ranges, stmts: Vec<Stmt>, i: nat)
    requires
        i < stmts@.len(),
    ensures
        found_in_block(fs, f, s, stmts, i) == found_in_block(
            fs,
            found_one(fs, f, s, stmts, i),
            after_statement(fs, s, stmts@[i as int]),
            stmts,
            i + 1,
        ),
{
}

#[verifier::spinoff_prover]
proof fn lemma_handled_step(fs: Seq<Seq<char>>, f: Verdicts, s: Ranges, stmts: Vec<Stmt>, i: nat)
    requires
        i < stmts@.len(),
        one_handled(fs, f, s, stmts, i),
        block_handled(fs, f, after_statement(fs, s, stmts@[i as int]), stmts, i + 1),
    ensures
        block_handled(fs, f, s, stmts, i),
{
}

#[verifier::spinoff_prover]
proof fn lemma_one_stays(fs: Seq<Seq<char>>, f: Verdicts, g: Verdicts, s: Ranges, stmts: Vec<Stmt>, i: nat)
    requires
        extends(f, g),
        one_handled(fs, f, s, stmts, i),
    ensures
        one_handled(fs, g, s, stmts, i),
{
    if let Stmt::Var(v) = stmts@[i as int] {
        lemma_bindings_stay(fs, f, g, s, v, v.bindings@.len(), stmts, i + 1);
    }
    lemma_statement_stays(fs, f, g, s, stmts@[i as int]);
}

proof fn handles_block(fs: Seq<Seq<char>>, f: Verdicts, s: Ranges, stmts: Vec<Stmt>, i: nat)
    ensures
        extends(f, found_in_block(fs, f, s, stmts, i)),
        block_handled(fs, found_in_block(fs, f, s, stmts, i), s, stmts, i),
    decreases stmts, stmts@.len() - i, 1nat,
{
    if i >= stmts@.len() {
        lemma_same_extends(f, f);
    } else {
        lemma_found_step(fs, f, s, stmts, i);
        let mid = found_one(fs, f, s, stmts, i);
        let after = after_statement(fs, s, stmts@[i as int]);
        let g = found_in_block(fs, mid, after, stmts, i + 1);
        handles_one(fs, f, s, stmts, i);
        handles_block(fs, mid, after, stmts, i + 1);
        lemma_one_stays(fs, mid, g, s, stmts, i);
        lemma_extends_then(f, mid, g);
        lemma_handled_step(fs, g, s, stmts, i);
    }
}

proof fn handles_one(fs: Seq<Seq<char>>, f: Verdicts, s: Ranges, stmts: Vec<Stmt>, i: nat)
    requires
        i < stmts@.len(),
    ensures
        extends(f, found_one(fs, f, s, stmts, i)),
        one_handled(fs, found_one(fs, f, s, stmts, i), s, stmts, i),
    decreases stmts, stmts@.len() - i, 0nat,
{
    match stmts@[i as int] {
        Stmt::Var(v) => handles_bindings(fs, f, s, v, v.bindings@.len(), stmts, i + 1),
        stmt => handles_statement(fs, f, s, stmt),
    }
}

proof fn handles_statement(fs: Seq<Seq<char>>, f: Verdicts, s: Ranges, stmt: Stmt)
    ensures
        extends(f, found_in_statement(fs, f, s, stmt)),
        statement_handled(fs, found_in_statement(fs, f, s, stmt), s, stmt),
    decreases stmt, 0nat,
{
    match stmt {
        Stmt::Change(c) => handles_targets(fs, f, s, c, c.targets@.len()),
        Stmt::Func(d) => handles_block(fs, f, entry_state(d, d.params@.len()), d.body, 0),
        Stmt::If(chain) => handles_arms(fs, f, calmed(fs, s, own_touched(stmt)), chain, 0),
        Stmt::Loop(l) => handles_block(fs, f, reporting_state(fs, s, l), l.body, 0),
        _ => lemma_same_extends(f, f),
    }
}

proof fn handles_arms(fs: Seq<Seq<char>>, f: Verdicts, s: Ranges, chain: IfChain, i: nat)
    ensures
        extends(f, found_in_arms(fs, f, s, chain, i)),
        arms_handled(fs, found_in_arms(fs, f, s, chain, i), s, chain, i),
    decreases chain, chain.arms@.len() - i,
{
    if i >= chain.arms@.len() {
        lemma_same_extends(f, f);
    } else {
        let arm = chain.arms@[i as int];
        let inner = narrowed_by(s, arm.condition);
        handles_block(fs, f, inner, arm.body, 0);
        let mid = found_in_block(fs, f, inner, arm.body, 0);
        handles_arms(fs, mid, s, chain, i + 1);
        let g = found_in_arms(fs, mid, s, chain, i + 1);
        lemma_extends_then(f, mid, g);
        lemma_block_stays(fs, mid, g, inner, arm.body, 0);
    }
}

// ── laws ────────────────────────────────────────────────────────────────────

/// Whatever a program declares or changes under a sign promise, in the bodies of functions,
/// conditionals and loops too, verification has a range all of which keeps the promise, or
/// reports an error there, or has it checked while running; and every width of a whole number
/// is enough for every use that is known, or there is an error.
pub proof fn every_promise_is_handled(p: Program, informer: InformerView, left: Option<u64>)
    ensures
        block_handled(
            touched_by_functions(p.statements@, p.statements@.len()).names,
            program_verified(p, informer, left),
            Map::empty(),
            p.statements,
            0,
        ),
{
    handles_block(
        touched_by_functions(p.statements@, p.statements@.len()).names,
        Verdicts { errors: Seq::empty(), checks: Seq::empty(), informer, left },
        Map::empty(),
        p.statements,
        0,
    );
}

/// A function's body is verified for every argument that keeps the parameter's promise, and
/// knows of nothing but its parameters.
pub proof fn a_function_starts_from_its_promises(f: FuncDecl, j: int, n: int)
    requires
        0 <= j < f.params@.len(),
        forall|k: int| j < k < f.params@.len() ==> (#[trigger] f.params@[k]).name@ != f.params@[j].name@,
    ensures
        keeps_sign(f.params@[j].ty.sign, n) <==> within(range_in(entry_state(f, f.params@.len()), f.params@[j].name@), n),
        forall|x: Seq<char>|
            (forall|k: int| 0 <= k < f.params@.len() ==> (#[trigger] f.params@[k]).name@ != x) ==> #[trigger] range_in(
                entry_state(f, f.params@.len()),
                x,
            ) == anything(),
{
    lemma_entry(f, f.params@.len(), j);
    assert forall|x: Seq<char>|
        (forall|k: int| 0 <= k < f.params@.len() ==> (#[trigger] f.params@[k]).name@ != x) implies #[trigger] range_in(
        entry_state(f, f.params@.len()),
        x,
    ) == anything() by {
        lemma_entry_else(f, f.params@.len(), x);
    }
}

proof fn lemma_entry(f: FuncDecl, m: nat, j: int)
    requires
        0 <= j < m <= f.params@.len(),
        forall|k: int| j < k < m ==> (#[trigger] f.params@[k]).name@ != f.params@[j].name@,
    ensures
        entry_state(f, m).dom().contains(f.params@[j].name@),
        entry_state(f, m)[f.params@[j].name@] == crate::sema::analysis::promised_range(f.params@[j].ty.sign),
    decreases m,
{
    if j < m - 1 {
        lemma_entry(f, (m - 1) as nat, j);
    }
}

proof fn lemma_entry_else(f: FuncDecl, m: nat, x: Seq<char>)
    requires
        m <= f.params@.len(),
        forall|k: int| 0 <= k < m ==> (#[trigger] f.params@[k]).name@ != x,
    ensures
        !entry_state(f, m).dom().contains(x),
    decreases m,
{
    if m > 0 {
        lemma_entry_else(f, (m - 1) as nat, x);
    }
}

// ── every use counts ────────────────────────────────────────────────────────

/// Whether a range holds another.
pub open spec fn holds_all(a: Interval, b: Interval) -> bool {
    forall|n: int| within(b, n) ==> #[trigger] within(a, n)
}

/// What a variable is changed to, anywhere in the statements of a block from the `i`-th on and
/// up to where its name is declared anew, lies in a range.
pub open spec fn uses_lie_in(fs: Seq<Seq<char>>, name: Seq<char>, s: Ranges, stmts: Vec<Stmt>, i: nat, r: Interval) -> bool
    decreases stmts, stmts@.len() - i,
{
    i < stmts@.len() && !declares(stmts@[i as int], name) ==> {
        &&& use_lies_in(fs, name, s, stmts@[i as int], r)
        &&& uses_lie_in(fs, name, after_statement(fs, s, stmts@[i as int]), stmts, i + 1, r)
    }
}

pub open spec fn use_lies_in(fs: Seq<Seq<char>>, name: Seq<char>, s: Ranges, stmt: Stmt, r: Interval) -> bool
    decreases stmt, 0nat,
{
    if stirred(fs, name, own_touched(stmt)) {
        holds_all(r, anything())
    } else {
        match stmt {
            Stmt::Change(c) => forall|j: int|
                0 <= j < c.targets@.len() && (#[trigger] c.targets@[j]).name@ == name && c.targets@[j].selectors@.len() == 0 ==> holds_all(
                    r,
                    expr_range(c.targets@[j].value, before_target(fs, after_targets(fs, s, c, j as nat), c.targets@[j])),
                ),
            Stmt::If(chain) => uses_lie_in_arms(fs, name, calmed(fs, s, own_touched(stmt)), chain, 0, r),
            Stmt::Loop(l) => (l.kind matches LoopKind::Counted { var, .. } && var@ == name) || uses_lie_in(
                fs,
                name,
                reporting_state(fs, s, l),
                l.body,
                0,
                r,
            ),
            _ => true,
        }
    }
}

pub open spec fn uses_lie_in_arms(fs: Seq<Seq<char>>, name: Seq<char>, s: Ranges, chain: IfChain, i: nat, r: Interval) -> bool
    decreases chain, chain.arms@.len() - i,
{
    i < chain.arms@.len() ==> {
        &&& uses_lie_in(fs, name, narrowed_by(s, chain.arms@[i as int].condition), chain.arms@[i as int].body, 0, r)
        &&& uses_lie_in_arms(fs, name, s, chain, i + 1, r)
    }
}

proof fn lemma_held(r: Interval, a: Interval, b: Interval)
    requires
        holds_all(r, joined(a, b)),
    ensures
        holds_all(r, a),
        holds_all(r, b),
{
    assert forall|n: int| within(a, n) || within(b, n) implies #[trigger] within(r, n) by {
        crate::sema::interval::join_holds_both(a, b, n);
    }
}

proof fn lemma_reach_targets(fs: Seq<Seq<char>>, name: Seq<char>, s: Ranges, c: ChangeStmt, n: nat, acc: Interval, r: Interval)
    requires
        n <= c.targets@.len(),
        holds_all(r, reach_targets(fs, name, s, c, n, acc)),
    ensures
        holds_all(r, acc),
        forall|j: int|
            0 <= j < n && (#[trigger] c.targets@[j]).name@ == name && c.targets@[j].selectors@.len() == 0 ==> holds_all(
                r,
                expr_range(c.targets@[j].value, before_target(fs, after_targets(fs, s, c, j as nat), c.targets@[j])),
            ),
    decreases n,
{
    if n > 0 {
        let before = reach_targets(fs, name, s, c, (n - 1) as nat, acc);
        let t = c.targets@[n - 1];
        if t.name@ == name && t.selectors@.len() == 0 {
            lemma_held(r, before, expr_range(t.value, before_target(fs, after_targets(fs, s, c, (n - 1) as nat), t)));
        }
        lemma_reach_targets(fs, name, s, c, (n - 1) as nat, acc, r);
    }
}

#[verifier::spinoff_prover]
proof fn lemma_reach_statement(fs: Seq<Seq<char>>, name: Seq<char>, s: Ranges, stmt: Stmt, acc: Interval, r: Interval)
    requires
        holds_all(r, reach_statement(fs, name, s, stmt, acc)),
    ensures
        holds_all(r, acc),
        use_lies_in(fs, name, s, stmt, r),
    decreases stmt, 0nat,
{
    if stirred(fs, name, own_touched(stmt)) {
        assert forall|n: int| within(acc, n) implies #[trigger] within(r, n) by {
            assert(within(anything(), n));
        }
    } else {
        match stmt {
            Stmt::Change(c) => lemma_reach_targets(fs, name, s, c, c.targets@.len(), acc, r),
            Stmt::If(chain) => lemma_reach_arms(fs, name, calmed(fs, s, own_touched(stmt)), chain, 0, acc, r),
            Stmt::Loop(l) => {
                if !(l.kind matches LoopKind::Counted { var, .. } && var@ == name) {
                    lemma_reach_block(fs, name, reporting_state(fs, s, l), l.body, 0, acc, r);
                }
            },
            _ => {},
        }
    }
}

#[verifier::spinoff_prover]
proof fn lemma_reach_arms(fs: Seq<Seq<char>>, name: Seq<char>, s: Ranges, chain: IfChain, i: nat, acc: Interval, r: Interval)
    requires
        holds_all(r, reach_arms(fs, name, s, chain, i, acc)),
    ensures
        holds_all(r, acc),
        uses_lie_in_arms(fs, name, s, chain, i, r),
    decreases chain, chain.arms@.len() - i,
{
    if i < chain.arms@.len() {
        let arm = chain.arms@[i as int];
        let inner = reach_block(fs, name, narrowed_by(s, arm.condition), arm.body, 0, acc);
        lemma_reach_arms(fs, name, s, chain, i + 1, inner, r);
        lemma_reach_block(fs, name, narrowed_by(s, arm.condition), arm.body, 0, acc, r);
    }
}

#[verifier::spinoff_prover]
proof fn lemma_reach_block(fs: Seq<Seq<char>>, name: Seq<char>, s: Ranges, stmts: Vec<Stmt>, i: nat, acc: Interval, r: Interval)
    requires
        holds_all(r, reach_block(fs, name, s, stmts, i, acc)),
    ensures
        holds_all(r, acc),
        uses_lie_in(fs, name, s, stmts, i, r),
    decreases stmts, stmts@.len() - i,
{
    if i < stmts@.len() && !declares(stmts@[i as int], name) {
        let stmt = stmts@[i as int];
        let one = reach_statement(fs, name, s, stmt, acc);
        let after = after_statement(fs, s, stmt);
        assert(reach_block(fs, name, s, stmts, i, acc) == reach_block(fs, name, after, stmts, i + 1, one));
        lemma_reach_block(fs, name, after, stmts, i + 1, one, r);
        lemma_reach_statement(fs, name, s, stmt, acc, r);
    }
}

/// The range that a width is held against has in it what the variable starts with and all
/// that it is changed to in its scope, in conditionals and loops too; where something else may
/// change it, that is anything.
pub proof fn a_width_counts_every_use(fs: Seq<Seq<char>>, name: Seq<char>, s: Ranges, stmts: Vec<Stmt>, i: nat, start: Interval)
    ensures
        holds_all(reach_block(fs, name, s, stmts, i, start), start),
        uses_lie_in(fs, name, s, stmts, i, reach_block(fs, name, s, stmts, i, start)),
{
    lemma_reach_block(fs, name, s, stmts, i, start, reach_block(fs, name, s, stmts, i, start));
}

} // verus!
