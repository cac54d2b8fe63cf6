//! The range analysis is sound: what it knows behind statements is true there.

use vstd::prelude::*;

use crate::ast::{BinOp, ChangeStmt, Expr, ExprKind, IfChain, LoopKind, LoopStmt, Stmt, VarDecl};
use crate::codegen::agreement::{
    bindings_next, counted_on, does_arms, does_arms_next, does_bindings, does_block, does_block_next,
    does_counted, does_counted_next, does_counted_start, does_scoped, does_scoped_parts, does_stmt,
    does_stmt_parts, does_targets, does_texts, does_while, does_while_next, normally, once_more, targets_next,
    texts_next,
};
use crate::codegen::native::Native;
use crate::codegen::simulation::{
    fits_native, lemma_whole_outcome, literal_typed, meaning, meaning_binary, meaning_unary, whole_context,
};
use crate::codegen::whole::{
    known, names_array, scopes_after, whole_arms, whole_binding, whole_block, whole_bounds, whole_expr,
    whole_loop, whole_print, whole_stmt, whole_target, whole_type, with_bindings, with_name, Scope,
};
use crate::eval::numeric::{binding_context, context_of, literal_meaning, whole, Numeric};
use crate::eval::ops::StopView;
use crate::eval::select::{in_range, range_left};
use crate::eval::semantics;
use crate::eval::semantics::{
    assigned, closed_scope, defined, expr_result, holder, looked_up, opened, range_inside, World,
};
use crate::eval::value::Val;
use crate::sema::analysis::{
    after_arms, after_bindings, after_block, after_loop, after_scope, after_statement, after_targets,
    at_entry, before_target, binds, calm, counter_of, declares, expr_range, inside_loop, named_by, narrowed,
    narrowed_by, once_round, touched_conditions, touched_expr, touched_exprs, touched_selectors, undeclared,
    untouched, without_bindings, Ranges, Touched,
};
use crate::sema::interval::{anything, joined, joined_states, range_in, stays, wider, within, Interval};
use crate::sema::laws::{
    a_condition_narrows_soundly, a_recorded_range_holds_what_is_stored, agrees,
    an_expression_stays_in_its_range, covers, lemma_same_number,
};

verus! {

// ── what names hold ─────────────────────────────────────────────────────────

/// Whether the names of each scope hold what they stand for.
pub open spec fn fits_scopes(world: World, s: Seq<Scope>) -> bool {
    &&& world.frames.len() == s.len()
    &&& s.len() > 0
    &&& forall|i: int, name: Seq<char>|
        0 <= i < s.len() ==> (#[trigger] s[i].dom().contains(name) <==> world.frames[i].dom().contains(name))
    &&& forall|i: int, name: Seq<char>|
        0 <= i < s.len() && #[trigger] s[i].dom().contains(name) ==> fits_native(world.frames[i][name], s[i][name])
            && (s[i][name] is Int || s[i][name] is Bool)
}

proof fn lemma_holds(world: World, s: Seq<Scope>, name: Seq<char>, n: nat)
    requires
        fits_scopes(world, s),
        n <= s.len(),
    ensures
        match known(s, name, n) {
            Some(native) => holder(world.frames, name, n) matches Some(i) && 0 <= i < n && fits_native(
                world.frames[i][name],
                native,
            ) && s[i].dom().contains(name) && (native is Int || native is Bool),
            None => holder(world.frames, name, n) is None && forall|i: int|
                0 <= i < n ==> !#[trigger] s[i].dom().contains(name),
        },
    decreases n,
{
    if n > 0 {
        assert(s[n - 1].dom().contains(name) <==> world.frames[n - 1].dom().contains(name));
        if !s[n - 1].dom().contains(name) {
            lemma_holds(world, s, name, (n - 1) as nat);
        }
    }
}

/// An expression on whole numbers comes to what it is wanted as, and leaves the world alone.
#[verifier::spinoff_prover]
proof fn whole_value(d: nat, world: World, s: Seq<Scope>, e: Expr, want: Native, hint: Option<Numeric>)
    requires
        fits_scopes(world, s),
        whole_expr(s, e, want),
        whole_context(hint),
        meaning(d, world, e, hint).1 is Ok,
    ensures
        meaning(d, world, e, hint).0 == world,
        fits_native(meaning(d, world, e, hint).1->Ok_0, want),
    decreases e,
{
    match e.kind {
        ExprKind::Math(inner) => {
            assert(meaning(d, world, e, hint) == meaning(d, world, *inner, hint)) by {
                reveal(meaning);
            }
            whole_value(d, world, s, *inner, want, hint);
        },
        ExprKind::Number(t) => {
            reveal(meaning);
            value_of_literal(t@, want, hint);
        },
        ExprKind::Literal(t) => {
            reveal(meaning);
            value_of_literal(t@, want, hint);
        },
        ExprKind::Ref { name, selectors } => {
            lemma_holds(world, s, name@, s.len());
            value_of_name(d, world, e, hint);
        },
        ExprKind::Unary { op, operand } => {
            meaning_unary(d, world, e, hint, meaning(d, world, *operand, hint).1->Ok_0);
            whole_value(d, world, s, *operand, want, hint);
        },
        ExprKind::Binary { op, lhs, rhs } => {
            let side = if op == BinOp::And || op == BinOp::Or {
                Native::Bool
            } else {
                Native::Int
            };
            let x = meaning(d, world, *lhs, hint).1->Ok_0;
            let y = meaning(d, world, *rhs, hint).1->Ok_0;
            meaning_binary(d, world, e, hint, x, y);
            whole_value(d, world, s, *lhs, side, hint);
            whole_value(d, world, s, *rhs, side, hint);
            if side is Int {
                lemma_whole_outcome(world, op, x->Int_0, y->Int_0, e.span, hint);
            }
        },
        _ => {},
    }
}

#[verifier::spinoff_prover]
proof fn value_of_name(d: nat, world: World, e: Expr, hint: Option<Numeric>)
    requires
        e.kind is Ref,
        e.kind->Ref_selectors@.len() == 0,
        looked_up(world, e.kind->Ref_name@) is Some,
    ensures
        meaning(d, world, e, hint) == (world, Ok::<Val, StopView>(looked_up(world, e.kind->Ref_name@)->0)),
{
    reveal(meaning);
    let v = looked_up(world, e.kind->Ref_name@)->0;
    let selectors = e.kind->Ref_selectors;
    assert(semantics::selectors_from(d, world, v, selectors, 0, 0, e.span) == semantics::run_result(
        d,
        world,
        v,
        selectors,
        0,
        0,
        e.span,
    ));
}

proof fn value_of_literal(t: Seq<char>, want: Native, hint: Option<Numeric>)
    requires
        literal_typed(t, want),
        whole_context(hint),
    ensures
        fits_native(literal_meaning(t, hint), want),
{
    reveal_strlit("true");
    reveal_strlit("false");
    if want is Int {
        lemma_same_number(t);
    }
}

// ── what ranges allow ───────────────────────────────────────────────────────

/// What is known of the names that stand for something is true of what they hold.
pub open spec fn covers_known(world: World, s: Seq<Scope>, r: Ranges) -> bool {
    forall|x: Seq<char>|
        #![trigger range_in(r, x)]
        known(s, x, s.len()) is Some && range_in(r, x) != anything() ==> (looked_up(world, x) matches Some(v) && agrees(
            v,
            range_in(r, x),
        ))
}

/// Whether only names that stand for something have a range.
pub open spec fn names_only(s: Seq<Scope>, r: Ranges) -> bool {
    forall|x: Seq<char>| #![trigger range_in(r, x)] range_in(r, x) != anything() ==> known(s, x, s.len()) is Some
}

proof fn lemma_names_only(world: World, s: Seq<Scope>, r: Ranges)
    requires
        fits_scopes(world, s),
        covers(world, r),
    ensures
        names_only(s, r),
{
    assert forall|x: Seq<char>| #![trigger range_in(r, x)] range_in(r, x) != anything() implies known(s, x, s.len()) is Some by {
        lemma_holds(world, s, x, s.len());
    }
}

proof fn lemma_wider(world: World, s: Seq<Scope>, a: Ranges, b: Ranges)
    requires
        covers_known(world, s, a),
        stays(a, b),
    ensures
        covers_known(world, s, b),
        names_only(s, b) ==> covers(world, b),
{
    assert forall|x: Seq<char>|
        #![trigger range_in(b, x)]
        known(s, x, s.len()) is Some && range_in(b, x) != anything() implies (looked_up(world, x) matches Some(v)
        && agrees(v, range_in(b, x))) by {
        assert(wider(range_in(b, x), range_in(a, x)));
        assert(range_in(a, x) != anything());
    }
}

proof fn lemma_covers_known(world: World, s: Seq<Scope>, a: Ranges)
    requires
        covers(world, a),
    ensures
        covers_known(world, s, a),
{
}

/// Where two paths meet.
proof fn lemma_meet(a: Ranges, b: Ranges)
    ensures
        stays(a, joined_states(a, b)),
        stays(b, joined_states(a, b)),
{
}

// ── what analysis forgets ───────────────────────────────────────────────────

/// An expression on whole numbers changes nothing as it is evaluated.
proof fn lemma_untouched(s: Seq<Scope>, e: Expr, want: Native, t: Touched)
    requires
        whole_expr(s, e, want),
    ensures
        touched_expr(e, t) == t,
    decreases e,
{
    reveal_with_fuel(touched_expr, 2);
    reveal_with_fuel(touched_selectors, 2);
    match e.kind {
        ExprKind::Math(inner) => {
            lemma_untouched(s, *inner, want, t);
        },
        ExprKind::Unary { operand, .. } => {
            lemma_untouched(s, *operand, if want is Int { Native::Int } else { Native::Bool }, t);
        },
        ExprKind::Binary { op, lhs, rhs } => {
            let side = if op == BinOp::And || op == BinOp::Or {
                Native::Bool
            } else {
                Native::Int
            };
            lemma_untouched(s, *lhs, side, t);
            lemma_untouched(s, *rhs, side, t);
        },
        _ => {},
    }
}

proof fn lemma_calm(fs: Seq<Seq<char>>, s: Seq<Scope>, r: Ranges, e: Expr, want: Native)
    requires
        whole_expr(s, e, want),
    ensures
        calm(fs, r, e) == r,
{
    lemma_untouched(s, e, want, untouched());
}

proof fn lemma_calm_prints(s: Seq<Scope>, args: Vec<Expr>, i: nat)
    requires
        forall|j: int| 0 <= j < args@.len() ==> whole_print(s, #[trigger] args@[j]),
    ensures
        touched_exprs(args, i, untouched()) == untouched(),
    decreases args@.len() - i,
{
    reveal_with_fuel(touched_expr, 2);
    reveal_with_fuel(touched_selectors, 2);
    if i < args@.len() {
        let e = args@[i as int];
        if whole_expr(s, e, Native::Int) {
            lemma_untouched(s, e, Native::Int, untouched());
        } else if whole_expr(s, e, Native::Bool) {
            lemma_untouched(s, e, Native::Bool, untouched());
        } else if let ExprKind::Ref { selectors, .. } = e.kind {
            assert(touched_selectors(selectors, 0, untouched()) == untouched());
        }
        assert(touched_expr(e, untouched()) == untouched());
        lemma_calm_prints(s, args, i + 1);
    }
}

proof fn lemma_calm_conditions(s: Seq<Scope>, chain: IfChain, i: nat, fixed: Set<Seq<char>>)
    requires
        whole_arms(s, chain, i, fixed),
    ensures
        touched_conditions(chain, i, untouched()) == untouched(),
    decreases chain.arms@.len() - i,
{
    if i < chain.arms@.len() {
        if let Some(e) = chain.arms@[i as int].condition {
            lemma_untouched(s, e, Native::Bool, untouched());
        }
        lemma_calm_conditions(s, chain, i + 1, fixed);
    }
}

proof fn lemma_calm_bounds(fs: Seq<Seq<char>>, s: Seq<Scope>, r: Ranges, range: Expr)
    requires
        whole_bounds(s, range),
    ensures
        calm(fs, r, range) == r,
{
    let part = range_inside(range);
    lemma_untouched(s, *part.kind->Range_from, Native::Int, untouched());
    lemma_untouched(s, *part.kind->Range_to, Native::Int, untouched());
    if let Some(by) = part.kind->Range_by {
        lemma_untouched(s, *by, Native::Int, untouched());
    }
    reveal_with_fuel(touched_expr, 3);
}

/// A name that one of the first `n` statements declares.
pub open spec fn declared_by(stmts: Seq<Stmt>, n: nat, x: Seq<char>) -> bool
    decreases n,
{
    n > 0 && (declares(stmts[n - 1], x) || declared_by(stmts, (n - 1) as nat, x))
}

proof fn lemma_without(r: Ranges, v: VarDecl, n: nat, x: Seq<char>)
    ensures
        range_in(without_bindings(r, v, n), x) == if binds(v, x, n) {
            anything()
        } else {
            range_in(r, x)
        },
    decreases n,
{
    if n > 0 {
        lemma_without(r, v, (n - 1) as nat, x);
    }
}

proof fn lemma_undeclared(r: Ranges, stmts: Seq<Stmt>, n: nat, x: Seq<char>)
    ensures
        range_in(undeclared(r, stmts, n), x) == if declared_by(stmts, n, x) {
            anything()
        } else {
            range_in(r, x)
        },
    decreases n,
{
    if n > 0 {
        lemma_undeclared(r, stmts, (n - 1) as nat, x);
        if let Stmt::Var(v) = stmts[n - 1] {
            lemma_without(undeclared(r, stmts, (n - 1) as nat), v, v.bindings@.len(), x);
        }
    }
}

proof fn lemma_declared_by(stmts: Seq<Stmt>, i: nat, n: nat, x: Seq<char>)
    requires
        i < n,
        declares(stmts[i as int], x),
    ensures
        declared_by(stmts, n, x),
    decreases n,
{
    if i + 1 < n {
        lemma_declared_by(stmts, i, (n - 1) as nat, x);
    }
}

/// The state of a loop allows what comes in and what one more time round leaves.
proof fn lemma_settled(fs: Seq<Seq<char>>, r: Ranges, l: LoopStmt)
    ensures
        ({
            let inside = inside_loop(fs, r, l);
            let counter = counter_of(fs, r, l);
            &&& stays(at_entry(fs, r, l), inside)
            &&& stays(once_round(fs, inside, l, counter), inside)
        }),
{
}

// ── conditions ──────────────────────────────────────────────────────────────

proof fn lemma_named(s: Seq<Scope>, e: Expr, want: Native)
    requires
        whole_expr(s, e, want),
    ensures
        named_by(e) matches Some(name) ==> known(s, name, s.len()) == Some(want),
    decreases e,
{
    if let ExprKind::Math(inner) = e.kind {
        lemma_named(s, *inner, want);
    }
}

#[verifier::spinoff_prover]
proof fn narrows(d: nat, world: World, s: Seq<Scope>, r: Ranges, cond: Expr, taken: bool)
    requires
        fits_scopes(world, s),
        whole_expr(s, cond, Native::Bool),
        covers(world, r),
        meaning(d, world, cond, None) == (world, Ok::<Val, StopView>(Val::Bool(taken))),
    ensures
        covers(world, narrowed(r, cond, taken)),
{
    let inner = range_inside(cond);
    assert(whole_expr(s, inner, Native::Bool));
    match inner.kind {
        ExprKind::Binary { op, lhs, rhs } => {
            if op == BinOp::And || op == BinOp::Or {
                let after = narrowed(r, cond, taken);
                assert forall|x: Seq<char>| #[trigger] range_in(after, x) == range_in(r, x) by {}
            } else {
                lemma_named(s, *lhs, Native::Int);
                if let Some(name) = named_by(*lhs) {
                    lemma_holds(world, s, name, s.len());
                }
                if meaning(d, world, *rhs, None).1 is Ok {
                    whole_value(d, world, s, *rhs, Native::Int, None);
                }
                assert(expr_result(d, world, *rhs, None) == meaning(d, world, *rhs, None) && expr_result(
                    d,
                    world,
                    cond,
                    None,
                ) == meaning(d, world, cond, None)) by {
                    reveal(meaning);
                }
                a_condition_narrows_soundly(d, world, cond, taken, r);
            }
        },
        _ => {},
    }
}

// ── declarations and changes ────────────────────────────────────────────────

proof fn lemma_fits_defined(world: World, s: Seq<Scope>, name: Seq<char>, v: Val, n: Native)
    requires
        fits_scopes(world, s),
        fits_native(v, n),
        n is Int || n is Bool,
    ensures
        fits_scopes(defined(world, name, v), with_name(s, name, n)),
{
    let k = s.len() - 1;
    let s1 = with_name(s, name, n);
    let world1 = defined(world, name, v);
    assert forall|i: int, x: Seq<char>| 0 <= i < s1.len() implies (#[trigger] s1[i].dom().contains(x)
        <==> world1.frames[i].dom().contains(x)) by {
        assert(s[i].dom().contains(x) <==> world.frames[i].dom().contains(x));
    }
    assert forall|i: int, x: Seq<char>| 0 <= i < s1.len() && #[trigger] s1[i].dom().contains(x) implies fits_native(
        world1.frames[i][x],
        s1[i][x],
    ) && (s1[i][x] is Int || s1[i][x] is Bool) by {
        if !(i == k && x == name) {
            assert(s[i].dom().contains(x));
        }
    }
}

proof fn lemma_fits_assigned(world: World, s: Seq<Scope>, name: Seq<char>, v: Val)
    requires
        fits_scopes(world, s),
        known(s, name, s.len()) matches Some(n) && fits_native(v, n),
    ensures
        fits_scopes(assigned(world, name, v), s),
{
    lemma_holds(world, s, name, s.len());
    let k = holder(world.frames, name, s.len())->0;
    lemma_holder_known(world, s, name, s.len());
    let world1 = assigned(world, name, v);
    assert forall|i: int, x: Seq<char>| 0 <= i < s.len() implies (#[trigger] s[i].dom().contains(x)
        <==> world1.frames[i].dom().contains(x)) by {
        assert(s[i].dom().contains(x) <==> world.frames[i].dom().contains(x));
    }
}

proof fn lemma_holder_known(world: World, s: Seq<Scope>, name: Seq<char>, n: nat)
    requires
        fits_scopes(world, s),
        n <= s.len(),
    ensures
        holder(world.frames, name, n) matches Some(i) ==> 0 <= i < n && known(s, name, n) == Some(s[i][name]),
    decreases n,
{
    if n > 0 {
        assert(s[n - 1].dom().contains(name) <==> world.frames[n - 1].dom().contains(name));
        if !s[n - 1].dom().contains(name) {
            lemma_holder_known(world, s, name, (n - 1) as nat);
        }
    }
}

/// What holds behind a statement that was run.
pub open spec fn sound_after(
    world: World,
    r: (World, Result<semantics::FlowView, StopView>),
    s: Seq<Scope>,
    ranges: Ranges,
) -> bool {
    &&& r == normally(r.0)
    &&& fits_scopes(r.0, s)
    &&& covers(r.0, ranges)
    &&& r.0.steps >= world.steps
}

#[verifier::spinoff_prover]
proof fn sound_bindings(
    fs: Seq<Seq<char>>,
    d: nat,
    world: World,
    s: Seq<Scope>,
    r: Ranges,
    v: VarDecl,
    i: nat,
    fixed: Set<Seq<char>>,
)
    requires
        i <= v.bindings@.len(),
        forall|j: int|
            #![trigger v.bindings@[j]]
            0 <= j < v.bindings@.len() ==> whole_binding(with_bindings(s, v, j as nat), v, j, fixed),
        fits_scopes(world, with_bindings(s, v, i)),
        covers(world, after_bindings(fs, r, v, i)),
        does_bindings(d, world, v, i).1 is Ok,
    ensures
        sound_after(
            world,
            does_bindings(d, world, v, i),
            with_bindings(s, v, v.bindings@.len()),
            after_bindings(fs, r, v, v.bindings@.len()),
        ),
    decreases v.bindings@.len() - i,
{
    if i < v.bindings@.len() {
        let b = v.bindings@[i as int];
        let s0 = with_bindings(s, v, i);
        let r0 = after_bindings(fs, r, v, i);
        let e = b.value->0;
        let hint = binding_context(v.ty, b.precision);
        let n = whole_type(v.ty)->0;
        bindings_next(d, world, v, i);
        lemma_calm(fs, s0, r0, e, n);
        whole_value(d, world, s0, e, n, hint);
        let x = meaning(d, world, e, hint).1->Ok_0;
        assert(expr_result(d, world, e, hint) == meaning(d, world, e, hint)) by {
            reveal(meaning);
        }
        a_recorded_range_holds_what_is_stored(d, world, b.name@, e, hint, r0);
        lemma_fits_defined(world, s0, b.name@, x, n);
        sound_bindings(fs, d, defined(world, b.name@, x), s, r, v, i + 1, fixed);
    } else {
        reveal(does_bindings);
    }
}

#[verifier::spinoff_prover]
proof fn sound_targets(
    fs: Seq<Seq<char>>,
    d: nat,
    world: World,
    s: Seq<Scope>,
    r: Ranges,
    c: ChangeStmt,
    i: nat,
    fixed: Set<Seq<char>>,
)
    requires
        i <= c.targets@.len(),
        whole_type(c.ty) is Some,
        forall|j: int| #![trigger c.targets@[j]] 0 <= j < c.targets@.len() ==> whole_target(s, c.targets@[j], fixed),
        fits_scopes(world, s),
        covers(world, after_targets(fs, r, c, i)),
        does_targets(d, world, c, i).1 is Ok,
    ensures
        sound_after(world, does_targets(d, world, c, i), s, after_targets(fs, r, c, c.targets@.len())),
    decreases c.targets@.len() - i,
{
    targets_next(d, world, c, i);
    if i < c.targets@.len() {
        let t = c.targets@[i as int];
        let r0 = after_targets(fs, r, c, i);
        let hint = context_of(c.ty.base@, c.ty.precision);
        let n = known(s, t.name@, s.len())->0;
        lemma_untouched(s, t.value, n, untouched());
        assert(before_target(fs, r0, t) == r0);
        whole_value(d, world, s, t.value, n, hint);
        let x = meaning(d, world, t.value, hint).1->Ok_0;
        assert(expr_result(d, world, t.value, hint) == meaning(d, world, t.value, hint)) by {
            reveal(meaning);
        }
        a_recorded_range_holds_what_is_stored(d, world, t.name@, t.value, hint, r0);
        lemma_fits_assigned(world, s, t.name@, x);
        sound_targets(fs, d, assigned(world, t.name@, x), s, r, c, i + 1, fixed);
    }
}

#[verifier::spinoff_prover]
proof fn sound_texts(d: nat, world: World, s: Seq<Scope>, args: Vec<Expr>, i: nat, acc: Seq<char>)
    requires
        forall|j: int| 0 <= j < args@.len() ==> whole_print(s, #[trigger] args@[j]),
        fits_scopes(world, s),
        does_texts(d, world, args, i, acc).1 is Ok,
    ensures
        does_texts(d, world, args, i, acc).0 == world,
    decreases args@.len() - i,
{
    texts_next(d, world, args, i, acc);
    if i < args@.len() {
        let e = args@[i as int];
        if e.kind is Str {
            assert(meaning(d, world, e, None).0 == world) by {
                reveal(meaning);
            }
        } else if whole_expr(s, e, Native::Int) {
            whole_value(d, world, s, e, Native::Int, None);
        } else if names_array(s, e) {
            lemma_holds(world, s, e.kind->Ref_name@, s.len());
        } else {
            whole_value(d, world, s, e, Native::Bool, None);
        }
        let t = crate::eval::value::val_text(meaning(d, world, e, None).1->Ok_0);
        sound_texts(d, world, s, args, i + 1, acc + t);
    }
}

// ── blocks, conditionals and loops ──────────────────────────────────────────

/// What a declaration does to the scopes.
proof fn lemma_scopes_after(s: Seq<Scope>, v: VarDecl, n: nat)
    requires
        s.len() > 0,
        n <= v.bindings@.len(),
    ensures
        with_bindings(s, v, n).len() == s.len(),
        with_bindings(s, v, n).drop_last() == s.drop_last(),
        forall|x: Seq<char>| #[trigger] with_bindings(s, v, n).last().dom().contains(x) ==> s.last().dom().contains(x)
            || binds(v, x, n),
    decreases n,
{
    if n > 0 && whole_type(v.ty) is Some {
        lemma_scopes_after(s, v, (n - 1) as nat);
        let a = with_bindings(s, v, (n - 1) as nat);
        let b = with_bindings(s, v, n);
        assert(b.drop_last() =~= a.drop_last());
        assert forall|x: Seq<char>| #[trigger] b.last().dom().contains(x) implies s.last().dom().contains(x) || binds(v, x, n) by {
            assert(x == v.bindings@[n - 1].name@ || a.last().dom().contains(x));
        }
    } else if n > 0 {
        lemma_scopes_after(s, v, (n - 1) as nat);
    }
}

#[verifier::spinoff_prover]
proof fn sound_block(
    fs: Seq<Seq<char>>,
    d: nat,
    world: World,
    s: Seq<Scope>,
    r: Ranges,
    stmts: Vec<Stmt>,
    i: nat,
    fixed: Set<Seq<char>>,
) -> (s1: Seq<Scope>)
    requires
        whole_block(s, stmts, i, fixed),
        fits_scopes(world, s),
        covers(world, r),
        does_block(d, world, stmts, i).1 is Ok,
    ensures
        sound_after(world, does_block(d, world, stmts, i), s1, after_block(fs, r, stmts, i)),
        s1.len() == s.len(),
        s1.drop_last() == s.drop_last(),
        forall|x: Seq<char>| #[trigger] s1.last().dom().contains(x) ==> s.last().dom().contains(x) || declared_by(
            stmts@,
            stmts@.len(),
            x,
        ),
    decreases stmts, stmts@.len() - i,
{
    does_block_next(d, world, stmts, i);
    if i < stmts@.len() {
        let st = stmts@[i as int];
        sound_stmt(fs, d, world, s, r, st, fixed);
        if let Stmt::Var(v) = st {
            lemma_scopes_after(s, v, v.bindings@.len());
        }
        let world1 = does_stmt(d, world, st).0;
        let s2 = scopes_after(s, st);
        let s1 = sound_block(fs, d, world1, s2, after_statement(fs, r, st), stmts, i + 1, fixed);
        assert forall|x: Seq<char>| #[trigger] s1.last().dom().contains(x) implies s.last().dom().contains(x) || declared_by(
            stmts@,
            stmts@.len(),
            x,
        ) by {
            if s2.last().dom().contains(x) && !s.last().dom().contains(x) {
                assert(declares(st, x));
                lemma_declared_by(stmts@, i, stmts@.len(), x);
            }
        }
        s1
    } else {
        s
    }
}

proof fn lemma_opened_scope(world: World, s: Seq<Scope>, r: Ranges)
    requires
        fits_scopes(world, s),
        covers(world, r),
    ensures
        fits_scopes(opened(world), s.push(Map::empty())),
        covers(opened(world), r),
{
    let world1 = opened(world);
    let s1 = s.push(Map::<Seq<char>, Native>::empty());
    assert forall|i: int, x: Seq<char>| 0 <= i < s1.len() implies (#[trigger] s1[i].dom().contains(x)
        <==> world1.frames[i].dom().contains(x)) by {
        if i < s.len() {
            assert(s[i].dom().contains(x) <==> world.frames[i].dom().contains(x));
        }
    }
    assert forall|i: int, x: Seq<char>| 0 <= i < s1.len() && #[trigger] s1[i].dom().contains(x) implies fits_native(
        world1.frames[i][x],
        s1[i][x],
    ) && (s1[i][x] is Int || s1[i][x] is Bool) by {
        assert(s[i].dom().contains(x));
    }
    assert forall|x: Seq<char>| #[trigger] looked_up(world1, x) == looked_up(world, x) by {
        lemma_holder_prefix(world1.frames, world.frames, x, world.frames.len());
        lemma_holder_below(world.frames, x, world.frames.len());
    }
    assert forall|x: Seq<char>| #![trigger range_in(r, x)] range_in(r, x) != anything() implies (looked_up(world1, x) matches Some(v)
        && agrees(v, range_in(r, x))) by {
        assert(looked_up(world1, x) == looked_up(world, x));
    }
}

proof fn lemma_holder_prefix(a: Seq<Map<Seq<char>, Val>>, b: Seq<Map<Seq<char>, Val>>, x: Seq<char>, n: nat)
    requires
        n <= a.len(),
        n <= b.len(),
        forall|i: int| 0 <= i < n ==> a[i] == b[i],
    ensures
        holder(a, x, n) == holder(b, x, n),
    decreases n,
{
    if n > 0 {
        lemma_holder_prefix(a, b, x, (n - 1) as nat);
    }
}

proof fn lemma_holder_below(a: Seq<Map<Seq<char>, Val>>, x: Seq<char>, n: nat)
    requires
        n <= a.len(),
    ensures
        holder(a, x, n) matches Some(i) ==> 0 <= i < n,
    decreases n,
{
    if n > 0 {
        lemma_holder_below(a, x, (n - 1) as nat);
    }
}

/// Behind a scope, the names around it hold what they held at its end: those that it did
/// not declare itself.
#[verifier::spinoff_prover]
proof fn lemma_closed_scope(world: World, s: Seq<Scope>, s1: Seq<Scope>, r: Ranges, r1: Ranges)
    requires
        fits_scopes(world, s1),
        covers(world, r),
        s1.len() == s.len() + 1,
        s.len() > 0,
        s1.drop_last() == s,
        forall|x: Seq<char>| #[trigger] range_in(r1, x) != anything() ==> range_in(r, x) == range_in(r1, x)
            && !s1.last().dom().contains(x),
    ensures
        fits_scopes(closed_scope(world), s),
        covers_known(closed_scope(world), s, r1),
{
    let world1 = closed_scope(world);
    assert forall|i: int, x: Seq<char>| 0 <= i < s.len() implies (#[trigger] s[i].dom().contains(x)
        <==> world1.frames[i].dom().contains(x)) by {
        assert(s1[i] == s1.drop_last()[i]);
        assert(s1[i].dom().contains(x) <==> world.frames[i].dom().contains(x));
    }
    assert forall|i: int, x: Seq<char>| 0 <= i < s.len() && #[trigger] s[i].dom().contains(x) implies fits_native(
        world1.frames[i][x],
        s[i][x],
    ) && (s[i][x] is Int || s[i][x] is Bool) by {
        assert(s1[i] == s1.drop_last()[i]);
        assert(s1[i].dom().contains(x));
    }
    assert forall|x: Seq<char>|
        #![trigger range_in(r1, x)]
        known(s, x, s.len()) is Some && range_in(r1, x) != anything() implies (looked_up(world1, x) matches Some(v)
        && agrees(v, range_in(r1, x))) by {
        assert(range_in(r, x) == range_in(r1, x));
        assert(!s1.last().dom().contains(x));
        let k = s1.len() - 1;
        assert(s1[k].dom().contains(x) <==> world.frames[k].dom().contains(x));
        assert(world.frames.len() == s1.len() && s1[k] == s1.last());
        assert(holder(world.frames, x, s1.len()) == holder(world.frames, x, s.len()));
        lemma_holder_prefix(world.frames, world1.frames, x, s.len());
        lemma_holder_below(world1.frames, x, s.len());
        assert(looked_up(world, x) == looked_up(world1, x));
    }
}

#[verifier::spinoff_prover]
proof fn sound_scoped(fs: Seq<Seq<char>>, d: nat, world: World, s: Seq<Scope>, r: Ranges, stmts: Vec<Stmt>, fixed: Set<Seq<char>>)
    requires
        whole_block(s.push(Map::empty()), stmts, 0, fixed),
        fits_scopes(world, s),
        covers(world, r),
        does_scoped(d, world, stmts).1 is Ok,
    ensures
        ({
            let out = does_scoped(d, world, stmts);
            &&& out == normally(out.0)
            &&& fits_scopes(out.0, s)
            &&& covers_known(out.0, s, after_scope(fs, r, stmts))
            &&& out.0.steps >= world.steps
        }),
    decreases stmts, stmts@.len() + 1,
{
    does_scoped_parts(d, world, stmts);
    lemma_opened_scope(world, s, r);
    let s0 = s.push(Map::<Seq<char>, Native>::empty());
    let s1 = sound_block(fs, d, opened(world), s0, r, stmts, 0, fixed);
    assert(s0.drop_last() =~= s);
    let behind = after_block(fs, r, stmts, 0);
    let left = after_scope(fs, r, stmts);
    assert forall|x: Seq<char>| #[trigger] range_in(left, x) != anything() implies range_in(behind, x) == range_in(left, x)
        && !s1.last().dom().contains(x) by {
        lemma_undeclared(behind, stmts@, stmts@.len(), x);
    }
    lemma_closed_scope(does_block(d, opened(world), stmts, 0).0, s, s1, behind, left);
}

proof fn lemma_merged(fs: Seq<Seq<char>>, r: Ranges, chain: IfChain, i: nat, m: Ranges)
    ensures
        after_arms(fs, r, chain, i, Some(m)) matches Some(all) && stays(m, all),
    decreases chain.arms@.len() - i,
{
    if i < chain.arms@.len() {
        let arm = chain.arms@[i as int];
        let branch = after_scope(fs, narrowed_by(r, arm.condition), arm.body);
        let next = joined_states(m, branch);
        lemma_meet(m, branch);
        lemma_merged(fs, r, chain, i + 1, next);
        let all = after_arms(fs, r, chain, i, Some(m))->0;
        lemma_stays_then(m, next, all);
    }
}

proof fn lemma_stays_then(a: Ranges, b: Ranges, c: Ranges)
    requires
        stays(a, b),
        stays(b, c),
    ensures
        stays(a, c),
{
    assert forall|x: Seq<char>| #![trigger range_in(c, x)] wider(range_in(c, x), range_in(a, x)) by {
        assert(wider(range_in(c, x), range_in(b, x)));
        assert(wider(range_in(b, x), range_in(a, x)));
    }
}

#[verifier::spinoff_prover]
proof fn sound_arms(
    fs: Seq<Seq<char>>,
    d: nat,
    world: World,
    s: Seq<Scope>,
    r: Ranges,
    chain: IfChain,
    i: nat,
    merged: Option<Ranges>,
    fixed: Set<Seq<char>>,
)
    requires
        whole_arms(s, chain, i, fixed),
        fits_scopes(world, s),
        covers(world, r),
        does_arms(d, world, chain, i).1 is Ok,
    ensures
        ({
            let out = does_arms(d, world, chain, i);
            &&& out == normally(out.0)
            &&& fits_scopes(out.0, s)
            &&& out.0.steps >= world.steps
            &&& covers(out.0, r) || (after_arms(fs, r, chain, i, merged) matches Some(all) && covers_known(out.0, s, all))
        }),
    decreases chain, chain.arms@.len() - i,
{
    does_arms_next(d, world, chain, i);
    if i < chain.arms@.len() {
        let arm = chain.arms@[i as int];
        let branch = after_scope(fs, narrowed_by(r, arm.condition), arm.body);
        let next = match merged {
            Some(m) => joined_states(m, branch),
            None => branch,
        };
        let taken = match arm.condition {
            Some(e) => {
                whole_value(d, world, s, e, Native::Bool, None);
                meaning(d, world, e, None).1->Ok_0 == Val::Bool(true)
            },
            None => true,
        };
        if taken {
            if let Some(e) = arm.condition {
                narrows(d, world, s, r, e, true);
            }
            sound_scoped(fs, d, world, s, narrowed_by(r, arm.condition), arm.body, fixed);
            if let Some(m) = merged {
                lemma_meet(m, branch);
            }
            assert(stays(branch, next));
            lemma_merged(fs, r, chain, i + 1, next);
            let all = after_arms(fs, r, chain, i, merged)->0;
            lemma_stays_then(branch, next, all);
            lemma_wider(does_arms(d, world, chain, i).0, s, branch, all);
        } else {
            sound_arms(fs, d, world, s, r, chain, i + 1, Some(next), fixed);
        }
    }
}

#[verifier::spinoff_prover]
proof fn sound_while(
    fs: Seq<Seq<char>>,
    d: nat,
    world: World,
    s: Seq<Scope>,
    r: Ranges,
    l: LoopStmt,
    fixed: Set<Seq<char>>,
    acc: Seq<Val>,
)
    requires
        l.kind is While,
        whole_loop(s, l, fixed),
        fits_scopes(world, s),
        names_only(s, r),
        covers(world, inside_loop(fs, r, l)),
        does_while(d, world, l, acc).1 is Ok,
    ensures
        ({
            let out = does_while(d, world, l, acc).0;
            &&& fits_scopes(out, s)
            &&& covers(out, narrowed(inside_loop(fs, r, l), l.kind->While_condition, false))
            &&& out.steps >= world.steps
        }),
    decreases l, semantics::ticks_left(world),
{
    let cond = l.kind->While_condition;
    let inside = inside_loop(fs, r, l);
    lemma_calm(fs, s, r, cond, Native::Bool);
    lemma_calm(fs, s, inside, cond, Native::Bool);
    lemma_settled(fs, r, l);
    does_while_next(d, world, l, acc);
    let world1 = once_more(world);
    assert(fits_scopes(world1, s));
    lemma_same_frames(world, world1, inside);
    whole_value(d, world1, s, cond, Native::Bool, None);
    if meaning(d, world1, cond, None).1->Ok_0 == Val::Bool(true) {
        narrows(d, world1, s, inside, cond, true);
        sound_scoped(fs, d, world1, s, narrowed(inside, cond, true), l.body, fixed);
        let world2 = does_scoped(d, world1, l.body).0;
        let after = after_scope(fs, narrowed(inside, cond, true), l.body);
        lemma_settled(fs, r, l);
        assert(once_round(fs, inside, l, counter_of(fs, r, l)) == after);
        lemma_names_kept(s, r, inside);
        lemma_wider(world2, s, after, inside);
        sound_while(fs, d, world2, s, r, l, fixed, acc);
    } else {
        narrows(d, world1, s, inside, cond, false);
    }
}

proof fn lemma_same_frames(a: World, b: World, r: Ranges)
    requires
        a.frames == b.frames,
        covers(a, r),
    ensures
        covers(b, r),
{
    assert forall|x: Seq<char>| #![trigger range_in(r, x)] range_in(r, x) != anything() implies (looked_up(b, x) matches Some(v)
        && agrees(v, range_in(r, x))) by {
        assert(looked_up(a, x) == looked_up(b, x));
    }
}

/// A state that allows more says nothing of further names.
proof fn lemma_names_kept(s: Seq<Scope>, a: Ranges, b: Ranges)
    requires
        names_only(s, a),
        stays(a, b),
    ensures
        names_only(s, b),
{
    assert forall|x: Seq<char>| #![trigger range_in(b, x)] range_in(b, x) != anything() implies known(s, x, s.len()) is Some by {
        assert(wider(range_in(b, x), range_in(a, x)));
        assert(range_in(a, x) != anything());
    }
}

/// The counter of a loop, known inside it.
#[verifier::spinoff_prover]
proof fn lemma_counter_known(world: World, s: Seq<Scope>, rest: Ranges, var: Seq<char>, counter: Interval, i: i128)
    requires
        fits_scopes(world, s),
        covers(world, rest),
        within(counter, i as int),
    ensures
        ({
            let world1 = defined(opened(world), var, Val::Int(i));
            let s1 = with_name(s.push(Map::empty()), var, Native::Int);
            &&& fits_scopes(world1, s1)
            &&& covers(world1, rest.insert(var, counter))
            &&& s1.len() == s.len() + 1
            &&& s1.drop_last() == s
        }),
{
    let inside = rest.insert(var, counter);
    lemma_opened_scope(world, s, rest);
    let s0 = s.push(Map::<Seq<char>, Native>::empty());
    let world0 = opened(world);
    lemma_fits_defined(world0, s0, var, Val::Int(i), Native::Int);
    let s1 = with_name(s0, var, Native::Int);
    let world1 = defined(world0, var, Val::Int(i));
    assert(s1.drop_last() =~= s);
    crate::sema::laws::lemma_defined_lookup(world0, var, Val::Int(i));
    assert forall|x: Seq<char>| #![trigger range_in(inside, x)] range_in(inside, x) != anything() implies (looked_up(world1, x) matches Some(v)
        && agrees(v, range_in(inside, x))) by {
        if x != var {
            assert(range_in(rest, x) == range_in(inside, x));
            assert(looked_up(world1, x) == looked_up(world0, x));
        }
    }
}

#[verifier::spinoff_prover]
proof fn sound_counted(
    fs: Seq<Seq<char>>,
    d: nat,
    world: World,
    s: Seq<Scope>,
    r: Ranges,
    l: LoopStmt,
    var: Seq<char>,
    fixed: Set<Seq<char>>,
    i: i128,
    to: i128,
    by: i128,
    acc: Seq<Val>,
)
    requires
        l.kind matches LoopKind::Counted { var: v, .. } && v@ == var,
        whole_loop(s, l, fixed),
        fits_scopes(world, s),
        names_only(s, r),
        covers(world, inside_loop(fs, r, l)),
        forall|k: int|
            (if by > 0 {
                i <= k <= to
            } else {
                to <= k <= i
            }) ==> #[trigger] within(counter_of(fs, r, l), k),
        does_counted(d, world, l.body, var, l.span, i as int, to as int, by as int, acc).1 is Ok,
    ensures
        ({
            let out = does_counted(d, world, l.body, var, l.span, i as int, to as int, by as int, acc).0;
            &&& fits_scopes(out, s)
            &&& covers(out, inside_loop(fs, r, l))
            &&& out.steps >= world.steps
        }),
    decreases l, u64::MAX + range_left(i as int, to as int, by as int),
{
    let inside = inside_loop(fs, r, l);
    let counter = counter_of(fs, r, l);
    does_counted_next(d, world, l.body, var, l.span, i as int, to as int, by as int, acc);
    if in_range(i as int, to as int, by as int) {
        let world1 = once_more(world);
        assert(fits_scopes(world1, s));
        lemma_same_frames(world, world1, inside);
        assert(within(counter, i as int));
        lemma_counter_known(world1, s, inside, var, counter, i);
        let world2 = defined(opened(world1), var, Val::Int(i));
        let s1 = with_name(s.push(Map::empty()), var, Native::Int);
        let s2 = sound_block(fs, d, world2, s1, inside.insert(var, counter), l.body, 0, fixed.insert(var));
        let world3 = does_block(d, world2, l.body, 0).0;
        let behind = after_block(fs, inside.insert(var, counter), l.body, 0);
        let left = once_round(fs, inside, l, counter);
        assert forall|x: Seq<char>| #[trigger] range_in(left, x) != anything() implies range_in(behind, x) == range_in(
            left,
            x,
        ) && !s2.last().dom().contains(x) by {
            lemma_undeclared(behind, l.body@, l.body@.len(), x);
            assert(x != var);
            assert(!s1.last().dom().contains(x));
        }
        lemma_closed_scope(world3, s, s2, behind, left);
        let world4 = closed_scope(world3);
        lemma_settled(fs, r, l);
        lemma_names_of_entry(fs, s, r, l);
        lemma_wider(world4, s, left, inside);
        if crate::text::fits(i + by) {
            sound_counted(fs, d, world4, s, r, l, var, fixed, (i + by) as i128, to, by, acc);
        } else {
            does_counted_next(d, world4, l.body, var, l.span, i + by, to as int, by as int, acc);
        }
    }
}

/// The state of a loop says nothing of further names.
proof fn lemma_names_of_entry(fs: Seq<Seq<char>>, s: Seq<Scope>, r: Ranges, l: LoopStmt)
    requires
        names_only(s, r),
        l.kind matches LoopKind::Counted { range, .. } ==> whole_bounds(s, range),
        l.kind matches LoopKind::While { condition } ==> whole_expr(s, condition, Native::Bool),
    ensures
        names_only(s, at_entry(fs, r, l)),
        names_only(s, inside_loop(fs, r, l)),
{
    lemma_settled(fs, r, l);
    match l.kind {
        LoopKind::Counted { range, var, .. } => {
            lemma_calm_bounds(fs, s, r, range);
            let entry = at_entry(fs, r, l);
            assert forall|x: Seq<char>| #![trigger range_in(entry, x)] range_in(entry, x) != anything() implies known(s, x, s.len()) is Some by {
                assert(range_in(r, x) == range_in(entry, x));
            }
        },
        LoopKind::While { condition } => {
            lemma_calm(fs, s, r, condition, Native::Bool);
        },
    }
    lemma_names_kept(s, at_entry(fs, r, l), inside_loop(fs, r, l));
}

/// A number between those that a range goes from and to is one its counter can have.
proof fn lemma_between(f: Interval, t: Interval, from: i128, to: i128, k: int)
    requires
        within(f, from as int),
        within(t, to as int),
        from <= k <= to || to <= k <= from,
    ensures
        within(joined(Interval { lo: f.lo, hi: t.hi }, Interval { lo: t.lo, hi: f.hi }), k),
{
}

#[verifier::spinoff_prover]
proof fn lemma_bound_range(d: nat, world: World, s: Seq<Scope>, r: Ranges, e: Expr)
    requires
        fits_scopes(world, s),
        whole_expr(s, e, Native::Int),
        covers(world, r),
        meaning(d, world, e, whole()).1 is Ok,
    ensures
        meaning(d, world, e, whole()).0 == world,
        meaning(d, world, e, whole()).1->Ok_0 is Int,
        within(expr_range(e, r), meaning(d, world, e, whole()).1->Ok_0->Int_0 as int),
{
    whole_value(d, world, s, e, Native::Int, whole());
    assert(meaning(d, world, e, whole()) == expr_result(d, world, e, whole())) by {
        reveal(meaning);
    }
    if expr_range(e, r) != anything() {
        an_expression_stays_in_its_range(d, world, e, whole(), r);
    }
}

#[verifier::spinoff_prover]
proof fn sound_counting(fs: Seq<Seq<char>>, d: nat, world: World, s: Seq<Scope>, r: Ranges, l: LoopStmt, fixed: Set<Seq<char>>)
    requires
        l.kind is Counted,
        whole_loop(s, l, fixed),
        fits_scopes(world, s),
        covers(world, r),
        does_stmt(d, world, Stmt::Loop(l)).1 is Ok,
    ensures
        sound_after(world, does_stmt(d, world, Stmt::Loop(l)), s, after_loop(fs, r, l)),
    decreases l, 2 * u64::MAX + u128::MAX,
{
    let var = l.kind->Counted_var;
    let range = l.kind->Counted_range;
    let part = match range.kind {
        ExprKind::Math(inner) => *inner,
        _ => range,
    };
    let from = *part.kind->Range_from;
    let to = *part.kind->Range_to;
    let by = part.kind->Range_by;
    does_counted_start(d, world, l, var, range, from, to, by);
    lemma_bound_range(d, world, s, r, from);
    lemma_bound_range(d, world, s, r, to);
    let x = meaning(d, world, from, whole()).1->Ok_0->Int_0;
    let y = meaning(d, world, to, whole()).1->Ok_0->Int_0;
    let z = match by {
        Some(g) => {
            lemma_bound_range(d, world, s, r, *g);
            meaning(d, world, *g, whole()).1->Ok_0->Int_0
        },
        None => 1,
    };
    assert(counted_on(d, world, l, var@, x, y, z));
    let inside = inside_loop(fs, r, l);
    let entry = at_entry(fs, r, l);
    lemma_calm_bounds(fs, s, r, range);
    assert forall|k: int|
        (if z > 0 {
            x <= k <= y
        } else {
            y <= k <= x
        }) implies #[trigger] within(counter_of(fs, r, l), k) by {
        lemma_between(expr_range(from, r), expr_range(to, r), x, y, k);
    }
    lemma_names_only(world, s, r);
    lemma_names_of_entry(fs, s, r, l);
    lemma_settled(fs, r, l);
    assert forall|x: Seq<char>| #![trigger range_in(entry, x)] range_in(entry, x) != anything() implies (looked_up(world, x) matches Some(v)
        && agrees(v, range_in(entry, x))) by {
        assert(range_in(r, x) == range_in(entry, x));
    }
    lemma_covers_known(world, s, entry);
    lemma_wider(world, s, entry, inside);
    sound_counted(fs, d, world, s, r, l, var@, fixed, x, y, z, Seq::empty());
    let out = does_stmt(d, world, Stmt::Loop(l)).0;
    lemma_join_covers(out, entry, inside);
}

/// What is known where one path came from is known where it meets another.
proof fn lemma_join_covers(world: World, a: Ranges, b: Ranges)
    requires
        covers(world, a) || covers(world, b),
    ensures
        covers(world, joined_states(a, b)),
{
    let j = joined_states(a, b);
    assert forall|x: Seq<char>| #![trigger range_in(j, x)] range_in(j, x) != anything() implies (looked_up(world, x) matches Some(v)
        && agrees(v, range_in(j, x))) by {
        assert(range_in(j, x) == joined(range_in(a, x), range_in(b, x)));
        assert(range_in(a, x) != anything() && range_in(b, x) != anything());
    }
}

#[verifier::spinoff_prover]
proof fn sound_looping(fs: Seq<Seq<char>>, d: nat, world: World, s: Seq<Scope>, r: Ranges, l: LoopStmt, fixed: Set<Seq<char>>)
    requires
        l.kind is While,
        whole_loop(s, l, fixed),
        fits_scopes(world, s),
        covers(world, r),
        does_while(d, world, l, Seq::empty()).1 is Ok,
    ensures
        sound_after(world, normally(does_while(d, world, l, Seq::empty()).0), s, after_loop(fs, r, l)),
    decreases l, u64::MAX + 1,
{
    let inside = inside_loop(fs, r, l);
    let cond = l.kind->While_condition;
    lemma_calm(fs, s, r, cond, Native::Bool);
    lemma_calm(fs, s, inside, cond, Native::Bool);
    lemma_settled(fs, r, l);
    lemma_names_only(world, s, r);
    lemma_names_kept(s, r, inside);
    lemma_covers_known(world, s, r);
    lemma_wider(world, s, r, inside);
    sound_while(fs, d, world, s, r, l, fixed, Seq::empty());
    lemma_join_covers(does_while(d, world, l, Seq::empty()).0, r, narrowed(inside, cond, false));
}

#[verifier::spinoff_prover]
proof fn sound_stmt(fs: Seq<Seq<char>>, d: nat, world: World, s: Seq<Scope>, r: Ranges, stmt: Stmt, fixed: Set<Seq<char>>)
    requires
        whole_stmt(s, stmt, fixed),
        fits_scopes(world, s),
        covers(world, r),
        does_stmt(d, world, stmt).1 is Ok,
    ensures
        sound_after(world, does_stmt(d, world, stmt), scopes_after(s, stmt), after_statement(fs, r, stmt)),
    decreases stmt, 0nat,
{
    does_stmt_parts(d, world, stmt);
    match stmt {
        Stmt::Var(v) => {
            sound_bindings(fs, d, world, s, r, v, 0, fixed);
        },
        Stmt::Change(c) => {
            sound_targets(fs, d, world, s, r, c, 0, fixed);
        },
        Stmt::Print { args, .. } => {
            sound_texts(d, world, s, args, 0, Seq::empty());
            lemma_calm_prints(s, args, 0);
            lemma_same_frames(world, does_stmt(d, world, stmt).0, r);
        },
        Stmt::If(chain) => {
            lemma_calm_conditions(s, chain, 0, fixed);
            sound_arms(fs, d, world, s, r, chain, 0, None, fixed);
            let out = does_arms(d, world, chain, 0).0;
            match after_arms(fs, r, chain, 0, None) {
                Some(all) => {
                    if covers(out, r) {
                        lemma_join_covers(out, r, all);
                    } else {
                        lemma_names_only(world, s, r);
                        lemma_meet(r, all);
                        lemma_names_kept(s, r, joined_states(r, all));
                        lemma_wider(out, s, all, joined_states(r, all));
                    }
                },
                None => {
                    lemma_no_arms(fs, r, chain);
                    does_arms_next(d, world, chain, 0);
                },
            }
        },
        Stmt::Loop(l) => if l.kind is While {
            sound_looping(fs, d, world, s, r, l, fixed);
        } else {
            sound_counting(fs, d, world, s, r, l, fixed);
        },
        _ => {},
    }
}

proof fn lemma_no_arms(fs: Seq<Seq<char>>, r: Ranges, chain: IfChain)
    ensures
        after_arms(fs, r, chain, 0, None) is None ==> chain.arms@.len() == 0,
{
    if chain.arms@.len() > 0 {
        let arm = chain.arms@[0];
        lemma_merged(fs, r, chain, 1, after_scope(fs, narrowed_by(r, arm.condition), arm.body));
    }
}

// ── the law ─────────────────────────────────────────────────────────────────

/// What range analysis knows behind a block on whole numbers is true there: where the
/// interpreter runs the statements from the `i`-th on to their end, from a world in which
/// what was known in front of them is true, every name with a range behind them holds a
/// value of that range.
pub proof fn a_block_ends_in_its_ranges(
    fs: Seq<Seq<char>>,
    d: nat,
    world: World,
    s: Seq<Scope>,
    ranges: Ranges,
    stmts: Vec<Stmt>,
    i: nat,
    fixed: Set<Seq<char>>,
)
    requires
        whole_block(s, stmts, i, fixed),
        fits_scopes(world, s),
        covers(world, ranges),
        semantics::block_from(d, world, stmts, i).1 is Ok,
    ensures
        covers(semantics::block_from(d, world, stmts, i).0, after_block(fs, ranges, stmts, i)),
{
    assert(does_block(d, world, stmts, i) == semantics::block_from(d, world, stmts, i)) by {
        reveal(does_block);
    }
    let _ = sound_block(fs, d, world, s, ranges, stmts, i, fixed);
}

} // verus!
