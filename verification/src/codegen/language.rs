//! Programs on single values, and what lowering them leaves alone.

use vstd::prelude::*;

use crate::ast::{
    Binding, ChangeStmt, ChangeTarget, Expr, ExprKind, IfChain, LoopKind, LoopStmt, Stmt, TypeRef, VarDecl,
};
use crate::codegen::boxes::holdable;
use crate::codegen::bulk::{broad_end, broad_env, broad_ok, calm_broad};
use crate::codegen::exactly::single;
use crate::codegen::laws::{lemma_arms, lemma_block, lemma_if, lemma_scoped, lemma_stmt, step, stride};
use crate::codegen::lowering::{
    arms_made, binding_made, bindings_made, block_made, bounds_made, counted_made, effect_made, expr_made,
    handback_made, if_made, joined, loop_entered, loop_left, loop_made, places_wanted, prints_made,
    return_made, scoped_made, step_made, stmt_made, store_made, target_made, targets_made, temps_forgotten,
    with_continue, with_digits, without_continue, Bounds,
};
use crate::codegen::native::{base_native, kind_of, native_of, Native};
use crate::codegen::runtime::{takes, Kind, Rt};
use crate::codegen::scalars::{callable, sc, sc_args, sc_quiet, sc_single, talks};
use crate::codegen::simulation::{lemma_extended_then, lemma_quiet_then, quiet};
use crate::codegen::standing::{
    attuned, lemma_attuned, lemma_declared_fits, lemma_known, lemma_natural, lemma_with_frame_fits, names_fit,
    nat_of, Env,
};
use crate::codegen::steps::{as_byte, printed};
use crate::codegen::straight::{called_quiet, spilled_quiet};
use crate::codegen::whole::{
    arm_entered, arm_passed, arms_next, bindings_end, block_next, counted_inside, counted_parts,
    entered_parts, known, left_parts, lemma_bindings_next, lemma_prints_next, lemma_targets_next, loop_parts,
    print_made, range_parts, scoped_parts, step_parts, stmt_parts, while_asked, while_inside, with_name,
    Scope,
};
use crate::codegen::work::{
    called, chars_made, declared, forked, frame_released, frame_released_at, function_named, handle, kept,
    kinds, let_go, looked_up, made, put, scope_released, scopes_released, spilled, stored, temps_released,
    with_frame, without_frame, FrameView, Handback, Inst, LocalView, Operand, WorkView,
};
use crate::eval::numeric::{binding_context, context_of, whole, DEFAULT_DIGITS};

verus! {

// ── the statements ──────────────────────────────────────────────────────────

/// The representation of a type of single values.
pub open spec fn plain_type(ty: TypeRef) -> Option<Native> {
    if ty.rank is Some {
        None
    } else {
        match base_native(ty.base@) {
            Ok(n) => if single(n) {
                Some(n)
            } else {
                None
            },
            Err(_) => None,
        }
    }
}

pub open spec fn inner(env: Env) -> Env {
    Env { s: env.s.push(Map::empty()), ..env }
}

pub open spec fn bound(env: Env, name: Seq<char>, n: Native) -> Env {
    Env { s: with_name(env.s, name, n), ..env }
}

pub open spec fn placed(env: Env, digits: u32) -> Env {
    Env { digits, ..env }
}

/// What is known behind the first `n` bindings of a declaration.
pub open spec fn bindings_env(env: Env, v: VarDecl, n: nat) -> Env
    decreases n,
{
    if n == 0 || n > v.bindings@.len() || plain_type(v.ty) is None {
        env
    } else {
        bound(bindings_env(env, v, (n - 1) as nat), v.bindings@[n - 1].name@, plain_type(v.ty)->0)
    }
}

pub open spec fn env_after(env: Env, stmt: Stmt) -> Env {
    match stmt {
        Stmt::Var(v) => if plain_type(v.ty) is Some {
            bindings_env(env, v, v.bindings@.len())
        } else {
            broad_env(env, stmt)
        },
        _ => env,
    }
}

/// What a statement may not do: the names it may neither declare nor change, those that it
/// may not declare, and what it hands back where it may.
pub struct Bars {
    pub fixed: Set<Seq<char>>,
    pub params: Set<Seq<char>>,
    pub back: Option<Native>,
}

pub open spec fn binding_ok(env: Env, v: VarDecl, i: int, bars: Bars) -> bool {
    let b = v.bindings@[i];
    &&& !bars.fixed.contains(b.name@)
    &&& !bars.params.contains(b.name@)
    &&& b.value matches Some(e) && plain_type(v.ty) matches Some(n) && sc(
        placed(env, places_wanted(b.precision, v.ty.precision)),
        e,
        n,
        binding_context(v.ty, b.precision),
    )
}

pub open spec fn target_ok(env: Env, c: ChangeStmt, t: ChangeTarget, bars: Bars) -> bool {
    &&& t.selectors@.len() == 0
    &&& !bars.fixed.contains(t.name@)
    &&& known(env.s, t.name@, env.s.len()) matches Some(n) && sc(env, t.value, n, context_of(c.ty.base@, c.ty.precision))
}

pub open spec fn print_ok(env: Env, e: Expr) -> bool {
    e.kind is Str || sc(env, e, nat_of(env, e), None)
}

pub open spec fn step_ok(env: Env, by: Option<Box<Expr>>) -> bool {
    by matches Some(e) ==> sc(env, *e, Native::Int, whole())
}

pub open spec fn range_ok(env: Env, e: Expr) -> bool {
    e.kind matches ExprKind::Range { from, to, by } && sc(env, *from, Native::Int, whole()) && sc(
        env,
        *to,
        Native::Int,
        whole(),
    ) && step_ok(env, by)
}

pub open spec fn bounds_ok(env: Env, range: Expr) -> bool {
    match range.kind {
        ExprKind::Math(inner) => range_ok(env, *inner),
        _ => range_ok(env, range),
    }
}

/// A call for its effect: of a function that hands nothing back.
pub open spec fn effect_ok(env: Env, e: Expr) -> bool {
    e.kind matches ExprKind::Call { name, args } && function_named(env.fns, name@, env.fns.len()) matches Some(i) && {
        &&& callable(env, i as int)
        &&& env.fns[i as int].ret is Nothing
        &&& sc_args(env, args, 0, i as int)
    }
}

/// A statement on single values.
pub open spec fn ok(env: Env, stmt: Stmt, bars: Bars) -> bool
    decreases stmt, 0nat,
{
    match stmt {
        Stmt::Func(_) => true,
        Stmt::Var(v) => forall|i: int|
            #![trigger v.bindings@[i]]
            0 <= i < v.bindings@.len() ==> binding_ok(bindings_env(env, v, i as nat), v, i, bars),
        Stmt::Change(c) => {
            &&& native_of(c.ty, None) is Ok
            &&& forall|i: int| #![trigger c.targets@[i]] 0 <= i < c.targets@.len() ==> target_ok(env, c, c.targets@[i], bars)
        },
        Stmt::Print { args, .. } => forall|i: int|
            0 <= i < args@.len() ==> print_ok(env, #[trigger] args@[i]) && (i > 0 ==> !talks(args@[i])),
        Stmt::If(chain) => arms_ok(env, chain, 0, bars),
        Stmt::Loop(l) => loop_ok(env, l, bars),
        Stmt::Handback { value, .. } => bars.back matches Some(n) && sc(env, value, n, None),
        Stmt::Expr(e) => effect_ok(env, e),
    }
}

pub open spec fn arms_ok(env: Env, chain: IfChain, i: nat, bars: Bars) -> bool
    decreases chain, chain.arms@.len() - i,
{
    i >= chain.arms@.len() || {
        let arm = chain.arms@[i as int];
        &&& arm.condition matches Some(e) ==> sc(env, e, Native::Bool, None)
        &&& arm.condition is None ==> i + 1 == chain.arms@.len()
        &&& all_ok(inner(env), arm.body, 0, bars)
        &&& arms_ok(env, chain, i + 1, bars)
    }
}

/// A loop for its effect hands nothing back.
pub open spec fn loop_ok(env: Env, l: LoopStmt, bars: Bars) -> bool
    decreases l, 0nat,
{
    match l.kind {
        LoopKind::Counted { var, range, .. } => {
            &&& bounds_ok(env, range)
            &&& !bars.fixed.contains(var@)
            &&& !bars.params.contains(var@)
            &&& all_ok(
                bound(inner(env), var@, Native::Int),
                l.body,
                0,
                Bars { fixed: bars.fixed.insert(var@), back: None, ..bars },
            )
        },
        LoopKind::While { condition } => {
            &&& sc(env, condition, Native::Bool, None)
            &&& all_ok(inner(env), l.body, 0, Bars { back: None, ..bars })
        },
    }
}

/// The statements of a block from the `i`-th on.
pub open spec fn all_ok(env: Env, stmts: Vec<Stmt>, i: nat, bars: Bars) -> bool
    decreases stmts, stmts@.len() - i,
{
    i >= stmts@.len() || {
        &&& ok(env, stmts@[i as int], bars) || broad_ok(env, stmts@[i as int], bars)
        &&& all_ok(env_after(env, stmts@[i as int]), stmts, i + 1, bars)
    }
}

// ── counting texts ──────────────────────────────────────────────────────────

pub(crate) proof fn counted_quiet(w: WorkView, v: Operand, f: Rt)
    requires
        f == Rt::StrRetain || f == Rt::StrRelease,
        v.kind == Kind::Text,
    ensures
        ({
            let (w1, h) = handle(w, v, Native::Str);
            &&& quiet(w, called(w1, f, seq![h]).0)
            &&& w1 == put(w, Inst::Owner(v.at))
            &&& h == (Operand { at: w.code.len() as usize, kind: Kind::Ptr })
        }),
{
    reveal(handle);
    let (w1, h) = handle(w, v, Native::Str);
    assert(kinds(seq![h]) =~= takes(f));
    called_quiet(w1, f, seq![h]);
    lemma_quiet_then(w, w1, called(w1, f, seq![h]).0);
}

pub(crate) proof fn kept_quiet(w: WorkView, v: Operand, n: Native)
    requires
        holdable(n),
        v.kind == kind_of(n),
    ensures
        quiet(w, kept(w, v, n)),
        !(n is Str) && !(n is Array) ==> kept(w, v, n) == w,
        n is Array ==> kept(w, v, n) == called(w, Rt::ArrayRetain, seq![v]).0,
{
    reveal(kept);
    if n is Str {
        counted_quiet(w, v, Rt::StrRetain);
    } else if n is Array {
        reveal(handle);
        assert(kinds(seq![v]) =~= takes(Rt::ArrayRetain));
        called_quiet(w, Rt::ArrayRetain, seq![v]);
    }
}

pub(crate) proof fn let_go_quiet(w: WorkView, v: Operand, n: Native)
    requires
        n is Str || n is Array || n is Num,
        v.kind == kind_of(n),
    ensures
        quiet(w, let_go(w, v, n)),
        n is Array ==> let_go(w, v, n) == called(w, Rt::ArrayRelease, seq![v]).0,
        n is Num ==> let_go(w, v, n) == called(w, Rt::NumRelease, seq![v]).0,
{
    reveal(let_go);
    if n is Str {
        counted_quiet(w, v, Rt::StrRelease);
    } else {
        reveal(handle);
        let f = if n is Array { Rt::ArrayRelease } else { Rt::NumRelease };
        assert(kinds(seq![v]) =~= takes(f));
        called_quiet(w, f, seq![v]);
    }
}

pub(crate) proof fn frame_quiet(w: WorkView, frame: FrameView, i: nat)
    requires
        forall|x: int| 0 <= x < frame.len() ==> holdable((#[trigger] frame[x]).native),
    ensures
        quiet(w, frame_released(w, frame, i)),
    decreases frame.len() - i,
{
    if i < frame.len() {
        let l = frame[i as int];
        if l.native is Str || l.native is Array {
            let kind = kind_of(l.native);
            let (w1, v) = made(w, Inst::Load { kind, from: l.slot }, kind);
            let_go_quiet(w1, v, l.native);
            let w2 = let_go(w1, v, l.native);
            lemma_quiet_then(w, w1, w2);
            frame_quiet(w2, frame, i + 1);
            lemma_quiet_then(w, w2, frame_released(w, frame, i));
        } else {
            frame_quiet(w, frame, i + 1);
        }
    }
}

pub(crate) proof fn scope_quiet(w: WorkView, s: Seq<Scope>)
    requires
        names_fit(w, s),
    ensures
        quiet(w, scope_released(w)),
        scope_released(w) == (if w.open { frame_released(w, w.frames[w.frames.len() - 1], 0) } else { w }),
{
    reveal(scope_released);
    reveal(frame_released_at);
    let k = w.frames.len() - 1;
    assert forall|x: int| 0 <= x < w.frames[k].len() implies holdable((#[trigger] w.frames[k][x]).native) by {}
    frame_quiet(w, w.frames[k], 0);
}

pub(crate) proof fn scopes_quiet(w: WorkView, s: Seq<Scope>, depth: nat)
    requires
        names_fit(w, s),
        depth <= w.frames.len(),
    ensures
        quiet(w, scopes_released(w, depth)),
    decreases depth,
{
    if depth > w.owned_from && depth > 0 {
        reveal(frame_released_at);
        let k = depth - 1;
        assert forall|x: int| 0 <= x < w.frames[k].len() implies holdable((#[trigger] w.frames[k][x]).native) by {}
        frame_quiet(w, w.frames[k], 0);
        let w1 = frame_released_at(w, k);
        scopes_quiet(w1, s, k as nat);
        lemma_quiet_then(w, w1, scopes_released(w, depth));
    }
}

pub(crate) proof fn lemma_no_temps(w: WorkView, mark: nat)
    requires
        w.temps.len() == mark,
    ensures
        temps_released(w, mark) == w,
{
    reveal(temps_released);
}

// ── declarations, changes, printing ─────────────────────────────────────────

pub(crate) proof fn lemma_plain_type(ty: TypeRef, shape: Option<Vec<crate::ast::Dim>>)
    requires
        plain_type(ty) is Some,
    ensures
        native_of(ty, shape) == Ok::<Native, Seq<char>>(plain_type(ty)->0),
        single(plain_type(ty)->0),
{
}

/// The lowering behind one declaration.
pub open spec fn binding_end(w: WorkView, v: VarDecl, i: nat) -> WorkView {
    let b = v.bindings@[i as int];
    let n = plain_type(v.ty)->0;
    let (w1, r) = expr_made(with_digits(w, places_wanted(b.precision, v.ty.precision)), b.value->0, n);
    let at = w1.code.len() as usize;
    let w2 = kept(put(w1, Inst::Slot(kind_of(n))), r, n);
    let w3 = put(w2, Inst::Store { into: at, value: r.at });
    with_digits(declared(w3, b.name@, at, n), DEFAULT_DIGITS)
}

#[verifier::spinoff_prover]
proof fn binding_parts(w: WorkView, b: Binding, n: Native, digits: u32)
    requires
        b.value is Some,
        single(n),
        expr_made(with_digits(w, digits), b.value->0, n).1.kind == kind_of(n),
    ensures
        ({
            let (w1, r) = expr_made(with_digits(w, digits), b.value->0, n);
            let at = w1.code.len() as usize;
            let w2 = kept(put(w1, Inst::Slot(kind_of(n))), r, n);
            let w3 = put(w2, Inst::Store { into: at, value: r.at });
            binding_made(w, b, n, digits) == with_digits(declared(w3, b.name@, at, n), DEFAULT_DIGITS)
        }),
{
    reveal(binding_made);
    reveal(stored);
}

#[verifier::spinoff_prover]
pub(crate) proof fn made_binding(w: WorkView, env: Env, v: VarDecl, i: nat, bars: Bars)
    requires
        i < v.bindings@.len(),
        binding_ok(env, v, i as int, bars),
        attuned(w, env),
        env.digits == DEFAULT_DIGITS,
    ensures
        ({
            let b = v.bindings@[i as int];
            let n = plain_type(v.ty)->0;
            let digits = places_wanted(b.precision, v.ty.precision);
            let w0 = with_digits(w, digits);
            let (w1, r) = expr_made(w0, b.value->0, n);
            let w1s = put(w1, Inst::Slot(kind_of(n)));
            let w2 = kept(w1s, r, n);
            let w3 = put(w2, Inst::Store { into: w1.code.len() as usize, value: r.at });
            let wf = binding_end(w, v, i);
            &&& single(n)
            &&& attuned(w0, placed(env, digits))
            &&& quiet(w0, w1)
            &&& quiet(w1, w1s)
            &&& quiet(w1s, w2)
            &&& quiet(w2, w3)
            &&& r.kind == kind_of(n)
            &&& wf.code == w3.code && wf.texts == w3.texts
            &&& w3.frames == w.frames
            &&& bindings_made(w, v, i) == bindings_made(wf, v, i + 1)
            &&& attuned(wf, bound(env, b.name@, n))
            &&& wf.temps == w.temps
            &&& w.open ==> wf.open
        }),
{
    let b = v.bindings@[i as int];
    lemma_plain_type(v.ty, b.shape);
    let n = plain_type(v.ty)->0;
    let digits = places_wanted(b.precision, v.ty.precision);
    let w0 = with_digits(w, digits);
    sc_quiet(w0, placed(env, digits), b.value->0, n, binding_context(v.ty, b.precision));
    let (w1, r) = expr_made(w0, b.value->0, n);
    let at = w1.code.len() as usize;
    let w1s = put(w1, Inst::Slot(kind_of(n)));
    kept_quiet(w1s, r, n);
    let w2 = kept(w1s, r, n);
    let w3 = put(w2, Inst::Store { into: at, value: r.at });
    let wf = binding_end(w, v, i);
    lemma_declared_fits(w3, env.s, b.name@, at, n);
    binding_parts(w, b, n, digits);
    lemma_bindings_next(w, v, i, n);
    reveal(declared);
}

pub(crate) proof fn calm_bindings(w: WorkView, env: Env, v: VarDecl, i: nat, bars: Bars)
    requires
        i <= v.bindings@.len(),
        forall|j: int|
            #![trigger v.bindings@[j]]
            0 <= j < v.bindings@.len() ==> binding_ok(bindings_env(env, v, j as nat), v, j, bars),
        attuned(w, bindings_env(env, v, i)),
        env.digits == DEFAULT_DIGITS,
        bindings_env(env, v, i).digits == DEFAULT_DIGITS,
    ensures
        ({
            let wf = bindings_made(w, v, i);
            &&& attuned(wf, bindings_env(env, v, v.bindings@.len()))
            &&& wf.temps == w.temps
            &&& w.open ==> wf.open
        }),
    decreases v.bindings@.len() - i,
{
    if i < v.bindings@.len() {
        let b = v.bindings@[i as int];
        made_binding(w, bindings_env(env, v, i), v, i, bars);
        calm_bindings(binding_end(w, v, i), env, v, i + 1, bars);
    } else {
        bindings_end(w, v, i);
    }
}

/// The lowering behind one change.
pub open spec fn target_end(w: WorkView, t: ChangeTarget, at: usize, n: Native) -> WorkView {
    let (w1, r) = expr_made(w, t.value, n);
    let store = Inst::Store { into: at, value: r.at };
    if n is Str {
        let (w2, before) = made(w1, Inst::Load { kind: Kind::Text, from: at }, Kind::Text);
        let_go(put(kept(w2, r, n), store), before, n)
    } else {
        put(w1, store)
    }
}

#[verifier::spinoff_prover]
proof fn target_parts(w: WorkView, t: ChangeTarget, at: usize, n: Native)
    requires
        looked_up(w, t.name@) == Some((at, n)),
        t.selectors@.len() == 0,
        single(n),
        expr_made(w, t.value, n).1.kind == kind_of(n),
    ensures
        target_made(w, t) == target_end(w, t, at, n),
{
    reveal(target_made);
    reveal(stored);
}

#[verifier::spinoff_prover]
pub(crate) proof fn made_target(w: WorkView, env: Env, c: ChangeStmt, t: ChangeTarget, bars: Bars)
    requires
        target_ok(env, c, t, bars),
        attuned(w, env),
    ensures
        looked_up(w, t.name@) is Some,
        ({
            let (at, n) = looked_up(w, t.name@)->0;
            let (w1, r) = expr_made(w, t.value, n);
            let wf = target_end(w, t, at, n);
            &&& known(env.s, t.name@, env.s.len()) == Some(n)
            &&& single(n)
            &&& target_made(w, t) == wf
            &&& quiet(w, w1)
            &&& quiet(w1, wf)
            &&& quiet(w, wf)
            &&& r.kind == kind_of(n)
        }),
{
    reveal(looked_up);
    lemma_known(w, env.s, t.name@, env.s.len());
    let (at, n) = looked_up(w, t.name@)->0;
    sc_single(env, t.value, n, context_of(c.ty.base@, c.ty.precision));
    sc_quiet(w, env, t.value, n, context_of(c.ty.base@, c.ty.precision));
    let (w1, r) = expr_made(w, t.value, n);
    target_parts(w, t, at, n);
    let wf = target_end(w, t, at, n);
    let store = Inst::Store { into: at, value: r.at };
    if n is Str {
        let (w2, before) = made(w1, Inst::Load { kind: Kind::Text, from: at }, Kind::Text);
        kept_quiet(w2, r, n);
        let w3 = kept(w2, r, n);
        let w4 = put(w3, store);
        let_go_quiet(w4, before, Native::Str);
        lemma_quiet_then(w1, w2, w3);
        lemma_quiet_then(w1, w3, w4);
        lemma_quiet_then(w1, w4, wf);
    }
    lemma_quiet_then(w, w1, wf);
}

pub(crate) proof fn calm_targets(w: WorkView, env: Env, c: ChangeStmt, i: nat, bars: Bars)
    requires
        native_of(c.ty, None) is Ok,
        forall|j: int| #![trigger c.targets@[j]] 0 <= j < c.targets@.len() ==> target_ok(env, c, c.targets@[j], bars),
        attuned(w, env),
    ensures
        quiet(w, targets_made(w, c, i)),
        i < c.targets@.len() ==> targets_made(w, c, i) == targets_made(target_made(w, c.targets@[i as int]), c, i + 1),
        i >= c.targets@.len() ==> targets_made(w, c, i) == w,
    decreases c.targets@.len() - i,
{
    lemma_targets_next(w, c, i, native_of(c.ty, None)->Ok_0);
    if i < c.targets@.len() {
        let t = c.targets@[i as int];
        made_target(w, env, c, t, bars);
        let w1 = target_made(w, t);
        lemma_attuned(w, w1, env);
        calm_targets(w1, env, c, i + 1, bars);
        lemma_quiet_then(w, w1, targets_made(w, c, i));
    }
}

/// The runtime function that prints a representation by its address.
pub open spec fn shows(n: Native) -> Rt {
    match n {
        Native::Str => Rt::PrintText,
        Native::Deci => Rt::PrintDeci,
        _ => Rt::PrintRat,
    }
}

#[verifier::spinoff_prover]
pub(crate) proof fn printed_parts(w: WorkView, v: Operand, n: Native)
    requires
        single(n),
        v.kind == kind_of(n),
    ensures
        quiet(w, printed(w, v, n)),
        n is Int ==> printed(w, v, n) == called(w, Rt::PrintInt, seq![v]).0,
        n is Bool ==> printed(w, v, n) == ({
            let (w1, b) = as_byte(w, v);
            called(w1, Rt::PrintBool, seq![b]).0
        }),
        n is Str || n is Deci || n is Rat ==> printed(w, v, n) == ({
            let (w1, p) = spilled(w, v, kind_of(n));
            called(w1, shows(n), seq![p]).0
        }),
{
    reveal(printed);
    if n is Int {
        assert(kinds(seq![v]) =~= takes(Rt::PrintInt));
        called_quiet(w, Rt::PrintInt, seq![v]);
    } else if n is Bool {
        let (w1, b) = as_byte(w, v);
        assert(kinds(seq![b]) =~= takes(Rt::PrintBool));
        called_quiet(w1, Rt::PrintBool, seq![b]);
        lemma_quiet_then(w, w1, printed(w, v, n));
    } else {
        spilled_quiet(w, v, kind_of(n));
        let (w1, p) = spilled(w, v, kind_of(n));
        assert(kinds(seq![p]) =~= takes(shows(n)));
        called_quiet(w1, shows(n), seq![p]);
        lemma_quiet_then(w, w1, printed(w, v, n));
    }
}

#[verifier::spinoff_prover]
pub(crate) proof fn calm_print(w: WorkView, env: Env, e: Expr)
    requires
        print_ok(env, e),
        attuned(w, env),
    ensures
        quiet(w, print_made(w, e)),
        e.kind is Str ==> {
            let (w1, text) = chars_made(w, e.kind->Str_0@);
            &&& quiet(w, w1)
            &&& text.kind == Kind::Ptr
            &&& print_made(w, e) == called(w1, Rt::PrintStr, seq![text]).0
        },
        !(e.kind is Str) ==> {
            let n = nat_of(env, e);
            let (w1, v) = expr_made(w, e, n);
            &&& single(n)
            &&& quiet(w, w1)
            &&& v.kind == kind_of(n)
            &&& quiet(w1, print_made(w, e))
            &&& print_made(w, e) == printed(w1, v, n)
        },
{
    match e.kind {
        ExprKind::Str(t) => {
            reveal(chars_made);
            let (w1, text) = chars_made(w, t@);
            assert(kinds(seq![text]) =~= takes(Rt::PrintStr));
            called_quiet(w1, Rt::PrintStr, seq![text]);
            lemma_quiet_then(w, w1, print_made(w, e));
        },
        _ => {
            lemma_natural(w, env, e);
            let n = nat_of(env, e);
            sc_single(env, e, n, None);
            sc_quiet(w, env, e, n, None);
            let (w1, v) = expr_made(w, e, n);
            printed_parts(w1, v, n);
            lemma_quiet_then(w, w1, print_made(w, e));
        },
    }
}

pub(crate) proof fn calm_prints(w: WorkView, env: Env, args: Vec<Expr>, i: nat)
    requires
        forall|j: int| 0 <= j < args@.len() ==> print_ok(env, #[trigger] args@[j]),
        attuned(w, env),
    ensures
        quiet(w, prints_made(w, args, i)),
        i < args@.len() ==> prints_made(w, args, i) == prints_made(print_made(w, args@[i as int]), args, i + 1),
        i >= args@.len() ==> prints_made(w, args, i) == w,
    decreases args@.len() - i,
{
    lemma_prints_next(w, args, i);
    if i < args@.len() {
        let w1 = print_made(w, args@[i as int]);
        calm_print(w, env, args@[i as int]);
        lemma_attuned(w, w1, env);
        calm_prints(w1, env, args, i + 1);
        lemma_quiet_then(w, w1, prints_made(w, args, i));
    }
}

// ── handing back ────────────────────────────────────────────────────────────

/// Whether the lowering is where a value of a representation can be handed back: in a
/// conditional used for its value, or in a function.
pub open spec fn leads(w: WorkView, back: Option<Native>) -> bool {
    back matches Some(n) ==> {
        &&& single(n)
        &&& if w.handbacks.len() > 0 {
            w.handbacks.last() matches Handback::Store { slot, native, .. } && native == n && slot < w.code.len()
        } else {
            !w.top && w.ret == n
        }
    }
}

/// The lowering behind a value handed back.
pub open spec fn handback_end(w: WorkView, value: Expr, n: Native) -> WorkView {
    let (w1, r) = expr_made(w, value, n);
    if w.handbacks.len() > 0 {
        let slot = w.handbacks.last()->Store_slot;
        let merge = w.handbacks.last()->Store_merge;
        let w2 = put(kept(w1, r, n), Inst::Store { into: slot, value: r.at });
        put(scope_released(w2), Inst::Jump(merge))
    } else {
        let w2 = kept(w1, r, n);
        put(scopes_released(w2, w2.frames.len()), Inst::Return(r.at))
    }
}

#[verifier::spinoff_prover]
proof fn handback_parts(w: WorkView, value: Expr, n: Native, w2: WorkView, w3: WorkView)
    requires
        leads(w, Some(n)),
        expr_made(w, value, n).1.kind == kind_of(n),
        w2 == kept(expr_made(w, value, n).0, expr_made(w, value, n).1, n),
        w2.temps.len() == w.temps.len(),
        w3 == scopes_released(w2, w2.frames.len()),
    ensures
        handback_made(w, value) == (handback_end(w, value, n), true),
{
    let (w1, r) = expr_made(w, value, n);
    lemma_no_temps(w2, w.temps.len());
    if w.handbacks.len() > 0 {
        let slot = w.handbacks.last()->Store_slot;
        lemma_no_temps(put(w2, Inst::Store { into: slot, value: r.at }), w.temps.len());
    }
    reveal(handback_made);
    reveal(store_made);
    reveal(return_made);
    reveal(stored);
}

#[verifier::spinoff_prover]
pub(crate) proof fn calm_handback(w: WorkView, env: Env, value: Expr, n: Native)
    requires
        sc(env, value, n, None),
        attuned(w, env),
        leads(w, Some(n)),
    ensures
        handback_made(w, value) == (handback_end(w, value, n), true),
        ({
            let (w1, r) = expr_made(w, value, n);
            let w2 = kept(w1, r, n);
            let wf = handback_end(w, value, n);
            &&& quiet(w, w1)
            &&& quiet(w1, w2)
            &&& r.kind == kind_of(n)
            &&& !wf.open
            &&& wf.temps == w.temps
            &&& wf.digits == w.digits
            &&& w.handbacks.len() > 0 ==> {
                let w3 = put(w2, Inst::Store { into: w.handbacks.last()->Store_slot, value: r.at });
                quiet(w3, scope_released(w3))
            }
            &&& w.handbacks.len() == 0 ==> quiet(w2, scopes_released(w2, w2.frames.len()))
        }),
{
    sc_quiet(w, env, value, n, None);
    let (w1, r) = expr_made(w, value, n);
    kept_quiet(w1, r, n);
    let w2 = kept(w1, r, n);
    lemma_quiet_then(w, w1, w2);
    lemma_attuned(w, w2, env);
    scopes_quiet(w2, env.s, w2.frames.len());
    let w3 = put(w2, Inst::Store { into: w.handbacks.last()->Store_slot, value: r.at });
    scope_quiet(w3, env.s);
    handback_parts(w, value, n, w2, scopes_released(w2, w2.frames.len()));
}

// ── calls for their effect ──────────────────────────────────────────────────

#[verifier::spinoff_prover]
pub(crate) proof fn args_lenient(w: WorkView, args: Vec<Expr>, k: nat, params: Seq<Native>, acc: Seq<Operand>)
    requires
        args@.len() == params.len(),
    ensures
        crate::codegen::lowering::args_made(w, args, k, params, false, acc) == crate::codegen::lowering::args_made(
            w,
            args,
            k,
            params,
            true,
            acc,
        ),
    decreases args@.len() - k,
{
    reveal(crate::codegen::lowering::args_made);
    if k < args@.len() {
        let (w1, v) = expr_made(w, args@[k as int], params[k as int]);
        args_lenient(w1, args, k + 1, params, acc.push(v));
    }
}

#[verifier::spinoff_prover]
pub(crate) proof fn effect_parts(w: WorkView, env: Env, e: Expr)
    requires
        effect_ok(env, e),
        attuned(w, env),
    ensures
        ({
            let i = function_named(env.fns, e.kind->Call_name@, env.fns.len())->0;
            let sig = env.fns[i as int];
            let (w1, vs) = crate::codegen::lowering::args_made(w, e.kind->Call_args, 0, sig.params, true, Seq::empty());
            let w2 = crate::codegen::work::with_args(w1, vs, 0);
            &&& quiet(w, w1)
            &&& kinds(vs) == crate::codegen::lowering::param_kinds(sig.params)
            &&& effect_made(w, e) == put(w2, Inst::CallFn { index: i, gives: None })
            &&& quiet(w, effect_made(w, e))
        }),
{
    let args = e.kind->Call_args;
    let i = function_named(env.fns, e.kind->Call_name@, env.fns.len())->0;
    let sig = env.fns[i as int];
    let (w1, vs) = crate::codegen::lowering::args_made(w, args, 0, sig.params, true, Seq::empty());
    crate::codegen::scalars::args_quiet(w, env, args, 0, i as int, Seq::empty());
    args_lenient(w, args, 0, sig.params, Seq::empty());
    assert(kinds(vs) =~= crate::codegen::lowering::param_kinds(sig.params));
    crate::codegen::straight::with_args_parts(w1, vs, 0);
    let w2 = crate::codegen::work::with_args(w1, vs, 0);
    let wf = put(w2, Inst::CallFn { index: i, gives: None });
    lemma_extended_then(w1.code, w2.code, wf.code);
    lemma_quiet_then(w, w1, wf);
    reveal(crate::codegen::work::expecting_all);
    reveal(effect_made);
    reveal(crate::codegen::lowering::call_made);
}

// ── blocks ──────────────────────────────────────────────────────────────────

/// What lowering a statement or a block leaves: it goes on behind it, or it has left.
pub open spec fn after(w: WorkView, r: (WorkView, bool), env1: Env) -> bool {
    &&& r.0.temps == w.temps
    &&& r.0.digits == w.digits
    &&& r.1 ==> !r.0.open
    &&& !r.1 ==> r.0.open && attuned(r.0, env1)
}

#[verifier::spinoff_prover]
pub(crate) proof fn block_left(w: WorkView, stmts: Vec<Stmt>, i: nat)
    requires
        i < stmts@.len(),
        stmt_made(w, stmts@[i as int]).1,
    ensures
        block_made(w, stmts, i) == (temps_forgotten(stmt_made(w, stmts@[i as int]).0, w.temps.len()), true),
{
    reveal(block_made);
}

#[verifier::spinoff_prover]
pub(crate) proof fn other_stmt(w: WorkView, stmt: Stmt)
    ensures
        stmt matches Stmt::Handback { value, .. } ==> stmt_made(w, stmt) == handback_made(w, value),
        stmt matches Stmt::Expr(e) ==> stmt_made(w, stmt) == (effect_made(w, e), false),
{
    reveal(stmt_made);
}

pub(crate) proof fn lemma_bindings_digits(env: Env, v: VarDecl, n: nat)
    ensures
        bindings_env(env, v, n).digits == env.digits,
        bindings_env(env, v, n).fns == env.fns,
        bindings_env(env, v, n).functions == env.functions,
        env.s.len() > 0 ==> bindings_env(env, v, n).s.len() == env.s.len(),
    decreases n,
{
    if n > 0 {
        lemma_bindings_digits(env, v, (n - 1) as nat);
    }
}

pub(crate) proof fn lemma_env_after(env: Env, stmt: Stmt, bars: Bars)
    requires
        ok(env, stmt, bars),
    ensures
        env_after(env, stmt).digits == env.digits,
        env_after(env, stmt).fns == env.fns,
        env_after(env, stmt).functions == env.functions,
{
    if let Stmt::Var(v) = stmt {
        lemma_bindings_digits(env, v, v.bindings@.len());
    }
}

/// What is known behind a statement that makes arrays.
pub(crate) proof fn lemma_broad_env(env: Env, stmt: Stmt, bars: Bars)
    requires
        broad_ok(env, stmt, bars),
    ensures
        env_after(env, stmt) == broad_env(env, stmt),
{
    if let Stmt::Var(v) = stmt {
        if plain_type(v.ty) is Some {
            lemma_plain_type(v.ty, v.bindings@[0].shape);
            reveal_with_fuel(bindings_env, 3);
        }
    }
}

/// Frames come back behind a scope.
pub(crate) proof fn closed_frames(w: WorkView, w1: WorkView)
    requires
        w.frames.len() > 0,
        stride(with_frame(w), w1),
    ensures
        without_frame(w1).frames == w.frames,
        without_frame(w1) == (WorkView { frames: w.frames, ..w1 }),
        w1.frames.len() == w.frames.len() + 1,
        w1.frames.drop_last() == w.frames,
{
    reveal(with_frame);
    reveal(without_frame);
    reveal(stride);
    let a = w1.frames.drop_last();
    assert forall|i: int| 0 <= i < a.len() implies a[i] == w.frames[i] by {
        assert(w1.frames[i] == with_frame(w).frames[i]);
    }
    assert(a =~= w.frames);
}

#[verifier::spinoff_prover]
pub(crate) proof fn calm_block(w: WorkView, env: Env, stmts: Vec<Stmt>, i: nat, bars: Bars) -> (env1: Env)
    requires
        all_ok(env, stmts, i, bars),
        attuned(w, env),
        env.digits == DEFAULT_DIGITS,
        w.open,
        leads(w, bars.back),
    ensures
        after(w, block_made(w, stmts, i), env1),
        env1.digits == DEFAULT_DIGITS,
        env1.fns == env.fns,
        env1.functions == env.functions,
    decreases stmts, stmts@.len() - i,
{
    block_next(w, stmts, i);
    lemma_block(w, stmts, i);
    if i < stmts@.len() {
        let st = stmts@[i as int];
        let (w1, left) = stmt_made(w, st);
        lemma_stmt(w, st);
        reveal(stride);
        if ok(env, st, bars) {
            calm_stmt(w, env, st, bars);
            if left {
                block_left(w, stmts, i);
                env
            } else {
                lemma_no_temps(w1, w.temps.len());
                lemma_env_after(env, st, bars);
                calm_block(w1, env_after(env, st), stmts, i + 1, bars)
            }
        } else {
            calm_broad(w, env, st, bars);
            lemma_broad_env(env, st, bars);
            calm_block(broad_end(w, st), env_after(env, st), stmts, i + 1, bars)
        }
    } else {
        env
    }
}

#[verifier::spinoff_prover]
pub(crate) proof fn calm_scoped(w: WorkView, env: Env, stmts: Vec<Stmt>, bars: Bars) -> (env1: Env)
    requires
        all_ok(inner(env), stmts, 0, bars),
        attuned(w, env),
        env.digits == DEFAULT_DIGITS,
        w.open,
        leads(w, bars.back),
    ensures
        after(w, scoped_made(w, stmts), env),
        scoped_made(w, stmts).0.frames == w.frames,
        ({
            let (w1, left) = block_made(with_frame(w), stmts, 0);
            let (wf, l) = scoped_made(w, stmts);
            &&& l == left
            &&& attuned(with_frame(w), inner(env))
            &&& wf == (WorkView { frames: w.frames, ..scope_released(w1) })
            &&& left ==> scope_released(w1) == w1
            &&& !left ==> attuned(w1, env1) && w1.open && quiet(w1, scope_released(w1))
            &&& w1.frames.drop_last() == w.frames
            &&& w1.frames.len() == w.frames.len() + 1
        }),
    decreases stmts, stmts@.len() + 1,
{
    scoped_parts(w, stmts);
    lemma_with_frame_fits(w, env.s);
    let w0 = with_frame(w);
    assert(w0 == (WorkView { frames: w.frames.push(Seq::empty()), ..w })) by {
        reveal(with_frame);
    }
    let (w1, left) = block_made(w0, stmts, 0);
    let env1 = calm_block(w0, inner(env), stmts, 0, bars);
    lemma_block(w0, stmts, 0);
    if left {
        reveal(scope_released);
        reveal(frame_released_at);
    } else {
        scope_quiet(w1, env1.s);
    }
    closed_frames(w, w1);
    let w2 = scope_released(w1);
    assert(without_frame(w2) == (WorkView { frames: w.frames, ..w2 })) by {
        reveal(without_frame);
    }
    reveal(stride);
    env1
}

#[verifier::spinoff_prover]
pub(crate) proof fn calm_entered(w: WorkView, env: Env, c: Expr)
    requires
        sc(env, c, Native::Bool, None),
        attuned(w, env),
    ensures
        ({
            let (w1, test) = expr_made(w, c, Native::Bool);
            let wi = arm_entered(w, c);
            &&& quiet(w, w1)
            &&& test.kind == Kind::Bit
            &&& attuned(wi, env)
            &&& wi.open
            &&& wi.frames == w.frames
            &&& wi.temps == w.temps
            &&& wi.handbacks == w.handbacks && wi.continues == w.continues && wi.ret == w.ret && wi.top == w.top
            &&& wi.owned_from == w.owned_from
            &&& w.code.len() <= wi.code.len()
            &&& wi == put(
                put(
                    put(put(w1, Inst::Block), Inst::Block),
                    Inst::Fork { test: test.at, yes: w1.code.len() as usize, no: (w1.code.len() + 1) as usize },
                ),
                Inst::At(w1.code.len() as usize),
            )
        }),
{
    sc_quiet(w, env, c, Native::Bool, None);
    reveal(forked);
    lemma_attuned(w, arm_entered(w, c), env);
}

#[verifier::spinoff_prover]
pub(crate) proof fn calm_arms(w: WorkView, env: Env, chain: IfChain, i: nat, merge: usize, all: bool, bars: Bars)
    requires
        arms_ok(env, chain, i, bars),
        attuned(w, env),
        env.digits == DEFAULT_DIGITS,
        i < chain.arms@.len() ==> w.open,
        leads(w, bars.back),
    ensures
        arms_made(w, chain, i, merge, all).0.temps == w.temps,
        arms_made(w, chain, i, merge, all).0.digits == w.digits,
        arms_made(w, chain, i, merge, all).0.frames == w.frames,
    decreases chain, chain.arms@.len() - i,
{
    arms_next(w, chain, i, merge, all);
    lemma_arms(w, chain, i, merge, all);
    reveal(step);
    if i < chain.arms@.len() {
        let body = chain.arms@[i as int].body;
        match chain.arms@[i as int].condition {
            Some(c) => {
                calm_entered(w, env, c);
                let wi = arm_entered(w, c);
                let _ = calm_scoped(wi, env, body, bars);
                lemma_scoped(wi, body);
                let w1 = arm_passed(w, c, body, merge);
                lemma_attuned(w, w1, env);
                calm_arms(w1, env, chain, i + 1, merge, all && scoped_made(wi, body).1, bars);
            },
            None => {
                let _ = calm_scoped(w, env, body, bars);
                lemma_scoped(w, body);
                let (w0, left) = scoped_made(w, body);
                let w1 = joined(w0, left, merge);
                lemma_attuned(w, w1, env);
                calm_arms(w1, env, chain, i + 1, merge, all && left, bars);
            },
        }
    }
}

#[verifier::spinoff_prover]
pub(crate) proof fn if_parts(w: WorkView, chain: IfChain)
    ensures
        ({
            let merge = w.code.len() as usize;
            let (w2, all) = arms_made(put(w, Inst::Block), chain, 0, merge, true);
            let w3 = put(joined(w2, !w2.open, merge), Inst::At(merge));
            if_made(w, chain) == (if all && !w2.open {
                (put(w3, Inst::Unreachable), true)
            } else {
                (w3, false)
            })
        }),
{
    reveal(if_made);
}

#[verifier::spinoff_prover]
pub(crate) proof fn calm_if(w: WorkView, env: Env, chain: IfChain, bars: Bars)
    requires
        arms_ok(env, chain, 0, bars),
        attuned(w, env),
        env.digits == DEFAULT_DIGITS,
        w.open,
        leads(w, bars.back),
    ensures
        after(w, if_made(w, chain), env),
    decreases chain, chain.arms@.len() + 1,
{
    if_parts(w, chain);
    let w1 = put(w, Inst::Block);
    let merge = w.code.len() as usize;
    lemma_attuned(w, w1, env);
    calm_arms(w1, env, chain, 0, merge, true, bars);
    lemma_if(w, chain);
    reveal(step);
}

// ── loops ───────────────────────────────────────────────────────────────────

/// The range inside an expression.
pub open spec fn inside_range(range: Expr) -> Expr {
    match range.kind {
        ExprKind::Math(inner) => *inner,
        _ => range,
    }
}

pub(crate) proof fn calm_step(w: WorkView, env: Env, by: Option<Box<Expr>>)
    requires
        step_ok(env, by),
        attuned(w, env),
    ensures
        quiet(w, step_made(w, by).0),
        step_made(w, by).1.kind == Kind::Word,
        by matches Some(e) ==> step_made(w, by) == expr_made(w, *e, Native::Int),
        by is None ==> step_made(w, by) == made(w, Inst::Word(1), Kind::Word),
{
    step_parts(w, by);
    if let Some(e) = by {
        sc_quiet(w, env, *e, Native::Int, whole());
    }
}

#[verifier::spinoff_prover]
pub(crate) proof fn calm_bounds(w: WorkView, env: Env, range: Expr, from: Expr, to: Expr, by: Option<Box<Expr>>)
    requires
        inside_range(range).kind == (ExprKind::Range { from: Box::new(from), to: Box::new(to), by }),
        sc(env, from, Native::Int, whole()),
        sc(env, to, Native::Int, whole()),
        step_ok(env, by),
        attuned(w, env),
    ensures
        ({
            let (w1, start) = expr_made(w, from, Native::Int);
            let (w2, end) = expr_made(w1, to, Native::Int);
            let (w3, step) = step_made(w2, by);
            &&& bounds_made(w, range) == (w3, Bounds { start, end, step })
            &&& start.kind == Kind::Word && end.kind == Kind::Word && step.kind == Kind::Word
            &&& attuned(w1, env)
            &&& attuned(w2, env)
            &&& attuned(w3, env)
            &&& quiet(w, w1)
            &&& quiet(w1, w2)
            &&& quiet(w2, w3)
            &&& quiet(w, w3)
        }),
{
    sc_quiet(w, env, from, Native::Int, whole());
    let (w1, start) = expr_made(w, from, Native::Int);
    lemma_attuned(w, w1, env);
    sc_quiet(w1, env, to, Native::Int, whole());
    let (w2, end) = expr_made(w1, to, Native::Int);
    lemma_attuned(w1, w2, env);
    calm_step(w2, env, by);
    range_parts(w, range, from, to, by);
    lemma_quiet_then(w, w1, w2);
    lemma_quiet_then(w, w2, step_made(w2, by).0);
    lemma_attuned(w2, step_made(w2, by).0, env);
}

#[verifier::spinoff_prover]
pub(crate) proof fn inside_attuned(w: WorkView, env: Env, var: Seq<char>, b: Bounds)
    requires
        attuned(w, env),
        b.start.kind == Kind::Word,
        b.end.kind == Kind::Word,
        b.step.kind == Kind::Word,
    ensures
        ({
            let w2 = counted_inside(w, var, b);
            let (w1, l) = loop_entered(w, b);
            &&& attuned(w2, bound(inner(env), var, Native::Int))
            &&& w2.temps == w.temps
            &&& w2.open
            &&& w2.code == w1.code
            &&& w2.texts == w1.texts
            &&& w2.frames == w.frames.push(seq![LocalView { name: var, slot: l.slot, native: Native::Int }])
            &&& w2.handbacks == w.handbacks && w2.ret == w.ret && w2.top == w.top && w2.owned_from == w.owned_from
        }),
{
    let q = entered_parts(w, b);
    let (w1, l) = loop_entered(w, b);
    lemma_attuned(w, w1, env);
    lemma_with_frame_fits(w1, env.s);
    let w2 = with_frame(w1);
    lemma_declared_fits(w2, inner(env).s, var, l.slot, Native::Int);
    reveal(with_frame);
    reveal(declared);
    let w3 = declared(w2, var, l.slot, Native::Int);
    assert(w3.frames =~= w.frames.push(seq![LocalView { name: var, slot: l.slot, native: Native::Int }])) by {
        assert(w3.frames.last() =~= seq![LocalView { name: var, slot: l.slot, native: Native::Int }]);
    }
}

#[verifier::spinoff_prover]
pub(crate) proof fn calm_counted(w: WorkView, env: Env, var: Seq<char>, b: Bounds, body: Vec<Stmt>, bars: Bars) -> (env1: Env)
    requires
        all_ok(bound(inner(env), var, Native::Int), body, 0, bars),
        bars.back is None,
        attuned(w, env),
        env.digits == DEFAULT_DIGITS,
        b.start.kind == Kind::Word,
        b.end.kind == Kind::Word,
        b.step.kind == Kind::Word,
    ensures
        ({
            let l = loop_entered(w, b).1;
            let w2 = counted_inside(w, var, b);
            let (w3, left) = block_made(w2, body, 0);
            let w4 = scope_released(without_continue(w3));
            let wf = counted_made(w, var, b, body);
            &&& attuned(wf, env) && wf.open && wf.temps == w.temps && wf.frames == w.frames
            &&& !left
            &&& attuned(w3, env1) && w3.open
            &&& quiet(without_continue(w3), w4)
            &&& stride(w2, w3)
            &&& wf == loop_left(put(WorkView { frames: w.frames, ..w4 }, Inst::Jump(l.step)), b, l)
        }),
    decreases body, body@.len() + 2,
{
    counted_parts(w, var, b, body);
    inside_attuned(w, env, var, b);
    let l = loop_entered(w, b).1;
    let w2 = counted_inside(w, var, b);
    let (w3, left) = block_made(w2, body, 0);
    let env1 = calm_block(w2, bound(inner(env), var, Native::Int), body, 0, bars);
    never_left(w2, bound(inner(env), var, Native::Int), body, 0, bars);
    lemma_block(w2, body, 0);
    let w3c = without_continue(w3);
    lemma_attuned(w3, w3c, env1);
    scope_quiet(w3c, env1.s);
    let w4 = scope_released(w3c);
    assert(w3.frames.drop_last() =~= w.frames) by {
        reveal(stride);
        assert forall|i: int| 0 <= i < w.frames.len() implies w3.frames[i] == w.frames[i] by {
            assert(w3.frames[i] == w2.frames[i]);
        }
    }
    assert(without_frame(w4) == (WorkView { frames: w.frames, ..w4 })) by {
        reveal(without_frame);
    }
    let w5 = put(WorkView { frames: w.frames, ..w4 }, Inst::Jump(l.step));
    left_parts(w5, b, l);
    let _ = entered_parts(w, b);
    crate::codegen::laws::lemma_counted(w, var, b, body);
    reveal(step);
    env1
}

/// A block that may not hand back does not leave.
#[verifier::spinoff_prover]
pub(crate) proof fn never_left(w: WorkView, env: Env, stmts: Vec<Stmt>, i: nat, bars: Bars)
    requires
        all_ok(env, stmts, i, bars),
        bars.back is None,
        attuned(w, env),
        env.digits == DEFAULT_DIGITS,
        w.open,
    ensures
        !block_made(w, stmts, i).1,
    decreases stmts, stmts@.len() - i,
{
    block_next(w, stmts, i);
    if i < stmts@.len() {
        let st = stmts@[i as int];
        let w1 = stmt_made(w, st).0;
        if ok(env, st, bars) {
            calm_stmt(w, env, st, bars);
            stmt_parts(w, st);
            other_stmt(w, st);
            if let Stmt::If(chain) = st {
                if_never_left(w, env, chain, bars);
            }
            lemma_no_temps(w1, w.temps.len());
            lemma_env_after(env, st, bars);
            never_left(w1, env_after(env, st), stmts, i + 1, bars);
        } else {
            calm_broad(w, env, st, bars);
            lemma_broad_env(env, st, bars);
            never_left(broad_end(w, st), env_after(env, st), stmts, i + 1, bars);
        }
    }
}

#[verifier::spinoff_prover]
proof fn arms_never_left(w: WorkView, env: Env, chain: IfChain, i: nat, merge: usize, all: bool, bars: Bars)
    requires
        arms_ok(env, chain, i, bars),
        bars.back is None,
        attuned(w, env),
        env.digits == DEFAULT_DIGITS,
        i < chain.arms@.len() ==> w.open,
    ensures
        i < chain.arms@.len() ==> !arms_made(w, chain, i, merge, all).1,
        !all ==> !arms_made(w, chain, i, merge, all).1,
        i >= chain.arms@.len() ==> arms_made(w, chain, i, merge, all).0 == w,
    decreases chain, chain.arms@.len() - i,
{
    arms_next(w, chain, i, merge, all);
    if i < chain.arms@.len() {
        let body = chain.arms@[i as int].body;
        match chain.arms@[i as int].condition {
            Some(c) => {
                calm_entered(w, env, c);
                let wi = arm_entered(w, c);
                let _ = calm_scoped(wi, env, body, bars);
                assert(with_frame(wi).open) by {
                    reveal(with_frame);
                }
                never_left(with_frame(wi), inner(env), body, 0, bars);
                let w1 = arm_passed(w, c, body, merge);
                lemma_attuned(w, w1, env);
                arms_never_left(w1, env, chain, i + 1, merge, false, bars);
            },
            None => {
                let _ = calm_scoped(w, env, body, bars);
                assert(with_frame(w).open) by {
                    reveal(with_frame);
                }
                never_left(with_frame(w), inner(env), body, 0, bars);
                let (w0, left) = scoped_made(w, body);
                let w1 = joined(w0, left, merge);
                lemma_attuned(w, w1, env);
                arms_never_left(w1, env, chain, i + 1, merge, false, bars);
            },
        }
    }
}

#[verifier::spinoff_prover]
proof fn if_never_left(w: WorkView, env: Env, chain: IfChain, bars: Bars)
    requires
        arms_ok(env, chain, 0, bars),
        bars.back is None,
        attuned(w, env),
        env.digits == DEFAULT_DIGITS,
        w.open,
    ensures
        !if_made(w, chain).1,
    decreases chain, chain.arms@.len() + 1,
{
    if_parts(w, chain);
    let w1 = put(w, Inst::Block);
    lemma_attuned(w, w1, env);
    arms_never_left(w1, env, chain, 0, w.code.len() as usize, true, bars);
}

#[verifier::spinoff_prover]
pub(crate) proof fn calm_while(w: WorkView, env: Env, condition: Expr, body: Vec<Stmt>, bars: Bars)
    requires
        sc(env, condition, Native::Bool, None),
        all_ok(inner(env), body, 0, bars),
        bars.back is None,
        attuned(w, env),
        env.digits == DEFAULT_DIGITS,
    ensures
        ({
            let w4 = while_asked(w);
            let (w5, test) = expr_made(w4, condition, Native::Bool);
            let at = (w.code.len() + 1) as usize;
            let i = Inst::Fork { test: test.at, yes: at, no: (w.code.len() + 2) as usize };
            let w7 = while_inside(w, condition);
            let w8 = scoped_made(w7, body).0;
            let wf = put(put(without_continue(w8), Inst::Jump(w.code.len() as usize)), Inst::At((w.code.len() + 2) as usize));
            &&& attuned(w4, env)
            &&& w4.open
            &&& w4.frames == w.frames
            &&& quiet(w4, w5)
            &&& test.kind == Kind::Bit
            &&& w7 == with_continue(put(put(w5, i), Inst::At(at)), w.code.len() as usize)
            &&& attuned(w7, env)
            &&& w7.open
            &&& w7.frames == w.frames
            &&& !scoped_made(w7, body).1
            &&& w8.open
            &&& w8.frames == w.frames
            &&& w8.temps == w.temps
            &&& attuned(wf, env)
            &&& wf.temps == w.temps
            &&& wf.frames == w.frames
        }),
    decreases body, body@.len() + 2,
{
    let w4 = while_asked(w);
    lemma_attuned(w, w4, env);
    sc_quiet(w4, env, condition, Native::Bool, None);
    let w5 = expr_made(w4, condition, Native::Bool).0;
    lemma_no_temps(w5, w4.temps.len());
    reveal(forked);
    let w7 = while_inside(w, condition);
    lemma_attuned(w, w7, env);
    let _ = calm_scoped(w7, env, body, bars);
    assert(with_frame(w7).open) by {
        reveal(with_frame);
    }
    never_left(with_frame(w7), inner(env), body, 0, bars);
    lemma_scoped(w7, body);
    reveal(step);
}

#[verifier::spinoff_prover]
pub(crate) proof fn calm_loop(w: WorkView, env: Env, l: LoopStmt, bars: Bars)
    requires
        loop_ok(env, l, bars),
        attuned(w, env),
        env.digits == DEFAULT_DIGITS,
    ensures
        attuned(loop_made(w, l), env),
        loop_made(w, l).open,
        loop_made(w, l).temps == w.temps,
        loop_made(w, l).digits == w.digits,
    decreases l, 0nat,
{
    loop_parts(w, l);
    match l.kind {
        LoopKind::Counted { var, range, .. } => {
            let part = inside_range(range);
            calm_bounds(w, env, range, *part.kind->Range_from, *part.kind->Range_to, part.kind->Range_by);
            let (w1, b) = bounds_made(w, range);
            let inside = Bars { fixed: bars.fixed.insert(var@), back: None, ..bars };
            let _ = calm_counted(w1, env, var@, b, l.body, inside);
        },
        LoopKind::While { condition } => {
            calm_while(w, env, condition, l.body, Bars { back: None, ..bars });
        },
    }
}

#[verifier::spinoff_prover]
pub(crate) proof fn calm_stmt(w: WorkView, env: Env, stmt: Stmt, bars: Bars)
    requires
        ok(env, stmt, bars),
        attuned(w, env),
        env.digits == DEFAULT_DIGITS,
        w.open,
        leads(w, bars.back),
    ensures
        after(w, stmt_made(w, stmt), env_after(env, stmt)),
    decreases stmt, 0nat,
{
    stmt_parts(w, stmt);
    other_stmt(w, stmt);
    match stmt {
        Stmt::Var(v) => {
            lemma_bindings_digits(env, v, v.bindings@.len());
            calm_bindings(w, env, v, 0, bars);
        },
        Stmt::Change(c) => {
            calm_targets(w, env, c, 0, bars);
            lemma_attuned(w, targets_made(w, c, 0), env);
        },
        Stmt::Print { args, .. } => {
            calm_prints(w, env, args, 0);
            let w1 = prints_made(w, args, 0);
            assert(kinds(Seq::<Operand>::empty()) =~= takes(Rt::PrintNewline));
            called_quiet(w1, Rt::PrintNewline, Seq::empty());
            lemma_attuned(w, stmt_made(w, stmt).0, env);
        },
        Stmt::If(chain) => {
            calm_if(w, env, chain, bars);
        },
        Stmt::Loop(l) => {
            calm_loop(w, env, l, bars);
        },
        Stmt::Handback { value, .. } => {
            calm_handback(w, env, value, bars.back->0);
        },
        Stmt::Expr(e) => {
            effect_parts(w, env, e);
            lemma_attuned(w, stmt_made(w, stmt).0, env);
        },
        _ => {},
    }
}

} // verus!
