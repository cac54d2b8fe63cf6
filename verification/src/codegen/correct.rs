//! Compiled programs print what is interpreted: those on single values, with functions.

use vstd::prelude::*;

use crate::ast::{
    ChangeStmt, Expr, ExprKind, FuncDecl, IfChain, LoopKind, LoopStmt, Param, Program, Stmt, UnOp, VarDecl,
};
use crate::codegen::agreement::{
    at, does_arms, does_arms_next, does_bindings, does_block, does_block_next, does_counted,
    does_counted_next, does_scoped, does_scoped_parts, does_stmt, does_stmt_parts, does_targets, does_texts,
    does_while, does_while_next, guarded, holding, lemma_code, lemma_guarded_frames, lemma_loop_code,
    lemma_sees_stride, loop_code, normally, once_more, run_advance, run_at, run_branch, run_entry, run_one,
    run_test, run_to, texts_next, turned,
};
use crate::codegen::boxes::{heap_but, heap_grown, holdable, Heap};
use crate::codegen::bulk::{broad_end, calm_broad, sim_broad};
use crate::codegen::evaluate::{gives, one_meaning, run_literal, run_name, run_operator, run_sign, run_text};
use crate::codegen::exactly::{rep, run_converted, single};
use crate::codegen::gathering::{
    compiled_collecting_programs_print_what_is_interpreted, does_block_left, does_handback, gather_program,
    main_parts,
};
use crate::codegen::language::{
    after, all_ok, arms_ok, binding_end, binding_ok, bindings_env, block_left, bound, calm_arms, calm_block,
    calm_bounds, calm_counted, calm_entered, calm_handback, calm_if, calm_print, calm_prints, calm_scoped,
    calm_step, calm_stmt, calm_targets, calm_while, counted_quiet, effect_ok, effect_parts, env_after,
    frame_quiet, if_parts, inner, inside_attuned, inside_range, kept_quiet, leads, lemma_no_temps,
    let_go_quiet, loop_ok, made_binding, made_target, never_left, ok, other_stmt, placed, plain_type,
    print_ok, printed_parts, scope_quiet, scopes_quiet, shows, step_ok, target_end, target_ok, Bars,
};
use crate::codegen::laws::{extended, lemma_arms, lemma_block, lemma_scoped, lemma_stmt, step, stride};
use crate::codegen::lifting::{lemma_lifted, lifted, program_at, recalled, stacked};
use crate::codegen::lowering::{
    args_made, arms_made, bindings_made, block_made, counted_made, effect_made, expr_made, fresh,
    function_made, functions_made, handback_made, if_made, joined, loop_entered, loop_made, lowered,
    main_made, params_made, places_wanted, prints_made, ret_kind, scoped_made, signature, signatures,
    step_made, stmt_made, targets_made, value_arms, with_handback, with_digits, with_owned, without_continue,
    Bounds, CompiledView,
};
use crate::codegen::machine::{
    Held, gave, machine_for, machine_run, reg, runtime_call, slot, stepped, steps, Activation, Call, Datum,
    Machine, Slots,
};
use crate::codegen::native::{kind_of, native_of, Native};
use crate::codegen::runtime::{takes, Kind, Rt};
use crate::codegen::scalars::{
    args_next, args_quiet, arms_end, arms_quiet, if_value_parts, sc_arms, value_arm_next, value_entered,
    value_inside, value_left, binary_parts, call_parts, callable, leaf_parts, math_parts, operator_parts,
    operator_quiet, sc, sc_args, sc_quiet, sign_quiet, talks, the_way, unary_parts, way_native,
};
use crate::codegen::simulation::{
    keeps_below, lemma_does, lemma_extended_then, lemma_one_step, lemma_quiet_then, lemma_ran_then,
    lemma_sees_before, lemma_sees_put, lemma_sees_step, lemma_steps_add, meaning, quiet, ran, run_effect,
    run_value, running, sees, sound, stands, top, with,
};
use crate::codegen::standing::{
    frame_freed, no_older, attuned, declared_in, lemma_assigns, lemma_attuned, lemma_back, lemma_closes,
    lemma_declared_fits, lemma_declares, lemma_found, lemma_opens, lemma_seen_assigned, lemma_seen_closed,
    lemma_seen_defined, lemma_seen_opened, lemma_slot_free, lemma_still_mirrors, main_framing, mirrored,
    mirrors, names_fit, nat_of, seen, Env, Frames, Framing,
};
use crate::codegen::steps::{as_byte, printed, unary_wants, unary_way};
use crate::codegen::straight::{
    called_quiet, data, run_any, run_args, run_spilled, spilled_quiet, with_args_parts,
};
use crate::codegen::whole::{
    arm_entered, arm_passed, arms_next, bindings_end, block_next, counted_inside, entered_parts, left_parts,
    loop_parts, print_made, stmt_parts, while_asked, while_inside, Scope,
};
use crate::codegen::work::{
    called, chars_made, declared, found, frame_released, frame_released_at, function_named, handle, kept,
    kinds, let_go, looked_up, made, put, scope_released, scopes_released, spilled, stored, with_args,
    with_frame, with_text, FrameView, Handback, Inst, LocalView, Operand, SigView, WorkView,
};
use crate::diagnostics::position::Span;
use crate::eval::numeric::{binding_context, context_of, whole, Numeric, DEFAULT_DIGITS};
use crate::eval::ops::{summed, AnswerView, StopView};
use crate::eval::select::{in_range, range_left};
use crate::eval::semantics;
use crate::eval::semantics::{
    arguments_from, assigned, bare, block_from, call_result, chain_from, closed_scope, defined, expr_result,
    fresh_world, functions_in, opened, operand, parameter_context, parameters_given, run_meaning,
    statement_result, with_parameters, FlowView, World,
};
use crate::eval::value::{val_text, Val};
use crate::text::{fits, int_text};

use crate::codegen::language::{lemma_broad_env, lemma_env_after};

verus! {

// ── functions ───────────────────────────────────────────────────────────────

pub open spec fn param_names(f: FuncDecl) -> Set<Seq<char>> {
    Set::new(|x: Seq<char>| exists|i: int| 0 <= i < f.params@.len() && (#[trigger] f.params@[i]).name@ == x)
}

/// What the first `n` parameters stand for.
pub open spec fn param_scope(f: FuncDecl, sig: SigView, n: nat) -> Scope
    decreases n,
{
    if n == 0 {
        Map::empty()
    } else {
        param_scope(f, sig, (n - 1) as nat).insert(f.params@[n - 1].name@, sig.params[n - 1])
    }
}

pub open spec fn param_env(fns: Seq<SigView>, functions: Seq<FuncDecl>, f: FuncDecl, sig: SigView, n: nat) -> Env {
    Env { s: seq![param_scope(f, sig, n)], fns, functions, digits: DEFAULT_DIGITS }
}

pub open spec fn body_bars(f: FuncDecl, sig: SigView) -> Bars {
    Bars {
        fixed: Set::empty(),
        params: param_names(f),
        back: if sig.ret is Nothing {
            None
        } else {
            Some(sig.ret)
        },
    }
}

/// Whether a statement hands back whichever way it goes.
pub open spec fn surely_stmt(st: Stmt) -> bool
    decreases st, 0nat,
{
    match st {
        Stmt::Handback { .. } => true,
        Stmt::If(chain) => surely_arms(chain, 0),
        _ => false,
    }
}

pub open spec fn surely_arms(chain: IfChain, i: nat) -> bool
    decreases chain, chain.arms@.len() - i,
{
    i < chain.arms@.len() && surely(chain.arms@[i as int].body, 0) && (chain.arms@[i as int].condition is None || surely_arms(
        chain,
        i + 1,
    ))
}

pub open spec fn surely(stmts: Vec<Stmt>, i: nat) -> bool
    decreases stmts, stmts@.len() - i,
{
    i < stmts@.len() && (surely_stmt(stmts@[i as int]) || surely(stmts, i + 1))
}

/// A function on single values that hands back what it promises.
pub open spec fn function_ok(fns: Seq<SigView>, functions: Seq<FuncDecl>, f: FuncDecl, sig: SigView) -> bool {
    &&& sig.params.len() == f.params@.len()
    &&& forall|i: int| 0 <= i < sig.params.len() ==> single(#[trigger] sig.params[i])
    &&& sig.ret is Nothing || single(sig.ret) && surely(f.body, 0)
    &&& all_ok(inner(param_env(fns, functions, f, sig, f.params@.len())), f.body, 0, body_bars(f, sig))
}

pub open spec fn function_good(c: CompiledView, fns: Seq<SigView>, functions: Seq<FuncDecl>, k: int) -> bool {
    let f = functions[k];
    let sig = fns[k];
    &&& sig.name == f.name@
    &&& c.functions[k].code == function_made(fns, f, sig).code
    &&& c.functions[k].texts == function_made(fns, f, sig).texts
    &&& sound(program_at(c, k as nat))
    &&& function_ok(fns, functions, f, sig)
}

/// Whether the compiled functions are those of the program.
pub open spec fn good(c: CompiledView, fns: Seq<SigView>, functions: Seq<FuncDecl>) -> bool {
    &&& fns.len() == functions.len()
    &&& c.functions.len() == functions.len()
    &&& functions.len() <= usize::MAX
    &&& forall|k: int| 0 <= k < functions.len() ==> #[trigger] function_good(c, fns, functions, k)
}

proof fn lemma_good_at(c: CompiledView, fns: Seq<SigView>, functions: Seq<FuncDecl>, k: nat)
    requires
        good(c, fns, functions),
        k < functions.len(),
    ensures
        good(program_at(c, k), fns, functions),
        sound(program_at(c, k)),
{
    assert(function_good(c, fns, functions, k as int));
    let d = program_at(c, k);
    assert forall|j: int| 0 <= j < functions.len() implies #[trigger] function_good(d, fns, functions, j) by {
        assert(function_good(c, fns, functions, j));
        assert(program_at(d, j as nat) == program_at(c, j as nat));
    }
}

proof fn lemma_same_function(fns: Seq<SigView>, functions: Seq<FuncDecl>, name: Seq<char>, n: nat)
    requires
        n <= fns.len(),
        fns.len() == functions.len(),
        functions.len() <= usize::MAX,
        forall|k: int| 0 <= k < functions.len() ==> (#[trigger] fns[k]).name == functions[k].name@,
    ensures
        match function_named(fns, name, n) {
            Some(i) => semantics::function_named(functions, name, n) == Some(i as int) && i < n,
            None => semantics::function_named(functions, name, n) is None,
        },
    decreases n,
{
    if n > 0 {
        assert(fns[n - 1].name == functions[n - 1].name@);
        lemma_same_function(fns, functions, name, (n - 1) as nat);
    }
}

/// A body that surely hands back does so wherever it comes to an end.
#[verifier::spinoff_prover]
proof fn flows_back(d: nat, world: World, stmts: Vec<Stmt>, i: nat)
    requires
        surely(stmts, i),
        block_from(d, world, stmts, i).1 is Ok,
    ensures
        block_from(d, world, stmts, i).1->Ok_0 is Handback,
    decreases stmts, stmts@.len() - i,
{
    let st = stmts@[i as int];
    let r = statement_result(d, world, st);
    if surely_stmt(st) {
        if let Stmt::If(chain) = st {
            arms_flow_back(d, world, chain, 0);
        }
    } else if r.1 == Ok::<FlowView, StopView>(FlowView::Normal) {
        flows_back(d, r.0, stmts, i + 1);
    }
}

#[verifier::spinoff_prover]
proof fn arms_flow_back(d: nat, world: World, chain: IfChain, i: nat)
    requires
        surely_arms(chain, i),
        chain_from(d, world, chain, i).1 is Ok,
    ensures
        chain_from(d, world, chain, i).1->Ok_0 is Handback,
    decreases chain, chain.arms@.len() - i,
{
    let arm = chain.arms@[i as int];
    match arm.condition {
        None => {
            let b = block_from(d, opened(world), arm.body, 0);
            assert(semantics::scoped(d, world, arm.body) == (closed_scope(b.0), b.1));
            flows_back(d, opened(world), arm.body, 0);
        },
        Some(e) => {
            let r = expr_result(d, world, e, None);
            if r.1 == Ok::<Val, StopView>(Val::Bool(true)) {
                let b = block_from(d, opened(r.0), arm.body, 0);
                assert(semantics::scoped(d, r.0, arm.body) == (closed_scope(b.0), b.1));
                flows_back(d, opened(r.0), arm.body, 0);
            } else if r.1 == Ok::<Val, StopView>(Val::Bool(false)) {
                arms_flow_back(d, r.0, chain, i + 1);
            }
        },
    }
}

// ── standing together ───────────────────────────────────────────────────────

/// What a piece of a program leaves alone of the interpreter's state, seen from outside the
/// scopes below `base`.
pub open spec fn same_level(base: nat, world: World, world1: World) -> bool {
    &&& world1.frames.len() == world.frames.len()
    &&& world1.frames.take(base as int) == world.frames.take(base as int)
    &&& world1.functions == world.functions
    &&& world1.limit == world.limit
    &&& world1.answers == world.answers
    &&& world1.asked == world.asked
    &&& world1.steps >= world.steps
}

/// Whether an expression changed nothing but what was printed.
pub open spec fn moved_on(world: World, world1: World) -> bool {
    &&& world1 == (World { lines: world1.lines, steps: world1.steps, ..world })
    &&& world1.steps >= world.steps
}

pub open spec fn abreast(c: CompiledView, w: WorkView, env: Env, f: Framing, world: World, m: Machine) -> bool {
    &&& attuned(w, env)
    &&& sound(c)
    &&& good(c, env.fns, env.functions)
    &&& world.functions == env.functions
    &&& f.base < world.frames.len()
    &&& mirrors(w, seen(world.frames, f), m)
    &&& no_older(w, m, f.floor)
    &&& f.floor <= m.heap.len()
    &&& stands(w, m)
    &&& w.open
    &&& m.lines == world.lines
}

/// Whether a run left alone the heap values that are not its own.
pub open spec fn heap_spared(f: Framing, a: Heap, b: Heap) -> bool {
    &&& a.len() <= b.len()
    &&& forall|o: int| 0 <= o < a.len() && o < f.floor ==> #[trigger] b[o] == a[o]
}

/// Whether the machine came through a stretch of code.
pub open spec fn passed_on(w: WorkView, w1: WorkView, m: Machine, m1: Machine) -> bool {
    &&& quiet(w, w1)
    &&& running(m1)
    &&& top(m1).pc == w1.code.len()
    &&& top(m1).given == top(m).given
    &&& m1 == (Machine { lines: m1.lines, heap: m1.heap, ..with(m, top(m1)) })
    &&& heap_grown(m.heap, m1.heap)
    &&& keeps_below(w.code.len() as int, top(m), top(m1))
}

pub open spec fn evaluated(
    w: WorkView,
    w1: WorkView,
    r: Operand,
    world: World,
    world1: World,
    m: Machine,
    m1: Machine,
    want: Native,
    v: Val,
) -> bool {
    &&& passed_on(w, w1, m, m1)
    &&& r.kind == kind_of(want)
    &&& r.at < w1.code.len()
    &&& rep(reg(top(m1), r.at), v, want)
    &&& m1.lines == world1.lines
    &&& moved_on(world, world1)
}

pub(crate) proof fn lemma_passed_then(w: WorkView, w1: WorkView, w2: WorkView, m: Machine, m1: Machine, m2: Machine)
    requires
        passed_on(w, w1, m, m1),
        passed_on(w1, w2, m1, m2),
    ensures
        passed_on(w, w2, m, m2),
{
    lemma_quiet_then(w, w1, w2);
}

pub(crate) proof fn lemma_ran_passed(w: WorkView, w1: WorkView, m: Machine, m1: Machine)
    requires
        ran(w, w1, m, m1),
    ensures
        passed_on(w, w1, m, m1),
        m1.lines == m.lines,
        m1.line == m.line,
{
}

/// The three stand together behind an expression too.
pub(crate) proof fn lemma_abreast_then(
    c: CompiledView,
    w: WorkView,
    w1: WorkView,
    env: Env,
    f: Framing,
    world: World,
    world1: World,
    m: Machine,
    m1: Machine,
)
    requires
        abreast(c, w, env, f, world, m),
        passed_on(w, w1, m, m1),
        moved_on(world, world1),
        m1.lines == world1.lines,
    ensures
        abreast(c, w1, env, f, world1, m1),
        m1.line == m.line,
{
    lemma_attuned(w, w1, env);
    lemma_still_mirrors(w, w1, seen(world.frames, f), m, m1);
}

// ── what expressions mean ───────────────────────────────────────────────────

#[verifier::spinoff_prover]
proof fn unary_meaning(d: nat, world: World, e: Expr, hint: Option<Numeric>)
    requires
        e.kind is Unary,
        meaning(d, world, e, hint).1 is Ok,
    ensures
        ({
            let r = meaning(d, world, *e.kind->Unary_operand, hint);
            &&& r.1 is Ok
            &&& !(r.1->Ok_0 is Array) ==> meaning(d, world, e, hint) == semantics::unary_result(
                r.0,
                e.kind->Unary_op,
                r.1->Ok_0,
                e.span,
                hint,
            )
        }),
{
    reveal(meaning);
    reveal(summed);
}

#[verifier::spinoff_prover]
pub(crate) proof fn binary_meaning(d: nat, world: World, e: Expr, hint: Option<Numeric>)
    requires
        e.kind is Binary,
        meaning(d, world, e, hint).1 is Ok,
    ensures
        ({
            let a = meaning(d, world, *e.kind->Binary_lhs, hint);
            let b = meaning(d, a.0, *e.kind->Binary_rhs, hint);
            &&& a.1 is Ok
            &&& b.1 is Ok
            &&& !(a.1->Ok_0 is Array) && !(b.1->Ok_0 is Array) ==> meaning(d, world, e, hint) == semantics::binary_result(
                b.0,
                e.kind->Binary_op,
                a.1->Ok_0,
                b.1->Ok_0,
                e.span,
                hint,
            )
        }),
{
    reveal(meaning);
    reveal(summed);
}

#[verifier::opaque]
pub open spec fn does_args(d: nat, world: World, f: FuncDecl, args: Vec<Expr>, k: nat, acc: Seq<Val>) -> (
    World,
    Result<Seq<Val>, StopView>,
) {
    arguments_from(d, world, f, args, k, acc)
}

#[verifier::spinoff_prover]
proof fn does_args_next(d: nat, world: World, f: FuncDecl, args: Vec<Expr>, k: nat, acc: Seq<Val>)
    requires
        does_args(d, world, f, args, k, acc).1 is Ok,
    ensures
        k >= args@.len() ==> does_args(d, world, f, args, k, acc) == (world, Ok::<Seq<Val>, StopView>(acc)),
        k < args@.len() ==> {
            let r = meaning(d, world, args@[k as int], parameter_context(f, k));
            &&& r.1 is Ok
            &&& does_args(d, world, f, args, k, acc) == does_args(d, r.0, f, args, k + 1, acc.push(r.1->Ok_0))
        },
{
    reveal(does_args);
    reveal(meaning);
}

/// What a call comes to.
pub open spec fn called_to(d: nat, world: World, f: FuncDecl, args: Vec<Expr>, out: (World, Result<Val, StopView>)) -> bool {
    let a = does_args(d, world, f, args, 0, Seq::empty());
    let vs = a.1->Ok_0;
    let r = does_block((d - 1) as nat, with_parameters(opened(a.0), f, vs, parameters_given(f, vs)), f.body, 0);
    &&& a.1 is Ok
    &&& d > 0
    &&& r.1 is Ok
    &&& out == (
        closed_scope(r.0),
        Ok::<Val, StopView>(
            match r.1->Ok_0 {
                FlowView::Handback(v) => v,
                FlowView::Normal => Val::Nothing,
            },
        ),
    )
}

#[verifier::spinoff_prover]
proof fn call_meaning(d: nat, world: World, e: Expr, hint: Option<Numeric>, k: int)
    requires
        e.kind is Call,
        semantics::function_named(world.functions, e.kind->Call_name@, world.functions.len()) == Some(k),
        meaning(d, world, e, hint).1 is Ok,
    ensures
        called_to(d, world, world.functions[k], e.kind->Call_args, meaning(d, world, e, hint)),
{
    reveal(meaning);
    reveal(does_args);
    reveal(does_block);
    assert(expr_result(d, world, e, hint) == call_result(d, world, e.kind->Call_name@, e.kind->Call_args, e.span));
}

// ── texts are not counted ───────────────────────────────────────────────────

/// A text that nothing owns, counted: nothing happens.
#[verifier::spinoff_prover]
proof fn run_count(c: CompiledView, w: WorkView, m: Machine, v: Operand, f: Rt)
    requires
        f == Rt::StrRetain || f == Rt::StrRelease,
        v.kind == Kind::Text,
        v.at < w.code.len(),
        sound(c),
        ({
            let (w1, h) = handle(w, v, Native::Str);
            sees(c, called(w1, f, seq![h]).0)
        }),
        stands(w, m),
        reg(top(m), v.at) matches Datum::Text(_, o) && o is None,
    ensures
        ({
            let (w1, h) = handle(w, v, Native::Str);
            ran(w, called(w1, f, seq![h]).0, m, steps(c, m, 3))
        }),
{
    counted_quiet(w, v, f);
    let (w1, h) = handle(w, v, Native::Str);
    let wf = called(w1, f, seq![h]).0;
    let args = seq![h];
    assert(kinds(args) =~= takes(f));
    called_quiet(w1, f, args);
    lemma_sees_before(c, w1, wf);
    run_value(c, w, m, Inst::Owner(v.at), Datum::Null);
    let m1 = steps(c, m, 1);
    let given = data(top(m1), args);
    assert(given[0] == Datum::Null);
    let act = Activation { pc: (w1.code.len() + args.len()) as int, args: given, ..top(m1) };
    let after = with(m1, act);
    assert(runtime_call(after, top(m1).slots, f, given) == Call::Gives(after, top(m1).slots, Datum::Nothing)) by {
        reveal(runtime_call);
    }
    run_any(c, w1, m1, f, args, after, top(m1).slots, Datum::Nothing);
    lemma_steps_add(c, m, 1, 2);
    let m2 = steps(c, m, 3);
    assert(m2.calls =~= seq![top(m2)]);
    assert(ran(w1, wf, m1, m2));
    lemma_ran_then(w, w1, wf, m, m1, m2);
}

pub(crate) proof fn run_kept(c: CompiledView, w: WorkView, m: Machine, v: Operand, n: Native, x: Val) -> (k: nat)
    requires
        single(n),
        v.kind == kind_of(n),
        v.at < w.code.len(),
        sound(c),
        sees(c, kept(w, v, n)),
        stands(w, m),
        rep(reg(top(m), v.at), x, n),
    ensures
        ran(w, kept(w, v, n), m, steps(c, m, k)),
{
    kept_quiet(w, v, n);
    if n is Str {
        reveal(kept);
        run_count(c, w, m, v, Rt::StrRetain);
        3
    } else {
        assert(m.calls =~= seq![top(m)]);
        0
    }
}

proof fn run_let_go(c: CompiledView, w: WorkView, m: Machine, v: Operand)
    requires
        v.kind == Kind::Text,
        v.at < w.code.len(),
        sound(c),
        sees(c, let_go(w, v, Native::Str)),
        stands(w, m),
        reg(top(m), v.at) matches Datum::Text(_, o) && o is None,
    ensures
        ran(w, let_go(w, v, Native::Str), m, steps(c, m, 3)),
{
    reveal(let_go);
    run_count(c, w, m, v, Rt::StrRelease);
}

/// Whether a stretch of code did nothing but to one heap value.
pub open spec fn ran_on(w: WorkView, w1: WorkView, m: Machine, m1: Machine, x: Datum) -> bool {
    &&& quiet(w, w1)
    &&& m1 == with(Machine { heap: m1.heap, ..m }, top(m1))
    &&& running(m1)
    &&& top(m1).given == top(m).given
    &&& top(m1).pc == w1.code.len()
    &&& keeps_below(w.code.len() as int, top(m), top(m1))
    &&& m1.heap.len() == m.heap.len()
    &&& heap_but(m.heap, m1.heap, x)
}

/// A heap value held once more or once less.
#[verifier::spinoff_prover]
pub(crate) proof fn run_held(c: CompiledView, w: WorkView, m: Machine, v: Operand, f: Rt)
    requires
        f == Rt::ArrayRetain || f == Rt::ArrayRelease || f == Rt::NumRetain || f == Rt::NumRelease,
        v.kind == Kind::Ptr,
        v.at < w.code.len(),
        sound(c),
        sees(c, called(w, f, seq![v]).0),
        stands(w, m),
        reg(top(m), v.at) matches Datum::Object(o) && o < m.heap.len() && m.heap[o as int] is Some,
    ensures
        ({
            let m1 = steps(c, m, 2);
            let o = reg(top(m), v.at)->Object_0;
            let h = m.heap[o as int]->0;
            let n = h.count + (if f == Rt::ArrayRetain || f == Rt::NumRetain { 1int } else { -1int });
            &&& ran_on(w, called(w, f, seq![v]).0, m, m1, reg(top(m), v.at))
            &&& m1.heap[o as int] == if n <= 0 {
                None
            } else {
                Some(Held { count: n, value: h.value })
            }
        }),
{
    let args = seq![v];
    let given = data(top(m), args);
    let act = Activation { pc: (w.code.len() + args.len()) as int, args: given, ..top(m) };
    let o = reg(top(m), v.at)->Object_0;
    let h = m.heap[o as int]->0;
    let n = h.count + (if f == Rt::ArrayRetain || f == Rt::NumRetain { 1int } else { -1int });
    let before = with(m, act);
    let next = if n <= 0 {
        None
    } else {
        Some(Held { count: n, value: h.value })
    };
    let after = Machine { heap: m.heap.update(o as int, next), ..before };
    assert(given[0] == Datum::Object(o));
    assert(kinds(args) =~= takes(f));
    assert(runtime_call(before, top(m).slots, f, given) == Call::Gives(after, top(m).slots, Datum::Nothing)) by {
        reveal(runtime_call);
    }
    run_any(c, w, m, f, args, after, top(m).slots, Datum::Nothing);
    let m1 = steps(c, m, 2);
    assert(m1.calls =~= seq![top(m1)]);
}

/// What the slots of a frame hold, before it is let go from the `i`-th variable on: texts
/// that nothing owns, and arrays, no two the same.
pub open spec fn to_free(frame: FrameView, i: int, m: Machine, limit: int) -> bool {
    &&& forall|x: int| #![trigger frame[x]] 0 <= x < frame.len() ==> {
        &&& holdable(frame[x].native)
        &&& frame[x].slot < limit
        &&& frame[x].native is Str ==> (slot(top(m).slots, frame[x].slot as int, 0) matches Datum::Text(_, o) && o is None)
        &&& i <= x && frame[x].native is Array ==> (slot(top(m).slots, frame[x].slot as int, 0) matches Datum::Object(o) && o
            < m.heap.len() && m.heap[o as int] is Some)
    }
    &&& forall|x: int, y: int|
        #![trigger frame[x], frame[y]]
        0 <= x < frame.len() && 0 <= y < frame.len() && frame[x].native is Array && frame[y].native is Array && slot(
            top(m).slots,
            frame[x].slot as int,
            0,
        ) == slot(top(m).slots, frame[y].slot as int, 0) ==> x == y
}

/// Whether a stretch of code let go of the arrays of a frame, and did nothing else.
pub open spec fn ran_freeing(w: WorkView, w1: WorkView, m: Machine, m1: Machine, frame: FrameView) -> bool {
    &&& quiet(w, w1)
    &&& m1 == with(Machine { heap: m1.heap, ..m }, top(m1))
    &&& running(m1)
    &&& top(m1).given == top(m).given
    &&& top(m1).pc == w1.code.len()
    &&& keeps_below(w.code.len() as int, top(m), top(m1))
    &&& frame_freed(frame, m, m1)
}

#[verifier::spinoff_prover]
#[verifier::rlimit(30)]
proof fn run_frame(c: CompiledView, w: WorkView, frame: FrameView, i: nat, m: Machine) -> (n: nat)
    requires
        sound(c),
        sees(c, frame_released(w, frame, i)),
        stands(w, m),
        to_free(frame, i as int, m, w.code.len() as int),
    ensures
        ran_freeing(w, frame_released(w, frame, i), m, steps(c, m, n), frame),
    decreases frame.len() - i,
{
    if i >= frame.len() {
        assert(m.calls =~= seq![top(m)]);
        0
    } else {
        let l = frame[i as int];
        if l.native is Str || l.native is Array {
            let kind = kind_of(l.native);
            let load = Inst::Load { kind, from: l.slot };
            let (w1, v) = made(w, load, kind);
            let w2 = let_go(w1, v, l.native);
            let wf = frame_released(w, frame, i);
            let_go_quiet(w1, v, l.native);
            frame_quiet(w2, frame, i + 1);
            lemma_sees_before(c, w2, wf);
            lemma_sees_before(c, w1, w2);
            let x = slot(top(m).slots, l.slot as int, 0);
            run_value(c, w, m, load, x);
            let m1 = steps(c, m, 1);
            let k1 = if l.native is Str {
                run_let_go(c, w1, m1, v);
                3nat
            } else {
                run_held(c, w1, m1, v, Rt::ArrayRelease);
                2nat
            };
            lemma_steps_add(c, m, 1, k1);
            let m2 = steps(c, m, 1 + k1);
            lemma_quiet_then(w, w1, w2);
            assert(heap_but(m.heap, m2.heap, x) && m2.heap.len() == m.heap.len());
            assert(keeps_below(w.code.len() as int, top(m), top(m2))) by {
                assert forall|j: usize| j < w.code.len() implies #[trigger] reg(top(m2), j) == reg(top(m), j) by {
                    assert(reg(top(m2), j) == reg(top(m1), j));
                }
                assert forall|j: int, y: int| 0 <= j < w.code.len() implies #[trigger] slot(top(m2).slots, j, y) == slot(
                    top(m).slots,
                    j,
                    y,
                ) by {
                    assert(slot(top(m2).slots, j, y) == slot(top(m1).slots, j, y));
                }
            }
            assert(to_free(frame, (i + 1) as int, m2, w2.code.len() as int)) by {
                assert forall|z: int| #![trigger frame[z]] 0 <= z < frame.len() implies {
                    &&& slot(top(m2).slots, frame[z].slot as int, 0) == slot(top(m).slots, frame[z].slot as int, 0)
                    &&& i + 1 <= z && frame[z].native is Array ==> (slot(top(m2).slots, frame[z].slot as int, 0) matches Datum::Object(o)
                        && o < m2.heap.len() && m2.heap[o as int] is Some)
                } by {
                    assert(slot(top(m2).slots, frame[z].slot as int, 0) == slot(top(m).slots, frame[z].slot as int, 0));
                    if i + 1 <= z && frame[z].native is Array {
                        let o = slot(top(m).slots, frame[z].slot as int, 0)->Object_0;
                        if l.native is Array {
                            assert(frame[i as int] == l);
                            assert(x != Datum::Object(o));
                        }
                        assert(m2.heap[o as int] == m.heap[o as int]);
                    }
                }
            }
            let k = run_frame(c, w2, frame, i + 1, m2);
            lemma_steps_add(c, m, 1 + k1, k);
            let m3 = steps(c, m, 1 + k1 + k);
            lemma_quiet_then(w, w2, wf);
            assert(keeps_below(w.code.len() as int, top(m), top(m3))) by {
                assert forall|j: usize| j < w.code.len() implies #[trigger] reg(top(m3), j) == reg(top(m), j) by {
                    assert(reg(top(m3), j) == reg(top(m2), j));
                }
                assert forall|j: int, y: int| 0 <= j < w.code.len() implies #[trigger] slot(top(m3).slots, j, y) == slot(
                    top(m).slots,
                    j,
                    y,
                ) by {
                    assert(slot(top(m3).slots, j, y) == slot(top(m2).slots, j, y));
                }
            }
            assert(frame_freed(frame, m, m3)) by {
                assert forall|o: int|
                    0 <= o < m.heap.len() && (forall|z: int|
                        0 <= z < frame.len() && frame[z].native is Array ==> slot(
                            top(m).slots,
                            (#[trigger] frame[z]).slot as int,
                            0,
                        ) != Datum::Object(o as nat)) implies #[trigger] m3.heap[o] == m.heap[o] by {
                    if l.native is Array {
                        assert(frame[i as int] == l);
                        assert(x != Datum::Object(o as nat));
                    }
                    assert(m2.heap[o] == m.heap[o]);
                    assert forall|z: int| 0 <= z < frame.len() && frame[z].native is Array implies slot(
                        top(m2).slots,
                        (#[trigger] frame[z]).slot as int,
                        0,
                    ) != Datum::Object(o as nat) by {
                        assert(slot(top(m2).slots, frame[z].slot as int, 0) == slot(top(m).slots, frame[z].slot as int, 0));
                    }
                }
            }
            1 + k1 + k
        } else {
            run_frame(c, w, frame, i + 1, m)
        }
    }
}

/// What variables hold can be let go.
proof fn lemma_to_free(w: WorkView, s: Seq<Scope>, frames: Frames, m: Machine, k: int, limit: int)
    requires
        mirrors(w, frames, m),
        names_fit(w, s),
        0 <= k < w.frames.len(),
        w.code.len() <= limit,
    ensures
        to_free(w.frames[k], 0, m, limit),
{
    let frame = w.frames[k];
    assert forall|x: int| #![trigger frame[x]] 0 <= x < frame.len() implies {
        &&& holdable(frame[x].native)
        &&& frame[x].slot < limit
        &&& frame[x].native is Str ==> (slot(top(m).slots, frame[x].slot as int, 0) matches Datum::Text(_, o) && o is None)
        &&& frame[x].native is Array ==> (slot(top(m).slots, frame[x].slot as int, 0) matches Datum::Object(o) && o
            < m.heap.len() && m.heap[o as int] is Some)
    } by {
        assert(w.frames[k][x] == frame[x]);
        assert(mirrored(w, frames[k], m, w.frames[k][x]));
    }
    assert forall|x: int, y: int|
        #![trigger frame[x], frame[y]]
        0 <= x < frame.len() && 0 <= y < frame.len() && frame[x].native is Array && frame[y].native is Array && slot(
            top(m).slots,
            frame[x].slot as int,
            0,
        ) == slot(top(m).slots, frame[y].slot as int, 0) implies x == y by {
        assert(w.frames[k][x] == frame[x] && w.frames[k][y] == frame[y]);
    }
}

#[verifier::spinoff_prover]
proof fn run_scope(c: CompiledView, w: WorkView, s: Seq<Scope>, frames: Frames, m: Machine) -> (n: nat)
    requires
        sound(c),
        sees(c, scope_released(w)),
        stands(w, m),
        w.open,
        names_fit(w, s),
        mirrors(w, frames, m),
    ensures
        ran_freeing(w, scope_released(w), m, steps(c, m, n), w.frames[w.frames.len() - 1]),
{
    scope_quiet(w, s);
    let k = w.frames.len() - 1;
    lemma_to_free(w, s, frames, m, k, w.code.len() as int);
    run_frame(c, w, w.frames[k], 0, m)
}

/// What is let go of is the function's own.
proof fn lemma_freed_spared(f: Framing, w: WorkView, m: Machine, m1: Machine, k: int)
    requires
        no_older(w, m, f.floor),
        0 <= k < w.frames.len(),
        frame_freed(w.frames[k], m, m1),
    ensures
        heap_spared(f, m.heap, m1.heap),
{
    assert forall|o: int| 0 <= o < m.heap.len() && o < f.floor implies #[trigger] m1.heap[o] == m.heap[o] by {
        let frame = w.frames[k];
        assert forall|x: int| 0 <= x < frame.len() && frame[x].native is Array implies slot(
            top(m).slots,
            (#[trigger] frame[x]).slot as int,
            0,
        ) != Datum::Object(o as nat) by {
            assert(w.frames[k][x] == frame[x]);
        }
    }
}

/// What the first frames hold before they are let go.
pub open spec fn all_to_free(w: WorkView, m: Machine, depth: nat, floor: nat) -> bool {
    &&& depth <= w.frames.len()
    &&& forall|k: int| 0 <= k < depth ==> to_free(#[trigger] w.frames[k], 0, m, w.code.len() as int)
    &&& forall|i: int, j: int, k: int, l: int|
        #![trigger w.frames[i][j], w.frames[k][l]]
        0 <= i < depth && 0 <= j < w.frames[i].len() && 0 <= k < depth && 0 <= l < w.frames[k].len() && w.frames[i][j].native is Array
            && w.frames[k][l].native is Array && slot(top(m).slots, w.frames[i][j].slot as int, 0) == slot(
            top(m).slots,
            w.frames[k][l].slot as int,
            0,
        ) ==> i == k && j == l
    &&& forall|i: int, j: int|
        #![trigger w.frames[i][j]]
        0 <= i < depth && 0 <= j < w.frames[i].len() && w.frames[i][j].native is Array ==> (slot(
            top(m).slots,
            w.frames[i][j].slot as int,
            0,
        ) matches Datum::Object(o) && o >= floor)
}

proof fn lemma_all_to_free(w: WorkView, s: Seq<Scope>, frames: Frames, m: Machine, depth: nat, floor: nat)
    requires
        mirrors(w, frames, m),
        names_fit(w, s),
        no_older(w, m, floor),
        depth <= w.frames.len(),
    ensures
        all_to_free(w, m, depth, floor),
{
    assert forall|k: int| 0 <= k < depth implies to_free(#[trigger] w.frames[k], 0, m, w.code.len() as int) by {
        lemma_to_free(w, s, frames, m, k, w.code.len() as int);
    }
}

/// The frames below one that was let go are as they were.
#[verifier::spinoff_prover]
proof fn lemma_less_to_free(w: WorkView, w1: WorkView, m: Machine, m1: Machine, depth: nat, floor: nat)
    requires
        all_to_free(w, m, depth, floor),
        depth > 0,
        w1.frames == w.frames,
        w.code.len() <= w1.code.len(),
        keeps_below(w.code.len() as int, top(m), top(m1)),
        frame_freed(w.frames[depth - 1], m, m1),
    ensures
        all_to_free(w1, m1, (depth - 1) as nat, floor),
{
    let top_frame = w.frames[depth - 1];
    assert forall|i: int, j: int|
        #![trigger w1.frames[i][j]]
        0 <= i < depth - 1 && 0 <= j < w1.frames[i].len() implies {
        let l = w1.frames[i][j];
        &&& w.frames[i][j] == l
        &&& holdable(l.native)
        &&& l.slot < w1.code.len()
        &&& slot(top(m1).slots, l.slot as int, 0) == slot(top(m).slots, l.slot as int, 0)
        &&& l.native is Str ==> (slot(top(m).slots, l.slot as int, 0) matches Datum::Text(_, o) && o is None)
        &&& l.native is Array ==> (slot(top(m).slots, l.slot as int, 0) matches Datum::Object(o) && floor <= o < m1.heap.len()
            && m1.heap[o as int] is Some)
    } by {
        assert(to_free(w.frames[i], 0, m, w.code.len() as int));
        let l = w.frames[i][j];
        assert(l.slot < w.code.len());
        if l.native is Array {
            let o = slot(top(m).slots, l.slot as int, 0)->Object_0;
            assert forall|x: int| 0 <= x < top_frame.len() && top_frame[x].native is Array implies slot(
                top(m).slots,
                (#[trigger] top_frame[x]).slot as int,
                0,
            ) != Datum::Object(o) by {
                assert(w.frames[depth - 1][x] == top_frame[x]);
            }
            assert(m1.heap[o as int] == m.heap[o as int]);
        }
    }
    assert forall|k: int| 0 <= k < depth - 1 implies to_free(#[trigger] w1.frames[k], 0, m1, w1.code.len() as int) by {
        let frame = w1.frames[k];
        assert forall|x: int| #![trigger frame[x]] 0 <= x < frame.len() implies w1.frames[k][x] == frame[x] by {}
    }
}

#[verifier::spinoff_prover]
#[verifier::rlimit(30)]
proof fn run_scopes(c: CompiledView, f: Framing, w: WorkView, s: Seq<Scope>, m: Machine, depth: nat) -> (n: nat)
    requires
        sound(c),
        sees(c, scopes_released(w, depth)),
        stands(w, m),
        w.open,
        names_fit(w, s),
        all_to_free(w, m, depth, f.floor),
    ensures
        ({
            let w1 = scopes_released(w, depth);
            let m1 = steps(c, m, n);
            &&& quiet(w, w1)
            &&& m1 == with(Machine { heap: m1.heap, ..m }, top(m1))
            &&& running(m1)
            &&& top(m1).given == top(m).given
            &&& top(m1).pc == w1.code.len()
            &&& keeps_below(w.code.len() as int, top(m), top(m1))
            &&& heap_spared(f, m.heap, m1.heap)
        }),
    decreases depth,
{
    if depth <= w.owned_from || depth == 0 {
        assert(m.calls =~= seq![top(m)]);
        0
    } else {
        reveal(frame_released_at);
        let k = depth - 1;
        assert forall|x: int| 0 <= x < w.frames[k].len() implies holdable((#[trigger] w.frames[k][x]).native) by {}
        frame_quiet(w, w.frames[k], 0);
        let w1 = frame_released_at(w, k);
        let wf = scopes_released(w, depth);
        scopes_quiet(w1, s, k as nat);
        lemma_sees_before(c, w1, wf);
        assert(to_free(w.frames[k], 0, m, w.code.len() as int));
        let n1 = run_frame(c, w, w.frames[k], 0, m);
        let m1 = steps(c, m, n1);
        assert(heap_spared(f, m.heap, m1.heap)) by {
            assert forall|o: int| 0 <= o < m.heap.len() && o < f.floor implies #[trigger] m1.heap[o] == m.heap[o] by {
                let frame = w.frames[k];
                assert forall|x: int| 0 <= x < frame.len() && frame[x].native is Array implies slot(
                    top(m).slots,
                    (#[trigger] frame[x]).slot as int,
                    0,
                ) != Datum::Object(o as nat) by {
                    assert(w.frames[k][x] == frame[x]);
                }
            }
        }
        lemma_less_to_free(w, w1, m, m1, depth, f.floor);
        let n2 = run_scopes(c, f, w1, s, m1, k as nat);
        lemma_steps_add(c, m, n1, n2);
        let m2 = steps(c, m, n1 + n2);
        lemma_quiet_then(w, w1, wf);
        assert(keeps_below(w.code.len() as int, top(m), top(m2))) by {
            assert forall|j: usize| j < w.code.len() implies #[trigger] reg(top(m2), j) == reg(top(m), j) by {
                assert(reg(top(m2), j) == reg(top(m1), j));
            }
            assert forall|j: int, y: int| 0 <= j < w.code.len() implies #[trigger] slot(top(m2).slots, j, y) == slot(
                top(m).slots,
                j,
                y,
            ) by {
                assert(slot(top(m2).slots, j, y) == slot(top(m1).slots, j, y));
            }
        }
        n1 + n2
    }
}

// ── parameters ──────────────────────────────────────────────────────────────

pub open spec fn param_put(w: WorkView, name: Seq<char>, n: Native, i: nat) -> WorkView {
    let p = w.code.len();
    let w1 = put(w, Inst::Param { index: i as usize, kind: kind_of(n) });
    let w2 = put(w1, Inst::Slot(kind_of(n)));
    let w3 = put(w2, Inst::Store { into: (p + 1) as usize, value: p as usize });
    declared(w3, name, (p + 1) as usize, n)
}

proof fn params_next(w: WorkView, params: Seq<Param>, natives: Seq<Native>, i: nat)
    requires
        params.len() == natives.len(),
    ensures
        i >= params.len() ==> params_made(w, params, natives, i) == w,
        i < params.len() ==> params_made(w, params, natives, i) == params_made(
            param_put(w, params[i as int].name@, natives[i as int], i),
            params,
            natives,
            i + 1,
        ),
{
    reveal(stored);
}

proof fn param_parts(w: WorkView, env: Env, name: Seq<char>, n: Native, i: nat)
    requires
        attuned(w, env),
        single(n),
    ensures
        ({
            let w1 = param_put(w, name, n, i);
            &&& w1 == (WorkView { code: w1.code, frames: w1.frames, ..w })
            &&& extended(w.code, w1.code)
            &&& w1.code.len() == w.code.len() + 3
            &&& w1.frames.len() == w.frames.len()
            &&& attuned(w1, bound(env, name, n))
        }),
{
    let p = w.code.len();
    let w3 = put(
        put(put(w, Inst::Param { index: i as usize, kind: kind_of(n) }), Inst::Slot(kind_of(n))),
        Inst::Store { into: (p + 1) as usize, value: p as usize },
    );
    lemma_declared_fits(w3, env.s, name, (p + 1) as usize, n);
    reveal(declared);
}

/// What declaring parameters leaves alone.
#[verifier::spinoff_prover]
proof fn params_grow(w: WorkView, env0: Env, f: FuncDecl, sig: SigView, i: nat)
    requires
        i <= f.params@.len(),
        sig.params.len() == f.params@.len(),
        forall|k: int| 0 <= k < sig.params.len() ==> single(#[trigger] sig.params[k]),
        attuned(w, param_env(env0.fns, env0.functions, f, sig, i)),
    ensures
        ({
            let w1 = params_made(w, f.params@, sig.params, i);
            &&& w1 == (WorkView { code: w1.code, frames: w1.frames, ..w })
            &&& extended(w.code, w1.code)
            &&& w1.frames.len() == w.frames.len()
            &&& attuned(w1, param_env(env0.fns, env0.functions, f, sig, f.params@.len()))
        }),
    decreases f.params@.len() - i,
{
    params_next(w, f.params@, sig.params, i);
    if i < f.params@.len() {
        let env = param_env(env0.fns, env0.functions, f, sig, i);
        let name = f.params@[i as int].name@;
        let n = sig.params[i as int];
        param_parts(w, env, name, n, i);
        let w1 = param_put(w, name, n, i);
        assert(bound(env, name, n).s =~= param_env(env0.fns, env0.functions, f, sig, i + 1).s);
        params_grow(w1, env0, f, sig, i + 1);
        lemma_extended_then(w.code, w1.code, params_made(w, f.params@, sig.params, i).code);
    }
}

/// What declaring parameters does to the interpreter's state.
proof fn lemma_with_parameters(world: World, f: FuncDecl, vs: Seq<Val>, n: nat)
    requires
        n <= f.params@.len(),
        n <= vs.len(),
        world.frames.len() > 0,
    ensures
        ({
            let world1 = with_parameters(world, f, vs, n);
            let k = world.frames.len() - 1;
            &&& world1 == (World { frames: world1.frames, ..world })
            &&& world1.frames.len() == world.frames.len()
            &&& world1.frames.take(k) == world.frames.take(k)
            &&& forall|x: Seq<char>| #[trigger] world1.frames[k].dom().contains(x) ==> world.frames[k].dom().contains(x)
                || param_names(f).contains(x)
        }),
    decreases n,
{
    if n > 0 {
        lemma_with_parameters(world, f, vs, (n - 1) as nat);
        let k = world.frames.len() - 1;
        let a = with_parameters(world, f, vs, (n - 1) as nat);
        let b = with_parameters(world, f, vs, n);
        assert(b.frames.take(k) =~= a.frames.take(k));
        assert forall|x: Seq<char>| #[trigger] b.frames[k].dom().contains(x) implies world.frames[k].dom().contains(x)
            || param_names(f).contains(x) by {
            if x == f.params@[n - 1].name@ {
                assert(param_names(f).contains(x));
            } else {
                assert(a.frames[k].dom().contains(x));
            }
        }
    }
}

/// Parameters declared, run.
#[verifier::spinoff_prover]
proof fn sim_params(c: CompiledView, w: WorkView, env0: Env, f: FuncDecl, sig: SigView, i: nat, world: World, vs: Seq<Val>, m: Machine) -> (n: nat)
    requires
        i <= f.params@.len(),
        sig.params.len() == f.params@.len(),
        vs.len() == f.params@.len(),
        vs.len() <= usize::MAX,
        forall|k: int| 0 <= k < sig.params.len() ==> single(#[trigger] sig.params[k]),
        attuned(w, param_env(env0.fns, env0.functions, f, sig, i)),
        sound(c),
        sees(c, params_made(w, f.params@, sig.params, i)),
        world.frames.len() > 0,
        mirrors(w, seq![with_parameters(world, f, vs, i).frames[world.frames.len() - 1]], m),
        stands(w, m),
        top(m).given.len() == vs.len(),
        forall|k: int| 0 <= k < vs.len() ==> rep(#[trigger] top(m).given[k], vs[k], sig.params[k]),
    ensures
        ({
            let w1 = params_made(w, f.params@, sig.params, i);
            let m1 = steps(c, m, n);
            &&& mirrors(w1, seq![with_parameters(world, f, vs, vs.len()).frames[world.frames.len() - 1]], m1)
            &&& stands(w1, m1)
            &&& m1 == with(m, top(m1))
            &&& top(m1).given == top(m).given
            &&& no_older(w, m, m.heap.len()) ==> no_older(w1, m1, m.heap.len())
        }),
    decreases f.params@.len() - i,
{
    params_next(w, f.params@, sig.params, i);
    if i < f.params@.len() {
        let env = param_env(env0.fns, env0.functions, f, sig, i);
        let name = f.params@[i as int].name@;
        let k = sig.params[i as int];
        let v = vs[i as int];
        param_parts(w, env, name, k, i);
        let w1 = param_put(w, name, k, i);
        assert(bound(env, name, k).s =~= param_env(env0.fns, env0.functions, f, sig, i + 1).s);
        params_grow(w1, env0, f, sig, i + 1);
        let wf = params_made(w, f.params@, sig.params, i);
        lemma_extended_then(w1.code, wf.code, c.main.code);
        assert(sees(c, w1));
        let p = w.code.len() as int;
        let a0 = Inst::Param { index: i as usize, kind: kind_of(k) };
        let a1 = Inst::Slot(kind_of(k));
        let a2 = Inst::Store { into: (p + 1) as usize, value: p as usize };
        let x1 = put(w, a0);
        let x2 = put(x1, a1);
        let x3 = put(x2, a2);
        assert(w1.code == x3.code && w1.texts == x3.texts && w1.frames == declared(w, name, (p + 1) as usize, k).frames) by {
            reveal(declared);
        }
        assert(sees(c, x3));
        lemma_sees_put(c, x2, a2);
        lemma_sees_put(c, x1, a1);
        let g = top(m).given[i as int];
        run_value(c, w, m, a0, g);
        let m1 = steps(c, m, 1);
        run_value(c, x1, m1, a1, Datum::Slot(p + 1));
        lemma_steps_add(c, m, 1, 1);
        let m2 = steps(c, m, 2);
        lemma_ran_then(w, x1, x2, m, m1, m2);
        assert(reg(top(m2), p as usize) == g);
        let act = Activation {
            pc: top(m2).pc + 1,
            slots: top(m2).slots.insert((p + 1, 0), g),
            ..top(m2)
        };
        run_effect(c, x2, m2, a2, act);
        lemma_steps_add(c, m, 2, 1);
        let m3 = steps(c, m, 3);
        assert(m3 == with(m2, act));
        let kk = world.frames.len() - 1;
        let frames = seq![with_parameters(world, f, vs, i).frames[kk]];
        lemma_with_parameters(world, f, vs, i);
        assert forall|z: int| 0 <= z < w.code.len() implies #[trigger] slot(top(m3).slots, z, 0) == slot(top(m).slots, z, 0) by {
            assert(slot(top(m2).slots, z, 0) == slot(top(m).slots, z, 0));
        }
        lemma_declares(w, w1, frames, m, m3, name, (p + 1) as usize, k, v, Set::empty(), Set::empty());
        assert(declared_in(frames, name, v) =~= seq![with_parameters(world, f, vs, i + 1).frames[kk]]);
        let n = sim_params(c, w1, env0, f, sig, i + 1, world, vs, m3);
        lemma_steps_add(c, m, 3, n);
        3 + n
    } else {
        assert(m.calls =~= seq![top(m)]);
        0
    }
}

// ── running side by side ────────────────────────────────────────────────────

pub open spec fn went(f: Framing, n: int, guard: Set<int>, m: Machine, m1: Machine) -> bool {
    &&& running(m1)
    &&& m1 == (Machine { lines: m1.lines, heap: m1.heap, ..with(m, top(m1)) })
    &&& heap_spared(f, m.heap, m1.heap)
    &&& top(m1).given == top(m).given
    &&& forall|i: usize| i < n ==> #[trigger] reg(top(m1), i) == reg(top(m), i)
    &&& forall|k: int| guard.contains(k) ==> #[trigger] slot(top(m1).slots, k, 0) == slot(top(m).slots, k, 0)
}

proof fn lemma_went_then(f: Framing, n: int, n1: int, guard: Set<int>, guard1: Set<int>, m: Machine, m1: Machine, m2: Machine)
    requires
        went(f, n, guard, m, m1),
        went(f, n1, guard1, m1, m2),
        n <= n1,
        guard.subset_of(guard1),
    ensures
        went(f, n, guard, m, m2),
{
}

proof fn lemma_passed_went(f: Framing, w: WorkView, w1: WorkView, m: Machine, m1: Machine, n: int, fixed: Set<Seq<char>>, guard: Set<int>)
    requires
        passed_on(w, w1, m, m1),
        n <= w.code.len(),
        guarded(w, fixed, guard),
    ensures
        went(f, n, guard, m, m1),
{
    assert forall|k: int| guard.contains(k) implies #[trigger] slot(top(m1).slots, k, 0) == slot(top(m).slots, k, 0) by {}
}

proof fn lemma_freed_went(f: Framing, w: WorkView, w1: WorkView, m: Machine, m1: Machine, n: int, fixed: Set<Seq<char>>, guard: Set<int>, frame: FrameView)
    requires
        ran_freeing(w, w1, m, m1, frame),
        heap_spared(f, m.heap, m1.heap),
        n <= w.code.len(),
        guarded(w, fixed, guard),
    ensures
        went(f, n, guard, m, m1),
{
    assert forall|k: int| guard.contains(k) implies #[trigger] slot(top(m1).slots, k, 0) == slot(top(m).slots, k, 0) by {}
}

/// Whether the machine is about to leave a function with a value.
pub open spec fn returning(c: CompiledView, f: Framing, world: World, m: Machine, m1: Machine, v: Val, n: Native) -> bool {
    &&& running(m1)
    &&& m1 == (Machine { lines: m1.lines, heap: m1.heap, ..with(m, top(m1)) })
    &&& heap_spared(f, m.heap, m1.heap)
    &&& m1.lines == world.lines
    &&& 0 <= top(m1).pc < c.main.code.len()
    &&& c.main.code[top(m1).pc] matches Inst::Return(x) && rep(reg(top(m1), x), v, n)
}

/// Whether code that ran from `m` to `m1` did what the interpreter did.
pub open spec fn agreed(
    w: WorkView,
    wf: WorkView,
    f: Framing,
    world1: World,
    m: Machine,
    m1: Machine,
    pc: int,
    bars: Bars,
    guard: Set<int>,
) -> bool {
    &&& mirrors(wf, seen(world1.frames, f), m1)
    &&& no_older(wf, m1, f.floor)
    &&& went(f, w.code.len() as int, guard, m, m1)
    &&& top(m1).pc == pc
    &&& m1.lines == world1.lines
    &&& guarded(wf, bars.fixed, guard)
    &&& w.code.len() <= wf.code.len()
}

pub open spec fn outcome(
    c: CompiledView,
    w: WorkView,
    wf: WorkView,
    left: bool,
    f: Framing,
    world: World,
    r: (World, Result<FlowView, StopView>),
    m: Machine,
    m1: Machine,
    pc: int,
    bars: Bars,
    guard: Set<int>,
) -> bool {
    &&& same_level(f.base, world, r.0)
    &&& match r.1->Ok_0 {
        FlowView::Normal => !left && agreed(w, wf, f, r.0, m, m1, pc, bars, guard),
        FlowView::Handback(v) => bars.back matches Some(n) && returning(c, f, r.0, m, m1, v, n),
    }
}

/// What statements ask for before they run.
pub open spec fn ready(
    c: CompiledView,
    w: WorkView,
    env: Env,
    f: Framing,
    bars: Bars,
    guard: Set<int>,
    world: World,
    m: Machine,
) -> bool {
    &&& abreast(c, w, env, f, world, m)
    &&& env.digits == DEFAULT_DIGITS
    &&& m.line.len() == 0
    &&& leads(w, bars.back)
    &&& w.handbacks.len() == 0
    &&& guarded(w, bars.fixed, guard)
    &&& f.split ==> f.params.subset_of(bars.params)
}

// ── expressions and calls ───────────────────────────────────────────────────

/// The code of an expression comes to what the expression means.
#[verifier::spinoff_prover]
#[verifier::rlimit(30)]
pub(crate) proof fn sim_sc(
    c: CompiledView,
    w: WorkView,
    env: Env,
    f: Framing,
    e: Expr,
    want: Native,
    hint: Option<Numeric>,
    d: nat,
    world: World,
    m: Machine,
) -> (n: nat)
    requires
        sc(env, e, want, hint),
        abreast(c, w, env, f, world, m),
        sees(c, expr_made(w, e, want).0),
        talks(e) ==> m.line.len() == 0,
        meaning(d, world, e, hint).1 is Ok,
    ensures
        evaluated(
            w,
            expr_made(w, e, want).0,
            expr_made(w, e, want).1,
            world,
            meaning(d, world, e, hint).0,
            m,
            steps(c, m, n),
            want,
            meaning(d, world, e, hint).1->Ok_0,
        ),
    decreases d, e, 3nat,
{
    let (wf, r) = expr_made(w, e, want);
    let out = meaning(d, world, e, hint);
    match e.kind {
        ExprKind::Math(inner) => {
            math_parts(w, e, want);
            assert(meaning(d, world, e, hint) == meaning(d, world, *inner, hint)) by {
                reveal(meaning);
            }
            sim_sc(c, w, env, f, *inner, want, hint, d, world, m)
        },
        ExprKind::Number(t) => {
            leaf_parts(w, e, want);
            assert(out == (world, Ok::<Val, StopView>(crate::eval::numeric::literal_meaning(t@, hint)))) by {
                reveal(meaning);
            }
            let n = run_literal(c, w, t@, want, hint, m);
            lemma_ran_passed(w, wf, m, steps(c, m, n));
            n
        },
        ExprKind::Literal(t) => {
            leaf_parts(w, e, want);
            assert(out == (world, Ok::<Val, StopView>(crate::eval::numeric::literal_meaning(t@, hint)))) by {
                reveal(meaning);
            }
            let n = run_literal(c, w, t@, want, hint, m);
            lemma_ran_passed(w, wf, m, steps(c, m, n));
            n
        },
        ExprKind::Str(t) => {
            leaf_parts(w, e, want);
            assert(out == (world, Ok::<Val, StopView>(Val::Str(t@)))) by {
                reveal(meaning);
            }
            run_text(c, w, t@, m);
            lemma_ran_passed(w, wf, m, steps(c, m, 1));
            1
        },
        ExprKind::Ref { .. } => {
            let n = run_name(c, w, env, f, e, want, hint, d, world, m);
            lemma_ran_passed(w, wf, m, steps(c, m, n));
            n
        },
        ExprKind::Unary { .. } => sim_unary(c, w, env, f, e, want, hint, d, world, m),
        ExprKind::Binary { .. } => sim_binary(c, w, env, f, e, want, hint, d, world, m),
        ExprKind::Call { .. } => sim_call(c, w, env, f, e, want, hint, d, world, m),
        ExprKind::If(_) => sim_if_value(c, w, env, f, e, want, hint, d, world, m),
        _ => 0,
    }
}

#[verifier::spinoff_prover]
proof fn sim_unary(c: CompiledView, w: WorkView, env: Env, f: Framing, e: Expr, want: Native, hint: Option<Numeric>, d: nat, world: World, m: Machine) -> (n: nat)
    requires
        e.kind is Unary,
        sc(env, e, want, hint),
        abreast(c, w, env, f, world, m),
        sees(c, expr_made(w, e, want).0),
        talks(e) ==> m.line.len() == 0,
        meaning(d, world, e, hint).1 is Ok,
    ensures
        evaluated(
            w,
            expr_made(w, e, want).0,
            expr_made(w, e, want).1,
            world,
            meaning(d, world, e, hint).0,
            m,
            steps(c, m, n),
            want,
            meaning(d, world, e, hint).1->Ok_0,
        ),
    decreases d, e, 2nat,
{
    let (wf, r) = expr_made(w, e, want);
    let op = e.kind->Unary_op;
    let operand = *e.kind->Unary_operand;
    unary_meaning(d, world, e, hint);
    unary_parts(w, env, e, want);
    let x = meaning(d, world, operand, hint).1->Ok_0;
    let world1 = meaning(d, world, operand, hint).0;
    if op == UnOp::Not {
        let (w1, v) = expr_made(w, operand, Native::Bool);
        sc_quiet(w, env, operand, Native::Bool, hint);
        lemma_sees_put(c, w1, Inst::Not(v.at));
        let n = sim_sc(c, w, env, f, operand, Native::Bool, hint, d, world, m);
        let m1 = steps(c, m, n);
        one_meaning(world1, op, x, e.span, hint);
        run_value(c, w1, m1, Inst::Not(v.at), Datum::Bit(!x->Bool_0));
        lemma_steps_add(c, m, n, 1);
        let m2 = steps(c, m, n + 1);
        lemma_ran_passed(w1, wf, m1, m2);
        lemma_passed_then(w, w1, wf, m, m1, m2);
        n + 1
    } else {
        let held = nat_of(env, operand);
        let way = unary_way(op, held, bare(operand));
        let k = unary_wants(way, held);
        let (w1, v) = expr_made(w, operand, k);
        sc_quiet(w, env, operand, k, hint);
        sign_quiet(w1, op, way, v, want);
        lemma_sees_before(c, w1, wf);
        let n = sim_sc(c, w, env, f, operand, k, hint, d, world, m);
        let m1 = steps(c, m, n);
        let j = run_sign(c, w1, m1, op, way, v, want, x, world1, e.span, hint);
        lemma_steps_add(c, m, n, j);
        let m2 = steps(c, m, n + j);
        lemma_ran_passed(w1, wf, m1, m2);
        lemma_passed_then(w, w1, wf, m, m1, m2);
        n + j
    }
}

#[verifier::spinoff_prover]
proof fn sim_binary(c: CompiledView, w: WorkView, env: Env, f: Framing, e: Expr, want: Native, hint: Option<Numeric>, d: nat, world: World, m: Machine) -> (n: nat)
    requires
        e.kind is Binary,
        sc(env, e, want, hint),
        abreast(c, w, env, f, world, m),
        sees(c, expr_made(w, e, want).0),
        talks(e) ==> m.line.len() == 0,
        meaning(d, world, e, hint).1 is Ok,
    ensures
        evaluated(
            w,
            expr_made(w, e, want).0,
            expr_made(w, e, want).1,
            world,
            meaning(d, world, e, hint).0,
            m,
            steps(c, m, n),
            want,
            meaning(d, world, e, hint).1->Ok_0,
        ),
    decreases d, e, 2nat,
{
    let (wf, r) = expr_made(w, e, want);
    let op = e.kind->Binary_op;
    let lhs = *e.kind->Binary_lhs;
    let rhs = *e.kind->Binary_rhs;
    let way = the_way(env, e, want);
    let k = way_native(way);
    let (w1, a) = expr_made(w, lhs, k);
    let (w2, b) = expr_made(w1, rhs, k);
    sc_quiet(w, env, lhs, k, hint);
    lemma_attuned(w, w1, env);
    sc_quiet(w1, env, rhs, k, hint);
    operator_quiet(w2, op, way, a, b, want, hint, env.digits);
    binary_parts(w, env, e, want);
    operator_parts(w2, op, way, a, b, want);
    lemma_sees_before(c, w2, wf);
    lemma_sees_before(c, w1, w2);
    binary_meaning(d, world, e, hint);
    let ra = meaning(d, world, lhs, hint);
    let rb = meaning(d, ra.0, rhs, hint);
    let n1 = sim_sc(c, w, env, f, lhs, k, hint, d, world, m);
    let m1 = steps(c, m, n1);
    lemma_abreast_then(c, w, w1, env, f, world, ra.0, m, m1);
    let n2 = sim_sc(c, w1, env, f, rhs, k, hint, d, ra.0, m1);
    lemma_steps_add(c, m, n1, n2);
    let m2 = steps(c, m, n1 + n2);
    lemma_passed_then(w, w1, w2, m, m1, m2);
    assert(reg(top(m2), a.at) == reg(top(m1), a.at));
    let n3 = run_operator(c, w2, m2, op, way, a, b, want, ra.1->Ok_0, rb.1->Ok_0, rb.0, e.span, hint);
    lemma_steps_add(c, m, n1 + n2, n3);
    let m3 = steps(c, m, n1 + n2 + n3);
    lemma_ran_passed(w2, wf, m2, m3);
    lemma_passed_then(w, w2, wf, m, m2, m3);
    n1 + n2 + n3
}

#[verifier::spinoff_prover]
proof fn if_meaning(d: nat, world: World, e: Expr, hint: Option<Numeric>)
    requires
        e.kind is If,
        meaning(d, world, e, hint).1 is Ok,
    ensures
        ({
            let r = does_arms(d, world, e.kind->If_0, 0);
            &&& r.1 is Ok
            &&& r.1->Ok_0 matches FlowView::Handback(v) ==> meaning(d, world, e, hint) == (r.0, Ok::<Val, StopView>(v))
        }),
{
    reveal(meaning);
    reveal(does_arms);
}

/// What an arm that hands back at once comes to.
#[verifier::spinoff_prover]
proof fn arm_meaning(d: nat, world: World, body: Vec<Stmt>)
    requires
        body@.len() == 1,
        body@[0] is Handback,
        does_scoped(d, world, body).1 is Ok,
    ensures
        ({
            let r = meaning(d, opened(world), body@[0]->Handback_value, None);
            &&& r.1 is Ok
            &&& does_scoped(d, world, body) == (
                closed_scope(r.0),
                Ok::<FlowView, StopView>(FlowView::Handback(r.1->Ok_0)),
            )
        }),
{
    does_scoped_parts(d, world, body);
    does_block_next(d, opened(world), body, 0);
    does_handback(d, opened(world), body@[0]);
    does_block_left(d, opened(world), body, 0);
}

/// Where two machines stand does not matter to what was kept between them.
proof fn lemma_kept_at(n: int, n1: int, m: Machine, x: int, m1: Machine, y: int)
    requires
        n <= n1,
        keeps_below(n1, top(at(m, x)), top(m1)),
    ensures
        keeps_below(n, top(m), top(at(m1, y))),
{
    let a = at(m, x);
    let b = at(m1, y);
    assert forall|z: usize| z < n implies #[trigger] reg(top(b), z) == reg(top(m), z) by {
        assert(reg(top(m1), z) == reg(top(a), z));
    }
    assert forall|z: int, k: int| 0 <= z < n implies #[trigger] slot(top(b).slots, z, k) == slot(top(m).slots, z, k) by {
        assert(slot(top(m1).slots, z, k) == slot(top(a).slots, z, k));
    }
}

/// The arms of a conditional used for its value, to where they meet.
#[verifier::spinoff_prover]
#[verifier::rlimit(60)]
proof fn sim_value_arms(
    c: CompiledView,
    w: WorkView,
    env: Env,
    f: Framing,
    chain: IfChain,
    i: nat,
    target: usize,
    want: Native,
    merge: usize,
    d: nat,
    world: World,
    m: Machine,
    j: int,
    n0: int,
) -> (n: nat)
    requires
        single(want),
        sc_arms(env, chain, i, want),
        abreast(c, w, env, f, world, m),
        m.line.len() == 0,
        sees(c, value_arms(w, chain, i, target, want, merge)),
        does_arms(d, world, chain, i).1 is Ok,
        merge < c.main.code.len(),
        c.main.code[merge as int] is Block,
        0 <= j < c.main.code.len(),
        c.main.code[j] == Inst::At(merge),
        0 <= n0 <= target < w.code.len(),
    ensures
        ({
            let r = does_arms(d, world, chain, i);
            let m1 = steps(c, m, n);
            &&& r.1->Ok_0 matches FlowView::Handback(v) && rep(slot(top(m1).slots, target as int, 0), v, want)
            &&& moved_on(world, r.0)
            &&& running(m1)
            &&& top(m1).pc == j
            &&& top(m1).given == top(m).given
            &&& m1 == (Machine { lines: r.0.lines, heap: m1.heap, ..with(m, top(m1)) })
            &&& heap_grown(m.heap, m1.heap)
            &&& keeps_below(n0, top(m), top(m1))
        }),
    decreases d, chain, chain.arms@.len() - i,
{
    let arm = chain.arms@[i as int];
    let value = arm.body@[0]->Handback_value;
    value_arm_next(w, env, chain, i, target, want, merge);
    let p = w.code.len() as int;
    let body = p as usize;
    let next = (p + 1) as usize;
    let wn = value_left(w, arm.condition, value, target, want, merge);
    let wi = value_entered(w, arm.condition);
    let w0 = value_inside(wi, target, want, merge);
    let (w1, r) = expr_made(w0, value, want);
    let wk = kept(w1, r, want);
    let all = value_arms(w, chain, i, target, want, merge);
    if arm.condition is Some {
        lemma_attuned(w, wn, env);
        arms_quiet(wn, env, chain, i + 1, target, want, merge);
    } else {
        arms_end(wn, chain, i + 1, target, want, merge);
    }
    lemma_extended_then(wn.code, all.code, c.main.code);
    lemma_extended_then(wn.texts, all.texts, c.main.texts);
    let code = c.main.code;
    let l = wk.code.len() as int;
    assert(extended(wk.code, wn.code));
    lemma_extended_then(wk.code, wn.code, code);
    assert(sees(c, wk));
    lemma_sees_before(c, w1, wk);
    lemma_sees_before(c, w0, w1);
    assert(sees(c, wi));
    assert(wn.code[l] == (Inst::Store { into: target, value: r.at }) && wn.code[l + 1] == Inst::Jump(merge) && wn.code[l + 2]
        == Inst::At(next));
    assert(code[l] == wn.code[l] && code[l + 1] == wn.code[l + 1] && code[l + 2] == wn.code[l + 2]);
    let w2 = put(put(w, Inst::Block), Inst::Block);
    let q = wi.code.len() as int;
    assert(wi.code[q - 1] == Inst::At(body));
    lemma_code(c, wi, q - 1);
    assert(wi.code[p] == Inst::Block && wi.code[p + 1] == Inst::Block) by {
        assert(w2.code[p] == Inst::Block && w2.code[p + 1] == Inst::Block);
        if let Some(cond) = arm.condition {
            let x = expr_made(w2, cond, Native::Bool).0;
            assert(x.code[p] == w2.code[p] && x.code[p + 1] == w2.code[p + 1]);
        }
    }
    lemma_code(c, wi, p);
    lemma_code(c, wi, p + 1);
    // The two blocks.
    run_at(c, m);
    let a1 = at(m, p + 1);
    run_at(c, a1);
    lemma_steps_add(c, m, 1, 1);
    let m0 = at(m, p + 2);
    assert(at(a1, p + 2) == m0);
    let frames = seen(world.frames, f);
    lemma_still_mirrors(w, w2, frames, m, m0);
    does_arms_next(d, world, chain, i);
    // The condition.
    let (k1, world1, m1, taken) = match arm.condition {
        Some(cond) => {
            let (x, test) = expr_made(w2, cond, Native::Bool);
            let fork = Inst::Fork { test: test.at, yes: body, no: next };
            assert(wi == put(put(x, fork), Inst::At(body)));
            lemma_sees_put(c, put(x, fork), Inst::At(body));
            lemma_sees_put(c, x, fork);
            assert(wi.code[x.code.len() as int] == fork);
            lemma_code(c, wi, x.code.len() as int);
            assert(abreast(c, w2, env, f, world, m0));
            let k = sim_sc(c, w2, env, f, cond, Native::Bool, None, d, world, m0);
            let mc = steps(c, m0, k);
            let rc = meaning(d, world, cond, None);
            lemma_steps_add(c, m, 2, k);
            let bit = rc.1->Ok_0->Bool_0;
            lemma_kept_at(p, p + 2, m, p + 2, mc, q - 1);
            lemma_kept_at(p, p + 2, m, p + 2, mc, l + 2);
            if bit {
                run_to(c, mc, body, q - 1);
                lemma_steps_add(c, m, 2 + k, 1);
                (2 + k + 1, rc.0, at(mc, q - 1), true)
            } else {
                run_to(c, mc, next, l + 2);
                lemma_steps_add(c, m, 2 + k, 1);
                (2 + k + 1, rc.0, at(mc, l + 2), false)
            }
        },
        None => {
            assert(wi == put(put(w2, Inst::Jump(body)), Inst::At(body)));
            assert(wi.code[p + 2] == Inst::Jump(body));
            lemma_code(c, wi, p + 2);
            run_to(c, m0, body, q - 1);
            lemma_steps_add(c, m, 2, 1);
            (3nat, world, at(m0, q - 1), true)
        },
    };
    assert(steps(c, m, k1) == m1);
    assert(moved_on(world, world1));
    assert(keeps_below(p, top(m), top(m1)));
    assert(m1 == (Machine { lines: world1.lines, heap: m1.heap, ..with(m, top(m1)) }) && heap_grown(m.heap, m1.heap));
    run_at(c, m1);
    lemma_steps_add(c, m, k1, 1);
    let m2 = at(m1, top(m1).pc + 1);
    lemma_kept_at(p, p, m, top(m).pc, m1, top(m1).pc + 1);
    if taken {
        lemma_still_mirrors(w, wi, frames, m, m2);
        arm_meaning(d, world1, arm.body);
        let env0 = Env { s: env.s.push(Map::empty()), ..env };
        let world2 = opened(world1);
        lemma_seen_opened(world1, f);
        let wh = with_handback(wi, Handback::Store { slot: target, native: want, merge });
        lemma_still_mirrors(wi, wh, frames, m2, m2);
        lemma_opens(wh, frames, m2, Set::empty(), Set::empty());
        assert(abreast(c, w0, env0, f, world2, m2));
        let k2 = sim_sc(c, w0, env0, f, value, want, None, d, world2, m2);
        let m3 = steps(c, m2, k2);
        lemma_steps_add(c, m, k1 + 1, k2);
        let rv = meaning(d, world2, value, None);
        let v = rv.1->Ok_0;
        let k3 = run_kept(c, w1, m3, r, want, v);
        let m4 = steps(c, m3, k3);
        lemma_steps_add(c, m, k1 + 1 + k2, k3);
        assert(reg(top(m4), r.at) == reg(top(m3), r.at));
        let act = Activation {
            pc: l + 1,
            slots: top(m4).slots.insert((target as int, 0), reg(top(m4), r.at)),
            ..top(m4)
        };
        lemma_does(c, m4, code[l], act);
        lemma_steps_add(c, m, k1 + 1 + k2 + k3, 1);
        let m5 = with(m4, act);
        run_to(c, m5, merge, j);
        lemma_steps_add(c, m, k1 + 1 + k2 + k3 + 1, 1);
        let m6 = at(m5, j);
        assert(m6.calls =~= seq![top(m6)]);
        assert forall|z: usize| z < n0 implies #[trigger] reg(top(m6), z) == reg(top(m), z) by {
            assert(reg(top(m4), z) == reg(top(m3), z));
            assert(reg(top(m3), z) == reg(top(m2), z));
            assert(reg(top(m2), z) == reg(top(m), z));
        }
        assert forall|z: int, y: int| 0 <= z < n0 implies #[trigger] slot(top(m6).slots, z, y) == slot(top(m).slots, z, y) by {
            assert(slot(top(m4).slots, z, y) == slot(top(m3).slots, z, y));
            assert(slot(top(m3).slots, z, y) == slot(top(m2).slots, z, y));
            assert(slot(top(m2).slots, z, y) == slot(top(m).slots, z, y));
        }
        assert(closed_scope(rv.0).frames =~= world.frames);
        k1 + 1 + k2 + k3 + 1 + 1
    } else {
        lemma_still_mirrors(w, wn, frames, m, m2);
        assert(abreast(c, wn, env, f, world1, m2));
        let k2 = sim_value_arms(c, wn, env, f, chain, i + 1, target, want, merge, d, world1, m2, j, n0);
        lemma_steps_add(c, m, k1 + 1, k2);
        let m3 = steps(c, m2, k2);
        assert forall|z: usize| z < n0 implies #[trigger] reg(top(m3), z) == reg(top(m), z) by {
            assert(reg(top(m3), z) == reg(top(m2), z));
            assert(reg(top(m2), z) == reg(top(m), z));
        }
        assert forall|z: int, y: int| 0 <= z < n0 implies #[trigger] slot(top(m3).slots, z, y) == slot(top(m).slots, z, y) by {
            assert(slot(top(m3).slots, z, y) == slot(top(m2).slots, z, y));
            assert(slot(top(m2).slots, z, y) == slot(top(m).slots, z, y));
        }
        k1 + 1 + k2
    }
}

#[verifier::spinoff_prover]
#[verifier::rlimit(30)]
proof fn sim_if_value(c: CompiledView, w: WorkView, env: Env, f: Framing, e: Expr, want: Native, hint: Option<Numeric>, d: nat, world: World, m: Machine) -> (n: nat)
    requires
        e.kind is If,
        sc(env, e, want, hint),
        abreast(c, w, env, f, world, m),
        sees(c, expr_made(w, e, want).0),
        m.line.len() == 0,
        meaning(d, world, e, hint).1 is Ok,
    ensures
        evaluated(
            w,
            expr_made(w, e, want).0,
            expr_made(w, e, want).1,
            world,
            meaning(d, world, e, hint).0,
            m,
            steps(c, m, n),
            want,
            meaning(d, world, e, hint).1->Ok_0,
        ),
    decreases d, e, 2nat,
{
    let chain = e.kind->If_0;
    if_value_parts(w, e, want);
    if_meaning(d, world, e, hint);
    sc_quiet(w, env, e, want, hint);
    let (wf, r) = expr_made(w, e, want);
    let p = w.code.len() as int;
    let target = p as usize;
    let w1 = put(w, Inst::Slot(kind_of(want)));
    let merge = (p + 1) as usize;
    let w2 = put(w1, Inst::Block);
    lemma_attuned(w, w2, env);
    arms_quiet(w2, env, chain, 0, target, want, merge);
    let w3 = value_arms(w2, chain, 0, target, want, merge);
    let l = w3.code.len() as int;
    let w4 = put(put(w3, Inst::Jump(merge)), Inst::At(merge));
    let load = Inst::Load { kind: kind_of(want), from: target };
    assert(wf == put(w4, load));
    lemma_sees_put(c, w4, load);
    lemma_sees_put(c, put(w3, Inst::Jump(merge)), Inst::At(merge));
    lemma_sees_put(c, w3, Inst::Jump(merge));
    lemma_extended_then(w2.code, w3.code, c.main.code);
    lemma_extended_then(w2.texts, w3.texts, c.main.texts);
    assert(sees(c, w2));
    lemma_sees_put(c, w1, Inst::Block);
    assert(w4.code[l + 1] == Inst::At(merge));
    lemma_code(c, w4, l + 1);
    assert(wf.code[l + 2] == load);
    lemma_code(c, wf, l + 2);
    assert(w2.code[p + 1] == Inst::Block);
    lemma_code(c, w2, p + 1);
    run_value(c, w, m, Inst::Slot(kind_of(want)), Datum::Slot(p));
    let m1 = steps(c, m, 1);
    run_at(c, m1);
    lemma_steps_add(c, m, 1, 1);
    let m2 = at(m1, p + 2);
    let frames = seen(world.frames, f);
    lemma_still_mirrors(w, w2, frames, m, m2);
    assert(abreast(c, w2, env, f, world, m2));
    let k = sim_value_arms(c, w2, env, f, chain, 0, target, want, merge, d, world, m2, l + 1, p);
    let m3 = steps(c, m2, k);
    lemma_steps_add(c, m, 2, k);
    run_at(c, m3);
    lemma_steps_add(c, m, 2 + k, 1);
    let m4 = at(m3, l + 2);
    let x = slot(top(m4).slots, p, 0);
    run_one(c, m4, x);
    lemma_steps_add(c, m, 2 + k + 1, 1);
    let m5 = holding(m4, x);
    assert(m5.calls =~= seq![top(m5)]);
    assert(reg(top(m5), r.at) == x);
    assert forall|z: usize| z < p implies #[trigger] reg(top(m5), z) == reg(top(m), z) by {
        assert(reg(top(m3), z) == reg(top(m2), z));
        assert(reg(top(m1), z) == reg(top(m), z));
    }
    assert forall|z: int, y: int| 0 <= z < p implies #[trigger] slot(top(m5).slots, z, y) == slot(top(m).slots, z, y) by {
        assert(slot(top(m3).slots, z, y) == slot(top(m2).slots, z, y));
        assert(slot(top(m1).slots, z, y) == slot(top(m).slots, z, y));
    }
    2 + k + 1 + 1
}

/// The arguments of a call.
#[verifier::spinoff_prover]
proof fn sim_args(
    c: CompiledView,
    w: WorkView,
    env: Env,
    f: Framing,
    args: Vec<Expr>,
    k: nat,
    i: int,
    acc: Seq<Operand>,
    vals: Seq<Val>,
    d: nat,
    world: World,
    m: Machine,
) -> (n: nat)
    requires
        callable(env, i),
        sc_args(env, args, k, i),
        k <= args@.len(),
        acc.len() == k,
        vals.len() == k,
        abreast(c, w, env, f, world, m),
        sees(c, args_made(w, args, k, env.fns[i].params, true, acc).0),
        m.line.len() == 0,
        forall|x: int| 0 <= x < k ==> (#[trigger] acc[x]).kind == kind_of(env.fns[i].params[x]) && acc[x].at < w.code.len() && rep(
            reg(top(m), acc[x].at),
            vals[x],
            env.fns[i].params[x],
        ),
        does_args(d, world, env.functions[i], args, k, vals).1 is Ok,
    ensures
        ({
            let (w1, vs) = args_made(w, args, k, env.fns[i].params, true, acc);
            let r = does_args(d, world, env.functions[i], args, k, vals);
            let m1 = steps(c, m, n);
            &&& passed_on(w, w1, m, m1)
            &&& m1.lines == r.0.lines
            &&& moved_on(world, r.0)
            &&& vs.len() == args@.len()
            &&& r.1->Ok_0.len() == args@.len()
            &&& forall|x: int| 0 <= x < vs.len() ==> (#[trigger] vs[x]).kind == kind_of(env.fns[i].params[x]) && vs[x].at
                < w1.code.len() && rep(reg(top(m1), vs[x].at), r.1->Ok_0[x], env.fns[i].params[x])
        }),
    decreases d, args, args@.len() - k,
{
    args_next(w, args, k, env.fns[i].params, acc);
    does_args_next(d, world, env.functions[i], args, k, vals);
    if k < args@.len() {
        let e = args@[k as int];
        let want = env.fns[i].params[k as int];
        let hint = parameter_context(env.functions[i], k);
        let (w1, v) = expr_made(w, e, want);
        sc_quiet(w, env, e, want, hint);
        lemma_attuned(w, w1, env);
        let acc1 = acc.push(v);
        args_quiet(w1, env, args, k + 1, i, acc1);
        lemma_sees_before(c, w1, args_made(w, args, k, env.fns[i].params, true, acc).0);
        let r = meaning(d, world, e, hint);
        let n1 = sim_sc(c, w, env, f, e, want, hint, d, world, m);
        let m1 = steps(c, m, n1);
        lemma_abreast_then(c, w, w1, env, f, world, r.0, m, m1);
        let vals1 = vals.push(r.1->Ok_0);
        assert forall|x: int| 0 <= x < k + 1 implies (#[trigger] acc1[x]).kind == kind_of(env.fns[i].params[x]) && acc1[x].at
            < w1.code.len() && rep(reg(top(m1), acc1[x].at), vals1[x], env.fns[i].params[x]) by {
            if x < k {
                assert(acc1[x] == acc[x]);
                assert(reg(top(m1), acc[x].at) == reg(top(m), acc[x].at));
            }
        }
        let n2 = sim_args(c, w1, env, f, args, k + 1, i, acc1, vals1, d, r.0, m1);
        lemma_steps_add(c, m, n1, n2);
        lemma_passed_then(w, w1, args_made(w, args, k, env.fns[i].params, true, acc).0, m, m1, steps(c, m, n1 + n2));
        n1 + n2
    } else {
        assert(m.calls =~= seq![top(m)]);
        0
    }
}

/// A call: its arguments, the function, and back.
#[verifier::spinoff_prover]
#[verifier::rlimit(40)]
proof fn sim_invoke(
    c: CompiledView,
    w: WorkView,
    env: Env,
    f: Framing,
    args: Vec<Expr>,
    i: usize,
    given: Option<Kind>,
    d: nat,
    world: World,
    m: Machine,
    out: (World, Result<Val, StopView>),
) -> (n: nat)
    requires
        callable(env, i as int),
        sc_args(env, args, 0, i as int),
        abreast(c, w, env, f, world, m),
        m.line.len() == 0,
        ({
            let (w1, vs) = args_made(w, args, 0, env.fns[i as int].params, true, Seq::empty());
            sees(c, put(with_args(w1, vs, 0), Inst::CallFn { index: i, gives: given }))
        }),
        called_to(d, world, env.functions[i as int], args, out),
    ensures
        ({
            let sig = env.fns[i as int];
            let (w1, vs) = args_made(w, args, 0, sig.params, true, Seq::empty());
            let w2 = with_args(w1, vs, 0);
            let w3 = put(w2, Inst::CallFn { index: i, gives: given });
            let m1 = steps(c, m, n);
            &&& passed_on(w, w3, m, m1)
            &&& m1.lines == out.0.lines
            &&& moved_on(world, out.0)
            &&& w2.code.len() <= usize::MAX
            &&& !(sig.ret is Nothing) ==> rep(reg(top(m1), w2.code.len() as usize), out.1->Ok_0, sig.ret)
        }),
    decreases d, args, args@.len() + 1,
{
    let sig = env.fns[i as int];
    let func = env.functions[i as int];
    let (w1, vs) = args_made(w, args, 0, sig.params, true, Seq::empty());
    let w2 = with_args(w1, vs, 0);
    let call = Inst::CallFn { index: i, gives: given };
    let w3 = put(w2, call);
    args_quiet(w, env, args, 0, i as int, Seq::empty());
    with_args_parts(w1, vs, 0);
    lemma_sees_put(c, w2, call);
    lemma_extended_then(w1.code, w2.code, c.main.code);
    assert(sees(c, w1));
    let a = does_args(d, world, func, args, 0, Seq::empty());
    let vals = a.1->Ok_0;
    let n1 = sim_args(c, w, env, f, args, 0, i as int, Seq::empty(), Seq::empty(), d, world, m);
    let m1 = steps(c, m, n1);
    assert(top(m1).args =~= data(top(m1), vs).take(0));
    run_args(c, w1, m1, vs, 0);
    let n2 = vs.len();
    let given_data = data(top(m1), vs);
    let caller0 = Activation { pc: w2.code.len() as int, args: given_data, ..top(m1) };
    let m2 = with(m1, caller0);
    lemma_steps_add(c, m, n1, n2);
    assert(w3.code[w2.code.len() as int] == call);
    assert(c.main.code[w2.code.len() as int] == call);
    // Into the function.
    let caller = Activation { args: Seq::empty(), ..caller0 };
    let callee = Activation {
        function: None,
        pc: 0,
        regs: Map::empty(),
        slots: Map::empty(),
        args: Seq::empty(),
        given: given_data,
    };
    let mc = recalled(m1, seq![callee]);
    let base = seq![caller];
    let m3 = lifted(mc, i as nat, base);
    assert(function_good(c, env.fns, env.functions, i as int));
    assert(steps(c, m2, 1) == m3) by {
        lemma_one_step(c, m2);
        reveal(stepped);
        assert(m2.calls.last() == caller0);
        assert(m2.calls.drop_last().push(caller).push(Activation { function: Some(i as nat), ..callee }) =~= stacked(
            mc.calls,
            i as nat,
            base,
        ));
    }
    lemma_steps_add(c, m, n1 + n2, 1);
    assert forall|x: int| 0 <= x < vals.len() implies rep(#[trigger] given_data[x], vals[x], sig.params[x]) by {
        assert(vs[x].at < w1.code.len());
    }
    assert(vs.len() <= usize::MAX) by {
        assert(w2.code.len() <= c.main.code.len());
    }
    let dp = program_at(c, i as nat);
    let k = sim_function(c, i as nat, env, (d - 1) as nat, a.0, vals, mc);
    let me = steps(dp, mc, k);
    lemma_lifted(c, i as nat, base, mc, k);
    let m4 = lifted(me, i as nat, base);
    lemma_steps_add(c, m, n1 + n2 + 1, k);
    // And back.
    let act = Activation { function: Some(i as nat), ..top(me) };
    assert(m4.calls =~= seq![caller, act]);
    lemma_one_step(c, m4);
    let x = if sig.ret is Nothing { Datum::Nothing } else { reg(act, dp.main.code[top(me).pc]->Return_0) };
    let m5 = Machine { lines: me.lines, heap: me.heap, ..with(m1, gave(caller, x)->0) };
    assert(stepped(c, m4) == m5) by {
        reveal(stepped);
        assert(m4.calls.last() == act);
        assert(m4.calls.drop_last() =~= seq![caller]);
        assert(seq![caller].drop_last().push(gave(caller, x)->0) =~= seq![gave(caller, x)->0]);
    }
    lemma_steps_add(c, m, n1 + n2 + 1 + k, 1);
    lemma_extended_then(w1.code, w2.code, w3.code);
    assert(quiet(w1, w3));
    assert(passed_on(w1, w3, m1, m5)) by {
        assert(m5.calls =~= seq![top(m5)]);
        assert forall|z: usize| z < w1.code.len() implies #[trigger] reg(top(m5), z) == reg(top(m1), z) by {}
    }
    lemma_passed_then(w, w1, w3, m, m1, m5);
    n1 + n2 + 1 + k + 1
}

#[verifier::spinoff_prover]
proof fn sim_call(c: CompiledView, w: WorkView, env: Env, f: Framing, e: Expr, want: Native, hint: Option<Numeric>, d: nat, world: World, m: Machine) -> (n: nat)
    requires
        e.kind is Call,
        sc(env, e, want, hint),
        abreast(c, w, env, f, world, m),
        sees(c, expr_made(w, e, want).0),
        m.line.len() == 0,
        meaning(d, world, e, hint).1 is Ok,
    ensures
        evaluated(
            w,
            expr_made(w, e, want).0,
            expr_made(w, e, want).1,
            world,
            meaning(d, world, e, hint).0,
            m,
            steps(c, m, n),
            want,
            meaning(d, world, e, hint).1->Ok_0,
        ),
    decreases d, e, 2nat,
{
    let args = e.kind->Call_args;
    let name = e.kind->Call_name@;
    let i = function_named(env.fns, name, env.fns.len())->0;
    let sig = env.fns[i as int];
    let out = meaning(d, world, e, hint);
    assert forall|k: int| 0 <= k < env.functions.len() implies (#[trigger] env.fns[k]).name == env.functions[k].name@ by {
        assert(function_good(c, env.fns, env.functions, k));
    }
    lemma_same_function(env.fns, env.functions, name, env.fns.len());
    call_meaning(d, world, e, hint, i as int);
    call_parts(w, env, e, want, i as int);
    let (w1, vs) = args_made(w, args, 0, sig.params, true, Seq::empty());
    let w2 = with_args(w1, vs, 0);
    let call = Inst::CallFn { index: i, gives: ret_kind(sig.ret) };
    let (w3, v) = made(w2, call, kind_of(sig.ret));
    let wf = expr_made(w, e, want).0;
    crate::codegen::exactly::converted_quiet(w3, v, sig.ret, want);
    lemma_sees_before(c, w3, wf);
    let n1 = sim_invoke(c, w, env, f, args, i, ret_kind(sig.ret), d, world, m, out);
    let m1 = steps(c, m, n1);
    let n2 = run_converted(c, w3, m1, v, sig.ret, want, out.1->Ok_0);
    lemma_steps_add(c, m, n1, n2);
    let m2 = steps(c, m, n1 + n2);
    lemma_ran_passed(w3, wf, m1, m2);
    lemma_passed_then(w, w3, wf, m, m1, m2);
    n1 + n2
}

/// A function, from its first operation to where it returns.
#[verifier::spinoff_prover]
#[verifier::rlimit(40)]
proof fn sim_function(c: CompiledView, i: nat, env0: Env, d: nat, world: World, vs: Seq<Val>, mc: Machine) -> (n: nat)
    requires
        good(c, env0.fns, env0.functions),
        i < env0.functions.len(),
        world.functions == env0.functions,
        mc.calls.len() == 1,
        running(mc),
        top(mc).pc == 0,
        mc.lines == world.lines,
        mc.line.len() == 0,
        vs.len() == env0.fns[i as int].params.len(),
        vs.len() <= usize::MAX,
        top(mc).given.len() == vs.len(),
        forall|k: int| 0 <= k < vs.len() ==> rep(#[trigger] top(mc).given[k], vs[k], env0.fns[i as int].params[k]),
        ({
            let func = env0.functions[i as int];
            does_block(d, with_parameters(opened(world), func, vs, parameters_given(func, vs)), func.body, 0).1 is Ok
        }),
    ensures
        ({
            let func = env0.functions[i as int];
            let sig = env0.fns[i as int];
            let r = does_block(d, with_parameters(opened(world), func, vs, parameters_given(func, vs)), func.body, 0);
            let dp = program_at(c, i);
            let me = steps(dp, mc, n);
            &&& running(me)
            &&& me == (Machine { lines: me.lines, heap: me.heap, ..with(mc, top(me)) })
            &&& heap_grown(mc.heap, me.heap)
            &&& me.lines == closed_scope(r.0).lines
            &&& moved_on(world, closed_scope(r.0))
            &&& 0 <= top(me).pc < dp.main.code.len()
            &&& sig.ret is Nothing ==> dp.main.code[top(me).pc] == Inst::ReturnNothing
            &&& !(sig.ret is Nothing) ==> r.1->Ok_0 is Handback && (dp.main.code[top(me).pc] matches Inst::Return(x) && rep(
                reg(top(me), x),
                r.1->Ok_0->Handback_0,
                sig.ret,
            ))
        }),
    decreases d, env0.functions[i as int].body, env0.functions[i as int].body@.len() + 3,
{
    let func = env0.functions[i as int];
    let sig = env0.fns[i as int];
    let dp = program_at(c, i);
    assert(function_good(c, env0.fns, env0.functions, i as int));
    lemma_good_at(c, env0.fns, env0.functions, i);
    let n = func.params@.len();
    let world0 = with_parameters(opened(world), func, vs, n);
    assert(parameters_given(func, vs) == n);
    let r = does_block(d, world0, func.body, 0);
    let base = world.frames.len();
    // The lowering of the function.
    let w0 = with_frame(fresh(env0.fns, sig.ret, false));
    let penv = param_env(env0.fns, env0.functions, func, sig, 0);
    assert(attuned(w0, penv) && w0.open && w0.code.len() == 0 && w0.texts.len() == 0 && w0.handbacks.len() == 0 && !w0.top
        && w0.ret == sig.ret && w0.temps.len() == 0) by {
        reveal(with_frame);
        assert(w0.frames =~= seq![Seq::empty()]);
    }
    let w1 = params_made(w0, func.params@, sig.params, 0);
    params_grow(w0, env0, func, sig, 0);
    let wb = with_owned(with_frame(w1), 1);
    let env = inner(param_env(env0.fns, env0.functions, func, sig, n));
    crate::codegen::standing::lemma_with_frame_fits(w1, param_env(env0.fns, env0.functions, func, sig, n).s);
    assert(wb == (WorkView { frames: w1.frames.push(Seq::empty()), owned_from: 1, ..w1 })) by {
        reveal(with_frame);
    }
    assert(attuned(wb, env));
    let bars = body_bars(func, sig);
    let (w2, left) = block_made(wb, func.body, 0);
    let wf = function_made(env0.fns, func, sig);
    function_parts(env0.fns, func, sig);
    lemma_block(wb, func.body, 0);
    assert(dp.main.code == wf.code && dp.main.texts == wf.texts);
    assert(sees(dp, wf));
    let env1 = calm_block(wb, env, func.body, 0, bars);
    if sig.ret is Nothing {
        never_left(wb, env, func.body, 0, bars);
        scope_quiet(w2, env1.s);
        lemma_sees_put(dp, scope_released(w2), Inst::ReturnNothing);
        lemma_sees_before(dp, w2, scope_released(w2));
    } else if !left {
        scope_quiet(w2, env1.s);
        default_grows(scope_released(w2), sig.ret);
        let ws = scope_released(w2);
        lemma_extended_then(ws.code, wf.code, dp.main.code);
        lemma_extended_then(ws.texts, wf.texts, dp.main.texts);
        lemma_sees_before(dp, w2, ws);
    }
    assert(sees(dp, w2));
    lemma_sees_stride(dp, wb, w2);
    assert(sees(dp, w1));
    // Its parameters.
    let f0 = Framing { base, params: Set::empty(), split: false, floor: mc.heap.len() };
    let start = seq![with_parameters(opened(world), func, vs, 0).frames[base as int]];
    assert(mirrors(w0, start, mc)) by {
        reveal(with_frame);
        assert(w0.frames =~= seq![Seq::empty()]);
    }
    let n1 = sim_params(dp, w0, env0, func, sig, 0, opened(world), vs, mc);
    let m1 = steps(dp, mc, n1);
    lemma_with_parameters(opened(world), func, vs, n);
    let own = world0.frames[base as int];
    // Its body.
    let f = Framing { base, params: param_names(func), split: true, floor: mc.heap.len() };
    assert(opened(world).frames[base as int].dom() =~= Set::<Seq<char>>::empty());
    assert(own.restrict(f.params) =~= own);
    assert(own.remove_keys(f.params) =~= Map::<Seq<char>, Val>::empty());
    assert(seen(world0.frames, f) =~= seq![own].push(Map::empty()));
    lemma_opens(w1, seq![own], m1, Set::empty(), Set::empty());
    assert(mirrors(wb, seen(world0.frames, f), m1)) by {
        lemma_still_mirrors(with_frame(w1), wb, seq![own].push(Map::empty()), m1, m1);
    }
    assert(no_older(w0, mc, mc.heap.len())) by {
        reveal(with_frame);
        assert(w0.frames =~= seq![Seq::empty()]);
    }
    assert(no_older(with_frame(w1), m1, f.floor));
    assert(ready(dp, wb, env, f, bars, Set::empty(), world0, m1));
    let n2 = sim_block(dp, wb, env, f, func.body, 0, bars, Set::empty(), d, world0, m1);
    let m2 = steps(dp, m1, n2);
    lemma_steps_add(dp, mc, n1, n2);
    assert(closed_scope(r.0).frames =~= world.frames) by {
        assert(opened(world).frames.take(base as int) =~= world.frames);
        assert(r.0.frames.take(base as int) =~= r.0.frames.drop_last());
    }
    if sig.ret is Nothing {
        let n3 = run_scope(dp, w2, env1.s, seen(r.0.frames, f), m2);
        lemma_steps_add(dp, mc, n1 + n2, n3);
        lemma_freed_spared(f, w2, m2, steps(dp, m2, n3), w2.frames.len() - 1);
        let ws = scope_released(w2);
        assert(wf.code[ws.code.len() as int] == Inst::ReturnNothing);
        lemma_code(dp, wf, ws.code.len() as int);
        n1 + n2 + n3
    } else {
        assert(r.1->Ok_0 is Handback) by {
            reveal(does_block);
            flows_back(d, world0, func.body, 0);
        }
        n1 + n2
    }
}

#[verifier::spinoff_prover]
proof fn function_parts(fns: Seq<SigView>, func: FuncDecl, sig: SigView)
    ensures
        ({
            let wb = with_owned(with_frame(params_made(with_frame(fresh(fns, sig.ret, false)), func.params@, sig.params, 0)), 1);
            let (w2, left) = block_made(wb, func.body, 0);
            function_made(fns, func, sig) == (if left {
                w2
            } else {
                crate::codegen::lowering::default_made(scope_released(w2), sig.ret)
            })
        }),
        sig.ret is Nothing ==> forall|w: WorkView|
            #[trigger] crate::codegen::lowering::default_made(w, sig.ret) == put(w, Inst::ReturnNothing),
{
    reveal(function_made);
}

proof fn default_grows(w: WorkView, ret: Native)
    ensures
        extended(w.code, crate::codegen::lowering::default_made(w, ret).code),
        extended(w.texts, crate::codegen::lowering::default_made(w, ret).texts),
{
    reveal(crate::codegen::work::text_made);
}

// ── declarations and changes ────────────────────────────────────────────────

pub(crate) proof fn lemma_level_then(base: nat, a: World, b: World, c: World)
    requires
        same_level(base, a, b),
        same_level(base, b, c),
    ensures
        same_level(base, a, c),
{
}

proof fn lemma_agreed_then(
    w: WorkView,
    w1: WorkView,
    wf: WorkView,
    f: Framing,
    world1: World,
    world2: World,
    m: Machine,
    m1: Machine,
    m2: Machine,
    pc1: int,
    pc: int,
    bars: Bars,
    guard: Set<int>,
)
    requires
        agreed(w, w1, f, world1, m, m1, pc1, bars, guard),
        agreed(w1, wf, f, world2, m1, m2, pc, bars, guard),
    ensures
        agreed(w, wf, f, world2, m, m2, pc, bars, guard),
{
    lemma_went_then(f, w.code.len() as int, w1.code.len() as int, guard, guard, m, m1, m2);
}

/// Behind one statement, the next can run.
proof fn lemma_ready_then(
    c: CompiledView,
    w: WorkView,
    w1: WorkView,
    env: Env,
    env1: Env,
    f: Framing,
    bars: Bars,
    guard: Set<int>,
    world: World,
    world1: World,
    m: Machine,
    m1: Machine,
)
    requires
        ready(c, w, env, f, bars, guard, world, m),
        attuned(w1, env1),
        env1.digits == DEFAULT_DIGITS,
        env1.fns == env.fns,
        env1.functions == env.functions,
        w1.open,
        w1.handbacks == w.handbacks,
        w1.ret == w.ret,
        w1.top == w.top,
        same_level(f.base, world, world1),
        agreed(w, w1, f, world1, m, m1, w1.code.len() as int, bars, guard),
    ensures
        ready(c, w1, env1, f, bars, guard, world1, m1),
{
}

#[verifier::spinoff_prover]
proof fn next_binding(d: nat, world: World, v: VarDecl, i: nat)
    requires
        i < v.bindings@.len(),
        v.bindings@[i as int].value is Some,
        plain_type(v.ty) is Some,
        does_bindings(d, world, v, i).1 is Ok,
    ensures
        ({
            let b = v.bindings@[i as int];
            let r = meaning(d, world, b.value->0, binding_context(v.ty, b.precision));
            &&& r.1 is Ok
            &&& !(r.1->Ok_0 is Array) ==> does_bindings(d, world, v, i) == does_bindings(
                d,
                defined(r.0, b.name@, r.1->Ok_0),
                v,
                i + 1,
            )
        }),
{
    reveal(does_bindings);
    reveal(meaning);
    reveal(summed);
}

pub(crate) proof fn lemma_rep_single(x: Datum, v: Val, n: Native)
    requires
        rep(x, v, n),
    ensures
        !(v is Array),
{
}

#[verifier::spinoff_prover]
#[verifier::rlimit(30)]
proof fn sim_binding(
    c: CompiledView,
    w: WorkView,
    env: Env,
    f: Framing,
    v: VarDecl,
    i: nat,
    bars: Bars,
    guard: Set<int>,
    d: nat,
    world: World,
    m: Machine,
) -> (n: nat)
    requires
        i < v.bindings@.len(),
        binding_ok(env, v, i as int, bars),
        ready(c, w, env, f, bars, guard, world, m),
        sees(c, binding_end(w, v, i)),
        does_bindings(d, world, v, i).1 is Ok,
    ensures
        ({
            let b = v.bindings@[i as int];
            let r = meaning(d, world, b.value->0, binding_context(v.ty, b.precision));
            let world1 = defined(r.0, b.name@, r.1->Ok_0);
            let wf = binding_end(w, v, i);
            let m1 = steps(c, m, n);
            &&& does_bindings(d, world, v, i) == does_bindings(d, world1, v, i + 1)
            &&& same_level(f.base, world, world1)
            &&& agreed(w, wf, f, world1, m, m1, wf.code.len() as int, bars, guard)
        }),
    decreases d, v, v.bindings@.len() - i, 0nat,
{
    let b = v.bindings@[i as int];
    made_binding(w, env, v, i, bars);
    next_binding(d, world, v, i);
    let hint = binding_context(v.ty, b.precision);
    let n = plain_type(v.ty)->0;
    let digits = places_wanted(b.precision, v.ty.precision);
    let w0 = with_digits(w, digits);
    let (w1, r) = expr_made(w0, b.value->0, n);
    let at0 = w1.code.len() as usize;
    let slot_inst = Inst::Slot(kind_of(n));
    let w1s = put(w1, slot_inst);
    let w2 = kept(w1s, r, n);
    let store = Inst::Store { into: at0, value: r.at };
    let w3 = put(w2, store);
    let wf = binding_end(w, v, i);
    assert(sees(c, w3));
    lemma_sees_put(c, w2, store);
    lemma_sees_before(c, w1s, w2);
    lemma_sees_put(c, w1, slot_inst);
    lemma_still_mirrors(w, w0, seen(world.frames, f), m, m);
    assert(abreast(c, w0, placed(env, digits), f, world, m));
    let n1 = sim_sc(c, w0, placed(env, digits), f, b.value->0, n, hint, d, world, m);
    let m1 = steps(c, m, n1);
    let out = meaning(d, world, b.value->0, hint);
    let x = out.1->Ok_0;
    lemma_rep_single(reg(top(m1), r.at), x, n);
    run_value(c, w1, m1, slot_inst, Datum::Slot(w1.code.len() as int));
    lemma_steps_add(c, m, n1, 1);
    let m2 = steps(c, m, n1 + 1);
    assert(reg(top(m2), r.at) == reg(top(m1), r.at));
    let n2 = run_kept(c, w1s, m2, r, n, x);
    lemma_steps_add(c, m, n1 + 1, n2);
    let m3 = steps(c, m, n1 + 1 + n2);
    assert(reg(top(m3), r.at) == reg(top(m2), r.at));
    let a = Activation {
        pc: top(m3).pc + 1,
        slots: top(m3).slots.insert((at0 as int, 0), reg(top(m3), r.at)),
        ..top(m3)
    };
    run_effect(c, w2, m3, store, a);
    lemma_steps_add(c, m, n1 + 1 + n2, 1);
    let m4 = steps(c, m, n1 + 1 + n2 + 1);
    assert(m4 == with(m3, a));
    assert(top(m4) == a);
    assert(wf.frames == declared(w, b.name@, at0, n).frames) by {
        reveal(declared);
    }
    assert forall|k: int| 0 <= k < w.code.len() implies #[trigger] slot(top(m4).slots, k, 0) == slot(top(m).slots, k, 0) by {
        assert(slot(top(m3).slots, k, 0) == slot(top(m2).slots, k, 0));
        assert(slot(top(m2).slots, k, 0) == slot(top(m1).slots, k, 0));
        assert(slot(top(m1).slots, k, 0) == slot(top(m).slots, k, 0));
    }
    lemma_declares(w, wf, seen(world.frames, f), m, m4, b.name@, at0, n, x, bars.fixed, guard);
    lemma_seen_defined(out.0, f, b.name@, x);
    assert forall|k: int| guard.contains(k) implies #[trigger] slot(top(m4).slots, k, 0) == slot(top(m).slots, k, 0) by {}
    assert forall|k: usize| k < w.code.len() implies #[trigger] reg(top(m4), k) == reg(top(m), k) by {
        assert(reg(top(m3), k) == reg(top(m2), k));
        assert(reg(top(m2), k) == reg(top(m1), k));
        assert(reg(top(m1), k) == reg(top(m), k));
    }
    assert(m4.calls =~= seq![top(m4)]);
    n1 + 1 + n2 + 1
}

#[verifier::spinoff_prover]
proof fn sim_bindings(
    c: CompiledView,
    w: WorkView,
    env: Env,
    f: Framing,
    v: VarDecl,
    i: nat,
    bars: Bars,
    guard: Set<int>,
    d: nat,
    world: World,
    m: Machine,
) -> (n: nat)
    requires
        i <= v.bindings@.len(),
        forall|j: int|
            #![trigger v.bindings@[j]]
            0 <= j < v.bindings@.len() ==> binding_ok(bindings_env(env, v, j as nat), v, j, bars),
        ready(c, w, bindings_env(env, v, i), f, bars, guard, world, m),
        sees(c, bindings_made(w, v, i)),
        does_bindings(d, world, v, i).1 is Ok,
    ensures
        ({
            let wf = bindings_made(w, v, i);
            let r = does_bindings(d, world, v, i);
            let m1 = steps(c, m, n);
            &&& r == normally(r.0)
            &&& same_level(f.base, world, r.0)
            &&& agreed(w, wf, f, r.0, m, m1, wf.code.len() as int, bars, guard)
        }),
    decreases d, v, v.bindings@.len() - i, 1nat,
{
    if i < v.bindings@.len() {
        let b = v.bindings@[i as int];
        let env0 = bindings_env(env, v, i);
        made_binding(w, env0, v, i, bars);
        let w1 = binding_end(w, v, i);
        crate::codegen::laws::lemma_bindings(w1, v, i + 1);
        lemma_sees_stride(c, w1, bindings_made(w, v, i));
        let k = sim_binding(c, w, env0, f, v, i, bars, guard, d, world, m);
        let m1 = steps(c, m, k);
        let r = meaning(d, world, b.value->0, binding_context(v.ty, b.precision));
        let world1 = defined(r.0, b.name@, r.1->Ok_0);
        assert(w1.handbacks == w.handbacks && w1.ret == w.ret && w1.top == w.top) by {
            reveal(declared);
        }
        lemma_ready_then(c, w, w1, env0, bindings_env(env, v, i + 1), f, bars, guard, world, world1, m, m1);
        let j = sim_bindings(c, w1, env, f, v, i + 1, bars, guard, d, world1, m1);
        lemma_steps_add(c, m, k, j);
        let wf = bindings_made(w, v, i);
        lemma_agreed_then(
            w,
            w1,
            wf,
            f,
            world1,
            does_bindings(d, world, v, i).0,
            m,
            m1,
            steps(c, m, k + j),
            w1.code.len() as int,
            wf.code.len() as int,
            bars,
            guard,
        );
        k + j
    } else {
        bindings_end(w, v, i);
        assert(does_bindings(d, world, v, i) == normally(world)) by {
            reveal(does_bindings);
        }
        assert(m.calls =~= seq![top(m)]);
        0
    }
}

#[verifier::spinoff_prover]
proof fn next_target(d: nat, world: World, c: ChangeStmt, i: nat)
    requires
        does_targets(d, world, c, i).1 is Ok,
    ensures
        i >= c.targets@.len() ==> does_targets(d, world, c, i) == normally(world),
        i < c.targets@.len() && c.targets@[i as int].selectors@.len() == 0 ==> {
            let t = c.targets@[i as int];
            let r = meaning(d, world, t.value, context_of(c.ty.base@, c.ty.precision));
            &&& r.1 is Ok
            &&& does_targets(d, world, c, i) == does_targets(d, assigned(r.0, t.name@, r.1->Ok_0), c, i + 1)
        },
{
    reveal(does_targets);
    reveal(meaning);
}

/// A value stored in the slot of a name.
#[verifier::spinoff_prover]
#[verifier::rlimit(30)]
proof fn run_change(c: CompiledView, w: WorkView, m: Machine, t: crate::ast::ChangeTarget, at0: usize, n: Native, x: Val) -> (k: nat)
    requires
        single(n),
        sound(c),
        sees(c, target_end(w, t, at0, n)),
        ({
            let (w1, r) = expr_made(w, t.value, n);
            &&& stands(w1, m)
            &&& w1.open
            &&& r.kind == kind_of(n)
            &&& r.at < w1.code.len()
            &&& rep(reg(top(m), r.at), x, n)
            &&& at0 < w.code.len() <= w1.code.len()
        }),
        n is Str ==> (slot(top(m).slots, at0 as int, 0) matches Datum::Text(_, o) && o is None),
    ensures
        ({
            let (w1, r) = expr_made(w, t.value, n);
            let wf = target_end(w, t, at0, n);
            let m1 = steps(c, m, k);
            &&& running(m1)
            &&& top(m1).pc == wf.code.len()
            &&& m1 == with(m, top(m1))
            &&& top(m1).given == top(m).given
            &&& forall|i: usize| i < w1.code.len() ==> #[trigger] reg(top(m1), i) == reg(top(m), i)
            &&& rep(slot(top(m1).slots, at0 as int, 0), x, n)
            &&& forall|i: int| 0 <= i < w1.code.len() && i != at0 ==> #[trigger] slot(top(m1).slots, i, 0) == slot(
                top(m).slots,
                i,
                0,
            )
        }),
{
    let (w1, r) = expr_made(w, t.value, n);
    let store = Inst::Store { into: at0, value: r.at };
    let wf = target_end(w, t, at0, n);
    if n is Str {
        let load = Inst::Load { kind: Kind::Text, from: at0 };
        let (w2, before) = made(w1, load, Kind::Text);
        let w3 = kept(w2, r, n);
        let w4 = put(w3, store);
        kept_quiet(w2, r, n);
        let_go_quiet(w4, before, Native::Str);
        lemma_sees_before(c, w4, wf);
        lemma_sees_put(c, w3, store);
        lemma_sees_before(c, w2, w3);
        run_value(c, w1, m, load, slot(top(m).slots, at0 as int, 0));
        let m1 = steps(c, m, 1);
        assert(reg(top(m1), r.at) == reg(top(m), r.at));
        let k1 = run_kept(c, w2, m1, r, n, x);
        lemma_steps_add(c, m, 1, k1);
        let m2 = steps(c, m, 1 + k1);
        assert(reg(top(m2), r.at) == reg(top(m1), r.at));
        let a = Activation {
            pc: top(m2).pc + 1,
            slots: top(m2).slots.insert((at0 as int, 0), reg(top(m2), r.at)),
            ..top(m2)
        };
        run_effect(c, w3, m2, store, a);
        lemma_steps_add(c, m, 1 + k1, 1);
        let m3 = steps(c, m, 2 + k1);
        assert(m3 == with(m2, a));
        assert(reg(top(m3), before.at) == reg(top(m1), before.at)) by {
            assert(reg(top(m2), before.at) == reg(top(m1), before.at));
        }
        run_let_go(c, w4, m3, before);
        lemma_steps_add(c, m, 2 + k1, 3);
        let m4 = steps(c, m, 5 + k1);
        assert(m4.calls =~= seq![top(m4)]);
        assert forall|i: usize| i < w1.code.len() implies #[trigger] reg(top(m4), i) == reg(top(m), i) by {
            assert(reg(top(m4), i) == reg(top(m3), i));
            assert(reg(top(m2), i) == reg(top(m1), i));
            assert(reg(top(m1), i) == reg(top(m), i));
        }
        assert(slot(top(m4).slots, at0 as int, 0) == slot(top(m3).slots, at0 as int, 0));
        assert forall|i: int| 0 <= i < w1.code.len() && i != at0 implies #[trigger] slot(top(m4).slots, i, 0) == slot(
            top(m).slots,
            i,
            0,
        ) by {
            assert(slot(top(m4).slots, i, 0) == slot(top(m3).slots, i, 0));
            assert(slot(top(m2).slots, i, 0) == slot(top(m1).slots, i, 0));
            assert(slot(top(m1).slots, i, 0) == slot(top(m).slots, i, 0));
        }
        5 + k1
    } else {
        let a = Activation {
            pc: top(m).pc + 1,
            slots: top(m).slots.insert((at0 as int, 0), reg(top(m), r.at)),
            ..top(m)
        };
        run_effect(c, w1, m, store, a);
        let m1 = steps(c, m, 1);
        assert(m1.calls =~= seq![top(m1)]);
        1
    }
}

#[verifier::spinoff_prover]
#[verifier::rlimit(30)]
proof fn sim_targets(
    c: CompiledView,
    w: WorkView,
    env: Env,
    f: Framing,
    ch: ChangeStmt,
    i: nat,
    bars: Bars,
    guard: Set<int>,
    d: nat,
    world: World,
    m: Machine,
) -> (n: nat)
    requires
        native_of(ch.ty, None) is Ok,
        forall|j: int| #![trigger ch.targets@[j]] 0 <= j < ch.targets@.len() ==> target_ok(env, ch, ch.targets@[j], bars),
        ready(c, w, env, f, bars, guard, world, m),
        sees(c, targets_made(w, ch, i)),
        does_targets(d, world, ch, i).1 is Ok,
    ensures
        ({
            let wf = targets_made(w, ch, i);
            let r = does_targets(d, world, ch, i);
            let m1 = steps(c, m, n);
            &&& r == normally(r.0)
            &&& same_level(f.base, world, r.0)
            &&& agreed(w, wf, f, r.0, m, m1, wf.code.len() as int, bars, guard)
        }),
    decreases d, ch, ch.targets@.len() - i,
{
    next_target(d, world, ch, i);
    calm_targets(w, env, ch, i, bars);
    if i < ch.targets@.len() {
        let t = ch.targets@[i as int];
        let hint = context_of(ch.ty.base@, ch.ty.precision);
        made_target(w, env, ch, t, bars);
        let (at0, n) = looked_up(w, t.name@)->0;
        let (w1, r) = expr_made(w, t.value, n);
        let w2 = target_end(w, t, at0, n);
        let wf = targets_made(w, ch, i);
        lemma_attuned(w, w2, env);
        calm_targets(w2, env, ch, i + 1, bars);
        lemma_sees_before(c, w2, wf);
        lemma_sees_before(c, w1, w2);
        let out = meaning(d, world, t.value, hint);
        let x = out.1->Ok_0;
        let k = sim_sc(c, w, env, f, t.value, n, hint, d, world, m);
        let m1 = steps(c, m, k);
        let frames = seen(world.frames, f);
        assert(looked_up(w, t.name@) == found(w.frames, t.name@, w.frames.len())) by {
            reveal(looked_up);
        }
        lemma_found(w, frames, m, t.name@, w.frames.len());
        assert(slot(top(m1).slots, at0 as int, 0) == slot(top(m).slots, at0 as int, 0));
        let j = run_change(c, w, m1, t, at0, n, x);
        lemma_steps_add(c, m, k, j);
        let m2 = steps(c, m, k + j);
        assert forall|g: int| 0 <= g < w.code.len() && g != at0 implies #[trigger] slot(top(m2).slots, g, 0) == slot(
            top(m).slots,
            g,
            0,
        ) by {
            assert(slot(top(m1).slots, g, 0) == slot(top(m).slots, g, 0));
        }
        lemma_assigns(w, w2, frames, m, m2, t.name@, x);
        lemma_seen_assigned(out.0, f, t.name@, x);
        lemma_slot_free(w, frames, m, t.name@, bars.fixed, guard);
        assert forall|g: int| guard.contains(g) implies #[trigger] slot(top(m2).slots, g, 0) == slot(top(m).slots, g, 0) by {}
        assert forall|g: usize| g < w.code.len() implies #[trigger] reg(top(m2), g) == reg(top(m), g) by {
            assert(reg(top(m1), g) == reg(top(m), g));
        }
        let world1 = assigned(out.0, t.name@, x);
        lemma_guarded_frames(w, w2, bars.fixed, guard);
        assert(agreed(w, w2, f, world1, m, m2, w2.code.len() as int, bars, guard));
        lemma_ready_then(c, w, w2, env, env, f, bars, guard, world, world1, m, m2);
        let h = sim_targets(c, w2, env, f, ch, i + 1, bars, guard, d, world1, m2);
        lemma_steps_add(c, m, k + j, h);
        lemma_agreed_then(
            w,
            w2,
            wf,
            f,
            world1,
            does_targets(d, world, ch, i).0,
            m,
            m2,
            steps(c, m, k + j + h),
            w2.code.len() as int,
            wf.code.len() as int,
            bars,
            guard,
        );
        k + j + h
    } else {
        assert(m.calls =~= seq![top(m)]);
        0
    }
}

// ── printing ────────────────────────────────────────────────────────────────

/// Whether a stretch of code printed some text and did nothing else.
pub open spec fn told(w: WorkView, w1: WorkView, m: Machine, m1: Machine, t: Seq<char>) -> bool {
    &&& quiet(w, w1)
    &&& m1 == with(Machine { line: m.line + t, ..m }, top(m1))
    &&& running(m1)
    &&& top(m1).pc == w1.code.len()
    &&& top(m1).given == top(m).given
    &&& keeps_below(w.code.len() as int, top(m), top(m1))
}

/// What a printing call shows.
pub open spec fn told_text(s: Slots, f: Rt, a: Datum) -> Option<Seq<char>> {
    match (f, a) {
        (Rt::PrintStr, Datum::Chars(t)) => Some(t),
        (Rt::PrintInt, Datum::Word(n)) => Some(int_text(n as int)),
        (Rt::PrintBool, Datum::Byte(b)) => Some(
            if b != 0 {
                "true"@
            } else {
                "false"@
            },
        ),
        (Rt::PrintText, Datum::Slot(p)) => match slot(s, p, 0) {
            Datum::Text(t, _) => Some(t),
            _ => None,
        },
        (Rt::PrintDeci, Datum::Slot(p)) => match slot(s, p, 0) {
            Datum::Deci(q) => Some(crate::eval::decimal::decimal_text(crate::runtime::exact::held(q))),
            _ => None,
        },
        (Rt::PrintRat, Datum::Slot(p)) => match slot(s, p, 0) {
            Datum::Rat(q) => Some(crate::eval::rational::rational_text(crate::runtime::exact::fraction_held(q))),
            _ => None,
        },
        _ => None,
    }
}

#[verifier::spinoff_prover]
proof fn lemma_told(m: Machine, s: Slots, f: Rt, given: Seq<Datum>)
    requires
        given.len() == 1,
        told_text(s, f, given[0]) is Some,
    ensures
        runtime_call(m, s, f, given) == Call::Gives(
            Machine { line: m.line + told_text(s, f, given[0])->0, ..m },
            s,
            Datum::Nothing,
        ),
{
    reveal(runtime_call);
}

proof fn run_told(c: CompiledView, w: WorkView, m: Machine, f: Rt, v: Operand, t: Seq<char>)
    requires
        sound(c),
        sees(c, called(w, f, seq![v]).0),
        stands(w, m),
        told_text(top(m).slots, f, reg(top(m), v.at)) == Some(t),
        kinds(seq![v]) =~= takes(f),
    ensures
        told(w, called(w, f, seq![v]).0, m, steps(c, m, 2), t),
{
    let args = seq![v];
    let given = data(top(m), args);
    let act = Activation { pc: (w.code.len() + args.len()) as int, args: given, ..top(m) };
    lemma_told(with(m, act), top(m).slots, f, given);
    let after = Machine { line: m.line + t, ..with(m, act) };
    run_any(c, w, m, f, args, after, top(m).slots, Datum::Nothing);
    let m1 = steps(c, m, 2);
    assert(m1.calls =~= seq![top(m1)]);
}

proof fn lemma_ran_told(w: WorkView, w1: WorkView, w2: WorkView, m: Machine, m1: Machine, m2: Machine, t: Seq<char>)
    requires
        ran(w, w1, m, m1),
        told(w1, w2, m1, m2, t),
    ensures
        told(w, w2, m, m2, t),
{
    lemma_quiet_then(w, w1, w2);
}

/// A value printed.
#[verifier::spinoff_prover]
proof fn run_shown(c: CompiledView, w: WorkView, m: Machine, v: Operand, n: Native, x: Val) -> (k: nat)
    requires
        single(n),
        sound(c),
        sees(c, printed(w, v, n)),
        stands(w, m),
        v.kind == kind_of(n),
        v.at < w.code.len(),
        rep(reg(top(m), v.at), x, n),
    ensures
        told(w, printed(w, v, n), m, steps(c, m, k), val_text(x)),
{
    printed_parts(w, v, n);
    let wf = printed(w, v, n);
    if n is Int {
        assert(kinds(seq![v]) =~= takes(Rt::PrintInt));
        run_told(c, w, m, Rt::PrintInt, v, val_text(x));
        2
    } else if n is Bool {
        let i = Inst::Widen { kind: Kind::Byte, value: v.at };
        let (w1, b) = as_byte(w, v);
        assert(kinds(seq![b]) =~= takes(Rt::PrintBool));
        called_quiet(w1, Rt::PrintBool, seq![b]);
        lemma_sees_before(c, w1, wf);
        run_value(c, w, m, i, Datum::Byte(if x->Bool_0 { 1 } else { 0 }));
        let m1 = steps(c, m, 1);
        run_told(c, w1, m1, Rt::PrintBool, b, val_text(x));
        lemma_steps_add(c, m, 1, 2);
        lemma_ran_told(w, w1, wf, m, m1, steps(c, m, 3), val_text(x));
        3
    } else {
        let f = shows(n);
        let (w1, p) = spilled(w, v, kind_of(n));
        spilled_quiet(w, v, kind_of(n));
        assert(kinds(seq![p]) =~= takes(f));
        called_quiet(w1, f, seq![p]);
        lemma_sees_before(c, w1, wf);
        run_spilled(c, w, m, v, kind_of(n));
        let m1 = steps(c, m, 2);
        assert(slot(top(m1).slots, w.code.len() as int, 0) == reg(top(m), v.at));
        reveal_with_fuel(crate::eval::decimal::normal, 2);
        run_told(c, w1, m1, f, p, val_text(x));
        lemma_steps_add(c, m, 2, 2);
        lemma_ran_told(w, w1, wf, m, m1, steps(c, m, 4), val_text(x));
        4
    }
}

/// Whether the machine printed a text behind what was said meanwhile.
pub open spec fn said(w: WorkView, w1: WorkView, world1: World, m: Machine, m1: Machine, line: Seq<char>) -> bool {
    &&& quiet(w, w1)
    &&& running(m1)
    &&& top(m1).pc == w1.code.len()
    &&& top(m1).given == top(m).given
    &&& m1 == (Machine { lines: world1.lines, line, heap: m1.heap, ..with(m, top(m1)) })
    &&& heap_grown(m.heap, m1.heap)
    &&& keeps_below(w.code.len() as int, top(m), top(m1))
}

#[verifier::spinoff_prover]
pub(crate) proof fn sim_print(
    c: CompiledView,
    w: WorkView,
    env: Env,
    f: Framing,
    e: Expr,
    d: nat,
    world: World,
    m: Machine,
) -> (n: nat)
    requires
        print_ok(env, e),
        abreast(c, w, env, f, world, m),
        sees(c, print_made(w, e)),
        talks(e) ==> m.line.len() == 0,
        meaning(d, world, e, None).1 is Ok,
    ensures
        moved_on(world, meaning(d, world, e, None).0),
        said(
            w,
            print_made(w, e),
            meaning(d, world, e, None).0,
            m,
            steps(c, m, n),
            m.line + val_text(meaning(d, world, e, None).1->Ok_0),
        ),
    decreases d, e, 4nat,
{
    calm_print(w, env, e);
    let wf = print_made(w, e);
    let out = meaning(d, world, e, None);
    match e.kind {
        ExprKind::Str(t) => {
            assert(out == (world, Ok::<Val, StopView>(Val::Str(t@)))) by {
                reveal(meaning);
            }
            reveal(chars_made);
            let (w1, text) = chars_made(w, t@);
            lemma_sees_before_called(c, w1, Rt::PrintStr, text);
            let k = w.texts.len() as usize;
            assert(w1.texts[w.texts.len() as int] == t@);
            assert(c.main.texts[w.texts.len() as int] == t@);
            run_value(c, with_text(w, t@), m, Inst::Chars(k), Datum::Chars(t@));
            let m1 = steps(c, m, 1);
            assert(kinds(seq![text]) =~= takes(Rt::PrintStr));
            run_told(c, w1, m1, Rt::PrintStr, text, t@);
            lemma_steps_add(c, m, 1, 2);
            assert(ran(w, w1, m, m1));
            lemma_ran_told(w, w1, wf, m, m1, steps(c, m, 3), t@);
            3
        },
        _ => {
            let n = nat_of(env, e);
            let (w1, v) = expr_made(w, e, n);
            lemma_sees_before(c, w1, wf);
            let k = sim_sc(c, w, env, f, e, n, None, d, world, m);
            let m1 = steps(c, m, k);
            let j = run_shown(c, w1, m1, v, n, out.1->Ok_0);
            lemma_steps_add(c, m, k, j);
            lemma_quiet_then(w, w1, wf);
            k + j
        },
    }
}

proof fn lemma_sees_before_called(c: CompiledView, w: WorkView, f: Rt, v: Operand)
    requires
        f == Rt::PrintStr,
        v.kind == Kind::Ptr,
        sees(c, called(w, f, seq![v]).0),
    ensures
        sees(c, w),
{
    assert(kinds(seq![v]) =~= takes(f));
    called_quiet(w, f, seq![v]);
    lemma_sees_before(c, w, called(w, f, seq![v]).0);
}

#[verifier::spinoff_prover]
proof fn sim_prints(
    c: CompiledView,
    w: WorkView,
    env: Env,
    f: Framing,
    args: Vec<Expr>,
    i: nat,
    d: nat,
    world: World,
    m: Machine,
) -> (n: nat)
    requires
        forall|j: int|
            0 <= j < args@.len() ==> print_ok(env, #[trigger] args@[j]) && (j > 0 ==> !talks(args@[j])),
        abreast(c, w, env, f, world, m),
        i == 0 ==> m.line.len() == 0,
        sees(c, prints_made(w, args, i)),
        does_texts(d, world, args, i, m.line).1 is Ok,
    ensures
        moved_on(world, does_texts(d, world, args, i, m.line).0),
        said(
            w,
            prints_made(w, args, i),
            does_texts(d, world, args, i, m.line).0,
            m,
            steps(c, m, n),
            does_texts(d, world, args, i, m.line).1->Ok_0,
        ),
    decreases d, args, args@.len() - i,
{
    calm_prints(w, env, args, i);
    texts_next(d, world, args, i, m.line);
    if i < args@.len() {
        let e = args@[i as int];
        let w1 = print_made(w, e);
        let wf = prints_made(w, args, i);
        calm_print(w, env, e);
        lemma_attuned(w, w1, env);
        calm_prints(w1, env, args, i + 1);
        lemma_sees_before(c, w1, wf);
        let k = sim_print(c, w, env, f, e, d, world, m);
        let m1 = steps(c, m, k);
        let world1 = meaning(d, world, e, None).0;
        lemma_still_mirrors(w, w1, seen(world.frames, f), m, m1);
        assert(abreast(c, w1, env, f, world1, m1));
        let j = sim_prints(c, w1, env, f, args, i + 1, d, world1, m1);
        lemma_steps_add(c, m, k, j);
        lemma_quiet_then(w, w1, wf);
        k + j
    } else {
        assert(m.calls =~= seq![top(m)]);
        0
    }
}

#[verifier::spinoff_prover]
pub(crate) proof fn run_newline(c: CompiledView, w: WorkView, m: Machine)
    requires
        sound(c),
        sees(c, called(w, Rt::PrintNewline, Seq::empty()).0),
        stands(w, m),
    ensures
        ({
            let w1 = called(w, Rt::PrintNewline, Seq::empty()).0;
            let m1 = steps(c, m, 1);
            &&& quiet(w, w1)
            &&& m1 == with(Machine { lines: m.lines.push(m.line), line: Seq::empty(), ..m }, top(m1))
            &&& stands(w1, m1)
            &&& top(m1).given == top(m).given
            &&& keeps_below(w.code.len() as int, top(m), top(m1))
        }),
{
    let args = Seq::<Operand>::empty();
    let given = data(top(m), args);
    let act = Activation { pc: (w.code.len() + args.len()) as int, args: given, ..top(m) };
    assert(kinds(args) =~= takes(Rt::PrintNewline));
    let before = with(m, act);
    let after = Machine { lines: m.lines.push(m.line), line: Seq::empty(), ..before };
    assert(runtime_call(before, top(m).slots, Rt::PrintNewline, given) == Call::Gives(after, top(m).slots, Datum::Nothing))
        by {
        reveal(runtime_call);
    }
    run_any(c, w, m, Rt::PrintNewline, args, after, top(m).slots, Datum::Nothing);
    let m1 = steps(c, m, 1);
    assert(m1.calls =~= seq![top(m1)]);
}

#[verifier::spinoff_prover]
proof fn sim_printing(
    c: CompiledView,
    w: WorkView,
    env: Env,
    f: Framing,
    args: Vec<Expr>,
    bars: Bars,
    guard: Set<int>,
    d: nat,
    world: World,
    m: Machine,
) -> (n: nat)
    requires
        forall|j: int|
            0 <= j < args@.len() ==> print_ok(env, #[trigger] args@[j]) && (j > 0 ==> !talks(args@[j])),
        ready(c, w, env, f, bars, guard, world, m),
        sees(c, called(prints_made(w, args, 0), Rt::PrintNewline, Seq::empty()).0),
        does_texts(d, world, args, 0, Seq::empty()).1 is Ok,
    ensures
        ({
            let r = does_texts(d, world, args, 0, Seq::empty());
            let world1 = semantics::printed(r.0, r.1->Ok_0);
            let wf = called(prints_made(w, args, 0), Rt::PrintNewline, Seq::empty()).0;
            &&& same_level(f.base, world, world1)
            &&& agreed(w, wf, f, world1, m, steps(c, m, n), wf.code.len() as int, bars, guard)
        }),
    decreases d, args, args@.len() + 1,
{
    calm_prints(w, env, args, 0);
    let w1 = prints_made(w, args, 0);
    let wf = called(w1, Rt::PrintNewline, Seq::empty()).0;
    assert(kinds(Seq::<Operand>::empty()) =~= takes(Rt::PrintNewline));
    called_quiet(w1, Rt::PrintNewline, Seq::empty());
    lemma_sees_before(c, w1, wf);
    assert(m.line =~= Seq::<char>::empty());
    let k = sim_prints(c, w, env, f, args, 0, d, world, m);
    let m1 = steps(c, m, k);
    run_newline(c, w1, m1);
    lemma_steps_add(c, m, k, 1);
    let m2 = steps(c, m, k + 1);
    lemma_quiet_then(w, w1, wf);
    lemma_still_mirrors(w, wf, seen(world.frames, f), m, m2);
    lemma_guarded_frames(w, wf, bars.fixed, guard);
    assert(m2.line =~= m.line);
    assert forall|g: int| guard.contains(g) implies #[trigger] slot(top(m2).slots, g, 0) == slot(top(m).slots, g, 0) by {
        assert(slot(top(m1).slots, g, 0) == slot(top(m).slots, g, 0));
    }
    assert forall|g: usize| g < w.code.len() implies #[trigger] reg(top(m2), g) == reg(top(m), g) by {
        assert(reg(top(m1), g) == reg(top(m), g));
    }
    k + 1
}

// ── blocks and conditionals ─────────────────────────────────────────────────

proof fn lemma_returning_then(c: CompiledView, f: Framing, world: World, m: Machine, m1: Machine, m2: Machine, v: Val, n: Native)
    requires
        m1 == (Machine { lines: m1.lines, heap: m1.heap, ..with(m, top(m1)) }),
        heap_spared(f, m.heap, m1.heap),
        returning(c, f, world, m1, m2, v, n),
    ensures
        returning(c, f, world, m, m2, v, n),
{
}

#[verifier::spinoff_prover]
proof fn sim_block(
    c: CompiledView,
    w: WorkView,
    env: Env,
    f: Framing,
    stmts: Vec<Stmt>,
    i: nat,
    bars: Bars,
    guard: Set<int>,
    d: nat,
    world: World,
    m: Machine,
) -> (n: nat)
    requires
        all_ok(env, stmts, i, bars),
        ready(c, w, env, f, bars, guard, world, m),
        sees(c, block_made(w, stmts, i).0),
        does_block(d, world, stmts, i).1 is Ok,
    ensures
        outcome(
            c,
            w,
            block_made(w, stmts, i).0,
            block_made(w, stmts, i).1,
            f,
            world,
            does_block(d, world, stmts, i),
            m,
            steps(c, m, n),
            block_made(w, stmts, i).0.code.len() as int,
            bars,
            guard,
        ),
    decreases d, stmts, stmts@.len() - i,
{
    block_next(w, stmts, i);
    does_block_next(d, world, stmts, i);
    if i < stmts@.len() {
        let st = stmts@[i as int];
        let (wf, out) = block_made(w, stmts, i);
        let env1 = env_after(env, st);
        lemma_stmt(w, st);
        let r = does_stmt(d, world, st);
        let (w1, left, k) = if ok(env, st, bars) {
            let (w1, left) = stmt_made(w, st);
            calm_stmt(w, env, st, bars);
            reveal(stride);
            if left {
                block_left(w, stmts, i);
                assert(sees(c, w1));
            } else {
                lemma_no_temps(w1, w.temps.len());
                lemma_block(w1, stmts, i + 1);
                lemma_sees_stride(c, w1, wf);
            }
            lemma_env_after(env, st, bars);
            (w1, left, sim_stmt(c, w, env, f, st, bars, guard, d, world, m))
        } else {
            let w1 = broad_end(w, st);
            calm_broad(w, env, st, bars);
            lemma_broad_env(env, st, bars);
            lemma_block(w1, stmts, i + 1);
            lemma_sees_stride(c, w1, wf);
            (w1, false, sim_broad(c, w, env, f, st, bars, guard, d, world, m))
        };
        let m1 = steps(c, m, k);
        if r.1->Ok_0 is Normal {
            lemma_ready_then(c, w, w1, env, env1, f, bars, guard, world, r.0, m, m1);
            let j = sim_block(c, w1, env1, f, stmts, i + 1, bars, guard, d, r.0, m1);
            lemma_steps_add(c, m, k, j);
            let m2 = steps(c, m, k + j);
            let rr = does_block(d, world, stmts, i);
            lemma_level_then(f.base, world, r.0, rr.0);
            if rr.1->Ok_0 is Normal {
                lemma_agreed_then(
                    w,
                    w1,
                    wf,
                    f,
                    r.0,
                    rr.0,
                    m,
                    m1,
                    m2,
                    w1.code.len() as int,
                    wf.code.len() as int,
                    bars,
                    guard,
                );
            } else {
                lemma_returning_then(c, f, rr.0, m, m1, m2, rr.1->Ok_0->Handback_0, bars.back->0);
            }
            k + j
        } else {
            does_block_left(d, world, stmts, i);
            k
        }
    } else {
        assert(m.calls =~= seq![top(m)]);
        0
    }
}

#[verifier::spinoff_prover]
#[verifier::rlimit(30)]
proof fn sim_scoped(
    c: CompiledView,
    w: WorkView,
    env: Env,
    f: Framing,
    stmts: Vec<Stmt>,
    bars: Bars,
    guard: Set<int>,
    d: nat,
    world: World,
    m: Machine,
) -> (n: nat)
    requires
        all_ok(inner(env), stmts, 0, bars),
        ready(c, w, env, f, bars, guard, world, m),
        sees(c, scoped_made(w, stmts).0),
        does_scoped(d, world, stmts).1 is Ok,
    ensures
        outcome(
            c,
            w,
            scoped_made(w, stmts).0,
            scoped_made(w, stmts).1,
            f,
            world,
            does_scoped(d, world, stmts),
            m,
            steps(c, m, n),
            scoped_made(w, stmts).0.code.len() as int,
            bars,
            guard,
        ),
    decreases d, stmts, stmts@.len() + 1,
{
    let env1 = calm_scoped(w, env, stmts, bars);
    does_scoped_parts(d, world, stmts);
    let frames = seen(world.frames, f);
    lemma_opens(w, frames, m, bars.fixed, guard);
    lemma_seen_opened(world, f);
    let w0 = with_frame(w);
    assert(w0 == (WorkView { frames: w.frames.push(Seq::empty()), ..w })) by {
        reveal(with_frame);
    }
    let (wb, left) = block_made(w0, stmts, 0);
    let (wf, _) = scoped_made(w, stmts);
    let ws = scope_released(wb);
    assert(sees(c, ws));
    if !left {
        lemma_sees_before(c, wb, ws);
    }
    let world0 = opened(world);
    assert(ready(c, w0, inner(env), f, bars, guard, world0, m));
    let n1 = sim_block(c, w0, inner(env), f, stmts, 0, bars, guard, d, world0, m);
    let m1 = steps(c, m, n1);
    let r = does_block(d, world0, stmts, 0);
    lemma_seen_closed(r.0, f);
    assert(same_level(f.base, world, closed_scope(r.0)));
    if r.1->Ok_0 is Normal {
        let inside = seen(r.0.frames, f);
        let n2 = run_scope(c, wb, env1.s, inside, m1);
        lemma_steps_add(c, m, n1, n2);
        let m2 = steps(c, m, n1 + n2);
        lemma_freed_spared(f, wb, m1, m2, wb.frames.len() - 1);
        lemma_freed_went(f, wb, ws, m1, m2, w.code.len() as int, bars.fixed, guard, wb.frames[wb.frames.len() - 1]);
        lemma_went_then(f, w.code.len() as int, w.code.len() as int, guard, guard, m, m1, m2);
        assert(ws.frames == wb.frames);
        lemma_closes(wb, wf, inside, m1, m2, bars.fixed, guard);
        n1 + n2
    } else {
        n1
    }
}

/// Which code an arm has, and what of it the program holds.
#[verifier::spinoff_prover]
proof fn lemma_arm_code(c: CompiledView, w: WorkView, env: Env, e: Expr, body: Vec<Stmt>, merge: usize, bars: Bars)
    requires
        sc(env, e, Native::Bool, None),
        all_ok(inner(env), body, 0, bars),
        attuned(w, env),
        env.digits == DEFAULT_DIGITS,
        w.open,
        leads(w, bars.back),
        sees(c, arm_passed(w, e, body, merge)),
    ensures
        ({
            let (w1, test) = expr_made(w, e, Native::Bool);
            let wi = arm_entered(w, e);
            let (w5, left) = scoped_made(wi, body);
            let wn = arm_passed(w, e, body, merge);
            let p = w1.code.len() as int;
            let code = c.main.code;
            let x = wn.code.len() as int - 1;
            &&& sees(c, w1) && sees(c, wi) && sees(c, w5)
            &&& w.code.len() <= p
            &&& wi.code.len() == p + 4
            &&& p + 4 <= w5.code.len() <= x
            &&& x < code.len()
            &&& code[p] == Inst::Block
            &&& code[p + 1] == Inst::Block
            &&& code[p + 2] == (Inst::Fork { test: test.at, yes: p as usize, no: (p + 1) as usize })
            &&& code[p + 3] == Inst::At(p as usize)
            &&& !left ==> w5.code.len() < code.len() && code[w5.code.len() as int] == Inst::Jump(merge)
            &&& code[x] == Inst::At((p + 1) as usize)
            &&& wi.frames == w.frames && w5.frames == w.frames && wn.frames == w.frames
            &&& attuned(wi, env) && attuned(wn, env)
            &&& wi.open && wn.open
            &&& wn.handbacks == w.handbacks && wn.ret == w.ret && wn.top == w.top
        }),
{
    calm_entered(w, env, e);
    let (w1, test) = expr_made(w, e, Native::Bool);
    let wi = arm_entered(w, e);
    let _ = calm_scoped(wi, env, body, bars);
    let (w5, left) = scoped_made(wi, body);
    let wn = arm_passed(w, e, body, merge);
    let p = w1.code.len() as int;
    let wj = joined(w5, left, merge);
    lemma_sees_put(c, wj, Inst::At((p + 1) as usize));
    if !left {
        lemma_sees_put(c, w5, Inst::Jump(merge));
        let q = w5.code.len() as int;
        assert(wj.code[q] == Inst::Jump(merge));
        lemma_code(c, wj, q);
    }
    lemma_scoped(wi, body);
    lemma_sees_step(c, wi, w5);
    reveal(step);
    assert(extended(wi.code, w5.code));
    let fork = Inst::Fork { test: test.at, yes: p as usize, no: (p + 1) as usize };
    let w3 = put(put(w1, Inst::Block), Inst::Block);
    lemma_sees_put(c, put(w3, fork), Inst::At(p as usize));
    lemma_sees_put(c, w3, fork);
    lemma_sees_put(c, put(w1, Inst::Block), Inst::Block);
    lemma_sees_put(c, w1, Inst::Block);
    assert(wi.code[p] == Inst::Block && wi.code[p + 1] == Inst::Block && wi.code[p + 2] == fork && wi.code[p + 3]
        == Inst::At(p as usize));
    lemma_code(c, wi, p);
    lemma_code(c, wi, p + 1);
    lemma_code(c, wi, p + 2);
    lemma_code(c, wi, p + 3);
    let x = wn.code.len() as int - 1;
    assert(wn.code[x] == Inst::At((p + 1) as usize));
    lemma_code(c, wn, x);
    lemma_attuned(w, wn, env);
}

/// An arm that does not leave is enough for a conditional not to leave.
proof fn lemma_arms_left(w: WorkView, chain: IfChain, i: nat, merge: usize, all: bool)
    ensures
        !all ==> !arms_made(w, chain, i, merge, all).1,
    decreases chain.arms@.len() - i,
{
    arms_next(w, chain, i, merge, all);
    if i < chain.arms@.len() {
        let body = chain.arms@[i as int].body;
        match chain.arms@[i as int].condition {
            Some(c) => {
                lemma_arms_left(
                    arm_passed(w, c, body, merge),
                    chain,
                    i + 1,
                    merge,
                    all && scoped_made(arm_entered(w, c), body).1,
                );
            },
            None => {
                let (w1, left) = scoped_made(w, body);
                lemma_arms_left(joined(w1, left, merge), chain, i + 1, merge, all && left);
            },
        }
    }
}

/// What holds with more code emitted holds of the names alone, all of which are older.
proof fn lemma_agreed_back(
    w: WorkView,
    w1: WorkView,
    f: Framing,
    frames: Frames,
    world1: World,
    m: Machine,
    m1: Machine,
    pc: int,
    bars: Bars,
    guard: Set<int>,
)
    requires
        mirrors(w, frames, m),
        guarded(w, bars.fixed, guard),
        w1.frames == w.frames,
        mirrors(w1, seen(world1.frames, f), m1),
        no_older(w1, m1, f.floor),
        went(f, w.code.len() as int, guard, m, m1),
        top(m1).pc == pc,
        m1.lines == world1.lines,
    ensures
        agreed(w, w, f, world1, m, m1, pc, bars, guard),
{
    assert forall|i: int, j: int|
        #![trigger w.frames[i][j]]
        0 <= i < w.frames.len() && 0 <= j < w.frames[i].len() implies w.frames[i][j].slot < w.code.len() by {
        assert(mirrored(w, frames[i], m, w.frames[i][j]));
    }
    lemma_back(w, w1, seen(world1.frames, f), m, m1, bars.fixed, guard);
}

proof fn lemma_at_went(f: Framing, n: int, guard: Set<int>, m: Machine, j: int)
    requires
        running(m),
    ensures
        went(f, n, guard, m, at(m, j)),
        top(at(m, j)).pc == j,
        at(m, j).lines == m.lines,
        at(m, j).line == m.line,
        top(at(m, j)).slots == top(m).slots,
{
}

/// Where two machines stand does not matter to what was left alone between them.
proof fn lemma_went_shift(f: Framing, n: int, guard: Set<int>, m: Machine, m1: Machine, p: int)
    requires
        running(m),
        went(f, n, guard, m, m1),
    ensures
        went(f, n, guard, at(m, p), at(m1, p)),
{
    let a = at(m, p);
    let b = at(m1, p);
    assert forall|i: usize| i < n implies #[trigger] reg(top(b), i) == reg(top(a), i) by {
        assert(reg(top(m1), i) == reg(top(m), i));
    }
    assert forall|k: int| guard.contains(k) implies #[trigger] slot(top(b).slots, k, 0) == slot(top(a).slots, k, 0) by {
        assert(slot(top(m1).slots, k, 0) == slot(top(m).slots, k, 0));
    }
}

#[verifier::spinoff_prover]
#[verifier::rlimit(40)]
proof fn sim_arms(
    c: CompiledView,
    w: WorkView,
    env: Env,
    f: Framing,
    chain: IfChain,
    i: nat,
    merge: usize,
    all: bool,
    bars: Bars,
    guard: Set<int>,
    d: nat,
    world: World,
    m: Machine,
    e: int,
) -> (n: nat)
    requires
        arms_ok(env, chain, i, bars),
        ready(c, w, env, f, bars, guard, world, m),
        sees(c, arms_made(w, chain, i, merge, all).0),
        does_arms(d, world, chain, i).1 is Ok,
        merge < c.main.code.len(),
        c.main.code[merge as int] is Block,
        0 <= e < c.main.code.len(),
        c.main.code[e] == Inst::At(merge),
        arms_made(w, chain, i, merge, all).0.open ==> ({
            let wa = arms_made(w, chain, i, merge, all).0;
            wa.code.len() < c.main.code.len() && c.main.code[wa.code.len() as int] == Inst::Jump(merge)
        }),
    ensures
        outcome(
            c,
            w,
            w,
            arms_made(w, chain, i, merge, all).1 && !arms_made(w, chain, i, merge, all).0.open,
            f,
            world,
            does_arms(d, world, chain, i),
            m,
            steps(c, m, n),
            e,
            bars,
            guard,
        ),
    decreases d, chain, chain.arms@.len() - i,
{
    lemma_arms_left(w, chain, i, merge, all);
    arms_next(w, chain, i, merge, all);
    does_arms_next(d, world, chain, i);
    let n0 = w.code.len() as int;
    let frames = seen(world.frames, f);
    let r = does_arms(d, world, chain, i);
    if i >= chain.arms@.len() {
        run_to(c, m, merge, e);
        lemma_at_went(f, n0, guard, m, e);
        lemma_still_mirrors(w, w, frames, m, at(m, e));
        1
    } else {
        let arm = chain.arms@[i as int];
        match arm.condition {
            None => {
                let _ = calm_scoped(w, env, arm.body, bars);
                let (w1, left) = scoped_made(w, arm.body);
                let w2 = joined(w1, left, merge);
                arms_next(w2, chain, i + 1, merge, all && left);
                if !left {
                    lemma_sees_put(c, w1, Inst::Jump(merge));
                }
                let k = sim_scoped(c, w, env, f, arm.body, bars, guard, d, world, m);
                let m1 = steps(c, m, k);
                if r.1->Ok_0 is Normal {
                    assert(w2.code[w1.code.len() as int] == Inst::Jump(merge));
                    lemma_code(c, w2, w1.code.len() as int);
                    run_to(c, m1, merge, e);
                    lemma_steps_add(c, m, k, 1);
                    lemma_at_went(f, n0, guard, m1, e);
                    lemma_went_then(f, n0, n0, guard, guard, m, m1, at(m1, e));
                    lemma_still_mirrors(w1, w1, seen(r.0.frames, f), m1, at(m1, e));
                    lemma_agreed_back(w, w1, f, frames, r.0, m, at(m1, e), e, bars, guard);
                    k + 1
                } else {
                    k
                }
            },
            Some(cond) => {
                let (w1, test) = expr_made(w, cond, Native::Bool);
                let wi = arm_entered(w, cond);
                let (w5, left) = scoped_made(wi, arm.body);
                let wn = arm_passed(w, cond, arm.body, merge);
                lemma_arms(wn, chain, i + 1, merge, all && left);
                lemma_sees_step(c, wn, arms_made(w, chain, i, merge, all).0);
                lemma_arm_code(c, w, env, cond, arm.body, merge, bars);
                calm_entered(w, env, cond);
                let k = sim_sc(c, w, env, f, cond, Native::Bool, None, d, world, m);
                let m1 = steps(c, m, k);
                let rc = meaning(d, world, cond, None);
                lemma_passed_went(f, w, w1, m, m1, n0, bars.fixed, guard);
                lemma_still_mirrors(w, w1, frames, m, m1);
                let bit = rc.1->Ok_0->Bool_0;
                let p = w1.code.len() as int;
                let to = if bit {
                    p + 3
                } else {
                    wn.code.len() as int - 1
                };
                run_branch(c, w1, m1, test.at, bit, to);
                lemma_steps_add(c, m, k, 4);
                let m2 = at(m1, to + 1);
                let wt = if bit {
                    wi
                } else {
                    wn
                };
                lemma_at_went(f, n0, guard, m1, to + 1);
                lemma_went_then(f, n0, n0, guard, guard, m, m1, m2);
                lemma_still_mirrors(w1, wt, frames, m1, m2);
                lemma_guarded_frames(w, wt, bars.fixed, guard);
                assert(ready(c, wt, env, f, bars, guard, rc.0, m2));
                assert(same_level(f.base, world, rc.0));
                let q = if bit {
                    sim_scoped(c, wi, env, f, arm.body, bars, guard, d, rc.0, m2)
                } else {
                    sim_arms(c, wn, env, f, chain, i + 1, merge, all && left, bars, guard, d, rc.0, m2, e)
                };
                let m3 = steps(c, m2, q);
                lemma_steps_add(c, m, k + 4, q);
                lemma_level_then(f.base, world, rc.0, r.0);
                lemma_arms_left(wn, chain, i + 1, merge, all && left);
                if r.1->Ok_0 is Normal {
                    lemma_went_then(f, n0, wt.code.len() as int, guard, guard, m, m2, m3);
                    if bit {
                        run_to(c, m3, merge, e);
                        lemma_steps_add(c, m, k + 4 + q, 1);
                        lemma_at_went(f, n0, guard, m3, e);
                        lemma_went_then(f, n0, n0, guard, guard, m, m3, at(m3, e));
                        lemma_still_mirrors(w5, w5, seen(r.0.frames, f), m3, at(m3, e));
                        lemma_agreed_back(w, w5, f, frames, r.0, m, at(m3, e), e, bars, guard);
                        k + 4 + q + 1
                    } else {
                        lemma_agreed_back(w, wn, f, frames, r.0, m, m3, e, bars, guard);
                        k + 4 + q
                    }
                } else {
                    lemma_returning_then(c, f, r.0, m, m2, m3, r.1->Ok_0->Handback_0, bars.back->0);
                    k + 4 + q
                }
            },
        }
    }
}

#[verifier::spinoff_prover]
#[verifier::rlimit(30)]
proof fn sim_if(
    c: CompiledView,
    w: WorkView,
    env: Env,
    f: Framing,
    chain: IfChain,
    bars: Bars,
    guard: Set<int>,
    d: nat,
    world: World,
    m: Machine,
) -> (n: nat)
    requires
        arms_ok(env, chain, 0, bars),
        ready(c, w, env, f, bars, guard, world, m),
        sees(c, if_made(w, chain).0),
        does_arms(d, world, chain, 0).1 is Ok,
    ensures
        outcome(
            c,
            w,
            if_made(w, chain).0,
            if_made(w, chain).1,
            f,
            world,
            does_arms(d, world, chain, 0),
            m,
            steps(c, m, n),
            if_made(w, chain).0.code.len() as int,
            bars,
            guard,
        ),
    decreases d, chain, chain.arms@.len() + 1,
{
    if_parts(w, chain);
    calm_if(w, env, chain, bars);
    let merge = w.code.len() as usize;
    let w1 = put(w, Inst::Block);
    let (w2, all) = arms_made(w1, chain, 0, merge, true);
    let wj = joined(w2, !w2.open, merge);
    let w3 = put(wj, Inst::At(merge));
    let (wf, left) = if_made(w, chain);
    if left {
        lemma_sees_put(c, w3, Inst::Unreachable);
    }
    let e = wj.code.len() as int;
    lemma_sees_put(c, wj, Inst::At(merge));
    if w2.open {
        lemma_sees_put(c, w2, Inst::Jump(merge));
        assert(wj.code[w2.code.len() as int] == Inst::Jump(merge));
        lemma_code(c, wj, w2.code.len() as int);
    }
    lemma_attuned(w, w1, env);
    calm_arms(w1, env, chain, 0, merge, true, bars);
    lemma_arms(w1, chain, 0, merge, true);
    lemma_sees_step(c, w1, w2);
    reveal(step);
    assert(w3.code[e] == Inst::At(merge));
    lemma_code(c, w3, e);
    assert(w1.code[merge as int] == Inst::Block);
    lemma_code(c, w1, w.code.len() as int);
    run_at(c, m);
    let n0 = w.code.len() as int;
    let m1 = at(m, n0 + 1);
    let frames = seen(world.frames, f);
    lemma_at_went(f, n0, guard, m, n0 + 1);
    lemma_still_mirrors(w, w1, frames, m, m1);
    lemma_guarded_frames(w, w1, bars.fixed, guard);
    assert(ready(c, w1, env, f, bars, guard, world, m1));
    let k = sim_arms(c, w1, env, f, chain, 0, merge, true, bars, guard, d, world, m1, e);
    let m2 = steps(c, m1, k);
    lemma_steps_add(c, m, 1, k);
    let r = does_arms(d, world, chain, 0);
    if r.1->Ok_0 is Normal {
        lemma_went_then(f, n0, w1.code.len() as int, guard, guard, m, m1, m2);
        run_at(c, m2);
        lemma_steps_add(c, m, 1 + k, 1);
        let m3 = at(m2, e + 1);
        lemma_at_went(f, n0, guard, m2, e + 1);
        lemma_went_then(f, n0, n0, guard, guard, m, m2, m3);
        lemma_still_mirrors(w1, w3, seen(r.0.frames, f), m2, m3);
        lemma_guarded_frames(w, w3, bars.fixed, guard);
        1 + k + 1
    } else {
        lemma_returning_then(c, f, r.0, m, m1, m2, r.1->Ok_0->Handback_0, bars.back->0);
        1 + k
    }
}

// ── handing back, and calls for their effect ────────────────────────────────

#[verifier::spinoff_prover]
#[verifier::rlimit(30)]
proof fn sim_handback(
    c: CompiledView,
    w: WorkView,
    env: Env,
    f: Framing,
    value: Expr,
    bars: Bars,
    guard: Set<int>,
    d: nat,
    world: World,
    m: Machine,
) -> (n: nat)
    requires
        bars.back matches Some(k) && sc(env, value, k, None),
        ready(c, w, env, f, bars, guard, world, m),
        sees(c, handback_made(w, value).0),
        meaning(d, world, value, None).1 is Ok,
    ensures
        moved_on(world, meaning(d, world, value, None).0),
        returning(
            c,
            f,
            meaning(d, world, value, None).0,
            m,
            steps(c, m, n),
            meaning(d, world, value, None).1->Ok_0,
            bars.back->0,
        ),
    decreases d, value, 4nat,
{
    let k = bars.back->0;
    calm_handback(w, env, value, k);
    let (w1, r) = expr_made(w, value, k);
    let w2 = kept(w1, r, k);
    let w3 = scopes_released(w2, w2.frames.len());
    let back = Inst::Return(r.at);
    let wf = put(w3, back);
    lemma_sees_put(c, w3, back);
    lemma_sees_before(c, w2, w3);
    lemma_sees_before(c, w1, w2);
    let n1 = sim_sc(c, w, env, f, value, k, None, d, world, m);
    let m1 = steps(c, m, n1);
    let out = meaning(d, world, value, None);
    let frames = seen(world.frames, f);
    lemma_still_mirrors(w, w1, frames, m, m1);
    let n2 = run_kept(c, w1, m1, r, k, out.1->Ok_0);
    lemma_steps_add(c, m, n1, n2);
    let m2 = steps(c, m, n1 + n2);
    lemma_still_mirrors(w1, w2, frames, m1, m2);
    lemma_quiet_then(w, w1, w2);
    lemma_attuned(w, w2, env);
    lemma_all_to_free(w2, env.s, frames, m2, w2.frames.len(), f.floor);
    let n3 = run_scopes(c, f, w2, env.s, m2, w2.frames.len());
    lemma_steps_add(c, m, n1 + n2, n3);
    let m3 = steps(c, m, n1 + n2 + n3);
    assert(reg(top(m2), r.at) == reg(top(m1), r.at));
    assert(reg(top(m3), r.at) == reg(top(m2), r.at));
    assert(wf.code[w3.code.len() as int] == back);
    lemma_code(c, wf, w3.code.len() as int);
    n1 + n2 + n3
}

#[verifier::spinoff_prover]
proof fn sim_effect(
    c: CompiledView,
    w: WorkView,
    env: Env,
    f: Framing,
    e: Expr,
    bars: Bars,
    guard: Set<int>,
    d: nat,
    world: World,
    m: Machine,
) -> (n: nat)
    requires
        effect_ok(env, e),
        ready(c, w, env, f, bars, guard, world, m),
        sees(c, effect_made(w, e)),
        meaning(d, world, e, None).1 is Ok,
    ensures
        same_level(f.base, world, meaning(d, world, e, None).0),
        agreed(
            w,
            effect_made(w, e),
            f,
            meaning(d, world, e, None).0,
            m,
            steps(c, m, n),
            effect_made(w, e).code.len() as int,
            bars,
            guard,
        ),
    decreases d, e, 4nat,
{
    let args = e.kind->Call_args;
    let name = e.kind->Call_name@;
    let i = function_named(env.fns, name, env.fns.len())->0;
    let out = meaning(d, world, e, None);
    assert forall|k: int| 0 <= k < env.functions.len() implies (#[trigger] env.fns[k]).name == env.functions[k].name@ by {
        assert(function_good(c, env.fns, env.functions, k));
    }
    lemma_same_function(env.fns, env.functions, name, env.fns.len());
    call_meaning(d, world, e, None, i as int);
    effect_parts(w, env, e);
    let wf = effect_made(w, e);
    let n = sim_invoke(c, w, env, f, args, i, None, d, world, m, out);
    let m1 = steps(c, m, n);
    lemma_passed_went(f, w, wf, m, m1, w.code.len() as int, bars.fixed, guard);
    lemma_still_mirrors(w, wf, seen(world.frames, f), m, m1);
    lemma_guarded_frames(w, wf, bars.fixed, guard);
    n
}

// ── loops with a condition ──────────────────────────────────────────────────

#[verifier::spinoff_prover]
proof fn lemma_while_code(c: CompiledView, w: WorkView, env: Env, condition: Expr, body: Vec<Stmt>, bars: Bars)
    requires
        sc(env, condition, Native::Bool, None),
        all_ok(inner(env), body, 0, bars),
        bars.back is None,
        attuned(w, env),
        env.digits == DEFAULT_DIGITS,
        ({
            let w8 = scoped_made(while_inside(w, condition), body).0;
            sees(c, put(put(without_continue(w8), Inst::Jump(w.code.len() as usize)), Inst::At((w.code.len() + 2) as usize)))
        }),
    ensures
        ({
            let p = w.code.len() as int;
            let w4 = while_asked(w);
            let (w5, test) = expr_made(w4, condition, Native::Bool);
            let w7 = while_inside(w, condition);
            let w8 = scoped_made(w7, body).0;
            let q = w5.code.len() as int;
            let e = w8.code.len() as int;
            let code = c.main.code;
            &&& sees(c, w4) && sees(c, w5) && sees(c, w7) && sees(c, w8)
            &&& w4.code.len() == p + 5
            &&& p + 5 <= q
            &&& w7.code.len() == q + 2
            &&& q + 2 <= e
            &&& e + 2 <= code.len()
            &&& code[p] == Inst::Block
            &&& code[p + 1] == Inst::Block
            &&& code[p + 2] == Inst::Block
            &&& code[p + 3] == Inst::Jump(p as usize)
            &&& code[p + 4] == Inst::At(p as usize)
            &&& code[q] == (Inst::Fork { test: test.at, yes: (p + 1) as usize, no: (p + 2) as usize })
            &&& code[q + 1] == Inst::At((p + 1) as usize)
            &&& code[e] == Inst::Jump(p as usize)
            &&& code[e + 1] == Inst::At((p + 2) as usize)
        }),
{
    calm_while(w, env, condition, body, bars);
    let p = w.code.len() as int;
    let w4 = while_asked(w);
    let (w5, test) = expr_made(w4, condition, Native::Bool);
    let fork = Inst::Fork { test: test.at, yes: (p + 1) as usize, no: (p + 2) as usize };
    let w6 = put(w5, fork);
    let w7 = while_inside(w, condition);
    let w8 = scoped_made(w7, body).0;
    let w9 = without_continue(w8);
    let wj = put(w9, Inst::Jump(p as usize));
    let wf = put(wj, Inst::At((p + 2) as usize));
    let q = w5.code.len() as int;
    let e = w8.code.len() as int;
    lemma_sees_put(c, wj, Inst::At((p + 2) as usize));
    lemma_sees_put(c, w9, Inst::Jump(p as usize));
    assert(sees(c, w8));
    lemma_scoped(w7, body);
    lemma_sees_step(c, w7, w8);
    reveal(step);
    assert(sees(c, put(w6, Inst::At((p + 1) as usize))));
    lemma_sees_put(c, w6, Inst::At((p + 1) as usize));
    lemma_sees_put(c, w5, fork);
    lemma_sees_before(c, w4, w5);
    assert(w4.code[p] == Inst::Block && w4.code[p + 1] == Inst::Block && w4.code[p + 2] == Inst::Block);
    assert(w4.code[p + 3] == Inst::Jump(p as usize) && w4.code[p + 4] == Inst::At(p as usize));
    lemma_code(c, w4, p);
    lemma_code(c, w4, p + 1);
    lemma_code(c, w4, p + 2);
    lemma_code(c, w4, p + 3);
    lemma_code(c, w4, p + 4);
    assert(w7.code[q] == fork && w7.code[q + 1] == Inst::At((p + 1) as usize));
    lemma_code(c, w7, q);
    lemma_code(c, w7, q + 1);
    assert(wf.code[e] == Inst::Jump(p as usize) && wf.code[e + 1] == Inst::At((p + 2) as usize));
    lemma_code(c, wf, e);
    lemma_code(c, wf, e + 1);
}

/// A loop with a condition, from where the condition is asked.
#[verifier::spinoff_prover]
#[verifier::rlimit(40)]
proof fn sim_while(
    c: CompiledView,
    w: WorkView,
    env: Env,
    f: Framing,
    l: LoopStmt,
    bars: Bars,
    guard: Set<int>,
    d: nat,
    world: World,
    m: Machine,
    acc: Seq<Val>,
) -> (n: nat)
    requires
        l.kind is While,
        loop_ok(env, l, bars),
        ready(c, w, env, f, bars, guard, world, at(m, w.code.len() as int)),
        running(m),
        top(m).pc == w.code.len() + 4,
        sees(c, loop_made(w, l)),
        does_while(d, world, l, acc).1 is Ok,
    ensures
        ({
            let world1 = does_while(d, world, l, acc).0;
            let wf = loop_made(w, l);
            &&& same_level(f.base, world, world1)
            &&& agreed(w, wf, f, world1, m, steps(c, m, n), wf.code.len() as int, bars, guard)
        }),
    decreases d, l, semantics::ticks_left(world),
{
    let condition = l.kind->While_condition;
    let bars1 = Bars { back: None, ..bars };
    loop_parts(w, l);
    calm_while(w, env, condition, l.body, bars1);
    does_while_next(d, world, l, acc);
    lemma_while_code(c, w, env, condition, l.body, bars1);
    let p = w.code.len() as int;
    let cond = p as usize;
    let yes = (p + 1) as usize;
    let done = (p + 2) as usize;
    let w4 = while_asked(w);
    let (w5, test) = expr_made(w4, condition, Native::Bool);
    let w7 = while_inside(w, condition);
    let w8 = scoped_made(w7, l.body).0;
    let wf = loop_made(w, l);
    let q = w5.code.len() as int;
    let e = w8.code.len() as int;
    let world1 = once_more(world);
    let frames = seen(world.frames, f);
    let here = at(m, p);
    run_at(c, m);
    let m1 = at(m, p + 5);
    lemma_at_went(f, p, guard, m, p + 5);
    lemma_still_mirrors(w, w4, frames, here, m1);
    lemma_guarded_frames(w, w4, bars.fixed, guard);
    assert(abreast(c, w4, env, f, world1, m1));
    let k = sim_sc(c, w4, env, f, condition, Native::Bool, None, d, world1, m1);
    let m2 = steps(c, m1, k);
    lemma_steps_add(c, m, 1, k);
    let rc = meaning(d, world1, condition, None);
    lemma_passed_went(f, w4, w5, m1, m2, p, bars.fixed, guard);
    lemma_went_then(f, p, p, guard, guard, m, m1, m2);
    lemma_still_mirrors(w4, w5, frames, m1, m2);
    assert(same_level(f.base, world, rc.0));
    let bit = rc.1->Ok_0->Bool_0;
    if bit {
        run_to(c, m2, yes, q + 1);
        lemma_steps_add(c, m, 1 + k, 1);
        let m3 = at(m2, q + 1);
        run_at(c, m3);
        lemma_steps_add(c, m, 1 + k + 1, 1);
        let m4 = at(m2, q + 2);
        assert(at(m3, q + 2) == m4);
        lemma_at_went(f, p, guard, m2, q + 2);
        lemma_went_then(f, p, p, guard, guard, m, m2, m4);
        lemma_still_mirrors(w5, w7, frames, m2, m4);
        lemma_guarded_frames(w, w7, bars.fixed, guard);
        assert(ready(c, w7, env, f, bars1, guard, rc.0, m4));
        let h = sim_scoped(c, w7, env, f, l.body, bars1, guard, d, rc.0, m4);
        let m5 = steps(c, m4, h);
        lemma_steps_add(c, m, k + 3, h);
        let r2 = does_scoped(d, rc.0, l.body);
        let world2 = r2.0;
        lemma_went_then(f, p, w7.code.len() as int, guard, guard, m, m4, m5);
        run_to(c, m5, cond, p + 4);
        lemma_steps_add(c, m, k + 3 + h, 1);
        let m6 = at(m5, p + 4);
        lemma_at_went(f, p, guard, m5, p + 4);
        lemma_went_then(f, p, p, guard, guard, m, m5, m6);
        lemma_still_mirrors(w8, w8, seen(world2.frames, f), m5, at(m6, p));
        lemma_went_shift(f, p, guard, m, m6, p);
        lemma_agreed_back(w, w8, f, frames, world2, here, at(m6, p), p, bars, guard);
        lemma_level_then(f.base, world, rc.0, world2);
        assert(ready(c, w, env, f, bars, guard, world2, at(m6, p)));
        let g = sim_while(c, w, env, f, l, bars, guard, d, world2, m6, acc);
        lemma_steps_add(c, m, k + 4 + h, g);
        lemma_went_then(f, p, p, guard, guard, m, m6, steps(c, m6, g));
        lemma_level_then(f.base, world, world2, does_while(d, world, l, acc).0);
        k + 4 + h + g
    } else {
        run_to(c, m2, done, e + 1);
        lemma_steps_add(c, m, 1 + k, 1);
        let m3 = at(m2, e + 1);
        run_at(c, m3);
        lemma_steps_add(c, m, 1 + k + 1, 1);
        let m4 = at(m2, e + 2);
        assert(at(m3, e + 2) == m4);
        lemma_at_went(f, p, guard, m2, e + 2);
        lemma_went_then(f, p, p, guard, guard, m, m2, m4);
        lemma_still_mirrors(w5, wf, frames, m2, m4);
        lemma_guarded_frames(w, wf, bars.fixed, guard);
        k + 3
    }
}

#[verifier::spinoff_prover]
proof fn sim_looping(
    c: CompiledView,
    w: WorkView,
    env: Env,
    f: Framing,
    l: LoopStmt,
    bars: Bars,
    guard: Set<int>,
    d: nat,
    world: World,
    m: Machine,
) -> (n: nat)
    requires
        l.kind is While,
        loop_ok(env, l, bars),
        ready(c, w, env, f, bars, guard, world, m),
        sees(c, loop_made(w, l)),
        does_while(d, world, l, Seq::empty()).1 is Ok,
    ensures
        ({
            let world1 = does_while(d, world, l, Seq::empty()).0;
            let wf = loop_made(w, l);
            &&& same_level(f.base, world, world1)
            &&& agreed(w, wf, f, world1, m, steps(c, m, n), wf.code.len() as int, bars, guard)
        }),
    decreases d, l, u64::MAX + 1,
{
    let bars1 = Bars { back: None, ..bars };
    loop_parts(w, l);
    calm_while(w, env, l.kind->While_condition, l.body, bars1);
    lemma_while_code(c, w, env, l.kind->While_condition, l.body, bars1);
    let p = w.code.len() as int;
    run_at(c, m);
    let m1 = at(m, p + 1);
    run_at(c, m1);
    lemma_steps_add(c, m, 1, 1);
    let m2 = at(m, p + 2);
    assert(at(m1, p + 2) == m2);
    run_at(c, m2);
    lemma_steps_add(c, m, 2, 1);
    let m3 = at(m, p + 3);
    assert(at(m2, p + 3) == m3);
    run_to(c, m3, p as usize, p + 4);
    lemma_steps_add(c, m, 3, 1);
    let m4 = at(m, p + 4);
    assert(at(m3, p + 4) == m4);
    lemma_at_went(f, p, guard, m, p + 4);
    assert(at(m4, p) == m) by {
        assert(m.calls =~= seq![top(m)]);
    }
    let k = sim_while(c, w, env, f, l, bars, guard, d, world, m4, Seq::empty());
    lemma_steps_add(c, m, 4, k);
    lemma_went_then(f, p, p, guard, guard, m, m4, steps(c, m4, k));
    4 + k
}

// ── counted loops ───────────────────────────────────────────────────────────

/// What the program holds of a counted loop.
#[verifier::spinoff_prover]
#[verifier::rlimit(30)]
proof fn lemma_counted_code(c: CompiledView, w: WorkView, env: Env, var: Seq<char>, b: Bounds, body: Vec<Stmt>, bars: Bars) -> (q: int)
    requires
        all_ok(bound(inner(env), var, Native::Int), body, 0, bars),
        bars.back is None,
        attuned(w, env),
        env.digits == DEFAULT_DIGITS,
        b.start.kind == Kind::Word,
        b.end.kind == Kind::Word,
        b.step.kind == Kind::Word,
        sound(c),
        sees(c, counted_made(w, var, b, body)),
    ensures
        ({
            let w2 = counted_inside(w, var, b);
            let w3 = block_made(w2, body, 0).0;
            let w4 = scope_released(without_continue(w3));
            let r = w4.code.len() as int + 1;
            let wf = counted_made(w, var, b, body);
            &&& loop_code(c.main.code, w.code.len() as int, q, r, b)
            &&& sees(c, w3)
            &&& sees(c, w4)
            &&& w2.code.len() == q + 16
            &&& q + 16 <= w3.code.len() <= w4.code.len()
            &&& wf.code.len() == r + 11
            &&& c.main.code[r - 1] == Inst::Jump((q + 14) as usize)
            &&& loop_entered(w, b).1.slot == (q + 1) as usize
            &&& w.code.len() + 5 < q
        }),
{
    let q = entered_parts(w, b);
    inside_attuned(w, env, var, b);
    let _ = calm_counted(w, env, var, b, body, bars);
    let (w1, l) = loop_entered(w, b);
    let w2 = counted_inside(w, var, b);
    let w3 = block_made(w2, body, 0).0;
    let w3c = without_continue(w3);
    let w4 = scope_released(w3c);
    let w4f = WorkView { frames: w.frames, ..w4 };
    let jump = Inst::Jump(l.step);
    let w5 = put(w4f, jump);
    let wf = counted_made(w, var, b, body);
    left_parts(w5, b, l);
    let r = w5.code.len() as int;
    lemma_block(w2, body, 0);
    assert(extended(w5.code, wf.code));
    assert(w5.texts == wf.texts);
    lemma_extended_then(w5.code, wf.code, c.main.code);
    assert(sees(c, w5));
    lemma_sees_put(c, w4f, jump);
    assert(sees(c, w4));
    lemma_sees_before(c, w3c, w4);
    assert(sees(c, w3));
    lemma_sees_stride(c, w2, w3);
    assert(w2.code.len() <= w3.code.len()) by {
        reveal(stride);
    }
    assert(w5.code[r - 1] == jump);
    lemma_code(c, w5, r - 1);
    lemma_loop_code(c.main.code, w1.code, wf.code, w.code.len() as int, q, r, b);
    q
}

/// The body of a counted loop begins with the counter on both sides.
#[verifier::spinoff_prover]
proof fn lemma_counter(
    w: WorkView,
    env: Env,
    var: Seq<char>,
    b: Bounds,
    q: int,
    frames: Frames,
    m: Machine,
    i: i128,
    fixed: Set<Seq<char>>,
    guard: Set<int>,
)
    requires
        attuned(w, env),
        b.start.kind == Kind::Word,
        b.end.kind == Kind::Word,
        b.step.kind == Kind::Word,
        loop_entered(w, b).1.slot == (q + 1) as usize,
        loop_entered(w, b).0.code.len() == q + 16,
        q + 16 <= usize::MAX,
        w.code.len() <= q,
        mirrors(w, frames, m),
        guarded(w, fixed, guard),
        slot(top(m).slots, q + 1, 0) == Datum::Word(i),
    ensures
        mirrors(counted_inside(w, var, b), declared_in(frames.push(Map::empty()), var, Val::Int(i)), m),
        guarded(counted_inside(w, var, b), fixed.insert(var), guard.insert(q + 1)),
        forall|floor: nat| #[trigger] no_older(w, m, floor) && floor <= m.heap.len() ==> no_older(
            counted_inside(w, var, b),
            m,
            floor,
        ),
{
    inside_attuned(w, env, var, b);
    lemma_opens(w, frames, m, fixed, guard);
    let w0 = with_frame(w);
    let w2 = counted_inside(w, var, b);
    assert(w2.frames == declared(w0, var, (q + 1) as usize, Native::Int).frames) by {
        reveal(declared);
        reveal(with_frame);
        let x = declared(w0, var, (q + 1) as usize, Native::Int).frames;
        assert(x.last() =~= seq![LocalView { name: var, slot: (q + 1) as usize, native: Native::Int }]);
        assert(x =~= w2.frames);
    }
    lemma_declares(w0, w2, frames.push(Map::empty()), m, m, var, (q + 1) as usize, Native::Int, Val::Int(i), fixed, guard);
    assert forall|x: int, y: int|
        #![trigger w2.frames[x][y]]
        0 <= x < w2.frames.len() && 0 <= y < w2.frames[x].len() && guard.insert(q + 1).contains(
            w2.frames[x][y].slot as int,
        ) implies fixed.insert(var).contains(w2.frames[x][y].name) by {
        if x < w.frames.len() {
            assert(w2.frames[x] == w.frames[x]);
            assert(mirrored(w, frames[x], m, w.frames[x][y]));
        }
    }
}

proof fn lemma_turned(
    f: Framing,
    w: WorkView,
    wf: WorkView,
    frames: Frames,
    m: Machine,
    m1: Machine,
    n: int,
    pc: int,
    k: int,
    fixed: Set<Seq<char>>,
    guard: Set<int>,
)
    requires
        mirrors(w, frames, m),
        turned(n, m, m1, pc),
        w.code.len() <= n,
        w.code.len() <= k,
        wf.frames == w.frames,
        w.code.len() <= wf.code.len(),
        guarded(w, fixed, guard),
        forall|x: int, y: int| x != k ==> #[trigger] slot(top(m1).slots, x, y) == slot(top(m).slots, x, y),
    ensures
        mirrors(wf, frames, m1),
        forall|floor: nat| #[trigger] no_older(w, m, floor) ==> no_older(wf, m1, floor),
        went(f, w.code.len() as int, guard, m, m1),
        guarded(wf, fixed, guard),
{
    assert(keeps_below(w.code.len() as int, top(m), top(m1)));
    lemma_still_mirrors(w, wf, frames, m, m1);
    assert forall|x: int| guard.contains(x) implies #[trigger] slot(top(m1).slots, x, 0) == slot(top(m).slots, x, 0) by {}
}

/// A counted loop, from its test.
#[verifier::spinoff_prover]
#[verifier::rlimit(60)]
proof fn sim_counted(
    c: CompiledView,
    w: WorkView,
    env: Env,
    f: Framing,
    var: Seq<char>,
    b: Bounds,
    body: Vec<Stmt>,
    span: Span,
    q: int,
    bars: Bars,
    guard: Set<int>,
    d: nat,
    world: World,
    m: Machine,
    i: i128,
    to: i128,
    by: i128,
    acc: Seq<Val>,
) -> (n: nat)
    requires
        !bars.params.contains(var),
        all_ok(
            bound(inner(env), var, Native::Int),
            body,
            0,
            Bars { fixed: bars.fixed.insert(var), back: None, ..bars },
        ),
        ready(c, w, env, f, bars, guard, world, at(m, w.code.len() as int)),
        running(m),
        sees(c, block_made(counted_inside(w, var, b), body, 0).0),
        sees(c, scope_released(without_continue(block_made(counted_inside(w, var, b), body, 0).0))),
        b.start.kind == Kind::Word,
        b.end.kind == Kind::Word,
        b.step.kind == Kind::Word,
        b.end.at < w.code.len(),
        b.step.at < w.code.len(),
        ({
            let w3 = block_made(counted_inside(w, var, b), body, 0).0;
            let w4 = scope_released(without_continue(w3));
            let r = w4.code.len() as int + 1;
            &&& loop_code(c.main.code, w.code.len() as int, q, r, b)
            &&& counted_made(w, var, b, body).code.len() == r + 11
            &&& c.main.code[r - 1] == Inst::Jump((q + 14) as usize)
            &&& q + 16 <= w3.code.len() <= w4.code.len()
        }),
        counted_inside(w, var, b).code.len() == q + 16,
        loop_entered(w, b).1.slot == (q + 1) as usize,
        top(m).pc == q + 7,
        slot(top(m).slots, q + 1, 0) == Datum::Word(i),
        reg(top(m), w.code.len() as usize) == Datum::Word(0),
        reg(top(m), b.end.at) == Datum::Word(to),
        reg(top(m), b.step.at) == Datum::Word(by),
        by != 0,
        does_counted(d, world, body, var, span, i as int, to as int, by as int, acc).1 is Ok,
    ensures
        ({
            let world1 = does_counted(d, world, body, var, span, i as int, to as int, by as int, acc).0;
            let wf = counted_made(w, var, b, body);
            &&& same_level(f.base, world, world1)
            &&& agreed(w, wf, f, world1, m, steps(c, m, n), wf.code.len() as int, bars, guard)
        }),
    decreases d, body, body@.len() + 2 + range_left(i as int, to as int, by as int),
{
    let p = w.code.len() as int;
    let bars1 = Bars { fixed: bars.fixed.insert(var), back: None, ..bars };
    let w2 = counted_inside(w, var, b);
    let w3 = block_made(w2, body, 0).0;
    let w3c = without_continue(w3);
    let w4 = scope_released(w3c);
    let wf = counted_made(w, var, b, body);
    let r = w4.code.len() as int + 1;
    does_counted_next(d, world, body, var, span, i as int, to as int, by as int, acc);
    inside_attuned(w, env, var, b);
    let env3 = calm_counted(w, env, var, b, body, bars1);
    let frames = seen(world.frames, f);
    let here = at(m, p);
    lemma_still_mirrors(w, w, frames, here, m);
    let n1 = run_test(c, m, p, q, r, b, i, to, by);
    let m1 = steps(c, m, n1);
    if !in_range(i as int, to as int, by as int) {
        lemma_turned(f, w, wf, frames, m, m1, q + 8, r + 11, q + 1, bars.fixed, guard);
        n1
    } else {
        lemma_turned(f, w, w, frames, m, m1, q + 8, q + 16, q + 1, bars.fixed, guard);
        let world1 = once_more(world);
        let world2 = defined(opened(world1), var, Val::Int(i));
        lemma_counter(w, env, var, b, q, frames, m1, i, bars.fixed, guard);
        lemma_seen_opened(world1, f);
        lemma_seen_defined(opened(world1), f, var, Val::Int(i));
        let guard1 = guard.insert(q + 1);
        let env2 = bound(inner(env), var, Native::Int);
        assert(mirrors(w2, seen(world2.frames, f), m1));
        assert(ready(c, w2, env2, f, bars1, guard1, world2, m1));
        let h = sim_block(c, w2, env2, f, body, 0, bars1, guard1, d, world2, m1);
        let m2 = steps(c, m1, h);
        lemma_steps_add(c, m, n1, h);
        let out = does_block(d, world2, body, 0);
        let world3 = out.0;
        let world4 = closed_scope(world3);
        lemma_seen_closed(world3, f);
        assert(out == normally(world3));
        assert(went(f, p, guard, m1, m2));
        lemma_went_then(f, p, p, guard, guard, m, m1, m2);
        // The end of the body.
        let inside = seen(world3.frames, f);
        lemma_still_mirrors(w3, w3c, inside, m2, m2);
        lemma_attuned(w3, w3c, env3);
        let n2 = run_scope(c, w3c, env3.s, inside, m2);
        lemma_steps_add(c, m, n1 + h, n2);
        let m3 = steps(c, m2, n2);
        lemma_guarded_frames(w3, w3c, bars1.fixed, guard1);
        lemma_freed_spared(f, w3c, m2, m3, w3c.frames.len() - 1);
        lemma_freed_went(f, w3c, w4, m2, m3, q + 16, bars1.fixed, guard1, w3c.frames[w3c.frames.len() - 1]);
        assert(went(f, p, guard, m2, m3));
        lemma_went_then(f, p, p, guard, guard, m, m2, m3);
        let w4f = WorkView { frames: w.frames, ..w4 };
        assert(w3.frames.drop_last() =~= w.frames) by {
            reveal(stride);
            assert forall|x: int| 0 <= x < w.frames.len() implies w3.frames[x] == w.frames[x] by {
                assert(w3.frames[x] == w2.frames[x]);
            }
        }
        lemma_closes(w3c, w4f, inside, m2, m3, bars.fixed, guard);
        assert(slot(top(m3).slots, q + 1, 0) == Datum::Word(i)) by {
            assert(slot(top(m2).slots, q + 1, 0) == slot(top(m1).slots, q + 1, 0));
        }
        assert forall|z: usize| z < q + 8 implies #[trigger] reg(top(m3), z) == reg(top(m), z) by {
            assert(reg(top(m3), z) == reg(top(m2), z));
            assert(reg(top(m2), z) == reg(top(m1), z));
            assert(reg(top(m1), z) == reg(top(m), z));
        }
        run_to(c, m3, (q + 14) as usize, r);
        lemma_steps_add(c, m, n1 + h + n2, 1);
        let mr = at(m3, r);
        lemma_at_went(f, p, guard, m3, r);
        lemma_went_then(f, p, p, guard, guard, m, m3, mr);
        lemma_still_mirrors(w4f, w4f, frames_after(world4, f), m3, mr);
        lemma_agreed_back(w, w4f, f, frames, world4, m, mr, r, bars, guard);
        let k = run_advance(c, mr, p, q, r, b, i, by);
        let m5 = steps(c, mr, k);
        lemma_steps_add(c, m, n1 + h + n2 + 1, k);
        assert(same_level(f.base, world, world4));
        let goal = if fits(i + by) {
            q + 7
        } else {
            r + 11
        };
        let frames4 = seen(world4.frames, f);
        if fits(i + by) {
            lemma_turned(f, w, w, frames4, mr, m5, r, goal, q + 1, bars.fixed, guard);
            lemma_went_then(f, p, p, guard, guard, m, mr, m5);
            lemma_still_mirrors(w, w, frames4, m5, at(m5, p));
            assert(reg(top(m5), p as usize) == reg(top(mr), p as usize));
            assert(reg(top(m3), p as usize) == reg(top(m), p as usize));
            let g = sim_counted(
                c,
                w,
                env,
                f,
                var,
                b,
                body,
                span,
                q,
                bars,
                guard,
                d,
                world4,
                m5,
                (i + by) as i128,
                to,
                by,
                acc,
            );
            lemma_steps_add(c, m, n1 + h + n2 + 1 + k, g);
            lemma_went_then(f, p, p, guard, guard, m, m5, steps(c, m5, g));
            n1 + h + n2 + 1 + k + g
        } else {
            does_counted_next(d, world4, body, var, span, i + by, to as int, by as int, acc);
            lemma_turned(f, w, wf, frames4, mr, m5, r, goal, q + 1, bars.fixed, guard);
            lemma_went_then(f, p, p, guard, guard, m, mr, m5);
            n1 + h + n2 + 1 + k
        }
    }
}

pub open spec fn frames_after(world: World, f: Framing) -> Frames {
    seen(world.frames, f)
}

/// Where a counted loop starts, whatever its bounds print.
#[verifier::spinoff_prover]
proof fn counted_start(
    d: nat,
    world: World,
    l: LoopStmt,
    var: String,
    range: Expr,
    from: Expr,
    to: Expr,
    by: Option<Box<Expr>>,
)
    requires
        does_stmt(d, world, Stmt::Loop(l)).1 is Ok,
        l.kind matches LoopKind::Counted { var: v, range: x, .. } && v == var && x == range,
        inside_range(range).kind == (ExprKind::Range { from: Box::new(from), to: Box::new(to), by }),
    ensures
        ({
            let a = meaning(d, world, from, whole());
            let e = meaning(d, a.0, to, whole());
            &&& a.1 is Ok
            &&& e.1 is Ok
            &&& a.1->Ok_0 is Int && e.1->Ok_0 is Int ==> match by {
                None => counted_on2(d, world, e.0, l, var@, a.1->Ok_0->Int_0, e.1->Ok_0->Int_0, 1),
                Some(x) => {
                    let g = meaning(d, e.0, *x, whole());
                    &&& g.1 is Ok
                    &&& g.1->Ok_0 is Int ==> counted_on2(
                        d,
                        world,
                        g.0,
                        l,
                        var@,
                        a.1->Ok_0->Int_0,
                        e.1->Ok_0->Int_0,
                        g.1->Ok_0->Int_0,
                    )
                },
            }
        }),
{
    reveal(does_stmt);
    reveal(does_counted);
    reveal(meaning);
}

/// Whether a loop goes through a range, from where its bounds left the world, and comes to an
/// end.
pub open spec fn counted_on2(d: nat, world: World, world1: World, l: LoopStmt, var: Seq<char>, from: i128, to: i128, by: i128) -> bool {
    let r = does_counted(d, world1, l.body, var, l.span, from as int, to as int, by as int, Seq::empty());
    &&& by != 0
    &&& r.1 is Ok
    &&& does_stmt(d, world, Stmt::Loop(l)) == normally(r.0)
}

#[verifier::spinoff_prover]
proof fn sim_step(c: CompiledView, w: WorkView, env: Env, f: Framing, by: Option<Box<Expr>>, d: nat, world: World, m: Machine) -> (n: nat)
    requires
        step_ok(env, by),
        abreast(c, w, env, f, world, m),
        m.line.len() == 0,
        sees(c, step_made(w, by).0),
        by matches Some(e) ==> meaning(d, world, *e, whole()).1 is Ok,
    ensures
        evaluated(
            w,
            step_made(w, by).0,
            step_made(w, by).1,
            world,
            match by {
                Some(e) => meaning(d, world, *e, whole()).0,
                None => world,
            },
            m,
            steps(c, m, n),
            Native::Int,
            match by {
                Some(e) => meaning(d, world, *e, whole()).1->Ok_0,
                None => Val::Int(1),
            },
        ),
    decreases d, by, 0nat,
{
    calm_step(w, env, by);
    match by {
        Some(e) => sim_sc(c, w, env, f, *e, Native::Int, whole(), d, world, m),
        None => {
            run_value(c, w, m, Inst::Word(1), Datum::Word(1));
            lemma_ran_passed(w, step_made(w, by).0, m, steps(c, m, 1));
            1
        },
    }
}

#[verifier::spinoff_prover]
#[verifier::rlimit(60)]
proof fn sim_counting(
    c: CompiledView,
    w: WorkView,
    env: Env,
    f: Framing,
    l: LoopStmt,
    bars: Bars,
    guard: Set<int>,
    d: nat,
    world: World,
    m: Machine,
) -> (n: nat)
    requires
        l.kind is Counted,
        loop_ok(env, l, bars),
        ready(c, w, env, f, bars, guard, world, m),
        sees(c, loop_made(w, l)),
        does_stmt(d, world, Stmt::Loop(l)).1 is Ok,
    ensures
        ({
            let r = does_stmt(d, world, Stmt::Loop(l));
            let wf = loop_made(w, l);
            &&& r == normally(r.0)
            &&& same_level(f.base, world, r.0)
            &&& agreed(w, wf, f, r.0, m, steps(c, m, n), wf.code.len() as int, bars, guard)
        }),
    decreases d, l, u64::MAX + 1,
{
    let var = l.kind->Counted_var;
    let range = l.kind->Counted_range;
    let part = inside_range(range);
    let from = *part.kind->Range_from;
    let to = *part.kind->Range_to;
    let by = part.kind->Range_by;
    let bars1 = Bars { fixed: bars.fixed.insert(var@), back: None, ..bars };
    loop_parts(w, l);
    calm_bounds(w, env, range, from, to, by);
    counted_start(d, world, l, var, range, from, to, by);
    let (w1, a) = expr_made(w, from, Native::Int);
    let (w2, e) = expr_made(w1, to, Native::Int);
    let (w3, g) = step_made(w2, by);
    let b = Bounds { start: a, end: e, step: g };
    crate::codegen::laws::lemma_counted(w3, var@, b, l.body);
    lemma_sees_step(c, w3, loop_made(w, l));
    lemma_sees_before(c, w2, w3);
    lemma_sees_before(c, w1, w2);
    let ra = meaning(d, world, from, whole());
    let n1 = sim_sc(c, w, env, f, from, Native::Int, whole(), d, world, m);
    let m1 = steps(c, m, n1);
    lemma_abreast_then(c, w, w1, env, f, world, ra.0, m, m1);
    let re = meaning(d, ra.0, to, whole());
    let n2 = sim_sc(c, w1, env, f, to, Native::Int, whole(), d, ra.0, m1);
    let m2 = steps(c, m1, n2);
    lemma_steps_add(c, m, n1, n2);
    lemma_passed_then(w, w1, w2, m, m1, m2);
    lemma_abreast_then(c, w1, w2, env, f, ra.0, re.0, m1, m2);
    let n3 = sim_step(c, w2, env, f, by, d, re.0, m2);
    let m3 = steps(c, m2, n3);
    lemma_steps_add(c, m, n1 + n2, n3);
    lemma_passed_then(w, w2, w3, m, m2, m3);
    let world3 = match by {
        Some(x) => meaning(d, re.0, *x, whole()).0,
        None => re.0,
    };
    lemma_abreast_then(c, w2, w3, env, f, re.0, world3, m2, m3);
    let x = ra.1->Ok_0->Int_0;
    let y = re.1->Ok_0->Int_0;
    let z = match by {
        Some(s) => meaning(d, re.0, *s, whole()).1->Ok_0->Int_0,
        None => 1,
    };
    assert(counted_on2(d, world, world3, l, var@, x, y, z));
    assert(reg(top(m2), a.at) == Datum::Word(x));
    assert(reg(top(m3), a.at) == Datum::Word(x));
    assert(reg(top(m3), e.at) == Datum::Word(y));
    assert(reg(top(m3), g.at) == Datum::Word(z));
    let p0 = w.code.len() as int;
    lemma_passed_went(f, w, w3, m, m3, p0, bars.fixed, guard);
    lemma_guarded_frames(w, w3, bars.fixed, guard);
    let q = lemma_counted_code(c, w3, env, var@, b, l.body, bars1);
    let p = w3.code.len() as int;
    let wb = block_made(counted_inside(w3, var@, b), l.body, 0).0;
    let r = scope_released(without_continue(wb)).code.len() as int + 1;
    let n4 = run_entry(c, m3, p, q, r, b, x, z);
    let m4 = steps(c, m3, n4);
    lemma_steps_add(c, m, n1 + n2 + n3, n4);
    let frames = seen(world3.frames, f);
    lemma_turned(f, w3, w3, frames, m3, m4, p, q + 7, q + 1, bars.fixed, guard);
    lemma_went_then(f, p0, p, guard, guard, m, m3, m4);
    lemma_still_mirrors(w3, w3, frames, m4, at(m4, p));
    assert(ready(c, w3, env, f, bars, guard, world3, at(m4, p)));
    let n5 = sim_counted(
        c,
        w3,
        env,
        f,
        var@,
        b,
        l.body,
        l.span,
        q,
        bars,
        guard,
        d,
        world3,
        m4,
        x,
        y,
        z,
        Seq::empty(),
    );
    lemma_steps_add(c, m, n1 + n2 + n3 + n4, n5);
    lemma_went_then(f, p0, p, guard, guard, m, m4, steps(c, m4, n5));
    n1 + n2 + n3 + n4 + n5
}

// ── statements ──────────────────────────────────────────────────────────────

#[verifier::spinoff_prover]
proof fn effect_meaning(d: nat, world: World, e: Expr)
    requires
        does_stmt(d, world, Stmt::Expr(e)).1 is Ok,
    ensures
        meaning(d, world, e, None).1 is Ok,
        does_stmt(d, world, Stmt::Expr(e)) == normally(meaning(d, world, e, None).0),
{
    reveal(does_stmt);
    reveal(meaning);
}

#[verifier::spinoff_prover]
proof fn sim_stmt(
    c: CompiledView,
    w: WorkView,
    env: Env,
    f: Framing,
    stmt: Stmt,
    bars: Bars,
    guard: Set<int>,
    d: nat,
    world: World,
    m: Machine,
) -> (n: nat)
    requires
        ok(env, stmt, bars),
        ready(c, w, env, f, bars, guard, world, m),
        sees(c, stmt_made(w, stmt).0),
        does_stmt(d, world, stmt).1 is Ok,
    ensures
        outcome(
            c,
            w,
            stmt_made(w, stmt).0,
            stmt_made(w, stmt).1,
            f,
            world,
            does_stmt(d, world, stmt),
            m,
            steps(c, m, n),
            stmt_made(w, stmt).0.code.len() as int,
            bars,
            guard,
        ),
    decreases d, stmt, 0nat,
{
    stmt_parts(w, stmt);
    other_stmt(w, stmt);
    does_stmt_parts(d, world, stmt);
    match stmt {
        Stmt::Func(_) => {
            assert(m.calls =~= seq![top(m)]);
            0
        },
        Stmt::Var(v) => sim_bindings(c, w, env, f, v, 0, bars, guard, d, world, m),
        Stmt::Change(ch) => sim_targets(c, w, env, f, ch, 0, bars, guard, d, world, m),
        Stmt::Print { args, .. } => sim_printing(c, w, env, f, args, bars, guard, d, world, m),
        Stmt::If(chain) => sim_if(c, w, env, f, chain, bars, guard, d, world, m),
        Stmt::Loop(l) => if l.kind is While {
            sim_looping(c, w, env, f, l, bars, guard, d, world, m)
        } else {
            sim_counting(c, w, env, f, l, bars, guard, d, world, m)
        },
        Stmt::Handback { value, .. } => {
            does_handback(d, world, stmt);
            sim_handback(c, w, env, f, value, bars, guard, d, world, m)
        },
        Stmt::Expr(e) => {
            effect_meaning(d, world, e);
            sim_effect(c, w, env, f, e, bars, guard, d, world, m)
        },
    }
}

// ── programs ────────────────────────────────────────────────────────────────

pub open spec fn signatures_of(p: Program) -> Seq<SigView> {
    signatures(p.statements@, p.statements@.len())->Ok_0
}

pub open spec fn functions_of(p: Program) -> Seq<FuncDecl> {
    functions_in(p.statements@, p.statements@.len())
}

/// A program on single values and arrays: its functions and its statements.
pub open spec fn plain_program(p: Program) -> bool {
    let fns = signatures_of(p);
    let functions = functions_of(p);
    &&& signatures(p.statements@, p.statements@.len()) is Ok
    &&& forall|k: int| 0 <= k < functions.len() ==> function_ok(fns, functions, #[trigger] functions[k], fns[k])
    &&& all_ok(
        Env { s: seq![Map::empty()], fns, functions, digits: DEFAULT_DIGITS },
        p.statements,
        0,
        Bars { fixed: Set::empty(), params: Set::empty(), back: None },
    )
}

/// Whether the code and the texts of a program can be counted in machine words.
pub open spec fn countable(c: CompiledView) -> bool {
    &&& c.main.code.len() <= usize::MAX
    &&& c.main.texts.len() <= usize::MAX
    &&& c.functions.len() <= usize::MAX
    &&& forall|k: int| 0 <= k < c.functions.len() ==> (#[trigger] c.functions[k]).code.len() <= usize::MAX
        && c.functions[k].texts.len() <= usize::MAX
}

proof fn lemma_signatures(stmts: Seq<Stmt>, n: nat)
    requires
        n <= stmts.len(),
        signatures(stmts, n) is Ok,
    ensures
        signatures(stmts, n)->Ok_0.len() == functions_in(stmts, n).len(),
        forall|k: int|
            0 <= k < functions_in(stmts, n).len() ==> signature(#[trigger] functions_in(stmts, n)[k]) == Ok::<SigView, Seq<char>>(
                signatures(stmts, n)->Ok_0[k],
            ),
    decreases n,
{
    if n > 0 {
        lemma_signatures(stmts, (n - 1) as nat);
        let before = functions_in(stmts, (n - 1) as nat);
        let all = functions_in(stmts, n);
        let sigs = signatures(stmts, (n - 1) as nat)->Ok_0;
        assert forall|k: int| 0 <= k < all.len() implies signature(#[trigger] all[k]) == Ok::<SigView, Seq<char>>(
            signatures(stmts, n)->Ok_0[k],
        ) by {
            if k < before.len() {
                assert(all[k] == before[k]);
            }
        }
    }
}

proof fn lemma_functions_grow(stmts: Seq<Stmt>, i: nat, n: nat)
    requires
        i <= n <= stmts.len(),
    ensures
        functions_in(stmts, i).len() <= functions_in(stmts, n).len(),
        forall|k: int|
            0 <= k < functions_in(stmts, i).len() ==> functions_in(stmts, n)[k] == #[trigger] functions_in(stmts, i)[k],
    decreases n,
{
    if i < n {
        lemma_functions_grow(stmts, i, (n - 1) as nat);
        let a = functions_in(stmts, i);
        let b = functions_in(stmts, (n - 1) as nat);
        assert forall|k: int| 0 <= k < a.len() implies functions_in(stmts, n)[k] == #[trigger] a[k] by {
            assert(b[k] == a[k]);
        }
    }
}

#[verifier::spinoff_prover]
proof fn lemma_functions_made(fns: Seq<SigView>, stmts: Seq<Stmt>, i: nat)
    requires
        i <= stmts.len(),
        functions_made(fns, stmts, i, functions_in(stmts, i).len()) is Ok,
    ensures
        ({
            let k = functions_in(stmts, i).len();
            let all = functions_in(stmts, stmts.len());
            let list = functions_made(fns, stmts, i, k)->Ok_0;
            &&& list.len() == all.len() - k
            &&& forall|j: int|
                0 <= j < list.len() ==> (#[trigger] list[j]).code == function_made(fns, all[k + j], fns[k + j]).code
                    && list[j].texts == function_made(fns, all[k + j], fns[k + j]).texts
        }),
    decreases stmts.len() - i,
{
    let k = functions_in(stmts, i).len();
    let all = functions_in(stmts, stmts.len());
    lemma_functions_grow(stmts, i, stmts.len());
    if i < stmts.len() {
        lemma_functions_grow(stmts, i + 1, stmts.len());
        lemma_functions_made(fns, stmts, i + 1);
        match stmts[i as int] {
            Stmt::Func(func) => {
                let list = functions_made(fns, stmts, i, k)->Ok_0;
                let rest = functions_made(fns, stmts, i + 1, k + 1)->Ok_0;
                assert(functions_in(stmts, i + 1)[k as int] == func);
                assert(all[k as int] == func);
                assert forall|j: int| 0 <= j < list.len() implies (#[trigger] list[j]).code == function_made(
                    fns,
                    all[k + j],
                    fns[k + j],
                ).code && list[j].texts == function_made(fns, all[k + j], fns[k + j]).texts by {
                    if j > 0 {
                        assert(list[j] == rest[j - 1]);
                        assert(rest[j - 1].code == function_made(fns, all[k + 1 + (j - 1)], fns[k + 1 + (j - 1)]).code);
                    }
                }
            },
            _ => {},
        }
    }
}

#[verifier::spinoff_prover]
proof fn lemma_good(p: Program)
    requires
        plain_program(p),
        lowered(p) is Ok,
        countable(lowered(p)->Ok_0),
    ensures
        good(lowered(p)->Ok_0, signatures_of(p), functions_of(p)),
        sound(lowered(p)->Ok_0),
        lowered(p)->Ok_0.main.code == main_made(signatures_of(p), p).code,
        lowered(p)->Ok_0.main.texts == main_made(signatures_of(p), p).texts,
{
    let c = lowered(p)->Ok_0;
    let fns = signatures_of(p);
    let functions = functions_of(p);
    crate::codegen::lowering::compiled_code_is_well_formed(p);
    lemma_signatures(p.statements@, p.statements@.len());
    assert(functions_in(p.statements@, 0).len() == 0);
    lemma_functions_made(fns, p.statements@, 0);
    assert forall|k: int| 0 <= k < functions.len() implies #[trigger] function_good(c, fns, functions, k) by {
        assert(signature(functions[k]) == Ok::<SigView, Seq<char>>(fns[k]));
        let list = c.functions;
        assert(list[k].code == function_made(fns, functions[k], fns[k]).code);
        assert(crate::codegen::lowering::function_fine(c.functions[k], fns));
        assert(function_ok(fns, functions, functions[k], fns[k]));
    }
}

/// A plain program that the interpreter runs to its end, compiled, comes to its end too and
/// has printed the same lines. Such a program has functions with parameters, which hand back
/// and call each other and themselves; whole numbers, decimals, fractions, truth values and
/// texts, with what can be done with them; conditionals, and loops that count or ask; and
/// arrays of any rank that are listed, named, kept whole, multiplied as arrays, worked on
/// position by position, or asked for their length or an element.
pub proof fn compiled_plain_programs_print_what_is_interpreted(p: Program, answers: Seq<AnswerView>) -> (fuel: nat)
    requires
        plain_program(p),
        lowered(p) is Ok,
        countable(lowered(p)->Ok_0),
        run_meaning(p, answers).error is None,
        run_meaning(p, answers).request is None,
    ensures
        machine_run(lowered(p)->Ok_0, answers, fuel) == Some(run_meaning(p, answers)),
{
    let c = lowered(p)->Ok_0;
    lemma_good(p);
    let fns = signatures_of(p);
    let functions = functions_of(p);
    let env = Env { s: seq![Map::empty()], fns, functions, digits: DEFAULT_DIGITS };
    let bars = Bars { fixed: Set::empty(), params: Set::empty(), back: None };
    let w0 = with_frame(fresh(fns, Native::Nothing, true));
    assert(attuned(w0, env) && w0.open && w0.code.len() == 0 && w0.texts.len() == 0 && w0.handbacks.len() == 0) by {
        reveal(with_frame);
        assert(w0.frames =~= seq![Seq::empty()]);
    }
    let w1 = block_made(w0, p.statements, 0).0;
    never_left(w0, env, p.statements, 0, bars);
    let env1 = calm_block(w0, env, p.statements, 0, bars);
    scope_quiet(w1, env1.s);
    let w2 = scope_released(w1);
    let zero = w2.code.len() as usize;
    let wf = main_made(fns, p);
    main_parts(p, fns);
    assert(wf == put(put(w2, Inst::Small(0)), Inst::Return(zero)));
    assert(sees(c, wf));
    lemma_sees_put(c, put(w2, Inst::Small(0)), Inst::Return(zero));
    lemma_sees_put(c, w2, Inst::Small(0));
    lemma_sees_before(c, w1, w2);
    let m = machine_for(answers);
    let world = fresh_world(functions, answers);
    let f = main_framing();
    let d = u64::MAX as nat;
    assert(does_block(d, world, p.statements, 0) == block_from(d, world, p.statements, 0)) by {
        reveal(does_block);
    }
    assert(seen(world.frames, f) =~= world.frames);
    assert(mirrors(w0, world.frames, m)) by {
        reveal(with_frame);
        assert(w0.frames =~= seq![Seq::empty()]);
    }
    assert(ready(c, w0, env, f, bars, Set::empty(), world, m));
    let n = sim_block(c, w0, env, f, p.statements, 0, bars, Set::empty(), d, world, m);
    let m1 = steps(c, m, n);
    let world1 = does_block(d, world, p.statements, 0).0;
    let k = run_scope(c, w1, env1.s, seen(world1.frames, f), m1);
    let m2 = steps(c, m1, k);
    lemma_steps_add(c, m, n, k);
    let e = w2.code.len() as int;
    assert(wf.code[e] == Inst::Small(0) && wf.code[e + 1] == Inst::Return(zero));
    crate::codegen::agreement::run_end(c, m2, zero);
    lemma_steps_add(c, m, n + k, 2);
    n + k + 2
}

/// The programs of which it is proved that compiling keeps what they print: those on single
/// values and arrays, with functions, and those on whole numbers with vectors that are listed
/// or that loops collect.
pub open spec fn compilable(p: Program) -> bool {
    plain_program(p) || gather_program(p)
}

/// A compilable program that the interpreter runs to its end, compiled, comes to its end too
/// and has printed the same lines.
pub proof fn compiled_programs_print_what_is_interpreted(p: Program, answers: Seq<AnswerView>) -> (fuel: nat)
    requires
        compilable(p),
        lowered(p) is Ok,
        countable(lowered(p)->Ok_0),
        run_meaning(p, answers).error is None,
        run_meaning(p, answers).request is None,
    ensures
        machine_run(lowered(p)->Ok_0, answers, fuel) == Some(run_meaning(p, answers)),
{
    if plain_program(p) {
        compiled_plain_programs_print_what_is_interpreted(p, answers)
    } else {
        compiled_collecting_programs_print_what_is_interpreted(p, answers)
    }
}

} // verus!
