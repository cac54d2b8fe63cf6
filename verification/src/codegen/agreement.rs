//! Compiled programs on whole numbers print what the interpreter prints.

use vstd::prelude::*;

use crate::ast::{
    ChangeStmt, Expr, ExprKind, IfChain, LoopKind, LoopStmt, Precision, Program, Stmt, TypeRef, VarDecl,
};
use crate::codegen::laws::{
    extended, lemma_arms, lemma_block, lemma_expr, operations_keep, released_step, lemma_scoped, step, stride,
};
use crate::codegen::lowering::{
    arms_made, bindings_made, block_made, counted_made, expr_made, if_made, joined, loop_entered,
    compiled_code_is_well_formed, fresh, loop_made, lowered, main_made, places_wanted, signatures,
    prints_made, scoped_made, stmt_made, step_made, targets_made, handback_made, push_made, with_digits,
    without_continue, Bounds, CompiledView,
};
use crate::codegen::machine::{
    array_in, checked, done, gave, machine_for, machine_run, reg, runtime_call, slot, place, stepped, steps,
    Activation, Boxed, Call, Datum, Ending, Held, Machine,
};
use crate::codegen::native::{kind_of, Native};
use crate::codegen::runtime::{takes, Kind, Rt};
use crate::codegen::simulation::{
    all_whole, came_to, cells, datum, holds_value, has_name, keeps_below, lemma_does, lemma_extended_then,
    lemma_first_local, lemma_found, lemma_local, lemma_place, lemma_quiet_then, lemma_ran_then,
    lemma_sees_before, lemma_sees_put, lemma_sees_step, lemma_steps_add, lemma_still_mirrors, meaning,
    mirrored, mirrors, quiet, ran, run_called, run_effect, run_value, running, sees, sim_expr, sound, stands,
    top, whole_context, with,
};
use crate::codegen::steps::{as_byte, element_pushed, printed};
use crate::runtime::array::{cell_texts, vector_of, ArrayView, CellView};
use crate::codegen::whole::{
    calm_block, calm_bounds, calm_counted, calm_entered, calm_if, calm_print, calm_prints, calm_scoped,
    calm_step, calm_stmt, calm_targets, calm_while, block_next, arms_next, arm_entered, arm_passed,
    counted_inside, entered_parts, inside_knows, knows, left_parts, lemma_called_quiet, lemma_knows_frames,
    lemma_no_temps, lemma_shown, loop_parts, plain, names_array, array_print_parts, made_binding, made_target,
    print_made, scopes_after, shown, stmt_parts, while_asked, while_inside, whole_arms, whole_binding,
    whole_block, whole_expr, whole_loop, whole_print, whole_step, whole_stmt, whole_target, whole_type,
    with_bindings, with_name, Scope, lemma_nothing_released, lemma_with_frame_knows,
};
use crate::codegen::work::{
    called, chars_made, declared, kinds, local_index, looked_up, put, scope_released, temps_released,
    with_frame, with_local, with_text, without_frame, CheckedOp, Handback, Inst, LocalView, Operand, Relation,
    WorkView,
};
use crate::diagnostics::position::Span;
use crate::eval::numeric::{binding_context, context_of, whole, DEFAULT_DIGITS};
use crate::eval::ops::{summed, AnswerView, StopView};
use crate::eval::semantics;
use crate::eval::semantics::{
    assigned, bindings_from, block_from, chain_from, counted_from, defined, expr_result, fresh_world,
    functions_in, holder, run_meaning, statement_result, targets_from, texts_from, while_from, FlowView,
    World,
};
use crate::eval::value::{comma_separated, item_texts, val_text, Val};
use crate::eval::select::{in_range, range_left};
use crate::text::{fits, int_text};

verus! {

// ── running side by side ────────────────────────────────────────────────────

/// What a run leaves alone: the registers below `n`, the guarded slots and the heap.
pub open spec fn went(n: int, guard: Set<int>, m: Machine, m1: Machine) -> bool {
    &&& running(m1)
    &&& m1.heap == m.heap
    &&& m1.answers == m.answers
    &&& m1.asked == m.asked
    &&& forall|i: usize| i < n ==> #[trigger] reg(top(m1), i) == reg(top(m), i)
    &&& forall|k: int| guard.contains(k) ==> #[trigger] slot(top(m1).slots, k, 0) == slot(top(m).slots, k, 0)
}

/// Whether the machine stands where the interpreter does, between two statements.
pub open spec fn joint(w: WorkView, world: World, m: Machine) -> bool {
    &&& mirrors(w, world, m)
    &&& running(m)
    &&& m.line.len() == 0
    &&& m.lines == world.lines
}

/// Guarded slots belong to no name but a fixed one.
pub open spec fn guarded(w: WorkView, fixed: Set<Seq<char>>, guard: Set<int>) -> bool {
    &&& forall|k: int| #[trigger] guard.contains(k) ==> 0 <= k < w.code.len()
    &&& forall|i: int, j: int|
        #![trigger w.frames[i][j]]
        0 <= i < w.frames.len() && 0 <= j < w.frames[i].len() && guard.contains(w.frames[i][j].slot as int)
            ==> fixed.contains(w.frames[i][j].name)
}

pub(crate) proof fn lemma_went_then(
    n: int,
    n1: int,
    guard: Set<int>,
    guard1: Set<int>,
    m: Machine,
    m1: Machine,
    m2: Machine,
)
    requires
        went(n, guard, m, m1),
        went(n1, guard1, m1, m2),
        n <= n1,
        guard.subset_of(guard1),
    ensures
        went(n, guard, m, m2),
{
}

pub(crate) proof fn lemma_ran_went(
    w: WorkView,
    w1: WorkView,
    m: Machine,
    m1: Machine,
    n: int,
    fixed: Set<Seq<char>>,
    guard: Set<int>,
)
    requires
        ran(w, w1, m, m1),
        n <= w.code.len(),
        guarded(w, fixed, guard),
    ensures
        went(n, guard, m, m1),
        m1.line == m.line,
        m1.lines == m.lines,
{
    assert forall|k: int| guard.contains(k) implies #[trigger] slot(top(m1).slots, k, 0) == slot(top(m).slots, k, 0) by {}
}

pub(crate) proof fn lemma_guarded_frames(w: WorkView, w1: WorkView, fixed: Set<Seq<char>>, guard: Set<int>)
    requires
        guarded(w, fixed, guard),
        w1.frames == w.frames,
        w.code.len() <= w1.code.len(),
    ensures
        guarded(w1, fixed, guard),
{
}

/// A name declared on both sides.
pub(crate) proof fn lemma_declares(
    w: WorkView,
    wf: WorkView,
    world: World,
    m: Machine,
    m1: Machine,
    name: Seq<char>,
    at: usize,
    native: Native,
    v: Val,
    fixed: Set<Seq<char>>,
    guard: Set<int>,
)
    requires
        mirrors(w, world, m),
        wf.frames == declared(w, name, at, native).frames,
        w.code.len() <= at < wf.code.len(),
        m1.heap == m.heap,
        holds_value(m1.heap, slot(top(m1).slots, at as int, 0), v, native),
        forall|k: int| 0 <= k < w.code.len() ==> #[trigger] slot(top(m1).slots, k, 0) == slot(top(m).slots, k, 0),
        guarded(w, fixed, guard),
    ensures
        mirrors(wf, defined(world, name, v), m1),
        guarded(wf, fixed, guard),
{
    reveal(declared);
    let l = LocalView { name, slot: at, native };
    let k = w.frames.len() - 1;
    let f = w.frames[k];
    let g = with_local(f, l);
    let world1 = defined(world, name, v);
    let p = local_index(f, name) as int;
    lemma_local(f, name);
    assert(w.frames.last() == f);
    assert(wf.frames[k] == g);
    assert(world1.frames[k] == world.frames[k].insert(name, v));
    assert forall|j: int| 0 <= j < f.len() && j != p implies (#[trigger] g[j]) == f[j] && f[j].name != name by {
        assert(local_index(f, w.frames[k][j].name) == j);
    }
    assert(g[p] == l);
    assert forall|i: int, j: int|
        #![trigger wf.frames[i][j]]
        0 <= i < wf.frames.len() && 0 <= j < wf.frames[i].len() implies {
        &&& mirrored(wf, world1.frames[i], m1, wf.frames[i][j])
        &&& local_index(wf.frames[i], wf.frames[i][j].name) == j
        &&& wf.frames[i][j].slot < w.code.len() || (i == k && j == p)
        &&& guard.contains(wf.frames[i][j].slot as int) ==> fixed.contains(wf.frames[i][j].name)
    } by {
        if i == k {
            assert(wf.frames[i][j] == g[j]);
            if j != p {
                assert(g[j] == f[j]);
                assert(mirrored(w, world.frames[k], m, w.frames[k][j]));
                assert(local_index(f, w.frames[k][j].name) == j);
            }
            assert forall|h: int| 0 <= h < j implies (#[trigger] g[h]).name != g[j].name by {
                assert(local_index(f, w.frames[k][h].name) == h);
                if j < f.len() {
                    assert(local_index(f, w.frames[k][j].name) == j);
                }
                lemma_local(f, f[h].name);
            }
            lemma_first_local(g, g[j].name, j as nat);
        } else {
            assert(wf.frames[i][j] == w.frames[i][j]);
            assert(mirrored(w, world.frames[i], m, w.frames[i][j]));
        }
    }
    assert forall|i: int, other: Seq<char>| 0 <= i < wf.frames.len() implies (#[trigger] has_name(wf.frames[i], other)
        <==> world1.frames[i].dom().contains(other)) by {
        assert(has_name(w.frames[i], other) <==> world.frames[i].dom().contains(other));
        if i == k {
            lemma_local(g, other);
            lemma_local(f, other);
            if has_name(f, other) {
                let h = local_index(f, other) as int;
                assert(g[h].name == other);
            }
            if has_name(g, other) {
                let h = local_index(g, other) as int;
                assert(g[h].name == other);
            }
        }
    }
    assert forall|i: int, j: int, x: int, y: int|
        #![trigger wf.frames[i][j], wf.frames[x][y]]
        0 <= i < wf.frames.len() && 0 <= j < wf.frames[i].len() && 0 <= x < wf.frames.len() && 0 <= y
            < wf.frames[x].len() && wf.frames[i][j].slot == wf.frames[x][y].slot implies i == x && j == y by {
        if !(i == k && j == p) && !(x == k && y == p) {
            assert(wf.frames[i][j] == w.frames[i][j]);
            assert(wf.frames[x][y] == w.frames[x][y]);
        }
    }
}

/// A name changed on both sides.
pub(crate) proof fn lemma_assigns(
    w: WorkView,
    wf: WorkView,
    world: World,
    m: Machine,
    m1: Machine,
    name: Seq<char>,
    v: Val,
)
    requires
        mirrors(w, world, m),
        looked_up(w, name) is Some,
        wf.frames == w.frames,
        w.code.len() <= wf.code.len(),
        m1.heap == m.heap,
        holds_value(
            m1.heap,
            slot(top(m1).slots, (looked_up(w, name)->0).0 as int, 0),
            v,
            (looked_up(w, name)->0).1,
        ),
        forall|k: int|
            0 <= k < w.code.len() && k != (looked_up(w, name)->0).0 ==> #[trigger] slot(top(m1).slots, k, 0) == slot(
                top(m).slots,
                k,
                0,
            ),
    ensures
        mirrors(wf, assigned(world, name, v), m1),
{
    reveal(looked_up);
    lemma_found(w, world, m, name, w.frames.len());
    let k = holder(world.frames, name, world.frames.len())->0;
    let p = local_index(w.frames[k], name) as int;
    let world1 = assigned(world, name, v);
    assert(world1.frames[k] == world.frames[k].insert(name, v));
    assert forall|i: int, j: int|
        #![trigger wf.frames[i][j]]
        0 <= i < wf.frames.len() && 0 <= j < wf.frames[i].len() implies {
        &&& mirrored(wf, world1.frames[i], m1, wf.frames[i][j])
        &&& local_index(wf.frames[i], wf.frames[i][j].name) == j
    } by {
        assert(mirrored(w, world.frames[i], m, w.frames[i][j]));
        if i == k && j == p {
        } else {
            assert(w.frames[i][j].slot != w.frames[k][p].slot);
            if i == k {
                assert(w.frames[i][j].name != name);
            }
        }
    }
    assert forall|i: int, other: Seq<char>| 0 <= i < wf.frames.len() implies (#[trigger] has_name(wf.frames[i], other)
        <==> world1.frames[i].dom().contains(other)) by {
        assert(has_name(w.frames[i], other) <==> world.frames[i].dom().contains(other));
    }
}

// ── declarations and changes ────────────────────────────────────────────────

#[verifier::opaque]
pub open spec fn does_bindings(
    d: nat,
    world: World,
    v: VarDecl,
    i: nat,
) -> (World, Result<FlowView, StopView>) {
    bindings_from(d, world, v, i)
}

#[verifier::spinoff_prover]
pub(crate) proof fn bindings_next(d: nat, world: World, v: VarDecl, i: nat)
    requires
        i < v.bindings@.len(),
        v.bindings@[i as int].value is Some,
        whole_type(v.ty) is Some,
        does_bindings(d, world, v, i).1 is Ok,
    ensures
        ({
            let b = v.bindings@[i as int];
            let hint = binding_context(v.ty, b.precision);
            let r = meaning(d, world, b.value->0, hint);
            &&& whole_context(hint)
            &&& r.1 is Ok
            &&& !(r.1->Ok_0 is Array) ==> does_bindings(d, world, v, i) == does_bindings(
                d,
                defined(r.0, b.name@, r.1->Ok_0),
                v,
                i + 1,
            )
        }),
{
    reveal(does_bindings);
    reveal(meaning);
    reveal(summed);
    let b = v.bindings@[i as int];
    lemma_whole_context(v.ty, b.precision);
    lemma_whole_context(v.ty, v.ty.precision);
}

/// A type of whole numbers or truth values asks for no other numbers.
pub(crate) proof fn lemma_whole_context(ty: TypeRef, precision: Option<Precision>)
    requires
        whole_type(ty) is Some,
    ensures
        whole_context(context_of(ty.base@, precision)),
{
    reveal_strlit("int");
    reveal_strlit("bool");
    reveal_strlit("deci");
    reveal_strlit("rat");
    reveal_strlit("infnum");
    reveal_strlit("∞num");
    assert("bool"@[0] == 'b' && "deci"@[0] == 'd' && "∞num"@[0] == '∞');
}

#[verifier::spinoff_prover]
pub(crate) proof fn sim_binding(
    c: CompiledView,
    w: WorkView,
    s: Seq<Scope>,
    v: VarDecl,
    i: nat,
    fixed: Set<Seq<char>>,
    guard: Set<int>,
    d: nat,
    world: World,
    m: Machine,
) -> (n: nat)
    requires
        i < v.bindings@.len(),
        whole_binding(s, v, i as int, fixed),
        knows(w, s),
        sound(c),
        sees(c, bindings_made(w, v, i)),
        sees(c, binding_end(w, v, i)),
        joint(w, world, m),
        stands(w, m),
        w.open,
        guarded(w, fixed, guard),
        does_bindings(d, world, v, i).1 is Ok,
    ensures
        ({
            let b = v.bindings@[i as int];
            let r = meaning(d, world, b.value->0, binding_context(v.ty, b.precision));
            let world1 = defined(world, b.name@, r.1->Ok_0);
            let wf = binding_end(w, v, i);
            let m1 = steps(c, m, n);
            &&& does_bindings(d, world, v, i) == does_bindings(d, world1, v, i + 1)
            &&& joint(wf, world1, m1)
            &&& stands(wf, m1)
            &&& went(w.code.len() as int, guard, m, m1)
            &&& guarded(wf, fixed, guard)
            &&& w.code.len() <= wf.code.len()
        }),
{
    let b = v.bindings@[i as int];
    made_binding(w, s, v, i, fixed);
    bindings_next(d, world, v, i);
    let hint = binding_context(v.ty, b.precision);
    let native = whole_type(v.ty)->0;
    let w0 = with_digits(w, places_wanted(b.precision, v.ty.precision));
    let (w1, r) = expr_made(w0, b.value->0, native);
    let at = w1.code.len() as usize;
    let w2 = put(w1, Inst::Slot(kind_of(native)));
    let store = Inst::Store { into: at, value: r.at };
    let w3 = put(w2, store);
    let wf = binding_end(w, v, i);
    assert(wf.code == w3.code && wf.texts == w3.texts) by {
        reveal(declared);
    }
    assert(sees(c, w3));
    lemma_sees_put(c, w2, store);
    lemma_sees_put(c, w1, Inst::Slot(kind_of(native)));
    lemma_still_mirrors(w, w0, world, m, m);
    let n = sim_expr(c, w0, b.value->0, native, d, world, hint, m);
    let m1 = steps(c, m, n);
    let x = meaning(d, world, b.value->0, hint).1->Ok_0;
    run_value(c, w1, m1, Inst::Slot(kind_of(native)), Datum::Slot(w1.code.len() as int));
    lemma_steps_add(c, m, n, 1);
    let m2 = steps(c, m, n + 1);
    lemma_ran_then(w0, w1, w2, m, m1, m2);
    assert(reg(top(m2), r.at) == datum(x));
    let a = Activation {
        pc: top(m2).pc + 1,
        slots: top(m2).slots.insert((at as int, 0), reg(top(m2), r.at)),
        ..top(m2)
    };
    run_effect(c, w2, m2, store, a);
    lemma_steps_add(c, m, n + 1, 1);
    let m3 = steps(c, m, n + 2);
    assert(m3 == with(m2, a));
    assert(top(m3) == a);
    assert(wf.frames == declared(w, b.name@, at, native).frames) by {
        reveal(declared);
    }
    assert forall|k: int| 0 <= k < w.code.len() implies #[trigger] slot(top(m3).slots, k, 0) == slot(top(m).slots, k, 0) by {
        assert(slot(top(m2).slots, k, 0) == slot(top(m).slots, k, 0));
    }
    assert(slot(top(m3).slots, at as int, 0) == datum(x));
    lemma_declares(w, wf, world, m, m3, b.name@, at, native, x, fixed, guard);
    assert forall|k: int| guard.contains(k) implies #[trigger] slot(top(m3).slots, k, 0) == slot(top(m).slots, k, 0) by {}
    assert forall|k: usize| k < w.code.len() implies #[trigger] reg(top(m3), k) == reg(top(m), k) by {
        assert(reg(top(m2), k) == reg(top(m), k));
    }
    assert(running(m3));
    assert(went(w.code.len() as int, guard, m, m3));
    assert(joint(wf, defined(world, b.name@, x), m3));
    assert(stands(wf, m3));
    n + 2
}

/// The lowering behind one declaration.
pub open spec fn binding_end(w: WorkView, v: VarDecl, i: nat) -> WorkView {
    let b = v.bindings@[i as int];
    let native = whole_type(v.ty)->0;
    let (w1, r) = expr_made(with_digits(w, places_wanted(b.precision, v.ty.precision)), b.value->0, native);
    let at = w1.code.len() as usize;
    let w3 = put(put(w1, Inst::Slot(kind_of(native))), Inst::Store { into: at, value: r.at });
    with_digits(declared(w3, b.name@, at, native), DEFAULT_DIGITS)
}

#[verifier::spinoff_prover]
pub(crate) proof fn sim_bindings(
    c: CompiledView,
    w: WorkView,
    s: Seq<Scope>,
    v: VarDecl,
    i: nat,
    fixed: Set<Seq<char>>,
    guard: Set<int>,
    d: nat,
    world: World,
    m: Machine,
) -> (n: nat)
    requires
        i <= v.bindings@.len(),
        forall|j: int|
            #![trigger v.bindings@[j]]
            0 <= j < v.bindings@.len() ==> whole_binding(with_bindings(s, v, j as nat), v, j, fixed),
        knows(w, with_bindings(s, v, i)),
        sound(c),
        sees(c, bindings_made(w, v, i)),
        joint(w, world, m),
        stands(w, m),
        w.open,
        guarded(w, fixed, guard),
        does_bindings(d, world, v, i).1 is Ok,
    ensures
        ({
            let wf = bindings_made(w, v, i);
            let r = does_bindings(d, world, v, i);
            let m1 = steps(c, m, n);
            &&& r.1 == Ok::<FlowView, StopView>(FlowView::Normal)
            &&& r.0.steps == world.steps
            &&& joint(wf, r.0, m1)
            &&& stands(wf, m1)
            &&& went(w.code.len() as int, guard, m, m1)
            &&& guarded(wf, fixed, guard)
        }),
    decreases v.bindings@.len() - i,
{
    if i < v.bindings@.len() {
        let b = v.bindings@[i as int];
        let s0 = with_bindings(s, v, i);
        made_binding(w, s0, v, i, fixed);
        let w1 = binding_end(w, v, i);
        crate::codegen::laws::lemma_bindings(w1, v, i + 1);
        lemma_sees_stride(c, w1, bindings_made(w, v, i));
        let k = sim_binding(c, w, s0, v, i, fixed, guard, d, world, m);
        let m1 = steps(c, m, k);
        let x = meaning(d, world, b.value->0, binding_context(v.ty, b.precision)).1->Ok_0;
        let j = sim_bindings(c, w1, s, v, i + 1, fixed, guard, d, defined(world, b.name@, x), m1);
        lemma_steps_add(c, m, k, j);
        lemma_went_then(w.code.len() as int, w1.code.len() as int, guard, guard, m, m1, steps(c, m, k + j));
        k + j
    } else {
        crate::codegen::whole::bindings_end(w, v, i);
        assert(does_bindings(d, world, v, i) == (world, Ok::<FlowView, StopView>(FlowView::Normal))) by {
            reveal(does_bindings);
        }
        0
    }
}

pub(crate) proof fn lemma_sees_stride(c: CompiledView, a: WorkView, b: WorkView)
    requires
        stride(a, b),
        sees(c, b),
    ensures
        sees(c, a),
{
    reveal(stride);
    lemma_extended_then(a.code, b.code, c.main.code);
    lemma_extended_then(a.texts, b.texts, c.main.texts);
}

#[verifier::opaque]
pub open spec fn does_targets(
    d: nat,
    world: World,
    c: ChangeStmt,
    i: nat,
) -> (World, Result<FlowView, StopView>) {
    targets_from(d, world, c, i)
}

#[verifier::spinoff_prover]
pub(crate) proof fn targets_next(d: nat, world: World, c: ChangeStmt, i: nat)
    requires
        whole_type(c.ty) is Some,
        does_targets(d, world, c, i).1 is Ok,
    ensures
        i >= c.targets@.len() ==> does_targets(d, world, c, i) == (world, Ok::<FlowView, StopView>(FlowView::Normal)),
        i < c.targets@.len() && c.targets@[i as int].selectors@.len() == 0 ==> {
            let t = c.targets@[i as int];
            let hint = context_of(c.ty.base@, c.ty.precision);
            let r = meaning(d, world, t.value, hint);
            &&& whole_context(hint)
            &&& r.1 is Ok
            &&& does_targets(d, world, c, i) == does_targets(d, assigned(r.0, t.name@, r.1->Ok_0), c, i + 1)
        },
{
    reveal(does_targets);
    reveal(meaning);
    lemma_whole_context(c.ty, c.ty.precision);
}

#[verifier::spinoff_prover]
pub(crate) proof fn sim_targets(
    c: CompiledView,
    w: WorkView,
    s: Seq<Scope>,
    ch: ChangeStmt,
    i: nat,
    fixed: Set<Seq<char>>,
    guard: Set<int>,
    d: nat,
    world: World,
    m: Machine,
) -> (n: nat)
    requires
        whole_type(ch.ty) is Some,
        forall|j: int| #![trigger ch.targets@[j]] 0 <= j < ch.targets@.len() ==> whole_target(s, ch.targets@[j], fixed),
        knows(w, s),
        sound(c),
        sees(c, targets_made(w, ch, i)),
        joint(w, world, m),
        stands(w, m),
        w.open,
        guarded(w, fixed, guard),
        does_targets(d, world, ch, i).1 is Ok,
    ensures
        ({
            let wf = targets_made(w, ch, i);
            let r = does_targets(d, world, ch, i);
            let m1 = steps(c, m, n);
            &&& r.1 == Ok::<FlowView, StopView>(FlowView::Normal)
            &&& r.0.steps == world.steps
            &&& joint(wf, r.0, m1)
            &&& stands(wf, m1)
            &&& went(w.code.len() as int, guard, m, m1)
            &&& guarded(wf, fixed, guard)
        }),
    decreases ch.targets@.len() - i,
{
    targets_next(d, world, ch, i);
    calm_targets(w, s, ch, i, fixed);
    if i < ch.targets@.len() {
        let t = ch.targets@[i as int];
        let hint = context_of(ch.ty.base@, ch.ty.precision);
        made_target(w, s, t, fixed);
        let (at, native) = looked_up(w, t.name@)->0;
        let (w1, r) = expr_made(w, t.value, native);
        let store = Inst::Store { into: at, value: r.at };
        let w2 = put(w1, store);
        lemma_knows_frames(w, w2, s);
        calm_targets(w2, s, ch, i + 1, fixed);
        lemma_sees_before(c, w2, targets_made(w, ch, i));
        lemma_sees_put(c, w1, store);
        let k = sim_expr(c, w, t.value, native, d, world, hint, m);
        let m1 = steps(c, m, k);
        let x = meaning(d, world, t.value, hint).1->Ok_0;
        let a = Activation {
            pc: top(m1).pc + 1,
            slots: top(m1).slots.insert((at as int, 0), reg(top(m1), r.at)),
            ..top(m1)
        };
        run_effect(c, w1, m1, store, a);
        lemma_steps_add(c, m, k, 1);
        let m2 = steps(c, m, k + 1);
        assert(m2 == with(m1, a));
        assert(top(m2) == a);
        assert forall|g: int| 0 <= g < w.code.len() && g != at implies #[trigger] slot(top(m2).slots, g, 0) == slot(
            top(m).slots,
            g,
            0,
        ) by {
            assert(slot(top(m1).slots, g, 0) == slot(top(m).slots, g, 0));
        }
        assert(slot(top(m2).slots, at as int, 0) == datum(x));
        lemma_assigns(w, w2, world, m, m2, t.name@, x);
        lemma_slot_free(w, world, m, t.name@, fixed, guard);
        assert forall|g: int| guard.contains(g) implies #[trigger] slot(top(m2).slots, g, 0) == slot(top(m).slots, g, 0) by {}
        assert forall|g: usize| g < w.code.len() implies #[trigger] reg(top(m2), g) == reg(top(m), g) by {
            assert(reg(top(m1), g) == reg(top(m), g));
        }
        assert(went(w.code.len() as int, guard, m, m2));
        let world1 = assigned(world, t.name@, x);
        assert(joint(w2, world1, m2));
        lemma_guarded_frames(w, w2, fixed, guard);
        let j = sim_targets(c, w2, s, ch, i + 1, fixed, guard, d, world1, m2);
        lemma_steps_add(c, m, k + 1, j);
        lemma_went_then(w.code.len() as int, w2.code.len() as int, guard, guard, m, m2, steps(c, m, k + 1 + j));
        k + 1 + j
    } else {
        0
    }
}

/// The slot of a name that is not fixed is not guarded.
pub(crate) proof fn lemma_slot_free(
    w: WorkView,
    world: World,
    m: Machine,
    name: Seq<char>,
    fixed: Set<Seq<char>>,
    guard: Set<int>,
)
    requires
        mirrors(w, world, m),
        looked_up(w, name) is Some,
        guarded(w, fixed, guard),
        !fixed.contains(name),
    ensures
        !guard.contains((looked_up(w, name)->0).0 as int),
{
    reveal(looked_up);
    lemma_found(w, world, m, name, w.frames.len());
    let k = holder(world.frames, name, world.frames.len())->0;
    let p = local_index(w.frames[k], name) as int;
    assert(w.frames[k][p].name == name);
}

// ── printing ────────────────────────────────────────────────────────────────

/// What one of the printing calls shows of its argument.
pub open spec fn told_text(m: Machine, f: Rt, a: Datum) -> Option<Seq<char>> {
    match (f, a) {
        (Rt::PrintStr, Datum::Chars(t)) => Some(t),
        (Rt::PrintInt, Datum::Word(n)) => Some(int_text(n as int)),
        (Rt::PrintArray, Datum::Object(o)) => match array_in(m, a) {
            Some(x) => Some("{"@ + comma_separated(cell_texts(x.items)) + "}"@),
            None => None,
        },
        (Rt::PrintBool, Datum::Byte(b)) => Some(
            if b != 0 {
                "true"@
            } else {
                "false"@
            },
        ),
        _ => None,
    }
}

#[verifier::spinoff_prover]
pub(crate) proof fn lemma_told(m: Machine, slots: crate::codegen::machine::Slots, f: Rt, given: Seq<Datum>)
    requires
        given.len() == 1,
        told_text(m, f, given[0]) is Some,
    ensures
        runtime_call(m, slots, f, given) == Call::Gives(
            Machine { line: m.line + told_text(m, f, given[0])->0, ..m },
            slots,
            Datum::Nothing,
        ),
{
    reveal(runtime_call);
}

/// Whether a stretch of code printed some text and did nothing else.
pub open spec fn told(w: WorkView, w1: WorkView, m: Machine, m1: Machine, t: Seq<char>) -> bool {
    &&& quiet(w, w1)
    &&& m1 == with(Machine { line: m.line + t, ..m }, top(m1))
    &&& running(m1)
    &&& top(m1).pc == w1.code.len()
    &&& keeps_below(w.code.len() as int, top(m), top(m1))
}

pub(crate) proof fn run_told(
    c: CompiledView,
    w: WorkView,
    m: Machine,
    f: Rt,
    v: Operand,
    t: Seq<char>,
) -> (n: nat)
    requires
        sound(c),
        sees(c, called(w, f, seq![v]).0),
        stands(w, m),
        told_text(m, f, reg(top(m), v.at)) == Some(t),
        kinds(seq![v]) =~= takes(f),
    ensures
        told(w, called(w, f, seq![v]).0, m, steps(c, m, n), t),
{
    let args = seq![v];
    let given = Seq::new(args.len(), |i: int| reg(top(m), args[i].at));
    let act = Activation { pc: (w.code.len() + args.len()) as int, args: given, ..top(m) };
    lemma_told(with(m, act), top(m).slots, f, given);
    let after = Machine { line: m.line + t, ..with(m, act) };
    let n = run_called(c, w, m, f, args, after, Datum::Nothing);
    let m1 = steps(c, m, n);
    assert(m1.calls =~= seq![top(m1)]);
    n
}

pub(crate) proof fn lemma_ran_told(
    w: WorkView,
    w1: WorkView,
    w2: WorkView,
    m: Machine,
    m1: Machine,
    m2: Machine,
    t: Seq<char>,
)
    requires
        ran(w, w1, m, m1),
        told(w1, w2, m1, m2, t),
    ensures
        told(w, w2, m, m2, t),
{
    lemma_quiet_then(w, w1, w2);
}

/// An array prints as the interpreter prints it.
#[verifier::spinoff_prover]
pub(crate) proof fn lemma_array_text(items: Seq<Val>)
    requires
        all_whole(items),
    ensures
        cell_texts(cells(items)) == item_texts(items),
{
    assert(cell_texts(cells(items)) =~= item_texts(items));
}

#[verifier::spinoff_prover]
pub(crate) proof fn sim_array_print(
    c: CompiledView,
    w: WorkView,
    s: Seq<Scope>,
    e: Expr,
    d: nat,
    world: World,
    m: Machine,
) -> (n: nat)
    requires
        names_array(s, e),
        knows(w, s),
        sound(c),
        sees(c, print_made(w, e)),
        mirrors(w, world, m),
        stands(w, m),
    ensures
        meaning(d, world, e, None).1 is Ok,
        meaning(d, world, e, None).0 == world,
        told(w, print_made(w, e), m, steps(c, m, n), val_text(meaning(d, world, e, None).1->Ok_0)),
{
    let name = e.kind->Ref_name;
    let (w1, r) = array_print_parts(w, s, e);
    let wf = print_made(w, e);
    lemma_called_quiet(w1, Rt::PrintArray, seq![r]);
    lemma_sees_before(c, w1, wf);
    let (at, native) = looked_up(w, name@)->0;
    assert(looked_up(w, name@) == crate::codegen::work::found(w.frames, name@, w.frames.len())) by {
        reveal(looked_up);
    }
    lemma_found(w, world, m, name@, w.frames.len());
    let v = semantics::looked_up(world, name@)->0;
    assert(meaning(d, world, e, None) == (world, Ok::<Val, StopView>(v))) by {
        reveal(meaning);
        let selectors = e.kind->Ref_selectors;
        assert(semantics::selectors_from(d, world, v, selectors, 0, 0, e.span) == semantics::run_result(
            d,
            world,
            v,
            selectors,
            0,
            0,
            e.span,
        ));
    }
    let x = slot(top(m).slots, at as int, 0);
    run_value(c, w, m, Inst::Load { kind: Kind::Ptr, from: at }, x);
    let m1 = steps(c, m, 1);
    assert(reg(top(m1), r.at) == x);
    lemma_array_text(v->Array_items);
    let j = run_told(c, w1, m1, Rt::PrintArray, r, val_text(v));
    lemma_steps_add(c, m, 1, j);
    lemma_ran_told(w, w1, wf, m, m1, steps(c, m, 1 + j), val_text(v));
    1 + j
}

#[verifier::spinoff_prover]
pub(crate) proof fn sim_print(
    c: CompiledView,
    w: WorkView,
    s: Seq<Scope>,
    e: Expr,
    d: nat,
    world: World,
    m: Machine,
) -> (n: nat)
    requires
        whole_print(s, e),
        knows(w, s),
        sound(c),
        sees(c, print_made(w, e)),
        mirrors(w, world, m),
        stands(w, m),
        w.open,
        meaning(d, world, e, None).1 is Ok,
    ensures
        meaning(d, world, e, None).0 == world,
        told(w, print_made(w, e), m, steps(c, m, n), val_text(meaning(d, world, e, None).1->Ok_0)),
{
    match e.kind {
        ExprKind::Str(t) => {
            assert(meaning(d, world, e, None) == (world, Ok::<Val, StopView>(Val::Str(t@)))) by {
                reveal(meaning);
            }
            reveal(chars_made);
            let (w1, text) = chars_made(w, t@);
            lemma_called_quiet(w1, Rt::PrintStr, seq![text]);
            lemma_sees_before(c, w1, print_made(w, e));
            let k = w.texts.len() as usize;
            assert(w1.texts[w.texts.len() as int] == t@);
            assert(c.main.texts[w.texts.len() as int] == t@);
            let w0 = with_text(w, t@);
            run_value(c, w0, m, Inst::Chars(k), Datum::Chars(t@));
            let m1 = steps(c, m, 1);
            let j = run_told(c, w1, m1, Rt::PrintStr, text, t@);
            lemma_steps_add(c, m, 1, j);
            assert(ran(w, w1, m, m1));
            lemma_ran_told(w, w1, print_made(w, e), m, m1, steps(c, m, 1 + j), t@);
            1 + j
        },
        _ => if names_array(s, e) {
            sim_array_print(c, w, s, e, d, world, m)
        } else {
            lemma_shown(w, s, e);
            let native = shown(s, e);
            crate::codegen::whole::lemma_expr_quiet(w, e, native);
            let (w1, v) = expr_made(w, e, native);
            let wf = print_made(w, e);
            reveal(printed);
            if native is Bool {
                let (w2, b) = as_byte(w1, v);
                lemma_called_quiet(w2, Rt::PrintBool, seq![b]);
                lemma_sees_before(c, w2, wf);
                let i = Inst::Widen { kind: Kind::Byte, value: v.at };
                lemma_sees_put(c, w1, i);
                let k = sim_expr(c, w, e, native, d, world, None, m);
                let m1 = steps(c, m, k);
                let x = meaning(d, world, e, None).1->Ok_0;
                run_value(c, w1, m1, i, Datum::Byte(if x->Bool_0 { 1 } else { 0 }));
                lemma_steps_add(c, m, k, 1);
                let m2 = steps(c, m, k + 1);
                lemma_ran_then(w, w1, w2, m, m1, m2);
                let j = run_told(c, w2, m2, Rt::PrintBool, b, val_text(x));
                lemma_steps_add(c, m, k + 1, j);
                lemma_ran_told(w, w2, wf, m, m2, steps(c, m, k + 1 + j), val_text(x));
                k + 1 + j
            } else {
                lemma_called_quiet(w1, Rt::PrintInt, seq![v]);
                lemma_sees_before(c, w1, wf);
                let k = sim_expr(c, w, e, native, d, world, None, m);
                let m1 = steps(c, m, k);
                let x = meaning(d, world, e, None).1->Ok_0;
                let j = run_told(c, w1, m1, Rt::PrintInt, v, val_text(x));
                lemma_steps_add(c, m, k, j);
                lemma_ran_told(w, w1, wf, m, m1, steps(c, m, k + j), val_text(x));
                k + j
            }
        },
    }
}

#[verifier::opaque]
pub open spec fn does_texts(d: nat, world: World, args: Vec<Expr>, i: nat, acc: Seq<char>) -> (
    World,
    Result<Seq<char>, StopView>,
) {
    texts_from(d, world, args, i, acc)
}

#[verifier::spinoff_prover]
pub(crate) proof fn texts_next(d: nat, world: World, args: Vec<Expr>, i: nat, acc: Seq<char>)
    requires
        does_texts(d, world, args, i, acc).1 is Ok,
    ensures
        i >= args@.len() ==> does_texts(d, world, args, i, acc) == (world, Ok::<Seq<char>, StopView>(acc)),
        i < args@.len() ==> {
            let r = meaning(d, world, args@[i as int], None);
            &&& r.1 is Ok
            &&& does_texts(d, world, args, i, acc) == does_texts(d, r.0, args, i + 1, acc + val_text(r.1->Ok_0))
        },
{
    reveal(does_texts);
    reveal(meaning);
}

#[verifier::spinoff_prover]
pub(crate) proof fn sim_prints(
    c: CompiledView,
    w: WorkView,
    s: Seq<Scope>,
    args: Vec<Expr>,
    i: nat,
    d: nat,
    world: World,
    m: Machine,
) -> (n: nat)
    requires
        forall|j: int| 0 <= j < args@.len() ==> whole_print(s, #[trigger] args@[j]),
        knows(w, s),
        sound(c),
        sees(c, prints_made(w, args, i)),
        mirrors(w, world, m),
        stands(w, m),
        w.open,
        does_texts(d, world, args, i, m.line).1 is Ok,
    ensures
        does_texts(d, world, args, i, m.line).0 == world,
        ({
            let m1 = steps(c, m, n);
            let w1 = prints_made(w, args, i);
            &&& quiet(w, w1)
            &&& m1 == with(Machine { line: does_texts(d, world, args, i, m.line).1->Ok_0, ..m }, top(m1))
            &&& stands(w1, m1)
            &&& keeps_below(w.code.len() as int, top(m), top(m1))
        }),
    decreases args@.len() - i,
{
    calm_prints(w, s, args, i);
    texts_next(d, world, args, i, m.line);
    if i < args@.len() {
        let e = args@[i as int];
        let w1 = print_made(w, e);
        calm_print(w, s, e);
        lemma_knows_frames(w, w1, s);
        calm_prints(w1, s, args, i + 1);
        lemma_sees_before(c, w1, prints_made(w, args, i));
        let k = sim_print(c, w, s, e, d, world, m);
        let m1 = steps(c, m, k);
        lemma_still_mirrors(w, w1, world, m, m1);
        let j = sim_prints(c, w1, s, args, i + 1, d, world, m1);
        lemma_steps_add(c, m, k, j);
        k + j
    } else {
        assert(m.calls =~= seq![top(m)]);
        0
    }
}

// ── scopes and jumps ────────────────────────────────────────────────────────

/// A scope opened on both sides.
pub(crate) proof fn lemma_opens(w: WorkView, world: World, m: Machine, fixed: Set<Seq<char>>, guard: Set<int>)
    requires
        mirrors(w, world, m),
        guarded(w, fixed, guard),
    ensures
        mirrors(with_frame(w), semantics::opened(world), m),
        guarded(with_frame(w), fixed, guard),
        with_frame(w).code == w.code,
        with_frame(w).texts == w.texts,
        with_frame(w).open == w.open,
        with_frame(w).temps == w.temps,
{
    reveal(with_frame);
    let w1 = with_frame(w);
    let world1 = semantics::opened(world);
    assert forall|i: int, j: int|
        #![trigger w1.frames[i][j]]
        0 <= i < w1.frames.len() && 0 <= j < w1.frames[i].len() implies {
        &&& mirrored(w1, world1.frames[i], m, w1.frames[i][j])
        &&& local_index(w1.frames[i], w1.frames[i][j].name) == j
        &&& guard.contains(w1.frames[i][j].slot as int) ==> fixed.contains(w1.frames[i][j].name)
    } by {
        assert(w1.frames[i][j] == w.frames[i][j]);
        assert(mirrored(w, world.frames[i], m, w.frames[i][j]));
    }
    assert forall|i: int, name: Seq<char>| 0 <= i < w1.frames.len() implies (#[trigger] has_name(w1.frames[i], name)
        <==> world1.frames[i].dom().contains(name)) by {
        if i < w.frames.len() {
            assert(has_name(w.frames[i], name) <==> world.frames[i].dom().contains(name));
        }
    }
    assert forall|i: int, j: int, x: int, y: int|
        #![trigger w1.frames[i][j], w1.frames[x][y]]
        0 <= i < w1.frames.len() && 0 <= j < w1.frames[i].len() && 0 <= x < w1.frames.len() && 0 <= y
            < w1.frames[x].len() && w1.frames[i][j].slot == w1.frames[x][y].slot implies i == x && j == y by {
        assert(w1.frames[i][j] == w.frames[i][j]);
        assert(w1.frames[x][y] == w.frames[x][y]);
    }
}

/// A scope closed on both sides.
pub(crate) proof fn lemma_closes(
    w: WorkView,
    w1: WorkView,
    world: World,
    m: Machine,
    fixed: Set<Seq<char>>,
    guard: Set<int>,
)
    requires
        mirrors(w, world, m),
        w1.frames == w.frames.drop_last(),
        w1.frames.len() > 0,
        w.code.len() <= w1.code.len(),
        forall|k: int| #[trigger] guard.contains(k) ==> 0 <= k < w1.code.len(),
        forall|i: int, j: int|
            #![trigger w1.frames[i][j]]
            0 <= i < w1.frames.len() && 0 <= j < w1.frames[i].len() && guard.contains(w1.frames[i][j].slot as int)
                ==> fixed.contains(w1.frames[i][j].name),
    ensures
        mirrors(w1, semantics::closed_scope(world), m),
        guarded(w1, fixed, guard),
{
    let world1 = semantics::closed_scope(world);
    assert forall|i: int, j: int|
        #![trigger w1.frames[i][j]]
        0 <= i < w1.frames.len() && 0 <= j < w1.frames[i].len() implies {
        &&& mirrored(w1, world1.frames[i], m, w1.frames[i][j])
        &&& local_index(w1.frames[i], w1.frames[i][j].name) == j
    } by {
        assert(w1.frames[i][j] == w.frames[i][j]);
        assert(mirrored(w, world.frames[i], m, w.frames[i][j]));
    }
    assert forall|i: int, name: Seq<char>| 0 <= i < w1.frames.len() implies (#[trigger] has_name(w1.frames[i], name)
        <==> world1.frames[i].dom().contains(name)) by {
        assert(has_name(w.frames[i], name) <==> world.frames[i].dom().contains(name));
    }
    assert forall|i: int, j: int, x: int, y: int|
        #![trigger w1.frames[i][j], w1.frames[x][y]]
        0 <= i < w1.frames.len() && 0 <= j < w1.frames[i].len() && 0 <= x < w1.frames.len() && 0 <= y
            < w1.frames[x].len() && w1.frames[i][j].slot == w1.frames[x][y].slot implies i == x && j == y by {
        assert(w1.frames[i][j] == w.frames[i][j]);
        assert(w1.frames[x][y] == w.frames[x][y]);
    }
}

/// The same machine elsewhere in the code.
pub open spec fn at(m: Machine, j: int) -> Machine {
    with(m, Activation { pc: j, ..top(m) })
}

pub(crate) proof fn lemma_at(
    w: WorkView,
    w1: WorkView,
    world: World,
    m: Machine,
    j: int,
    n: int,
    guard: Set<int>,
)
    requires
        joint(w, world, m),
        w1.frames == w.frames,
        w.code.len() <= w1.code.len(),
    ensures
        joint(w1, world, at(m, j)),
        went(n, guard, m, at(m, j)),
        top(at(m, j)).pc == j,
{
    lemma_still_mirrors(w, w1, world, m, at(m, j));
}

pub(crate) proof fn run_at(c: CompiledView, m: Machine)
    requires
        running(m),
        0 <= top(m).pc < c.main.code.len(),
        c.main.code[top(m).pc] is At || c.main.code[top(m).pc] is Block,
    ensures
        steps(c, m, 1) == at(m, top(m).pc + 1),
{
    let a = Activation { pc: top(m).pc + 1, ..top(m) };
    lemma_does(c, m, c.main.code[top(m).pc], a);
}

pub(crate) proof fn run_to(c: CompiledView, m: Machine, b: usize, j: int)
    requires
        sound(c),
        running(m),
        0 <= top(m).pc < c.main.code.len(),
        ({
            let i = c.main.code[top(m).pc];
            ||| i == Inst::Jump(b)
            ||| i matches Inst::Fork { test, yes, no } && reg(top(m), test) == Datum::Bit(true) && b == yes
            ||| i matches Inst::Fork { test, yes, no } && reg(top(m), test) == Datum::Bit(false) && b == no
        }),
        b < c.main.code.len(),
        c.main.code[b as int] is Block,
        0 <= j < c.main.code.len(),
        c.main.code[j] == Inst::At(b),
    ensures
        steps(c, m, 1) == at(m, j),
{
    lemma_place(c, b, j);
    lemma_does(c, m, c.main.code[top(m).pc], Activation { pc: j, ..top(m) });
}

/// The code that was emitted is the program's.
pub(crate) proof fn lemma_code(c: CompiledView, w: WorkView, k: int)
    requires
        sees(c, w),
        0 <= k < w.code.len(),
    ensures
        c.main.code[k] == w.code[k],
        k < c.main.code.len(),
{
}

// ── blocks and conditionals ─────────────────────────────────────────────────

#[verifier::opaque]
pub open spec fn does_stmt(d: nat, world: World, stmt: Stmt) -> (World, Result<FlowView, StopView>) {
    statement_result(d, world, stmt)
}

#[verifier::opaque]
pub open spec fn does_block(
    d: nat,
    world: World,
    stmts: Vec<Stmt>,
    i: nat,
) -> (World, Result<FlowView, StopView>) {
    block_from(d, world, stmts, i)
}

#[verifier::opaque]
pub open spec fn does_scoped(d: nat, world: World, stmts: Vec<Stmt>) -> (World, Result<FlowView, StopView>) {
    semantics::scoped(d, world, stmts)
}

#[verifier::opaque]
pub open spec fn does_arms(
    d: nat,
    world: World,
    chain: IfChain,
    i: nat,
) -> (World, Result<FlowView, StopView>) {
    chain_from(d, world, chain, i)
}

pub open spec fn normally(world: World) -> (World, Result<FlowView, StopView>) {
    (world, Ok(FlowView::Normal))
}

#[verifier::spinoff_prover]
pub(crate) proof fn does_block_next(d: nat, world: World, stmts: Vec<Stmt>, i: nat)
    requires
        does_block(d, world, stmts, i).1 is Ok,
    ensures
        i >= stmts@.len() ==> does_block(d, world, stmts, i) == normally(world),
        i < stmts@.len() ==> {
            let r = does_stmt(d, world, stmts@[i as int]);
            &&& r.1 is Ok
            &&& r == normally(r.0) ==> does_block(d, world, stmts, i) == does_block(d, r.0, stmts, i + 1)
        },
{
    reveal(does_block);
    reveal(does_stmt);
}

#[verifier::spinoff_prover]
pub(crate) proof fn does_scoped_parts(d: nat, world: World, stmts: Vec<Stmt>)
    ensures
        ({
            let r = does_block(d, semantics::opened(world), stmts, 0);
            does_scoped(d, world, stmts) == (semantics::closed_scope(r.0), r.1)
        }),
{
    reveal(does_block);
    reveal(does_scoped);
}

#[verifier::spinoff_prover]
pub(crate) proof fn does_arms_next(d: nat, world: World, chain: IfChain, i: nat)
    requires
        does_arms(d, world, chain, i).1 is Ok,
    ensures
        i >= chain.arms@.len() ==> does_arms(d, world, chain, i) == normally(world),
        i < chain.arms@.len() ==> match chain.arms@[i as int].condition {
            None => does_arms(d, world, chain, i) == does_scoped(d, world, chain.arms@[i as int].body),
            Some(e) => {
                let r = meaning(d, world, e, None);
                &&& r.1 is Ok
                &&& r.1->Ok_0 == Val::Bool(true) ==> does_arms(d, world, chain, i) == does_scoped(
                    d,
                    r.0,
                    chain.arms@[i as int].body,
                )
                &&& r.1->Ok_0 == Val::Bool(false) ==> does_arms(d, world, chain, i) == does_arms(d, r.0, chain, i + 1)
            },
        },
{
    reveal(does_arms);
    reveal(does_scoped);
    reveal(meaning);
}

/// Whether code that ran from `m` to `m1` did what the interpreter did.
pub open spec fn agreed(
    w: WorkView,
    wf: WorkView,
    world: World,
    r: (World, Result<FlowView, StopView>),
    m: Machine,
    m1: Machine,
    pc: int,
    fixed: Set<Seq<char>>,
    guard: Set<int>,
) -> bool {
    &&& r == normally(r.0)
    &&& joint(wf, r.0, m1)
    &&& top(m1).pc == pc
    &&& went(w.code.len() as int, guard, m, m1)
    &&& guarded(wf, fixed, guard)
    &&& w.code.len() <= wf.code.len()
    &&& r.0.steps >= world.steps
}

#[verifier::spinoff_prover]
pub(crate) proof fn sim_block(
    c: CompiledView,
    w: WorkView,
    s: Seq<Scope>,
    stmts: Vec<Stmt>,
    i: nat,
    fixed: Set<Seq<char>>,
    guard: Set<int>,
    d: nat,
    world: World,
    m: Machine,
) -> (n: nat)
    requires
        whole_block(s, stmts, i, fixed),
        knows(w, s),
        sound(c),
        sees(c, block_made(w, stmts, i).0),
        joint(w, world, m),
        stands(w, m),
        w.open,
        guarded(w, fixed, guard),
        does_block(d, world, stmts, i).1 is Ok,
    ensures
        agreed(
            w,
            block_made(w, stmts, i).0,
            world,
            does_block(d, world, stmts, i),
            m,
            steps(c, m, n),
            block_made(w, stmts, i).0.code.len() as int,
            fixed,
            guard,
        ),
    decreases stmts, stmts@.len() - i,
{
    block_next(w, stmts, i);
    does_block_next(d, world, stmts, i);
    if i < stmts@.len() {
        let st = stmts@[i as int];
        let w1 = stmt_made(w, st).0;
        calm_stmt(w, s, st, fixed);
        lemma_no_temps(w1, w.temps.len());
        lemma_block(w1, stmts, i + 1);
        lemma_sees_stride(c, w1, block_made(w, stmts, i).0);
        let k = sim_stmt(c, w, s, st, fixed, guard, d, world, m);
        let m1 = steps(c, m, k);
        let world1 = does_stmt(d, world, st).0;
        let j = sim_block(c, w1, scopes_after(s, st), stmts, i + 1, fixed, guard, d, world1, m1);
        lemma_steps_add(c, m, k, j);
        lemma_went_then(w.code.len() as int, w1.code.len() as int, guard, guard, m, m1, steps(c, m, k + j));
        k + j
    } else {
        0
    }
}

#[verifier::spinoff_prover]
pub(crate) proof fn sim_scoped(
    c: CompiledView,
    w: WorkView,
    s: Seq<Scope>,
    stmts: Vec<Stmt>,
    fixed: Set<Seq<char>>,
    guard: Set<int>,
    d: nat,
    world: World,
    m: Machine,
) -> (n: nat)
    requires
        whole_block(s.push(Map::empty()), stmts, 0, fixed),
        knows(w, s),
        sound(c),
        sees(c, scoped_made(w, stmts).0),
        joint(w, world, m),
        stands(w, m),
        w.open,
        guarded(w, fixed, guard),
        does_scoped(d, world, stmts).1 is Ok,
    ensures
        agreed(
            w,
            scoped_made(w, stmts).0,
            world,
            does_scoped(d, world, stmts),
            m,
            steps(c, m, n),
            scoped_made(w, stmts).0.code.len() as int,
            fixed,
            guard,
        ),
    decreases stmts, stmts@.len() + 1,
{
    calm_scoped(w, s, stmts, fixed);
    does_scoped_parts(d, world, stmts);
    lemma_opens(w, world, m, fixed, guard);
    lemma_with_frame_knows(w, s);
    let w0 = with_frame(w);
    let wb = block_made(w0, stmts, 0).0;
    let wf = scoped_made(w, stmts).0;
    assert(wf.code == wb.code && wf.texts == wb.texts && wf.frames == wb.frames.drop_last()) by {
        reveal(without_frame);
        reveal(with_frame);
        reveal(stride);
        lemma_block(w0, stmts, 0);
    }
    let world0 = semantics::opened(world);
    let n = sim_block(c, w0, s.push(Map::empty()), stmts, 0, fixed, guard, d, world0, m);
    let m1 = steps(c, m, n);
    lemma_closes(wb, wf, does_block(d, world0, stmts, 0).0, m1, fixed, guard);
    n
}

/// From behind an arm's condition to the arm, or to what follows it.
#[verifier::spinoff_prover]
pub(crate) proof fn run_branch(c: CompiledView, w1: WorkView, m: Machine, test: usize, bit: bool, j: int)
    requires
        sound(c),
        stands(w1, m),
        ({
            let p = w1.code.len() as int;
            &&& p + 3 < c.main.code.len()
            &&& c.main.code[p] == Inst::Block
            &&& c.main.code[p + 1] == Inst::Block
            &&& c.main.code[p + 2] == (Inst::Fork { test, yes: p as usize, no: (p + 1) as usize })
            &&& 0 <= j < c.main.code.len()
            &&& c.main.code[j] == Inst::At(if bit { p as usize } else { (p + 1) as usize })
        }),
        reg(top(m), test) == Datum::Bit(bit),
    ensures
        steps(c, m, 4) == at(m, j + 1),
{
    let p = w1.code.len() as int;
    run_at(c, m);
    let m1 = at(m, p + 1);
    run_at(c, m1);
    lemma_steps_add(c, m, 1, 1);
    let m2 = at(m, p + 2);
    assert(at(m1, p + 2) == m2);
    let b = if bit {
        p as usize
    } else {
        (p + 1) as usize
    };
    run_to(c, m2, b, j);
    lemma_steps_add(c, m, 2, 1);
    let m3 = at(m, j);
    assert(at(m2, j) == m3);
    run_at(c, m3);
    lemma_steps_add(c, m, 3, 1);
    assert(at(m3, j + 1) == at(m, j + 1));
}

/// Which code an arm has, and what of it the program holds.
#[verifier::spinoff_prover]
pub(crate) proof fn lemma_arm_code(
    c: CompiledView,
    w: WorkView,
    s: Seq<Scope>,
    e: Expr,
    body: Vec<Stmt>,
    merge: usize,
    fixed: Set<Seq<char>>,
)
    requires
        whole_expr(s, e, Native::Bool),
        whole_block(s.push(Map::empty()), body, 0, fixed),
        knows(w, s),
        w.open,
        sees(c, arm_passed(w, e, body, merge)),
    ensures
        ({
            let (w1, test) = expr_made(w, e, Native::Bool);
            let wi = arm_entered(w, e);
            let w5 = scoped_made(wi, body).0;
            let wn = arm_passed(w, e, body, merge);
            let p = w1.code.len() as int;
            let code = c.main.code;
            &&& wn == put(put(w5, Inst::Jump(merge)), Inst::At((p + 1) as usize))
            &&& sees(c, w1) && sees(c, wi) && sees(c, w5)
            &&& w.code.len() <= p
            &&& wi.code.len() == p + 4
            &&& p + 4 <= w5.code.len()
            &&& wn.code.len() == w5.code.len() + 2
            &&& w5.code.len() + 2 <= code.len()
            &&& code[p] == Inst::Block
            &&& code[p + 1] == Inst::Block
            &&& code[p + 2] == (Inst::Fork { test: test.at, yes: p as usize, no: (p + 1) as usize })
            &&& code[p + 3] == Inst::At(p as usize)
            &&& code[w5.code.len() as int] == Inst::Jump(merge)
            &&& code[w5.code.len() as int + 1] == Inst::At((p + 1) as usize)
            &&& wi.frames == w.frames && w5.frames == w.frames && wn.frames == w.frames
            &&& knows(wi, s) && knows(wn, s)
            &&& wi.open && wn.open
        }),
{
    calm_entered(w, s, e);
    let (w1, test) = expr_made(w, e, Native::Bool);
    let wi = arm_entered(w, e);
    calm_scoped(wi, s, body, fixed);
    let w5 = scoped_made(wi, body).0;
    let wn = arm_passed(w, e, body, merge);
    let p = w1.code.len() as int;
    lemma_sees_put(c, put(w5, Inst::Jump(merge)), Inst::At((p + 1) as usize));
    lemma_sees_put(c, w5, Inst::Jump(merge));
    lemma_scoped(wi, body);
    lemma_sees_step(c, wi, w5);
    reveal(step);
    assert(extended(wi.code, w5.code));
    reveal(crate::codegen::work::forked);
    let fork = Inst::Fork { test: test.at, yes: p as usize, no: (p + 1) as usize };
    let w3 = put(put(w1, Inst::Block), Inst::Block);
    assert(wi == put(put(w3, fork), Inst::At(p as usize)));
    lemma_sees_put(c, put(w3, fork), Inst::At(p as usize));
    lemma_sees_put(c, w3, fork);
    lemma_sees_put(c, put(w1, Inst::Block), Inst::Block);
    lemma_sees_put(c, w1, Inst::Block);
    assert(wi.code[p] == Inst::Block && wi.code[p + 1] == Inst::Block && wi.code[p + 2] == fork && wi.code[p + 3]
        == Inst::At(p as usize));
    lemma_code(c, wi, p);
    lemma_code(c, wi, p + 1);
    lemma_code(c, wi, p + 2);
    lemma_code(c, wi, p + 3);
    let q = w5.code.len() as int;
    assert(wn.code[q] == Inst::Jump(merge) && wn.code[q + 1] == Inst::At((p + 1) as usize));
    lemma_code(c, wn, q);
    lemma_code(c, wn, q + 1);
    lemma_knows_frames(w, wn, s);
}

/// The arms of a conditional, from the `i`-th on, to where they meet.
#[verifier::spinoff_prover]
pub(crate) proof fn sim_arms(
    c: CompiledView,
    w: WorkView,
    s: Seq<Scope>,
    chain: IfChain,
    i: nat,
    merge: usize,
    all: bool,
    fixed: Set<Seq<char>>,
    guard: Set<int>,
    d: nat,
    world: World,
    m: Machine,
    j: int,
) -> (n: nat)
    requires
        whole_arms(s, chain, i, fixed),
        knows(w, s),
        sound(c),
        sees(c, arms_made(w, chain, i, merge, all).0),
        joint(w, world, m),
        stands(w, m),
        w.open,
        guarded(w, fixed, guard),
        does_arms(d, world, chain, i).1 is Ok,
        merge < c.main.code.len(),
        c.main.code[merge as int] is Block,
        0 <= j < c.main.code.len(),
        c.main.code[j] == Inst::At(merge),
        arms_made(w, chain, i, merge, all).0.open ==> ({
            let wa = arms_made(w, chain, i, merge, all).0;
            wa.code.len() < c.main.code.len() && c.main.code[wa.code.len() as int] == Inst::Jump(merge)
        }),
    ensures
        agreed(w, w, world, does_arms(d, world, chain, i), m, steps(c, m, n), j, fixed, guard),
    decreases chain, chain.arms@.len() - i,
{
    arms_next(w, chain, i, merge, all);
    does_arms_next(d, world, chain, i);
    if i >= chain.arms@.len() {
        run_to(c, m, merge, j);
        lemma_at(w, w, world, m, j, w.code.len() as int, guard);
        1
    } else {
        let arm = chain.arms@[i as int];
        match arm.condition {
            None => {
                calm_scoped(w, s, arm.body, fixed);
                let w1 = scoped_made(w, arm.body).0;
                let w2 = put(w1, Inst::Jump(merge));
                arms_next(w2, chain, i + 1, merge, false);
                lemma_sees_put(c, w1, Inst::Jump(merge));
                let k = sim_scoped(c, w, s, arm.body, fixed, guard, d, world, m);
                let m1 = steps(c, m, k);
                let world1 = does_scoped(d, world, arm.body).0;
                assert(w2.code[w1.code.len() as int] == Inst::Jump(merge));
                lemma_code(c, w2, w1.code.len() as int);
                run_to(c, m1, merge, j);
                lemma_steps_add(c, m, k, 1);
                lemma_at(w1, w1, world1, m1, j, w.code.len() as int, guard);
                lemma_back(w, w1, world1, m, at(m1, j), fixed, guard);
                lemma_went_then(w.code.len() as int, w.code.len() as int, guard, guard, m, m1, at(m1, j));
                k + 1
            },
            Some(e) => {
                let (w1, test) = expr_made(w, e, Native::Bool);
                let wi = arm_entered(w, e);
                let w5 = scoped_made(wi, arm.body).0;
                let wn = arm_passed(w, e, arm.body, merge);
                let left = scoped_made(wi, arm.body).1;
                lemma_arms(wn, chain, i + 1, merge, all && left);
                lemma_sees_step(c, wn, arms_made(w, chain, i, merge, all).0);
                lemma_arm_code(c, w, s, e, arm.body, merge, fixed);
                calm_entered(w, s, e);
                let k = sim_expr(c, w, e, Native::Bool, d, world, None, m);
                let m1 = steps(c, m, k);
                lemma_ran_went(w, w1, m, m1, w.code.len() as int, fixed, guard);
                lemma_still_mirrors(w, w1, world, m, m1);
                let bit = meaning(d, world, e, None).1->Ok_0->Bool_0;
                let p = w1.code.len() as int;
                let to = if bit {
                    p + 3
                } else {
                    w5.code.len() as int + 1
                };
                run_branch(c, w1, m1, test.at, bit, to);
                lemma_steps_add(c, m, k, 4);
                let m2 = at(m1, to + 1);
                let wt = if bit {
                    wi
                } else {
                    wn
                };
                lemma_at(w1, wt, world, m1, to + 1, w.code.len() as int, guard);
                lemma_went_then(w.code.len() as int, w.code.len() as int, guard, guard, m, m1, m2);
                lemma_guarded_frames(w, wt, fixed, guard);
                if bit {
                    let h = sim_scoped(c, wi, s, arm.body, fixed, guard, d, world, m2);
                    let m3 = steps(c, m2, h);
                    lemma_steps_add(c, m, k + 4, h);
                    let world1 = does_scoped(d, world, arm.body).0;
                    run_to(c, m3, merge, j);
                    lemma_steps_add(c, m, k + 4 + h, 1);
                    lemma_went_then(w.code.len() as int, wi.code.len() as int, guard, guard, m, m2, m3);
                    lemma_at(w5, w5, world1, m3, j, w.code.len() as int, guard);
                    lemma_went_then(w.code.len() as int, w.code.len() as int, guard, guard, m, m3, at(m3, j));
                    lemma_back(w, w5, world1, m, at(m3, j), fixed, guard);
                    k + 4 + h + 1
                } else {
                    let h = sim_arms(c, wn, s, chain, i + 1, merge, all && left, fixed, guard, d, world, m2, j);
                    let m3 = steps(c, m2, h);
                    lemma_steps_add(c, m, k + 4, h);
                    lemma_went_then(w.code.len() as int, wn.code.len() as int, guard, guard, m, m2, m3);
                    lemma_back(w, wn, does_arms(d, world, chain, i).0, m, m3, fixed, guard);
                    k + 4 + h
                }
            },
        }
    }
}

/// What holds with more code emitted holds of the names alone, all of which are older.
pub(crate) proof fn lemma_back(
    w: WorkView,
    w1: WorkView,
    world: World,
    m: Machine,
    m1: Machine,
    fixed: Set<Seq<char>>,
    guard: Set<int>,
)
    requires
        mirrors(w1, world, m1),
        w1.frames == w.frames,
        guarded(w, fixed, guard),
        forall|i: int, j: int|
            #![trigger w.frames[i][j]]
            0 <= i < w.frames.len() && 0 <= j < w.frames[i].len() ==> w.frames[i][j].slot < w.code.len(),
    ensures
        mirrors(w, world, m1),
{
    assert forall|i: int, j: int|
        #![trigger w.frames[i][j]]
        0 <= i < w.frames.len() && 0 <= j < w.frames[i].len() implies {
        &&& mirrored(w, world.frames[i], m1, w.frames[i][j])
        &&& local_index(w.frames[i], w.frames[i][j].name) == j
    } by {
        assert(mirrored(w1, world.frames[i], m1, w1.frames[i][j]));
    }
}

#[verifier::spinoff_prover]
pub(crate) proof fn sim_if(
    c: CompiledView,
    w: WorkView,
    s: Seq<Scope>,
    chain: IfChain,
    fixed: Set<Seq<char>>,
    guard: Set<int>,
    d: nat,
    world: World,
    m: Machine,
) -> (n: nat)
    requires
        whole_arms(s, chain, 0, fixed),
        knows(w, s),
        sound(c),
        sees(c, if_made(w, chain).0),
        joint(w, world, m),
        stands(w, m),
        w.open,
        guarded(w, fixed, guard),
        does_arms(d, world, chain, 0).1 is Ok,
    ensures
        agreed(
            w,
            if_made(w, chain).0,
            world,
            does_arms(d, world, chain, 0),
            m,
            steps(c, m, n),
            if_made(w, chain).0.code.len() as int,
            fixed,
            guard,
        ),
    decreases chain, chain.arms@.len() + 1,
{
    calm_if(w, s, chain, fixed);
    let merge = w.code.len() as usize;
    let w1 = put(w, Inst::Block);
    let w2 = arms_made(w1, chain, 0, merge, true).0;
    let wj = joined(w2, !w2.open, merge);
    let wf = put(wj, Inst::At(merge));
    let j = wj.code.len() as int;
    lemma_sees_put(c, wj, Inst::At(merge));
    if w2.open {
        lemma_sees_put(c, w2, Inst::Jump(merge));
        assert(wj.code[w2.code.len() as int] == Inst::Jump(merge));
        lemma_code(c, wj, w2.code.len() as int);
    }
    lemma_arms(w1, chain, 0, merge, true);
    lemma_sees_step(c, w1, w2);
    reveal(step);
    assert(wf.code[j] == Inst::At(merge));
    lemma_code(c, wf, j);
    assert(w1.code[merge as int] == Inst::Block);
    lemma_code(c, w1, w.code.len() as int);
    run_at(c, m);
    let m1 = at(m, w.code.len() as int + 1);
    lemma_at(w, w1, world, m, w.code.len() as int + 1, w.code.len() as int, guard);
    lemma_guarded_frames(w, w1, fixed, guard);
    lemma_knows_frames(w, w1, s);
    let k = sim_arms(c, w1, s, chain, 0, merge, true, fixed, guard, d, world, m1, j);
    let m2 = steps(c, m1, k);
    lemma_steps_add(c, m, 1, k);
    let world1 = does_arms(d, world, chain, 0).0;
    lemma_went_then(w.code.len() as int, w1.code.len() as int, guard, guard, m, m1, m2);
    run_at(c, m2);
    lemma_steps_add(c, m, 1 + k, 1);
    lemma_at(w1, wf, world1, m2, j + 1, w.code.len() as int, guard);
    lemma_went_then(w.code.len() as int, w.code.len() as int, guard, guard, m, m2, at(m2, j + 1));
    lemma_guarded_frames(w, wf, fixed, guard);
    1 + k + 1
}

// ── loops with a condition ──────────────────────────────────────────────────

#[verifier::opaque]
pub open spec fn does_while(
    d: nat,
    world: World,
    l: LoopStmt,
    acc: Seq<Val>,
) -> (World, Result<Seq<Val>, StopView>) {
    while_from(d, world, l, acc)
}

pub open spec fn once_more(world: World) -> World {
    World { steps: world.steps + 1, ..world }
}

#[verifier::spinoff_prover]
pub(crate) proof fn does_while_next(d: nat, world: World, l: LoopStmt, acc: Seq<Val>)
    requires
        l.kind is While,
        does_while(d, world, l, acc).1 is Ok,
    ensures
        world.steps < u64::MAX,
        ({
            let r = meaning(d, once_more(world), l.kind->While_condition, None);
            &&& r.1 is Ok
            &&& r.1->Ok_0 == Val::Bool(false) ==> does_while(d, world, l, acc) == (r.0, Ok::<Seq<Val>, StopView>(acc))
            &&& r.1->Ok_0 == Val::Bool(true) ==> {
                let t = does_scoped(d, r.0, l.body);
                &&& t.1 is Ok
                &&& t == normally(t.0) && t.0.steps > world.steps ==> does_while(d, world, l, acc) == does_while(
                    d,
                    t.0,
                    l,
                    acc,
                )
            }
        }),
{
    reveal(does_while);
    reveal(does_scoped);
    reveal(meaning);
}

/// A loop with a condition, from where the condition is asked.
#[verifier::spinoff_prover]
pub(crate) proof fn sim_while(
    c: CompiledView,
    w: WorkView,
    s: Seq<Scope>,
    l: LoopStmt,
    fixed: Set<Seq<char>>,
    guard: Set<int>,
    d: nat,
    world: World,
    m: Machine,
    acc: Seq<Val>,
) -> (n: nat)
    requires
        l.kind is While,
        whole_loop(s, l, fixed),
        knows(w, s),
        sound(c),
        sees(c, loop_made(w, l)),
        joint(w, world, m),
        top(m).pc == w.code.len() + 4,
        guarded(w, fixed, guard),
        does_while(d, world, l, acc).1 is Ok,
    ensures
        agreed(
            w,
            loop_made(w, l),
            world,
            normally(does_while(d, world, l, acc).0),
            m,
            steps(c, m, n),
            loop_made(w, l).code.len() as int,
            fixed,
            guard,
        ),
    decreases l, semantics::ticks_left(world),
{
    let condition = l.kind->While_condition;
    loop_parts(w, l);
    calm_while(w, s, condition, l.body, fixed);
    does_while_next(d, world, l, acc);
    let p = w.code.len() as int;
    let cond = p as usize;
    let yes = (p + 1) as usize;
    let done = (p + 2) as usize;
    let w4 = while_asked(w);
    let (w5, test) = expr_made(w4, condition, Native::Bool);
    let fork = Inst::Fork { test: test.at, yes, no: done };
    let w7 = while_inside(w, condition);
    let w8 = scoped_made(w7, l.body).0;
    let wj = put(without_continue(w8), Inst::Jump(cond));
    let wf = put(wj, Inst::At(done));
    assert(wf == loop_made(w, l));
    lemma_while_code(c, w, s, condition, l.body, fixed);
    let q = w5.code.len() as int;
    let e = w8.code.len() as int;
    let world1 = once_more(world);
    run_at(c, m);
    let m1 = at(m, p + 5);
    lemma_at(w, w4, world1, Machine { ..m }, p + 5, p, guard);
    lemma_guarded_frames(w, w4, fixed, guard);
    let k = sim_expr(c, w4, condition, Native::Bool, d, world1, None, m1);
    let m2 = steps(c, m1, k);
    lemma_steps_add(c, m, 1, k);
    lemma_ran_went(w4, w5, m1, m2, p, fixed, guard);
    lemma_went_then(p, p, guard, guard, m, m1, m2);
    lemma_still_mirrors(w4, w5, world1, m1, m2);
    let bit = meaning(d, world1, condition, None).1->Ok_0->Bool_0;
    if bit {
        run_to(c, m2, yes, q + 1);
        lemma_steps_add(c, m, 1 + k, 1);
        let m3 = at(m2, q + 1);
        run_at(c, m3);
        lemma_steps_add(c, m, 1 + k + 1, 1);
        let m4 = at(m2, q + 2);
        assert(at(m3, q + 2) == m4);
        lemma_at(w5, w7, world1, m2, q + 2, p, guard);
        lemma_went_then(p, p, guard, guard, m, m2, m4);
        lemma_guarded_frames(w, w7, fixed, guard);
        let h = sim_scoped(c, w7, s, l.body, fixed, guard, d, world1, m4);
        let m5 = steps(c, m4, h);
        lemma_steps_add(c, m, k + 3, h);
        let world2 = does_scoped(d, world1, l.body).0;
        lemma_went_then(p, w7.code.len() as int, guard, guard, m, m4, m5);
        run_to(c, m5, cond, p + 4);
        lemma_steps_add(c, m, k + 3 + h, 1);
        let m6 = at(m5, p + 4);
        lemma_at(w8, w8, world2, m5, p + 4, p, guard);
        lemma_went_then(p, p, guard, guard, m, m5, m6);
        lemma_back(w, w8, world2, m, m6, fixed, guard);
        let g = sim_while(c, w, s, l, fixed, guard, d, world2, m6, acc);
        lemma_steps_add(c, m, k + 4 + h, g);
        lemma_went_then(p, p, guard, guard, m, m6, steps(c, m6, g));
        k + 4 + h + g
    } else {
        run_to(c, m2, done, e + 1);
        lemma_steps_add(c, m, 1 + k, 1);
        let m3 = at(m2, e + 1);
        run_at(c, m3);
        lemma_steps_add(c, m, 1 + k + 1, 1);
        let m4 = at(m2, e + 2);
        assert(at(m3, e + 2) == m4);
        lemma_at(w5, wf, world1, m2, e + 2, p, guard);
        lemma_went_then(p, p, guard, guard, m, m2, m4);
        lemma_guarded_frames(w, wf, fixed, guard);
        k + 3
    }
}

#[verifier::spinoff_prover]
pub(crate) proof fn lemma_while_code(
    c: CompiledView,
    w: WorkView,
    s: Seq<Scope>,
    condition: Expr,
    body: Vec<Stmt>,
    fixed: Set<Seq<char>>,
)
    requires
        whole_expr(s, condition, Native::Bool),
        whole_block(s.push(Map::empty()), body, 0, fixed),
        knows(w, s),
        ({
            let w8 = scoped_made(while_inside(w, condition), body).0;
            sees(c, put(put(without_continue(w8), Inst::Jump(w.code.len() as usize)), Inst::At((w.code.len() + 2) as usize)))
        }),
    ensures
        ({
            let p = w.code.len() as int;
            let w4 = while_asked(w);
            let (w5, test) = expr_made(w4, condition, Native::Bool);
            let w7 = while_inside(w, condition);
            let w8 = scoped_made(w7, body).0;
            let q = w5.code.len() as int;
            let e = w8.code.len() as int;
            let code = c.main.code;
            &&& sees(c, w4) && sees(c, w5) && sees(c, w7) && sees(c, w8)
            &&& w4.code.len() == p + 5
            &&& p + 5 <= q
            &&& w7.code.len() == q + 2
            &&& q + 2 <= e
            &&& e + 2 <= code.len()
            &&& code[p] == Inst::Block
            &&& code[p + 1] == Inst::Block
            &&& code[p + 2] == Inst::Block
            &&& code[p + 3] == Inst::Jump(p as usize)
            &&& code[p + 4] == Inst::At(p as usize)
            &&& code[q] == (Inst::Fork { test: test.at, yes: (p + 1) as usize, no: (p + 2) as usize })
            &&& code[q + 1] == Inst::At((p + 1) as usize)
            &&& code[e] == Inst::Jump(p as usize)
            &&& code[e + 1] == Inst::At((p + 2) as usize)
        }),
{
    calm_while(w, s, condition, body, fixed);
    let p = w.code.len() as int;
    let w4 = while_asked(w);
    let (w5, test) = expr_made(w4, condition, Native::Bool);
    let fork = Inst::Fork { test: test.at, yes: (p + 1) as usize, no: (p + 2) as usize };
    let w6 = put(w5, fork);
    let w7 = while_inside(w, condition);
    let w8 = scoped_made(w7, body).0;
    let w9 = without_continue(w8);
    let wj = put(w9, Inst::Jump(p as usize));
    let wf = put(wj, Inst::At((p + 2) as usize));
    let q = w5.code.len() as int;
    let e = w8.code.len() as int;
    lemma_sees_put(c, wj, Inst::At((p + 2) as usize));
    lemma_sees_put(c, w9, Inst::Jump(p as usize));
    assert(sees(c, w8));
    lemma_scoped(w7, body);
    lemma_sees_step(c, w7, w8);
    reveal(step);
    assert(sees(c, put(w6, Inst::At((p + 1) as usize))));
    lemma_sees_put(c, w6, Inst::At((p + 1) as usize));
    lemma_sees_put(c, w5, fork);
    lemma_sees_before(c, w4, w5);
    assert(w4.code[p] == Inst::Block && w4.code[p + 1] == Inst::Block && w4.code[p + 2] == Inst::Block);
    assert(w4.code[p + 3] == Inst::Jump(p as usize) && w4.code[p + 4] == Inst::At(p as usize));
    lemma_code(c, w4, p);
    lemma_code(c, w4, p + 1);
    lemma_code(c, w4, p + 2);
    lemma_code(c, w4, p + 3);
    lemma_code(c, w4, p + 4);
    assert(w7.code[q] == fork && w7.code[q + 1] == Inst::At((p + 1) as usize));
    lemma_code(c, w7, q);
    lemma_code(c, w7, q + 1);
    assert(wf.code[e] == Inst::Jump(p as usize) && wf.code[e + 1] == Inst::At((p + 2) as usize));
    lemma_code(c, wf, e);
    lemma_code(c, wf, e + 1);
}

// ── counted loops ───────────────────────────────────────────────────────────

/// The code of a counted loop that starts at `p`, goes on from `q` with a step that is not
/// 0, and advances its counter at `r`.
pub open spec fn loop_code(code: Seq<Inst>, p: int, q: int, r: int, b: Bounds) -> bool {
    &&& 0 <= p && p + 5 < q && q + 16 <= r && r + 10 < code.len() && code.len() <= usize::MAX
    &&& code[p] == Inst::Word(0)
    &&& code[p + 1] == (Inst::Relate { relation: Relation::Equal, kind: Kind::Word, lhs: b.step.at, rhs: p as usize })
    &&& code[p + 2] == Inst::Block
    &&& code[p + 3] == Inst::Block
    &&& code[p + 4] == (Inst::Fork { test: (p + 1) as usize, yes: (p + 2) as usize, no: (p + 3) as usize })
    &&& code[q] == Inst::At((p + 3) as usize)
    &&& code[q + 1] == Inst::Slot(Kind::Word)
    &&& code[q + 2] == (Inst::Store { into: (q + 1) as usize, value: b.start.at })
    &&& code[q + 3] == Inst::Block
    &&& code[q + 4] == Inst::Block
    &&& code[q + 5] == Inst::Block
    &&& code[q + 6] == Inst::Jump((q + 3) as usize)
    &&& code[q + 7] == Inst::At((q + 3) as usize)
    &&& code[q + 8] == (Inst::Load { kind: Kind::Word, from: (q + 1) as usize })
    &&& code[q + 9] == (Inst::Relate { relation: Relation::Greater, kind: Kind::Word, lhs: b.step.at, rhs: p as usize })
    &&& code[q + 10] == (Inst::Relate {
        relation: Relation::LessEqual,
        kind: Kind::Word,
        lhs: (q + 8) as usize,
        rhs: b.end.at,
    })
    &&& code[q + 11] == (Inst::Relate {
        relation: Relation::GreaterEqual,
        kind: Kind::Word,
        lhs: (q + 8) as usize,
        rhs: b.end.at,
    })
    &&& code[q + 12] == (Inst::Select {
        kind: Kind::Bit,
        test: (q + 9) as usize,
        yes: (q + 10) as usize,
        no: (q + 11) as usize,
    })
    &&& code[q + 13] == (Inst::Fork { test: (q + 12) as usize, yes: (q + 4) as usize, no: (q + 5) as usize })
    &&& code[q + 14] == Inst::Block
    &&& code[q + 15] == Inst::At((q + 4) as usize)
    &&& code[r] == Inst::At((q + 14) as usize)
    &&& code[r + 1] == (Inst::Load { kind: Kind::Word, from: (q + 1) as usize })
    &&& code[r + 2] == (Inst::Checked { op: CheckedOp::Add, lhs: (r + 1) as usize, rhs: b.step.at })
    &&& code[r + 3] == Inst::CheckedValue((r + 2) as usize)
    &&& code[r + 4] == Inst::Overflowed((r + 2) as usize)
    &&& code[r + 5] == Inst::Block
    &&& code[r + 6] == (Inst::Fork { test: (r + 4) as usize, yes: (q + 5) as usize, no: (r + 5) as usize })
    &&& code[r + 7] == Inst::At((r + 5) as usize)
    &&& code[r + 8] == (Inst::Store { into: (q + 1) as usize, value: (r + 3) as usize })
    &&& code[r + 9] == Inst::Jump((q + 3) as usize)
    &&& code[r + 10] == Inst::At((q + 5) as usize)
}

/// The same machine with one more register, one operation on.
pub open spec fn holding(m: Machine, v: Datum) -> Machine {
    with(m, gave(top(m), v)->0)
}

pub(crate) proof fn run_one(c: CompiledView, m: Machine, v: Datum)
    requires
        running(m),
        0 <= top(m).pc < c.main.code.len(),
        ({
            let i = c.main.code[top(m).pc];
            &&& !(i is CallRt) && !(i is CallFn) && !(i is Return) && !(i is ReturnNothing) && !(i is Unreachable)
            &&& done(top(m), c.main.code, c.main.texts, i) == gave(top(m), v)
        }),
    ensures
        steps(c, m, 1) == holding(m, v),
        running(holding(m, v)),
{
    lemma_does(c, m, c.main.code[top(m).pc], gave(top(m), v)->0);
}

/// What a piece of a loop's own code leaves alone, but for the counter.
pub open spec fn turned(n: int, m: Machine, m1: Machine, pc: int) -> bool {
    &&& m1 == with(m, top(m1))
    &&& running(m1)
    &&& top(m1).pc == pc
    &&& top(m1).given == top(m).given
    &&& forall|i: usize| i < n ==> #[trigger] reg(top(m1), i) == reg(top(m), i)
}

/// From the start of a counted loop to its test.
#[verifier::spinoff_prover]
pub(crate) proof fn run_entry(
    c: CompiledView,
    m: Machine,
    p: int,
    q: int,
    r: int,
    b: Bounds,
    from: i128,
    by: i128,
) -> (n: nat)
    requires
        sound(c),
        loop_code(c.main.code, p, q, r, b),
        running(m),
        top(m).pc == p,
        b.start.at < p,
        b.step.at < p,
        reg(top(m), b.start.at) == Datum::Word(from),
        reg(top(m), b.step.at) == Datum::Word(by),
        by != 0,
    ensures
        ({
            let m1 = steps(c, m, n);
            &&& turned(p, m, m1, q + 7)
            &&& reg(top(m1), p as usize) == Datum::Word(0)
            &&& top(m1).slots == top(m).slots.insert((q + 1, 0), Datum::Word(from))
        }),
{
    let m1 = holding(m, Datum::Word(0));
    run_one(c, m, Datum::Word(0));
    let m2 = holding(m1, Datum::Bit(false));
    run_one(c, m1, Datum::Bit(false));
    lemma_steps_add(c, m, 1, 1);
    let m3 = at(m2, p + 3);
    run_at(c, m2);
    lemma_steps_add(c, m, 2, 1);
    let m4 = at(m3, p + 4);
    run_at(c, m3);
    lemma_steps_add(c, m, 3, 1);
    let m5 = at(m4, q);
    run_to(c, m4, (p + 3) as usize, q);
    lemma_steps_add(c, m, 4, 1);
    let m6 = at(m5, q + 1);
    run_at(c, m5);
    lemma_steps_add(c, m, 5, 1);
    let m7 = holding(m6, Datum::Slot(q + 1));
    run_one(c, m6, Datum::Slot(q + 1));
    lemma_steps_add(c, m, 6, 1);
    assert(reg(top(m7), b.start.at) == Datum::Word(from));
    let a = Activation { pc: q + 3, slots: top(m7).slots.insert((q + 1, 0), Datum::Word(from)), ..top(m7) };
    lemma_does(c, m7, c.main.code[q + 2], a);
    lemma_steps_add(c, m, 7, 1);
    let m8 = with(m7, a);
    let m9 = at(m8, q + 4);
    run_at(c, m8);
    lemma_steps_add(c, m, 8, 1);
    let m10 = at(m9, q + 5);
    run_at(c, m9);
    lemma_steps_add(c, m, 9, 1);
    let m11 = at(m10, q + 6);
    run_at(c, m10);
    lemma_steps_add(c, m, 10, 1);
    let m12 = at(m11, q + 7);
    run_to(c, m11, (q + 3) as usize, q + 7);
    lemma_steps_add(c, m, 11, 1);
    assert(m12.calls =~= seq![top(m12)]);
    12
}

/// The test of a counted loop, to its body or to what follows it.
#[verifier::spinoff_prover]
pub(crate) proof fn run_test(
    c: CompiledView,
    m: Machine,
    p: int,
    q: int,
    r: int,
    b: Bounds,
    i: i128,
    to: i128,
    by: i128,
) -> (n: nat)
    requires
        sound(c),
        loop_code(c.main.code, p, q, r, b),
        running(m),
        top(m).pc == q + 7,
        b.end.at < p,
        b.step.at < p,
        reg(top(m), p as usize) == Datum::Word(0),
        reg(top(m), b.end.at) == Datum::Word(to),
        reg(top(m), b.step.at) == Datum::Word(by),
        slot(top(m).slots, q + 1, 0) == Datum::Word(i),
        by != 0,
    ensures
        ({
            let m1 = steps(c, m, n);
            &&& turned(
                q + 8,
                m,
                m1,
                if in_range(i as int, to as int, by as int) {
                    q + 16
                } else {
                    r + 11
                },
            )
            &&& top(m1).slots == top(m).slots
        }),
{
    let m1 = at(m, q + 8);
    run_at(c, m);
    let m2 = holding(m1, Datum::Word(i));
    run_one(c, m1, Datum::Word(i));
    lemma_steps_add(c, m, 1, 1);
    let m3 = holding(m2, Datum::Bit(by > 0));
    assert(reg(top(m2), b.step.at) == Datum::Word(by) && reg(top(m2), p as usize) == Datum::Word(0));
    run_one(c, m2, Datum::Bit(by > 0));
    lemma_steps_add(c, m, 2, 1);
    let m4 = holding(m3, Datum::Bit(i <= to));
    assert(reg(top(m3), b.end.at) == Datum::Word(to) && reg(top(m3), (q + 8) as usize) == Datum::Word(i));
    run_one(c, m3, Datum::Bit(i <= to));
    lemma_steps_add(c, m, 3, 1);
    let m5 = holding(m4, Datum::Bit(i >= to));
    assert(reg(top(m4), b.end.at) == Datum::Word(to) && reg(top(m4), (q + 8) as usize) == Datum::Word(i));
    run_one(c, m4, Datum::Bit(i >= to));
    lemma_steps_add(c, m, 4, 1);
    let more = in_range(i as int, to as int, by as int);
    let m6 = holding(m5, Datum::Bit(more));
    assert(reg(top(m5), (q + 9) as usize) == Datum::Bit(by > 0) && reg(top(m5), (q + 10) as usize) == Datum::Bit(i <= to)
        && reg(top(m5), (q + 11) as usize) == Datum::Bit(i >= to));
    run_one(c, m5, Datum::Bit(more));
    lemma_steps_add(c, m, 5, 1);
    let goal = if more {
        q + 15
    } else {
        r + 10
    };
    let block = if more {
        (q + 4) as usize
    } else {
        (q + 5) as usize
    };
    let m7 = at(m6, goal);
    run_to(c, m6, block, goal);
    lemma_steps_add(c, m, 6, 1);
    let m8 = at(m7, goal + 1);
    run_at(c, m7);
    lemma_steps_add(c, m, 7, 1);
    assert(m8.calls =~= seq![top(m8)]);
    8
}

/// The counter advanced, to the test or, where it cannot be, to what follows the loop.
#[verifier::spinoff_prover]
pub(crate) proof fn run_advance(
    c: CompiledView,
    m: Machine,
    p: int,
    q: int,
    r: int,
    b: Bounds,
    i: i128,
    by: i128,
) -> (n: nat)
    requires
        sound(c),
        loop_code(c.main.code, p, q, r, b),
        running(m),
        top(m).pc == r,
        b.step.at < p,
        reg(top(m), b.step.at) == Datum::Word(by),
        slot(top(m).slots, q + 1, 0) == Datum::Word(i),
    ensures
        ({
            let m1 = steps(c, m, n);
            if fits(i + by) {
                &&& turned(r, m, m1, q + 7)
                &&& top(m1).slots == top(m).slots.insert((q + 1, 0), Datum::Word((i + by) as i128))
            } else {
                &&& turned(r, m, m1, r + 11)
                &&& top(m1).slots == top(m).slots
            }
        }),
{
    let m1 = at(m, r + 1);
    run_at(c, m);
    let m2 = holding(m1, Datum::Word(i));
    run_one(c, m1, Datum::Word(i));
    lemma_steps_add(c, m, 1, 1);
    let pair = checked(CheckedOp::Add, i, by);
    let m3 = holding(m2, pair);
    assert(reg(top(m2), b.step.at) == Datum::Word(by) && reg(top(m2), (r + 1) as usize) == Datum::Word(i));
    run_one(c, m2, pair);
    lemma_steps_add(c, m, 2, 1);
    let m4 = holding(m3, Datum::Word(pair->Pair_0));
    assert(reg(top(m3), (r + 2) as usize) == pair);
    run_one(c, m3, Datum::Word(pair->Pair_0));
    lemma_steps_add(c, m, 3, 1);
    let m5 = holding(m4, Datum::Bit(pair->Pair_1));
    assert(reg(top(m4), (r + 2) as usize) == pair);
    run_one(c, m4, Datum::Bit(pair->Pair_1));
    lemma_steps_add(c, m, 4, 1);
    let m6 = at(m5, r + 6);
    run_at(c, m5);
    lemma_steps_add(c, m, 5, 1);
    assert(reg(top(m6), (r + 4) as usize) == Datum::Bit(pair->Pair_1));
    assert(reg(top(m6), (r + 3) as usize) == Datum::Word(pair->Pair_0));
    if fits(i + by) {
        let m7 = at(m6, r + 7);
        run_to(c, m6, (r + 5) as usize, r + 7);
        lemma_steps_add(c, m, 6, 1);
        let m8 = at(m7, r + 8);
        run_at(c, m7);
        lemma_steps_add(c, m, 7, 1);
        let a = Activation {
            pc: r + 9,
            slots: top(m8).slots.insert((q + 1, 0), Datum::Word((i + by) as i128)),
            ..top(m8)
        };
        lemma_does(c, m8, c.main.code[r + 8], a);
        lemma_steps_add(c, m, 8, 1);
        let m9 = with(m8, a);
        let m10 = at(m9, q + 7);
        run_to(c, m9, (q + 3) as usize, q + 7);
        lemma_steps_add(c, m, 9, 1);
        assert(m10.calls =~= seq![top(m10)]);
        10
    } else {
        let m7 = at(m6, r + 10);
        run_to(c, m6, (q + 5) as usize, r + 10);
        lemma_steps_add(c, m, 6, 1);
        let m8 = at(m7, r + 11);
        run_at(c, m7);
        lemma_steps_add(c, m, 7, 1);
        assert(m8.calls =~= seq![top(m8)]);
        8
    }
}

#[verifier::opaque]
pub open spec fn does_counted(
    d: nat,
    world: World,
    body: Vec<Stmt>,
    var: Seq<char>,
    span: Span,
    i: int,
    to: int,
    by: int,
    acc: Seq<Val>,
) -> (
    World,
    Result<Seq<Val>, StopView>,
) {
    counted_from(d, world, body, var, span, i, to, by, acc)
}

#[verifier::spinoff_prover]
pub(crate) proof fn does_counted_next(
    d: nat,
    world: World,
    body: Vec<Stmt>,
    var: Seq<char>,
    span: Span,
    i: int,
    to: int,
    by: int,
    acc: Seq<Val>,
)
    requires
        does_counted(d, world, body, var, span, i, to, by, acc).1 is Ok,
    ensures
        !in_range(i, to, by) ==> does_counted(d, world, body, var, span, i, to, by, acc) == (
            world,
            Ok::<Seq<Val>, StopView>(acc),
        ),
        in_range(i, to, by) ==> {
            let r = does_block(
                d,
                defined(semantics::opened(once_more(world)), var, Val::Int(i as i128)),
                body,
                0,
            );
            &&& r.1 is Ok
            &&& r == normally(r.0) ==> does_counted(d, world, body, var, span, i, to, by, acc) == does_counted(
                d,
                semantics::closed_scope(r.0),
                body,
                var,
                span,
                i + by,
                to,
                by,
                acc,
            )
        },
{
    reveal(does_counted);
    reveal(does_block);
}

/// What the program holds of a counted loop.
#[verifier::spinoff_prover]
pub(crate) proof fn lemma_counted_code(
    c: CompiledView,
    w: WorkView,
    s: Seq<Scope>,
    var: Seq<char>,
    b: Bounds,
    body: Vec<Stmt>,
    fixed: Set<Seq<char>>,
) -> (q: int)
    requires
        whole_block(with_name(s.push(Map::empty()), var, Native::Int), body, 0, fixed),
        knows(w, s),
        b.start.kind == Kind::Word,
        b.end.kind == Kind::Word,
        b.step.kind == Kind::Word,
        sound(c),
        sees(c, counted_made(w, var, b, body)),
    ensures
        ({
            let w2 = counted_inside(w, var, b);
            let w3 = block_made(w2, body, 0).0;
            let r = w3.code.len() as int + 1;
            let wf = counted_made(w, var, b, body);
            &&& loop_code(c.main.code, w.code.len() as int, q, r, b)
            &&& sees(c, w3)
            &&& w2.code.len() == q + 16
            &&& wf.code.len() == r + 11
            &&& c.main.code[r - 1] == Inst::Jump((q + 14) as usize)
            &&& loop_entered(w, b).1.slot == (q + 1) as usize
        }),
{
    let q = entered_parts(w, b);
    inside_knows(w, s, var, b);
    let _ = calm_counted(w, s, var, b, body, fixed);
    let (w1, l) = loop_entered(w, b);
    let w2 = counted_inside(w, var, b);
    let w3 = block_made(w2, body, 0).0;
    let w4 = without_frame(without_continue(w3));
    let jump = Inst::Jump(l.step);
    let w5 = put(w4, jump);
    let wf = counted_made(w, var, b, body);
    left_parts(w5, b, l);
    let r = w5.code.len() as int;
    reveal(stride);
    lemma_block(w2, body, 0);
    assert(extended(w5.code, wf.code));
    assert(w5.texts == wf.texts);
    lemma_extended_then(w5.code, wf.code, c.main.code);
    assert(sees(c, w5));
    lemma_sees_put(c, w4, jump);
    assert(sees(c, w3));
    lemma_sees_stride(c, w2, w3);
    assert(w5.code[r - 1] == jump);
    lemma_code(c, w5, r - 1);
    lemma_loop_code(c.main.code, w1.code, wf.code, w.code.len() as int, q, r, b);
    q
}

#[verifier::spinoff_prover]
pub(crate) proof fn lemma_loop_code(
    code: Seq<Inst>,
    first: Seq<Inst>,
    last: Seq<Inst>,
    p: int,
    q: int,
    r: int,
    b: Bounds,
)
    requires
        code.len() <= usize::MAX,
        extended(first, code),
        extended(last, code),
        first.len() == q + 16,
        last.len() == r + 11,
        0 <= p && p + 5 < q && q + 16 <= r,
        first[p] == Inst::Word(0),
        first[p + 1] == (Inst::Relate { relation: Relation::Equal, kind: Kind::Word, lhs: b.step.at, rhs: p as usize }),
        first[p + 2] == Inst::Block,
        first[p + 3] == Inst::Block,
        first[p + 4] == (Inst::Fork { test: (p + 1) as usize, yes: (p + 2) as usize, no: (p + 3) as usize }),
        first[q] == Inst::At((p + 3) as usize),
        first[q + 1] == Inst::Slot(Kind::Word),
        first[q + 2] == (Inst::Store { into: (q + 1) as usize, value: b.start.at }),
        first[q + 3] == Inst::Block,
        first[q + 4] == Inst::Block,
        first[q + 5] == Inst::Block,
        first[q + 6] == Inst::Jump((q + 3) as usize),
        first[q + 7] == Inst::At((q + 3) as usize),
        first[q + 8] == (Inst::Load { kind: Kind::Word, from: (q + 1) as usize }),
        first[q + 9] == (Inst::Relate {
            relation: Relation::Greater,
            kind: Kind::Word,
            lhs: b.step.at,
            rhs: p as usize,
        }),
        first[q + 10] == (Inst::Relate {
            relation: Relation::LessEqual,
            kind: Kind::Word,
            lhs: (q + 8) as usize,
            rhs: b.end.at,
        }),
        first[q + 11] == (Inst::Relate {
            relation: Relation::GreaterEqual,
            kind: Kind::Word,
            lhs: (q + 8) as usize,
            rhs: b.end.at,
        }),
        first[q + 12] == (Inst::Select {
            kind: Kind::Bit,
            test: (q + 9) as usize,
            yes: (q + 10) as usize,
            no: (q + 11) as usize,
        }),
        first[q + 13] == (Inst::Fork { test: (q + 12) as usize, yes: (q + 4) as usize, no: (q + 5) as usize }),
        first[q + 14] == Inst::Block,
        first[q + 15] == Inst::At((q + 4) as usize),
        last[r] == Inst::At((q + 14) as usize),
        last[r + 1] == (Inst::Load { kind: Kind::Word, from: (q + 1) as usize }),
        last[r + 2] == (Inst::Checked { op: CheckedOp::Add, lhs: (r + 1) as usize, rhs: b.step.at }),
        last[r + 3] == Inst::CheckedValue((r + 2) as usize),
        last[r + 4] == Inst::Overflowed((r + 2) as usize),
        last[r + 5] == Inst::Block,
        last[r + 6] == (Inst::Fork { test: (r + 4) as usize, yes: (q + 5) as usize, no: (r + 5) as usize }),
        last[r + 7] == Inst::At((r + 5) as usize),
        last[r + 8] == (Inst::Store { into: (q + 1) as usize, value: (r + 3) as usize }),
        last[r + 9] == Inst::Jump((q + 3) as usize),
        last[r + 10] == Inst::At((q + 5) as usize),
    ensures
        loop_code(code, p, q, r, b),
{
    assert forall|k: int| 0 <= k < first.len() implies #[trigger] code[k] == first[k] by {}
    assert forall|k: int| 0 <= k < last.len() implies #[trigger] code[k] == last[k] by {}
}

/// The body of a counted loop begins with the counter on both sides.
#[verifier::spinoff_prover]
pub(crate) proof fn lemma_counter(
    w: WorkView,
    s: Seq<Scope>,
    var: Seq<char>,
    b: Bounds,
    q: int,
    world: World,
    m: Machine,
    i: i128,
    fixed: Set<Seq<char>>,
    guard: Set<int>,
)
    requires
        knows(w, s),
        b.start.kind == Kind::Word,
        b.end.kind == Kind::Word,
        b.step.kind == Kind::Word,
        loop_entered(w, b).1.slot == (q + 1) as usize,
        loop_entered(w, b).0.code.len() == q + 16,
        q + 16 <= usize::MAX,
        w.code.len() <= q,
        mirrors(w, world, m),
        guarded(w, fixed, guard),
        slot(top(m).slots, q + 1, 0) == Datum::Word(i),
    ensures
        mirrors(counted_inside(w, var, b), defined(semantics::opened(world), var, Val::Int(i)), m),
        guarded(counted_inside(w, var, b), fixed.insert(var), guard.insert(q + 1)),
{
    let _ = entered_parts(w, b);
    inside_knows(w, s, var, b);
    lemma_opens(w, world, m, fixed, guard);
    let w0 = with_frame(w);
    let w2 = counted_inside(w, var, b);
    let world1 = semantics::opened(world);
    assert(w2.frames == declared(w0, var, (q + 1) as usize, Native::Int).frames) by {
        reveal(declared);
        reveal(with_frame);
    }
    lemma_declares(w0, w2, world1, m, m, var, (q + 1) as usize, Native::Int, Val::Int(i), fixed, guard);
    assert forall|x: int, y: int|
        #![trigger w2.frames[x][y]]
        0 <= x < w2.frames.len() && 0 <= y < w2.frames[x].len() && guard.insert(q + 1).contains(
            w2.frames[x][y].slot as int,
        ) implies fixed.insert(var).contains(w2.frames[x][y].name) by {
        if x < w.frames.len() {
            assert(w2.frames[x] == w2.frames.drop_last()[x]);
            assert(mirrored(w, world.frames[x], m, w.frames[x][y]));
        } else {
            assert(w2.frames[x] == w2.frames.last());
        }
    }
}

pub(crate) proof fn lemma_turned(
    w: WorkView,
    wf: WorkView,
    world: World,
    m: Machine,
    m1: Machine,
    n: int,
    pc: int,
    k: int,
    fixed: Set<Seq<char>>,
    guard: Set<int>,
)
    requires
        joint(w, world, m),
        turned(n, m, m1, pc),
        w.code.len() <= n,
        w.code.len() <= k,
        wf.frames == w.frames,
        w.code.len() <= wf.code.len(),
        guarded(w, fixed, guard),
        forall|x: int, y: int| x != k ==> #[trigger] slot(top(m1).slots, x, y) == slot(top(m).slots, x, y),
    ensures
        joint(wf, world, m1),
        went(w.code.len() as int, guard, m, m1),
        guarded(wf, fixed, guard),
{
    assert(keeps_below(w.code.len() as int, top(m), top(m1)));
    lemma_still_mirrors(w, wf, world, m, m1);
    assert forall|x: int| guard.contains(x) implies #[trigger] slot(top(m1).slots, x, 0) == slot(top(m).slots, x, 0) by {}
}

/// A counted loop, from its test.
#[verifier::spinoff_prover]
#[verifier::rlimit(30)]
pub(crate) proof fn sim_counted(
    c: CompiledView,
    w: WorkView,
    s: Seq<Scope>,
    var: Seq<char>,
    b: Bounds,
    body: Vec<Stmt>,
    span: Span,
    q: int,
    fixed: Set<Seq<char>>,
    guard: Set<int>,
    d: nat,
    world: World,
    m: Machine,
    i: i128,
    to: i128,
    by: i128,
    acc: Seq<Val>,
) -> (n: nat)
    requires
        whole_block(with_name(s.push(Map::empty()), var, Native::Int), body, 0, fixed.insert(var)),
        knows(w, s),
        sound(c),
        sees(c, block_made(counted_inside(w, var, b), body, 0).0),
        b.start.kind == Kind::Word,
        b.end.kind == Kind::Word,
        b.step.kind == Kind::Word,
        b.end.at < w.code.len(),
        b.step.at < w.code.len(),
        ({
            let r = block_made(counted_inside(w, var, b), body, 0).0.code.len() as int + 1;
            &&& loop_code(c.main.code, w.code.len() as int, q, r, b)
            &&& counted_made(w, var, b, body).code.len() == r + 11
            &&& c.main.code[r - 1] == Inst::Jump((q + 14) as usize)
        }),
        counted_inside(w, var, b).code.len() == q + 16,
        loop_entered(w, b).1.slot == (q + 1) as usize,
        joint(w, world, m),
        top(m).pc == q + 7,
        slot(top(m).slots, q + 1, 0) == Datum::Word(i),
        reg(top(m), w.code.len() as usize) == Datum::Word(0),
        reg(top(m), b.end.at) == Datum::Word(to),
        reg(top(m), b.step.at) == Datum::Word(by),
        by != 0,
        guarded(w, fixed, guard),
        does_counted(d, world, body, var, span, i as int, to as int, by as int, acc).1 is Ok,
    ensures
        agreed(
            w,
            counted_made(w, var, b, body),
            world,
            normally(does_counted(d, world, body, var, span, i as int, to as int, by as int, acc).0),
            m,
            steps(c, m, n),
            counted_made(w, var, b, body).code.len() as int,
            fixed,
            guard,
        ),
    decreases body, body@.len() + 2 + range_left(i as int, to as int, by as int),
{
    let p = w.code.len() as int;
    let w2 = counted_inside(w, var, b);
    let w3 = block_made(w2, body, 0).0;
    let wf = counted_made(w, var, b, body);
    let r = w3.code.len() as int + 1;
    does_counted_next(d, world, body, var, span, i as int, to as int, by as int, acc);
    inside_knows(w, s, var, b);
    let _ = calm_counted(w, s, var, b, body, fixed.insert(var));
    let n1 = run_test(c, m, p, q, r, b, i, to, by);
    let m1 = steps(c, m, n1);
    if !in_range(i as int, to as int, by as int) {
        lemma_turned(w, wf, world, m, m1, q + 8, r + 11, q + 1, fixed, guard);
        n1
    } else {
        lemma_turned(w, w, world, m, m1, q + 8, q + 16, q + 1, fixed, guard);
        let world1 = once_more(world);
        assert(mirrors(w, world1, m1));
        let world2 = defined(semantics::opened(world1), var, Val::Int(i));
        lemma_counter(w, s, var, b, q, world1, m1, i, fixed, guard);
        let fixed1 = fixed.insert(var);
        let guard1 = guard.insert(q + 1);
        let h = sim_block(
            c,
            w2,
            with_name(s.push(Map::empty()), var, Native::Int),
            body,
            0,
            fixed1,
            guard1,
            d,
            world2,
            m1,
        );
        let m2 = steps(c, m1, h);
        lemma_steps_add(c, m, n1, h);
        let world3 = does_block(d, world2, body, 0).0;
        let world4 = semantics::closed_scope(world3);
        assert(went(p, guard, m1, m2));
        lemma_went_then(p, p, guard, guard, m, m1, m2);
        assert(slot(top(m2).slots, q + 1, 0) == slot(top(m1).slots, q + 1, 0));
        assert(reg(top(m2), b.step.at) == Datum::Word(by));
        assert(reg(top(m2), b.end.at) == Datum::Word(to));
        assert(reg(top(m2), p as usize) == Datum::Word(0));
        lemma_loop_closed(w, w2, w3, world3, m2, fixed, guard);
        assert(joint(w, world4, m2));
        run_to(c, m2, (q + 14) as usize, r);
        let mr = at(m2, r);
        let k1 = run_advance(c, mr, p, q, r, b, i, by);
        let k = 1 + k1;
        lemma_steps_add(c, m2, 1, k1);
        let m3 = steps(c, m2, k);
        lemma_steps_add(c, m, n1 + h, k);
        assert(m3 == with(m2, top(m3)));
        if fits(i + by) {
            lemma_turned(w, w, world4, m2, m3, r, q + 7, q + 1, fixed, guard);
            lemma_went_then(p, p, guard, guard, m, m2, m3);
            let g = sim_counted(
                c,
                w,
                s,
                var,
                b,
                body,
                span,
                q,
                fixed,
                guard,
                d,
                world4,
                m3,
                (i + by) as i128,
                to,
                by,
                acc,
            );
            lemma_steps_add(c, m, n1 + h + k, g);
            lemma_went_then(p, p, guard, guard, m, m3, steps(c, m3, g));
            n1 + h + k + g
        } else {
            does_counted_next(d, world4, body, var, span, i + by, to as int, by as int, acc);
            lemma_turned(w, wf, world4, m2, m3, r, r + 11, q + 1, fixed, guard);
            lemma_went_then(p, p, guard, guard, m, m2, m3);
            n1 + h + k
        }
    }
}

/// Behind the body of a counted loop, the names around the loop hold the same on both sides.
pub(crate) proof fn lemma_loop_closed(
    w: WorkView,
    w2: WorkView,
    w3: WorkView,
    world: World,
    m: Machine,
    fixed: Set<Seq<char>>,
    guard: Set<int>,
)
    requires
        w2.frames.drop_last() == w.frames,
        w2.frames.len() == w.frames.len() + 1,
        w.frames.len() > 0,
        stride(w2, w3),
        w.code.len() <= w3.code.len(),
        mirrors(w3, world, m),
        guarded(w, fixed, guard),
        forall|i: int, j: int|
            #![trigger w.frames[i][j]]
            0 <= i < w.frames.len() && 0 <= j < w.frames[i].len() ==> w.frames[i][j].slot < w.code.len(),
    ensures
        mirrors(w, semantics::closed_scope(world), m),
{
    reveal(stride);
    let wc = WorkView { frames: w.frames, ..w3 };
    assert(w3.frames.drop_last() =~= w.frames) by {
        assert forall|i: int| 0 <= i < w.frames.len() implies w3.frames[i] == w.frames[i] by {
            assert(w3.frames[i] == w2.frames[i]);
            assert(w2.frames[i] == w2.frames.drop_last()[i]);
        }
    }
    lemma_closes(w3, wc, world, m, fixed, guard);
    lemma_back(w, wc, semantics::closed_scope(world), m, m, fixed, guard);
}

/// What a statement comes to.
#[verifier::spinoff_prover]
pub(crate) proof fn does_stmt_parts(d: nat, world: World, stmt: Stmt)
    requires
        does_stmt(d, world, stmt).1 is Ok,
    ensures
        match stmt {
            Stmt::Func(_) => does_stmt(d, world, stmt) == normally(world),
            Stmt::Var(v) => does_stmt(d, world, stmt) == does_bindings(d, world, v, 0),
            Stmt::Change(c) => does_stmt(d, world, stmt) == does_targets(d, world, c, 0),
            Stmt::If(chain) => does_stmt(d, world, stmt) == does_arms(d, world, chain, 0),
            Stmt::Print { args, .. } => {
                let r = does_texts(d, world, args, 0, Seq::empty());
                &&& r.1 is Ok
                &&& does_stmt(d, world, stmt) == normally(semantics::printed(r.0, r.1->Ok_0))
            },
            Stmt::Loop(l) => l.kind is While ==> {
                let r = does_while(d, world, l, Seq::empty());
                &&& r.1 is Ok
                &&& does_stmt(d, world, stmt) == normally(r.0)
            },
            _ => true,
        },
{
    reveal(does_stmt);
    reveal(does_bindings);
    reveal(does_targets);
    reveal(does_arms);
    reveal(does_texts);
    reveal(does_while);
}

/// Where a counted loop starts.
#[verifier::spinoff_prover]
pub(crate) proof fn does_counted_start(
    d: nat,
    world: World,
    l: LoopStmt,
    var: String,
    range: Expr,
    from: Expr,
    to: Expr,
    by: Option<Box<Expr>>,
)
    requires
        does_stmt(d, world, Stmt::Loop(l)).1 is Ok,
        l.kind matches LoopKind::Counted { var: v, range: x, .. } && v == var && x == range,
        ({
            let inside = match range.kind {
                ExprKind::Math(inner) => *inner,
                _ => range,
            };
            inside.kind == (ExprKind::Range { from: Box::new(from), to: Box::new(to), by })
        }),
    ensures
        ({
            let a = meaning(d, world, from, whole());
            &&& a.1 is Ok
            &&& a == (world, Ok::<Val, StopView>(Val::Int(a.1->Ok_0->Int_0))) ==> {
                let e = meaning(d, world, to, whole());
                &&& e.1 is Ok
                &&& e == (world, Ok::<Val, StopView>(Val::Int(e.1->Ok_0->Int_0))) ==> match by {
                    None => counted_on(d, world, l, var@, a.1->Ok_0->Int_0, e.1->Ok_0->Int_0, 1),
                    Some(x) => {
                        let f = meaning(d, world, *x, whole());
                        &&& f.1 is Ok
                        &&& f == (world, Ok::<Val, StopView>(Val::Int(f.1->Ok_0->Int_0))) ==> counted_on(
                            d,
                            world,
                            l,
                            var@,
                            a.1->Ok_0->Int_0,
                            e.1->Ok_0->Int_0,
                            f.1->Ok_0->Int_0,
                        )
                    },
                }
            }
        }),
{
    reveal(does_stmt);
    reveal(does_counted);
    reveal(meaning);
}

/// Whether a loop goes through a range and comes to an end.
pub open spec fn counted_on(
    d: nat,
    world: World,
    l: LoopStmt,
    var: Seq<char>,
    from: i128,
    to: i128,
    by: i128,
) -> bool {
    let r = does_counted(d, world, l.body, var, l.span, from as int, to as int, by as int, Seq::empty());
    &&& by != 0
    &&& r.1 is Ok
    &&& does_stmt(d, world, Stmt::Loop(l)) == normally(r.0)
}

/// The step of a range, run.
#[verifier::spinoff_prover]
pub(crate) proof fn sim_step(
    c: CompiledView,
    w: WorkView,
    s: Seq<Scope>,
    by: Option<Box<Expr>>,
    d: nat,
    world: World,
    m: Machine,
) -> (n: nat)
    requires
        whole_step(s, by),
        knows(w, s),
        sound(c),
        sees(c, step_made(w, by).0),
        mirrors(w, world, m),
        stands(w, m),
        w.open,
        by matches Some(e) ==> meaning(d, world, *e, whole()).1 is Ok,
    ensures
        by matches Some(e) ==> meaning(d, world, *e, whole()).0 == world,
        came_to(
            w,
            step_made(w, by).0,
            step_made(w, by).1,
            m,
            steps(c, m, n),
            Native::Int,
            match by {
                Some(e) => meaning(d, world, *e, whole()).1->Ok_0,
                None => Val::Int(1),
            },
        ),
{
    calm_step(w, s, by);
    match by {
        Some(e) => sim_expr(c, w, *e, Native::Int, d, world, whole(), m),
        None => {
            run_value(c, w, m, Inst::Word(1), Datum::Word(1));
            1
        },
    }
}

#[verifier::spinoff_prover]
pub(crate) proof fn sim_counting(
    c: CompiledView,
    w: WorkView,
    s: Seq<Scope>,
    l: LoopStmt,
    fixed: Set<Seq<char>>,
    guard: Set<int>,
    d: nat,
    world: World,
    m: Machine,
) -> (n: nat)
    requires
        l.kind is Counted,
        whole_loop(s, l, fixed),
        knows(w, s),
        sound(c),
        sees(c, loop_made(w, l)),
        joint(w, world, m),
        stands(w, m),
        w.open,
        guarded(w, fixed, guard),
        does_stmt(d, world, Stmt::Loop(l)).1 is Ok,
    ensures
        agreed(
            w,
            loop_made(w, l),
            world,
            does_stmt(d, world, Stmt::Loop(l)),
            m,
            steps(c, m, n),
            loop_made(w, l).code.len() as int,
            fixed,
            guard,
        ),
    decreases l, u64::MAX + 1,
{
    let var = l.kind->Counted_var;
    let range = l.kind->Counted_range;
    let inside = match range.kind {
        ExprKind::Math(inner) => *inner,
        _ => range,
    };
    let from = *inside.kind->Range_from;
    let to = *inside.kind->Range_to;
    let by = inside.kind->Range_by;
    loop_parts(w, l);
    calm_bounds(w, s, range, from, to, by);
    does_counted_start(d, world, l, var, range, from, to, by);
    let (w1, a) = expr_made(w, from, Native::Int);
    let (w2, e) = expr_made(w1, to, Native::Int);
    let (w3, f) = step_made(w2, by);
    let b = Bounds { start: a, end: e, step: f };
    lemma_knows_frames(w, w1, s);
    lemma_knows_frames(w, w2, s);
    lemma_knows_frames(w, w3, s);
    crate::codegen::laws::lemma_counted(w3, var@, b, l.body);
    lemma_sees_step(c, w3, loop_made(w, l));
    lemma_sees_before(c, w2, w3);
    lemma_sees_before(c, w1, w2);
    let n1 = sim_expr(c, w, from, Native::Int, d, world, whole(), m);
    let m1 = steps(c, m, n1);
    lemma_still_mirrors(w, w1, world, m, m1);
    let n2 = sim_expr(c, w1, to, Native::Int, d, world, whole(), m1);
    let m2 = steps(c, m1, n2);
    lemma_steps_add(c, m, n1, n2);
    lemma_ran_then(w, w1, w2, m, m1, m2);
    lemma_still_mirrors(w, w2, world, m, m2);
    let n3 = sim_step(c, w2, s, by, d, world, m2);
    let m3 = steps(c, m2, n3);
    lemma_steps_add(c, m, n1 + n2, n3);
    lemma_ran_then(w, w2, w3, m, m2, m3);
    lemma_still_mirrors(w, w3, world, m, m3);
    let x = meaning(d, world, from, whole()).1->Ok_0->Int_0;
    let y = meaning(d, world, to, whole()).1->Ok_0->Int_0;
    let z = match by {
        Some(g) => meaning(d, world, *g, whole()).1->Ok_0->Int_0,
        None => 1,
    };
    assert(reg(top(m2), a.at) == Datum::Word(x));
    assert(reg(top(m3), a.at) == Datum::Word(x));
    assert(reg(top(m3), e.at) == Datum::Word(y));
    assert(reg(top(m3), f.at) == Datum::Word(z));
    lemma_ran_went(w, w3, m, m3, w.code.len() as int, fixed, guard);
    lemma_guarded_frames(w, w3, fixed, guard);
    let q = lemma_counted_code(c, w3, s, var@, b, l.body, fixed.insert(var@));
    let p = w3.code.len() as int;
    let r = block_made(counted_inside(w3, var@, b), l.body, 0).0.code.len() as int + 1;
    let n4 = run_entry(c, m3, p, q, r, b, x, z);
    let m4 = steps(c, m3, n4);
    lemma_steps_add(c, m, n1 + n2 + n3, n4);
    lemma_turned(w3, w3, world, m3, m4, p, q + 7, q + 1, fixed, guard);
    lemma_went_then(w.code.len() as int, p, guard, guard, m, m3, m4);
    let n5 = sim_counted(
        c,
        w3,
        s,
        var@,
        b,
        l.body,
        l.span,
        q,
        fixed,
        guard,
        d,
        world,
        m4,
        x,
        y,
        z,
        Seq::empty(),
    );
    lemma_steps_add(c, m, n1 + n2 + n3 + n4, n5);
    lemma_went_then(w.code.len() as int, p, guard, guard, m, m4, steps(c, m4, n5));
    n1 + n2 + n3 + n4 + n5
}

#[verifier::spinoff_prover]
pub(crate) proof fn sim_looping(
    c: CompiledView,
    w: WorkView,
    s: Seq<Scope>,
    l: LoopStmt,
    fixed: Set<Seq<char>>,
    guard: Set<int>,
    d: nat,
    world: World,
    m: Machine,
) -> (n: nat)
    requires
        l.kind is While,
        whole_loop(s, l, fixed),
        knows(w, s),
        sound(c),
        sees(c, loop_made(w, l)),
        joint(w, world, m),
        stands(w, m),
        w.open,
        guarded(w, fixed, guard),
        does_while(d, world, l, Seq::empty()).1 is Ok,
    ensures
        agreed(
            w,
            loop_made(w, l),
            world,
            normally(does_while(d, world, l, Seq::empty()).0),
            m,
            steps(c, m, n),
            loop_made(w, l).code.len() as int,
            fixed,
            guard,
        ),
    decreases l, u64::MAX + 1,
{
    loop_parts(w, l);
    calm_while(w, s, l.kind->While_condition, l.body, fixed);
    lemma_while_code(c, w, s, l.kind->While_condition, l.body, fixed);
    let p = w.code.len() as int;
    run_at(c, m);
    let m1 = at(m, p + 1);
    run_at(c, m1);
    lemma_steps_add(c, m, 1, 1);
    let m2 = at(m, p + 2);
    assert(at(m1, p + 2) == m2);
    run_at(c, m2);
    lemma_steps_add(c, m, 2, 1);
    let m3 = at(m, p + 3);
    assert(at(m2, p + 3) == m3);
    run_to(c, m3, p as usize, p + 4);
    lemma_steps_add(c, m, 3, 1);
    let m4 = at(m, p + 4);
    assert(at(m3, p + 4) == m4);
    lemma_at(w, w, world, m, p + 4, p, guard);
    let k = sim_while(c, w, s, l, fixed, guard, d, world, m4, Seq::empty());
    lemma_steps_add(c, m, 4, k);
    lemma_went_then(p, p, guard, guard, m, m4, steps(c, m4, k));
    4 + k
}

/// A line ended.
#[verifier::spinoff_prover]
pub(crate) proof fn run_newline(c: CompiledView, w: WorkView, m: Machine) -> (n: nat)
    requires
        sound(c),
        sees(c, called(w, Rt::PrintNewline, Seq::empty()).0),
        stands(w, m),
    ensures
        ({
            let w1 = called(w, Rt::PrintNewline, Seq::empty()).0;
            let m1 = steps(c, m, n);
            &&& quiet(w, w1)
            &&& m1 == with(Machine { lines: m.lines.push(m.line), line: Seq::empty(), ..m }, top(m1))
            &&& stands(w1, m1)
            &&& keeps_below(w.code.len() as int, top(m), top(m1))
        }),
{
    let args = Seq::<Operand>::empty();
    let given = Seq::new(args.len(), |i: int| reg(top(m), args[i].at));
    let act = Activation { pc: (w.code.len() + args.len()) as int, args: given, ..top(m) };
    assert(kinds(args) =~= takes(Rt::PrintNewline));
    let before = with(m, act);
    let after = Machine { lines: m.lines.push(m.line), line: Seq::empty(), ..before };
    assert(runtime_call(before, top(m).slots, Rt::PrintNewline, given) == Call::Gives(after, top(m).slots, Datum::Nothing))
        by {
        reveal(runtime_call);
    }
    let n = run_called(c, w, m, Rt::PrintNewline, args, after, Datum::Nothing);
    let m1 = steps(c, m, n);
    assert(m1.calls =~= seq![top(m1)]);
    n
}

#[verifier::spinoff_prover]
pub(crate) proof fn sim_printing(
    c: CompiledView,
    w: WorkView,
    s: Seq<Scope>,
    args: Vec<Expr>,
    fixed: Set<Seq<char>>,
    guard: Set<int>,
    d: nat,
    world: World,
    m: Machine,
) -> (n: nat)
    requires
        forall|j: int| 0 <= j < args@.len() ==> whole_print(s, #[trigger] args@[j]),
        knows(w, s),
        sound(c),
        sees(c, called(prints_made(w, args, 0), Rt::PrintNewline, Seq::empty()).0),
        joint(w, world, m),
        stands(w, m),
        w.open,
        guarded(w, fixed, guard),
        does_texts(d, world, args, 0, Seq::empty()).1 is Ok,
    ensures
        ({
            let r = does_texts(d, world, args, 0, Seq::empty());
            let wf = called(prints_made(w, args, 0), Rt::PrintNewline, Seq::empty()).0;
            agreed(
                w,
                wf,
                world,
                normally(semantics::printed(r.0, r.1->Ok_0)),
                m,
                steps(c, m, n),
                wf.code.len() as int,
                fixed,
                guard,
            )
        }),
{
    calm_prints(w, s, args, 0);
    let w1 = prints_made(w, args, 0);
    let wf = called(w1, Rt::PrintNewline, Seq::empty()).0;
    assert(kinds(Seq::<Operand>::empty()) =~= takes(Rt::PrintNewline));
    lemma_called_quiet(w1, Rt::PrintNewline, Seq::empty());
    lemma_sees_before(c, w1, wf);
    assert(m.line =~= Seq::<char>::empty());
    let k = sim_prints(c, w, s, args, 0, d, world, m);
    let m1 = steps(c, m, k);
    let j = run_newline(c, w1, m1);
    lemma_steps_add(c, m, k, j);
    let m2 = steps(c, m, k + j);
    lemma_quiet_then(w, w1, wf);
    lemma_still_mirrors(w, wf, world, m, m2);
    lemma_guarded_frames(w, wf, fixed, guard);
    assert forall|g: int| guard.contains(g) implies #[trigger] slot(top(m2).slots, g, 0) == slot(top(m).slots, g, 0) by {
        assert(slot(top(m1).slots, g, 0) == slot(top(m).slots, g, 0));
    }
    k + j
}

#[verifier::spinoff_prover]
pub(crate) proof fn sim_stmt(
    c: CompiledView,
    w: WorkView,
    s: Seq<Scope>,
    stmt: Stmt,
    fixed: Set<Seq<char>>,
    guard: Set<int>,
    d: nat,
    world: World,
    m: Machine,
) -> (n: nat)
    requires
        whole_stmt(s, stmt, fixed),
        knows(w, s),
        sound(c),
        sees(c, stmt_made(w, stmt).0),
        joint(w, world, m),
        stands(w, m),
        w.open,
        guarded(w, fixed, guard),
        does_stmt(d, world, stmt).1 is Ok,
    ensures
        agreed(
            w,
            stmt_made(w, stmt).0,
            world,
            does_stmt(d, world, stmt),
            m,
            steps(c, m, n),
            stmt_made(w, stmt).0.code.len() as int,
            fixed,
            guard,
        ),
    decreases stmt, 0nat,
{
    stmt_parts(w, stmt);
    does_stmt_parts(d, world, stmt);
    match stmt {
        Stmt::Var(v) => {
            crate::codegen::laws::lemma_bindings(w, v, 0);
            reveal(stride);
            sim_bindings(c, w, s, v, 0, fixed, guard, d, world, m)
        },
        Stmt::Change(ch) => {
            calm_targets(w, s, ch, 0, fixed);
            sim_targets(c, w, s, ch, 0, fixed, guard, d, world, m)
        },
        Stmt::Print { args, .. } => sim_printing(c, w, s, args, fixed, guard, d, world, m),
        Stmt::If(chain) => sim_if(c, w, s, chain, fixed, guard, d, world, m),
        Stmt::Loop(l) => if l.kind is While {
            sim_looping(c, w, s, l, fixed, guard, d, world, m)
        } else {
            sim_counting(c, w, s, l, fixed, guard, d, world, m)
        },
        _ => 0,
    }
}

// ── programs ────────────────────────────────────────────────────────────────

/// A program on whole numbers: no names are known where it starts.
pub open spec fn whole_program(p: Program) -> bool {
    whole_block(seq![Map::empty()], p.statements, 0, Set::empty())
}

#[verifier::spinoff_prover]
pub(crate) proof fn lemma_main(p: Program, fns: Seq<crate::codegen::work::SigView>)
    requires
        whole_program(p),
    ensures
        ({
            let w0 = with_frame(fresh(fns, Native::Nothing, true));
            let (w1, left) = block_made(w0, p.statements, 0);
            let zero = w1.code.len() as usize;
            &&& knows(w0, seq![Map::empty()])
            &&& w0.open
            &&& w0.code.len() == 0
            &&& main_made(fns, p) == put(put(w1, Inst::Small(0)), Inst::Return(zero))
            &&& w1.refusal is None
        }),
{
    let w0 = with_frame(fresh(fns, Native::Nothing, true));
    assert(knows(w0, seq![Map::empty()]) && w0.open) by {
        reveal(with_frame);
        assert(w0.frames =~= seq![Seq::empty()]);
    }
    let s1 = calm_block(w0, seq![Map::empty()], p.statements, 0, Set::empty());
    let w1 = block_made(w0, p.statements, 0).0;
    lemma_nothing_released(w1, s1);
    reveal(with_frame);
    reveal(main_made);
}

/// The end of a program.
#[verifier::spinoff_prover]
pub(crate) proof fn run_end(c: CompiledView, m: Machine, zero: usize)
    requires
        running(m),
        0 <= top(m).pc,
        top(m).pc + 1 < c.main.code.len(),
        c.main.code[top(m).pc] == Inst::Small(0),
        c.main.code[top(m).pc + 1] == Inst::Return(zero),
    ensures
        steps(c, m, 2).end == Some(Ending::Finished),
        steps(c, m, 2).lines == m.lines,
{
    run_one(c, m, Datum::Small(0));
    let m1 = holding(m, Datum::Small(0));
    lemma_steps_add(c, m, 1, 1);
    crate::codegen::simulation::lemma_one_step(c, m1);
    reveal(stepped);
    assert(m1.calls.last() == m1.calls[0]);
    assert(m1.calls.drop_last().len() == 0);
}

/// A program on whole numbers that the interpreter runs to its end, compiled, comes to its
/// end too and has printed the same lines: after so many steps, the machine gives what the
/// interpreter gave. Such a program declares and changes `int` and `bool` variables, prints,
/// decides and repeats. It computes with `+`, `-`, `*`, Euclidean quotients and remainders,
/// comparisons and logic, on literals both sides read alike, and leaves the counters of its
/// loops alone. Its code and its texts can be counted in machine words.
pub proof fn compiled_whole_programs_print_what_is_interpreted(
    p: Program,
    answers: Seq<AnswerView>,
) -> (fuel: nat)
    requires
        whole_program(p),
        lowered(p) is Ok,
        lowered(p)->Ok_0.main.code.len() <= usize::MAX,
        lowered(p)->Ok_0.main.texts.len() <= usize::MAX,
        run_meaning(p, answers).error is None,
        run_meaning(p, answers).request is None,
    ensures
        machine_run(lowered(p)->Ok_0, answers, fuel) == Some(run_meaning(p, answers)),
{
    let c = lowered(p)->Ok_0;
    compiled_code_is_well_formed(p);
    assert(sound(c));
    let fns = signatures(p.statements@, p.statements@.len())->Ok_0;
    lemma_main(p, fns);
    let w0 = with_frame(fresh(fns, Native::Nothing, true));
    let w1 = block_made(w0, p.statements, 0).0;
    let zero = w1.code.len() as usize;
    let wf = main_made(fns, p);
    assert(c.main.code == wf.code && c.main.texts == wf.texts);
    assert(sees(c, wf));
    lemma_sees_put(c, put(w1, Inst::Small(0)), Inst::Return(zero));
    lemma_sees_put(c, w1, Inst::Small(0));
    let m = machine_for(answers);
    let world = fresh_world(functions_in(p.statements@, p.statements@.len()), answers);
    let d = u64::MAX as nat;
    assert(does_block(d, world, p.statements, 0) == block_from(d, world, p.statements, 0)) by {
        reveal(does_block);
    }
    assert(mirrors(w0, world, m)) by {
        reveal(with_frame);
        assert(w0.frames =~= seq![Seq::empty()]);
    }
    let n = sim_block(c, w0, seq![Map::empty()], p.statements, 0, Set::empty(), Set::empty(), d, world, m);
    let m1 = steps(c, m, n);
    let k = w1.code.len() as int;
    assert(wf.code[k] == Inst::Small(0) && wf.code[k + 1] == Inst::Return(zero));
    run_end(c, m1, zero);
    lemma_steps_add(c, m, n, 2);
    n + 2
}

/// A program on whole numbers has nothing in it that cannot be lowered: its top level is
/// never refused, for a value of the wrong kind or for anything else.
pub proof fn whole_programs_are_not_refused(p: Program, fns: Seq<crate::codegen::work::SigView>)
    requires
        whole_program(p),
    ensures
        main_made(fns, p).refusal is None,
{
    lemma_main(p, fns);
}

// ── handing back ────────────────────────────────────────────────────────────

#[verifier::spinoff_prover]
pub(crate) proof fn handback_parts(w: WorkView, value: Expr, array: Operand, elem: Native)
    requires
        w.handbacks.len() > 0,
        w.handbacks.last() == (Handback::Push { array, elem }),
    ensures
        handback_made(w, value) == push_made(w, value, array, elem),
{
    reveal(handback_made);
}

#[verifier::spinoff_prover]
pub(crate) proof fn push_parts(w: WorkView, value: Expr, array: Operand, elem: Native)
    ensures
        ({
            let (w1, v) = expr_made(w, value, elem);
            let w2 = scope_released(temps_released(element_pushed(w1, array, v, elem), w.temps.len()));
            &&& w2.continues.len() > 0 ==> push_made(w, value, array, elem) == (
                put(w2, Inst::Jump(w2.continues.last())),
                true,
            )
        }),
{
    reveal(push_made);
}

/// A `handback` in a loop that collects ends the iteration, whatever it hands back: its code
/// ends in a jump to where the loop goes on, and nothing that follows it in the iteration is
/// lowered behind it.
pub proof fn a_handback_leaves_the_iteration(w: WorkView, value: Expr, array: Operand, elem: Native)
    requires
        w.handbacks.len() > 0,
        w.handbacks.last() == (Handback::Push { array, elem }),
        w.continues.len() > 0,
    ensures
        handback_made(w, value).1,
        handback_made(w, value).0.code.last() == Inst::Jump(w.continues.last()),
        !handback_made(w, value).0.open,
{
    broadcast use operations_keep;

    handback_parts(w, value, array, elem);
    push_parts(w, value, array, elem);
    lemma_expr(w, value, elem);
    let (w1, v) = expr_made(w, value, elem);
    let w2 = element_pushed(w1, array, v, elem);
    released_step(w, w2);
    reveal(step);
}

/// A whole number handed back in a loop that collects: the machine appends the number that
/// the interpreter hands back to what the loop has collected, changes nothing else, and
/// stands where the loop goes on.
#[verifier::spinoff_prover]
pub proof fn a_handback_collects_its_value(
    c: CompiledView,
    w: WorkView,
    s: Seq<Scope>,
    value: Expr,
    array: Operand,
    d: nat,
    world: World,
    m: Machine,
    object: nat,
    count: int,
    collected: ArrayView,
) -> (n: nat)
    requires
        w.handbacks.len() > 0,
        w.handbacks.last() == (Handback::Push { array, elem: Native::Int }),
        w.continues.len() > 0,
        array.kind == Kind::Ptr,
        array.at < w.code.len(),
        whole_expr(s, value, Native::Int),
        knows(w, s),
        plain(s),
        sound(c),
        sees(c, handback_made(w, value).0),
        w.continues.last() < c.main.code.len(),
        c.main.code[w.continues.last() as int] is Block,
        mirrors(w, world, m),
        stands(w, m),
        w.open,
        reg(top(m), array.at) == Datum::Object(object),
        object < m.heap.len(),
        m.heap[object as int] == Some(Held { count, value: Boxed::Array(collected) }),
        expr_result(d, world, value, None).1 is Ok,
    ensures
        ({
            let r = expr_result(d, world, value, None);
            let m1 = steps(c, m, n);
            &&& r.0 == world
            &&& r.1->Ok_0 is Int
            &&& running(m1)
            &&& top(m1).pc == place(c.main.code, w.continues.last())
            &&& m1.heap == m.heap.update(
                object as int,
                Some(
                    Held {
                        count,
                        value: Boxed::Array(
                            vector_of(collected.items.push(CellView::Int(r.1->Ok_0->Int_0)), collected.kind),
                        ),
                    },
                ),
            )
            &&& m1.lines == m.lines
            &&& m1.line == m.line
            &&& m1.answers == m.answers
            &&& m1.asked == m.asked
            &&& keeps_below(w.code.len() as int, top(m), top(m1))
        }),
{
    assert(meaning(d, world, value, None) == expr_result(d, world, value, None)) by {
        reveal(meaning);
    }
    let native = Native::Int;
    handback_parts(w, value, array, native);
    push_parts(w, value, array, native);
    crate::codegen::whole::lemma_typed(w, s, value, native);
    crate::codegen::whole::lemma_expr_quiet(w, value, native);
    let (w1, v) = expr_made(w, value, native);
    let args = seq![array, v];
    let w2 = called(w1, Rt::ArrayPushInt, args).0;
    assert(element_pushed(w1, array, v, native) == w2) by {
        reveal(element_pushed);
    }
    assert(kinds(args) =~= takes(Rt::ArrayPushInt));
    lemma_called_quiet(w1, Rt::ArrayPushInt, args);
    lemma_no_temps(w2, w.temps.len());
    lemma_knows_frames(w, w2, s);
    lemma_nothing_released(w2, s);
    let jump = Inst::Jump(w.continues.last());
    let wf = put(w2, jump);
    lemma_sees_put(c, w2, jump);
    lemma_sees_before(c, w1, w2);
    let k = sim_expr(c, w, value, native, d, world, None, m);
    let m1 = steps(c, m, k);
    let x = meaning(d, world, value, None).1->Ok_0->Int_0;
    assert(reg(top(m1), array.at) == Datum::Object(object));
    let given = Seq::new(args.len(), |i: int| reg(top(m1), args[i].at));
    let act = Activation { pc: (w1.code.len() + args.len()) as int, args: given, ..top(m1) };
    let before = with(m1, act);
    let boxed = Some(
        Held { count, value: Boxed::Array(vector_of(collected.items.push(CellView::Int(x)), collected.kind)) },
    );
    let after = Machine { heap: m.heap.update(object as int, boxed), ..before };
    assert(given[0] == Datum::Object(object) && given[1] == Datum::Word(x));
    assert(runtime_call(before, top(m1).slots, Rt::ArrayPushInt, given) == Call::Gives(
        after,
        top(m1).slots,
        Datum::Nothing,
    )) by {
        reveal(runtime_call);
    }
    let j = run_called(c, w1, m1, Rt::ArrayPushInt, args, after, Datum::Nothing);
    lemma_steps_add(c, m, k, j);
    let m2 = steps(c, m, k + j);
    assert(m2.calls =~= seq![top(m2)]);
    assert(wf.code[w2.code.len() as int] == jump);
    lemma_code(c, wf, w2.code.len() as int);
    let target = w.continues.last();
    let last = Activation { pc: place(c.main.code, target), ..top(m2) };
    lemma_does(c, m2, jump, last);
    lemma_steps_add(c, m, k + j, 1);
    let m3 = steps(c, m, k + j + 1);
    assert(m3 == with(m2, last));
    assert(top(m3) == last);
    assert forall|i: usize| i < w.code.len() implies #[trigger] reg(top(m3), i) == reg(top(m), i) by {
        assert(reg(top(m2), i) == reg(top(m1), i));
        assert(reg(top(m1), i) == reg(top(m), i));
    }
    assert forall|i: int, x: int| 0 <= i < w.code.len() implies #[trigger] slot(top(m3).slots, i, x) == slot(
        top(m).slots,
        i,
        x,
    ) by {
        assert(slot(top(m2).slots, i, x) == slot(top(m1).slots, i, x));
        assert(slot(top(m1).slots, i, x) == slot(top(m).slots, i, x));
    }
    assert(m3.heap == after.heap);
    assert(m3.lines == m.lines && m3.line == m.line && m3.asked == m.asked && m3.answers == m.answers);
    k + j + 1
}

} // verus!
