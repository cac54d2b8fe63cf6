//! Vectors that loops collect or programs list, lowered and run.

use vstd::prelude::*;

use crate::ast::{Expr, ExprKind, IfChain, LoopKind, LoopStmt, Program, Stmt, VarDecl};
use crate::codegen::agreement::{
    binding_end, a_handback_collects_its_value, a_handback_leaves_the_iteration, agreed, at, does_arms,
    does_arms_next, does_block, does_block_next, does_counted, does_scoped, does_while, does_scoped_parts,
    does_stmt, does_stmt_parts, guarded, joint, lemma_at, lemma_back, lemma_closes, lemma_code, lemma_counter,
    lemma_guarded_frames, lemma_loop_code, lemma_opens, lemma_ran_went, lemma_sees_stride, lemma_turned,
    lemma_went_then, loop_code, normally, once_more, run_advance, lemma_declares, run_at, run_branch, run_end,
    run_entry, run_test, run_to, sim_step, sim_stmt, went,
};
use crate::codegen::laws::{
    extended, lemma_arms, lemma_block, lemma_if, lemma_scoped, lemma_stmt, step, stride,
};
use crate::codegen::lowering::{
    arms_made, binding_made, bindings_made, block_made, bounds_made, compiled_code_is_well_formed,
    counted_made, expr_made, fresh, handback_made, if_made, item_made, items_made, joined, loop_entered,
    loop_made, loop_value, lowered, main_made, next_index, places_wanted, prints_made, scoped_made,
    signatures, step_made, stmt_made, temps_forgotten, with_continue, with_digits, with_handback,
    without_continue, without_handback, Bounds, CompiledView,
};
use crate::codegen::machine::{
    dims_at, machine_for, machine_run, reg, runtime_call, slot, steps, zeros, Activation, Boxed, Call, Datum,
    Held, Machine,
};
use crate::codegen::native::{literal_dims, native_of, Native};
use crate::codegen::steps::{array_made, dims_stored, element_stored};
use crate::codegen::straight::{called_quiet, data, run_any};
use crate::codegen::runtime::{takes, Kind, Rt};
use crate::codegen::simulation::{
    all_whole, array_held, cells, keeps_below, lemma_calls, lemma_does, lemma_extended_then, lemma_local,
    lemma_place, lemma_ran_then, lemma_sees_before, lemma_sees_put, lemma_sees_step, lemma_steps_add,
    lemma_still_mirrors, meaning, mirrored, mirrors, quiet, run_called, run_effect, run_value, running, sees,
    sim_expr, sound, stands, top, whole_context, with,
};
use crate::codegen::whole::{
    while_asked, while_inside, arm_entered, arm_passed, arms_next, block_next, calm_entered, calm_stmt,
    counted_inside, counted_parts, entered_parts, loop_parts, inside_knows, knows, left_parts,
    lemma_knows_frames, lemma_no_temps, lemma_nothing_released, lemma_plain, bindings_end, calm_prints,
    calm_targets, held_native, made_binding, whole_binding, whole_type, with_bindings, lemma_bindings_next,
    lemma_called_quiet, calm_bounds, lemma_declared_knows, whole_bounds, lemma_with_frame_knows, plain,
    scoped_parts, scopes_after, stmt_parts, whole_expr, whole_stmt, with_name, Scope,
};
use crate::codegen::work::{
    called, declared, frame_released, handle, kept, kinds, let_go, local_index, made, put, scope_released,
    stored, temps_popped, temps_released, with_frame, with_local, without_frame, FrameView, Handback, Inst,
    LocalView, Operand, SigView, Temp, WorkView,
};
use crate::diagnostics::position::Span;
use crate::eval::numeric::{Numeric, binding_context, whole, DEFAULT_DIGITS};
use crate::eval::ops::{AnswerView, StopView};
use crate::eval::select::{assembled, flattened, in_range, range_left};
use crate::eval::semantics;
use crate::eval::semantics::{
    bindings_from, block_from, closed_scope, defined, expr_result, fresh_world, functions_in, opened,
    run_meaning, statement_result, values_from, FlowView, World,
};
use crate::eval::value::Val;
use crate::runtime::access::with_cell;
use crate::runtime::array::{vector_of, ArrayView, CellView};

verus! {

// ── bodies that hand back ───────────────────────────────────────────────────

/// The statements of a loop's body from the `i`-th on: statements on whole numbers, and
/// whole numbers handed back, at once or in an arm of a conditional.
pub open spec fn gather_block(s: Seq<Scope>, stmts: Vec<Stmt>, i: nat, fixed: Set<Seq<char>>) -> bool
    decreases stmts, stmts@.len() - i,
{
    i >= stmts@.len() || match stmts@[i as int] {
        Stmt::Handback { value, .. } => whole_expr(s, value, Native::Int),
        Stmt::If(chain) => gather_arms(s, chain, 0, fixed) && gather_block(s, stmts, i + 1, fixed),
        st => whole_stmt(s, st, fixed) && gather_block(scopes_after(s, st), stmts, i + 1, fixed),
    }
}

pub open spec fn gather_arms(s: Seq<Scope>, chain: IfChain, i: nat, fixed: Set<Seq<char>>) -> bool
    decreases chain, chain.arms@.len() - i,
{
    i >= chain.arms@.len() || {
        let arm = chain.arms@[i as int];
        &&& arm.condition matches Some(e) ==> whole_expr(s, e, Native::Bool)
        &&& arm.condition is None ==> i + 1 == chain.arms@.len()
        &&& gather_block(s.push(Map::empty()), arm.body, 0, fixed)
        &&& gather_arms(s, chain, i + 1, fixed)
    }
}

/// Whether the lowering is inside a loop that collects whole numbers in an array.
pub open spec fn collecting(w: WorkView, array: Operand) -> bool {
    &&& w.handbacks.len() > 0
    &&& w.handbacks.last() == (Handback::Push { array, elem: Native::Int })
    &&& w.continues.len() > 0
    &&& array.kind == Kind::Ptr
    &&& array.at < w.code.len()
}

/// What lowering a body, or a part of it, leaves: it goes on behind it, or it has left.
pub open spec fn kept_going(w: WorkView, r: (WorkView, bool), s1: Seq<Scope>) -> bool {
    &&& r.0.temps == w.temps
    &&& r.1 ==> !r.0.open
    &&& !r.1 ==> r.0.open && knows(r.0, s1)
}

#[verifier::spinoff_prover]
proof fn block_left(w: WorkView, stmts: Vec<Stmt>, i: nat)
    requires
        i < stmts@.len(),
        stmt_made(w, stmts@[i as int]).1,
    ensures
        block_made(w, stmts, i) == (temps_forgotten(stmt_made(w, stmts@[i as int]).0, w.temps.len()), true),
{
    reveal(block_made);
}

#[verifier::spinoff_prover]
proof fn handback_stmt(w: WorkView, stmt: Stmt)
    requires
        stmt is Handback,
    ensures
        stmt_made(w, stmt) == handback_made(w, stmt->Handback_value),
{
    reveal(stmt_made);
}

#[verifier::spinoff_prover]
proof fn gather_calm_block(
    w: WorkView,
    s: Seq<Scope>,
    stmts: Vec<Stmt>,
    i: nat,
    fixed: Set<Seq<char>>,
    array: Operand,
) -> (s1: Seq<Scope>)
    requires
        gather_block(s, stmts, i, fixed),
        knows(w, s),
        plain(s),
        w.open,
        collecting(w, array),
    ensures
        kept_going(w, block_made(w, stmts, i), s1),
        plain(s1),
    decreases stmts, stmts@.len() - i,
{
    block_next(w, stmts, i);
    lemma_block(w, stmts, i);
    if i < stmts@.len() {
        let st = stmts@[i as int];
        let w1 = stmt_made(w, st).0;
        lemma_stmt(w, st);
        reveal(stride);
        match st {
            Stmt::Handback { value, .. } => {
                handback_stmt(w, st);
                a_handback_leaves_the_iteration(w, value, array, Native::Int);
                block_left(w, stmts, i);
                s
            },
            Stmt::If(chain) => {
                stmt_parts(w, st);
                gather_calm_if(w, s, chain, fixed, array);
                if if_made(w, chain).1 {
                    block_left(w, stmts, i);
                    s
                } else {
                    lemma_no_temps(w1, w.temps.len());
                    gather_calm_block(w1, s, stmts, i + 1, fixed, array)
                }
            },
            _ => {
                calm_stmt(w, s, st, fixed);
                lemma_no_temps(w1, w.temps.len());
                if let Stmt::Var(v) = st {
                    lemma_plain(s, v, v.bindings@.len());
                }
                gather_calm_block(w1, scopes_after(s, st), stmts, i + 1, fixed, array)
            },
        }
    } else {
        s
    }
}

#[verifier::spinoff_prover]
proof fn gather_calm_scoped(w: WorkView, s: Seq<Scope>, stmts: Vec<Stmt>, fixed: Set<Seq<char>>, array: Operand)
    requires
        gather_block(s.push(Map::empty()), stmts, 0, fixed),
        knows(w, s),
        w.open,
        collecting(w, array),
    ensures
        kept_going(w, scoped_made(w, stmts), s),
        scoped_made(w, stmts).0 == without_frame(block_made(with_frame(w), stmts, 0).0),
        scoped_made(w, stmts).1 == block_made(with_frame(w), stmts, 0).1,
        scoped_made(w, stmts).0.frames == w.frames,
        scoped_made(w, stmts).0.code == block_made(with_frame(w), stmts, 0).0.code,
        scoped_made(w, stmts).0.texts == block_made(with_frame(w), stmts, 0).0.texts,
    decreases stmts, stmts@.len() + 1,
{
    scoped_parts(w, stmts);
    lemma_with_frame_knows(w, s);
    let w0 = with_frame(w);
    assert(w0.open && w0.temps == w.temps && w0.handbacks == w.handbacks && w0.continues == w.continues && w0.code
        == w.code) by {
        reveal(with_frame);
    }
    let (w1, left) = block_made(w0, stmts, 0);
    let s1 = gather_calm_block(w0, s.push(Map::empty()), stmts, 0, fixed, array);
    if left {
        reveal(scope_released);
        reveal(crate::codegen::work::frame_released_at);
    } else {
        lemma_nothing_released(w1, s1);
    }
    lemma_block(w0, stmts, 0);
    crate::codegen::whole::closed_knows(w, w1, s);
    lemma_knows_frames(w, scoped_made(w, stmts).0, s);
}

#[verifier::spinoff_prover]
proof fn gather_calm_arms(
    w: WorkView,
    s: Seq<Scope>,
    chain: IfChain,
    i: nat,
    merge: usize,
    all: bool,
    fixed: Set<Seq<char>>,
    array: Operand,
)
    requires
        gather_arms(s, chain, i, fixed),
        knows(w, s),
        i < chain.arms@.len() ==> w.open,
        collecting(w, array),
    ensures
        arms_made(w, chain, i, merge, all).0.temps == w.temps,
        arms_made(w, chain, i, merge, all).0.frames == w.frames,
    decreases chain, chain.arms@.len() - i,
{
    arms_next(w, chain, i, merge, all);
    lemma_arms(w, chain, i, merge, all);
    reveal(step);
    if i < chain.arms@.len() {
        let body = chain.arms@[i as int].body;
        match chain.arms@[i as int].condition {
            Some(c) => {
                calm_entered(w, s, c);
                let wi = arm_entered(w, c);
                lemma_entered_keeps(w, s, c, array);
                gather_calm_scoped(wi, s, body, fixed, array);
                lemma_scoped(wi, body);
                let w1 = arm_passed(w, c, body, merge);
                lemma_knows_frames(w, w1, s);
                gather_calm_arms(w1, s, chain, i + 1, merge, all && scoped_made(wi, body).1, fixed, array);
            },
            None => {
                gather_calm_scoped(w, s, body, fixed, array);
                lemma_scoped(w, body);
                let (w0, left) = scoped_made(w, body);
                let w1 = joined(w0, left, merge);
                lemma_knows_frames(w, w1, s);
                gather_calm_arms(w1, s, chain, i + 1, merge, all && left, fixed, array);
            },
        }
    }
}

proof fn lemma_entered_keeps(w: WorkView, s: Seq<Scope>, c: Expr, array: Operand)
    requires
        whole_expr(s, c, Native::Bool),
        knows(w, s),
        collecting(w, array),
    ensures
        collecting(arm_entered(w, c), array),
        arm_entered(w, c).continues == w.continues,
        arm_entered(w, c).open,
{
    calm_entered(w, s, c);
    reveal(crate::codegen::work::forked);
}

#[verifier::spinoff_prover]
proof fn gather_if_parts(w: WorkView, chain: IfChain)
    ensures
        ({
            let merge = w.code.len() as usize;
            let (w2, all) = arms_made(put(w, Inst::Block), chain, 0, merge, true);
            let w3 = put(joined(w2, !w2.open, merge), Inst::At(merge));
            if_made(w, chain) == (if all && !w2.open {
                (put(w3, Inst::Unreachable), true)
            } else {
                (w3, false)
            })
        }),
{
    reveal(if_made);
}

#[verifier::spinoff_prover]
proof fn gather_calm_if(w: WorkView, s: Seq<Scope>, chain: IfChain, fixed: Set<Seq<char>>, array: Operand)
    requires
        gather_arms(s, chain, 0, fixed),
        knows(w, s),
        w.open,
        collecting(w, array),
    ensures
        kept_going(w, if_made(w, chain), s),
    decreases chain, chain.arms@.len() + 1,
{
    gather_if_parts(w, chain);
    let w1 = put(w, Inst::Block);
    let merge = w.code.len() as usize;
    lemma_knows_frames(w, w1, s);
    gather_calm_arms(w1, s, chain, 0, merge, true, fixed, array);
    lemma_knows_frames(w, if_made(w, chain).0, s);
}

// ── bodies that hand back, run ──────────────────────────────────────────────

/// The heap with one more whole number in an array.
pub open spec fn with_pushed(heap: Seq<Option<Held>>, h: nat, v: Val) -> Seq<Option<Held>> {
    let held = heap[h as int]->0;
    let a = held.value->Array_0;
    heap.update(
        h as int,
        Some(
            Held {
                count: held.count,
                value: Boxed::Array(vector_of(a.items.push(CellView::Int(v->Int_0)), a.kind)),
            },
        ),
    )
}

/// No guarded slot holds the array that is being collected.
pub open spec fn clear(m: Machine, guard: Set<int>, h: nat) -> bool {
    forall|k: int| guard.contains(k) ==> #[trigger] slot(top(m).slots, k, 0) != Datum::Object(h)
}

/// The slots of arrays are guarded.
pub open spec fn arrays_guarded(w: WorkView, guard: Set<int>) -> bool {
    forall|i: int, j: int|
        #![trigger w.frames[i][j]]
        0 <= i < w.frames.len() && 0 <= j < w.frames[i].len() && w.frames[i][j].native is Array ==> guard.contains(
            w.frames[i][j].slot as int,
        )
}

/// Where the machine collects.
pub open spec fn collector(m: Machine, array: Operand, h: nat) -> bool {
    &&& reg(top(m), array.at) == Datum::Object(h)
    &&& h < m.heap.len()
    &&& m.heap[h as int] is Some
    &&& m.heap[h as int]->0.value is Array
}

/// Where an iteration goes on.
pub open spec fn goes_on(c: CompiledView, w: WorkView, j: int) -> bool {
    &&& w.continues.len() > 0
    &&& w.continues.last() < c.main.code.len()
    &&& c.main.code[w.continues.last() as int] is Block
    &&& 0 <= j < c.main.code.len()
    &&& c.main.code[j] == Inst::At(w.continues.last())
}

/// Whether a run handed a whole number back: it is collected, and the machine stands where
/// the iteration goes on.
pub open spec fn handed(
    w: WorkView,
    world: World,
    m: Machine,
    m1: Machine,
    n: int,
    guard: Set<int>,
    v: Val,
    h: nat,
    pc: int,
) -> bool {
    &&& v is Int
    &&& running(m1)
    &&& top(m1).pc == pc
    &&& m1.line.len() == 0
    &&& m1.lines == world.lines
    &&& mirrors(w, world, m1)
    &&& m1.heap == with_pushed(m.heap, h, v)
    &&& m1.answers == m.answers
    &&& m1.asked == m.asked
    &&& forall|i: usize| i < n ==> #[trigger] reg(top(m1), i) == reg(top(m), i)
    &&& forall|k: int| guard.contains(k) ==> #[trigger] slot(top(m1).slots, k, 0) == slot(top(m).slots, k, 0)
}

proof fn lemma_handed_then(
    w: WorkView,
    world: World,
    m: Machine,
    m1: Machine,
    m2: Machine,
    n: int,
    n1: int,
    guard: Set<int>,
    v: Val,
    h: nat,
    pc: int,
)
    requires
        went(n, guard, m, m1),
        handed(w, world, m1, m2, n1, guard, v, h, pc),
        n <= n1,
    ensures
        handed(w, world, m, m2, n, guard, v, h, pc),
{
}

/// Collecting leaves the arrays that variables hold alone.
proof fn lemma_pushed(w: WorkView, world: World, m: Machine, m1: Machine, guard: Set<int>, h: nat, v: Val)
    requires
        mirrors(w, world, m),
        arrays_guarded(w, guard),
        clear(m, guard, h),
        h < m.heap.len(),
        m1.heap == with_pushed(m.heap, h, v),
        forall|i: int, k: int| 0 <= i < w.code.len() ==> #[trigger] slot(top(m1).slots, i, k) == slot(top(m).slots, i, k),
    ensures
        mirrors(w, world, m1),
{
    assert forall|i: int, j: int|
        #![trigger w.frames[i][j]]
        0 <= i < w.frames.len() && 0 <= j < w.frames[i].len() implies {
        &&& mirrored(w, world.frames[i], m1, w.frames[i][j])
        &&& local_index(w.frames[i], w.frames[i][j].name) == j
    } by {
        let l = w.frames[i][j];
        assert(mirrored(w, world.frames[i], m, l));
        assert(slot(top(m1).slots, l.slot as int, 0) == slot(top(m).slots, l.slot as int, 0));
        if l.native is Array {
            assert(guard.contains(l.slot as int));
            assert(slot(top(m).slots, l.slot as int, 0) != Datum::Object(h));
        }
    }
}

/// The lowering without its innermost scope.
pub open spec fn around(w: WorkView) -> WorkView {
    WorkView { frames: w.frames.drop_last(), ..w }
}

/// Handing back closes a scope.
proof fn lemma_handed_out(
    w: WorkView,
    world: World,
    m: Machine,
    m1: Machine,
    n: int,
    fixed: Set<Seq<char>>,
    guard: Set<int>,
    v: Val,
    h: nat,
    pc: int,
)
    requires
        handed(w, world, m, m1, n, guard, v, h, pc),
        guarded(w, fixed, guard),
        w.frames.len() > 1,
    ensures
        handed(around(w), closed_scope(world), m, m1, n, guard, v, h, pc),
{
    let o = around(w);
    assert forall|i: int, j: int|
        #![trigger o.frames[i][j]]
        0 <= i < o.frames.len() && 0 <= j < o.frames[i].len() && guard.contains(o.frames[i][j].slot as int) implies fixed.contains(
        o.frames[i][j].name,
    ) by {
        assert(o.frames[i][j] == w.frames[i][j]);
    }
    lemma_closes(w, o, world, m1, fixed, guard);
}

/// What was handed back with more code emitted was handed back with less.
proof fn lemma_handed_back(
    w: WorkView,
    w1: WorkView,
    world: World,
    m: Machine,
    m1: Machine,
    n: int,
    fixed: Set<Seq<char>>,
    guard: Set<int>,
    v: Val,
    h: nat,
    pc: int,
)
    requires
        handed(w1, world, m, m1, n, guard, v, h, pc),
        w1.frames == w.frames,
        guarded(w, fixed, guard),
        forall|i: int, j: int|
            #![trigger w.frames[i][j]]
            0 <= i < w.frames.len() && 0 <= j < w.frames[i].len() ==> w.frames[i][j].slot < w.code.len(),
    ensures
        handed(w, world, m, m1, n, guard, v, h, pc),
{
    lemma_back(w, w1, world, m, m1, fixed, guard);
}

#[verifier::spinoff_prover]
pub(crate) proof fn does_block_left(d: nat, world: World, stmts: Vec<Stmt>, i: nat)
    requires
        i < stmts@.len(),
        does_stmt(d, world, stmts@[i as int]).1 matches Ok(FlowView::Handback(_)),
    ensures
        does_block(d, world, stmts, i) == does_stmt(d, world, stmts@[i as int]),
{
    reveal(does_block);
    reveal(does_stmt);
}

#[verifier::spinoff_prover]
pub(crate) proof fn does_handback(d: nat, world: World, stmt: Stmt)
    requires
        stmt is Handback,
        does_stmt(d, world, stmt).1 is Ok,
    ensures
        ({
            let r = meaning(d, world, stmt->Handback_value, None);
            &&& r.1 is Ok
            &&& does_stmt(d, world, stmt) == (r.0, Ok::<FlowView, StopView>(FlowView::Handback(r.1->Ok_0)))
            &&& expr_result(d, world, stmt->Handback_value, None) == r
        }),
{
    reveal(does_stmt);
    reveal(meaning);
}

/// A statement that hands a whole number back.
#[verifier::spinoff_prover]
proof fn run_handback(
    c: CompiledView,
    w: WorkView,
    s: Seq<Scope>,
    value: Expr,
    fixed: Set<Seq<char>>,
    guard: Set<int>,
    d: nat,
    world: World,
    m: Machine,
    array: Operand,
    h: nat,
    j: int,
) -> (n: nat)
    requires
        whole_expr(s, value, Native::Int),
        knows(w, s),
        plain(s),
        sound(c),
        sees(c, handback_made(w, value).0),
        joint(w, world, m),
        stands(w, m),
        w.open,
        guarded(w, fixed, guard),
        arrays_guarded(w, guard),
        clear(m, guard, h),
        collecting(w, array),
        collector(m, array, h),
        goes_on(c, w, j),
        expr_result(d, world, value, None).1 is Ok,
    ensures
        expr_result(d, world, value, None).0 == world,
        handed(
            w,
            world,
            m,
            steps(c, m, n),
            w.code.len() as int,
            guard,
            expr_result(d, world, value, None).1->Ok_0,
            h,
            j,
        ),
{
    let v = expr_result(d, world, value, None).1->Ok_0;
    let held = m.heap[h as int]->0;
    let n = a_handback_collects_its_value(
        c,
        w,
        s,
        value,
        array,
        d,
        world,
        m,
        h,
        held.count,
        held.value->Array_0,
    );
    let m1 = steps(c, m, n);
    lemma_place(c, w.continues.last(), j);
    lemma_pushed(w, world, m, m1, guard, h, v);
    assert forall|k: int| guard.contains(k) implies #[trigger] slot(top(m1).slots, k, 0) == slot(top(m).slots, k, 0) by {}
    n
}

/// What a part of a body came to, where the frames `wo` and the world `wr` are what is left
/// of it if it handed back.
pub open spec fn gathered(
    w: WorkView,
    wf: WorkView,
    left: bool,
    world: World,
    r: (World, Result<FlowView, StopView>),
    m: Machine,
    m1: Machine,
    pc: int,
    fixed: Set<Seq<char>>,
    guard: Set<int>,
    wo: WorkView,
    wr: World,
    h: nat,
    j: int,
) -> bool {
    &&& r.0.steps >= world.steps
    &&& match r.1->Ok_0 {
        FlowView::Normal => !left && agreed(w, wf, world, r, m, m1, pc, fixed, guard),
        FlowView::Handback(v) => handed(wo, wr, m, m1, w.code.len() as int, guard, v, h, j),
    }
}

proof fn lemma_slots_old(w: WorkView, world: World, m: Machine)
    requires
        mirrors(w, world, m),
    ensures
        forall|i: int, j: int|
            #![trigger w.frames[i][j]]
            0 <= i < w.frames.len() && 0 <= j < w.frames[i].len() ==> w.frames[i][j].slot < w.code.len(),
        forall|i: int, j: int|
            #![trigger around(w).frames[i][j]]
            0 <= i < around(w).frames.len() && 0 <= j < around(w).frames[i].len() ==> around(w).frames[i][j].slot
                < w.code.len(),
{
    assert forall|i: int, j: int|
        #![trigger w.frames[i][j]]
        0 <= i < w.frames.len() && 0 <= j < w.frames[i].len() implies w.frames[i][j].slot < w.code.len() by {
        assert(mirrored(w, world.frames[i], m, w.frames[i][j]));
    }
    assert forall|i: int, j: int|
        #![trigger around(w).frames[i][j]]
        0 <= i < around(w).frames.len() && 0 <= j < around(w).frames[i].len() implies around(w).frames[i][j].slot
        < w.code.len() by {
        assert(around(w).frames[i][j] == w.frames[i][j]);
    }
}

/// Behind a statement in a plain scope, the slots of arrays are guarded still.
proof fn lemma_arrays_guarded(w: WorkView, w1: WorkView, s1: Seq<Scope>, guard: Set<int>)
    requires
        arrays_guarded(w, guard),
        stride(w, w1),
        knows(w1, s1),
        plain(s1),
    ensures
        arrays_guarded(w1, guard),
{
    reveal(stride);
    assert forall|i: int, j: int|
        #![trigger w1.frames[i][j]]
        0 <= i < w1.frames.len() && 0 <= j < w1.frames[i].len() && w1.frames[i][j].native is Array implies guard.contains(
        w1.frames[i][j].slot as int,
    ) by {
        if i < w1.frames.len() - 1 {
            assert(w1.frames[i] == w.frames[i]);
            assert(w.frames[i][j].native is Array);
        } else {
            assert(s1.last().dom().contains(w1.frames[i][j].name));
        }
    }
}

#[verifier::spinoff_prover]
#[verifier::rlimit(30)]
proof fn gather_sim_block(
    c: CompiledView,
    w: WorkView,
    s: Seq<Scope>,
    stmts: Vec<Stmt>,
    i: nat,
    fixed: Set<Seq<char>>,
    guard: Set<int>,
    d: nat,
    world: World,
    m: Machine,
    array: Operand,
    h: nat,
    j: int,
) -> (n: nat)
    requires
        gather_block(s, stmts, i, fixed),
        knows(w, s),
        plain(s),
        s.len() > 1,
        sound(c),
        sees(c, block_made(w, stmts, i).0),
        joint(w, world, m),
        stands(w, m),
        w.open,
        guarded(w, fixed, guard),
        arrays_guarded(w, guard),
        clear(m, guard, h),
        collecting(w, array),
        collector(m, array, h),
        goes_on(c, w, j),
        does_block(d, world, stmts, i).1 is Ok,
    ensures
        gathered(
            w,
            block_made(w, stmts, i).0,
            block_made(w, stmts, i).1,
            world,
            does_block(d, world, stmts, i),
            m,
            steps(c, m, n),
            block_made(w, stmts, i).0.code.len() as int,
            fixed,
            guard,
            around(w),
            closed_scope(does_block(d, world, stmts, i).0),
            h,
            j,
        ),
    decreases stmts, stmts@.len() - i,
{
    block_next(w, stmts, i);
    does_block_next(d, world, stmts, i);
    if i < stmts@.len() {
        let st = stmts@[i as int];
        let (w1, left) = stmt_made(w, st);
        let wf = block_made(w, stmts, i).0;
        if st is Handback {
            let value = st->Handback_value;
            handback_stmt(w, st);
            a_handback_leaves_the_iteration(w, value, array, Native::Int);
            block_left(w, stmts, i);
            assert(sees(c, w1));
            does_handback(d, world, st);
            let n = run_handback(c, w, s, value, fixed, guard, d, world, m, array, h, j);
            does_block_left(d, world, stmts, i);
            let v = expr_result(d, world, value, None).1->Ok_0;
            lemma_handed_out(w, world, m, steps(c, m, n), w.code.len() as int, fixed, guard, v, h, j);
            n
        } else {
            lemma_stmt(w, st);
            let s1 = scopes_after(s, st);
            if !left {
                if st is If {
                    stmt_parts(w, st);
                    gather_calm_if(w, s, st->If_0, fixed, array);
                } else {
                    calm_stmt(w, s, st, fixed);
                    if let Stmt::Var(v) = st {
                        lemma_plain(s, v, v.bindings@.len());
                    }
                }
                lemma_no_temps(w1, w.temps.len());
                lemma_block(w1, stmts, i + 1);
                lemma_sees_stride(c, w1, wf);
            } else {
                block_left(w, stmts, i);
                assert(sees(c, w1));
            }
            let k = if st is If {
                stmt_parts(w, st);
                does_stmt_parts(d, world, st);
                gather_sim_if(c, w, s, st->If_0, fixed, guard, d, world, m, array, h, j)
            } else {
                calm_stmt(w, s, st, fixed);
                sim_stmt(c, w, s, st, fixed, guard, d, world, m)
            };
            let m1 = steps(c, m, k);
            let r1 = does_stmt(d, world, st);
            let world1 = r1.0;
            if r1.1->Ok_0 is Normal {
                lemma_arrays_guarded(w, w1, s1, guard);
                assert(clear(m1, guard, h));
                reveal(stride);
                assert(collecting(w1, array));
                assert(reg(top(m1), array.at) == reg(top(m), array.at));
                assert(collector(m1, array, h));
                let e = gather_sim_block(c, w1, s1, stmts, i + 1, fixed, guard, d, world1, m1, array, h, j);
                lemma_steps_add(c, m, k, e);
                let m2 = steps(c, m, k + e);
                let r = does_block(d, world, stmts, i);
                let n0 = w.code.len() as int;
                if r.1->Ok_0 is Normal {
                    lemma_went_then(n0, w1.code.len() as int, guard, guard, m, m1, m2);
                } else {
                    let v = r.1->Ok_0->Handback_0;
                    lemma_handed_then(around(w1), closed_scope(r.0), m, m1, m2, n0, w1.code.len() as int, guard, v, h, j);
                    lemma_slots_old(w, world, m);
                    assert(around(w1).frames =~= around(w).frames) by {
                        assert forall|x: int| 0 <= x < around(w).frames.len() implies around(w1).frames[x] == around(
                            w,
                        ).frames[x] by {
                            assert(w1.frames[x] == w.frames[x]);
                        }
                    }
                    assert(guarded(around(w), fixed, guard)) by {
                        assert forall|x: int, y: int|
                            #![trigger around(w).frames[x][y]]
                            0 <= x < around(w).frames.len() && 0 <= y < around(w).frames[x].len() && guard.contains(
                                around(w).frames[x][y].slot as int,
                            ) implies fixed.contains(around(w).frames[x][y].name) by {
                            assert(around(w).frames[x][y] == w.frames[x][y]);
                        }
                    }
                    lemma_handed_back(around(w), around(w1), closed_scope(r.0), m, m2, n0, fixed, guard, v, h, j);
                }
                k + e
            } else {
                does_block_left(d, world, stmts, i);
                let v = r1.1->Ok_0->Handback_0;
                lemma_handed_out(w, world1, m, m1, w.code.len() as int, fixed, guard, v, h, j);
                k
            }
        }
    } else {
        0
    }
}

#[verifier::spinoff_prover]
proof fn gather_sim_scoped(
    c: CompiledView,
    w: WorkView,
    s: Seq<Scope>,
    stmts: Vec<Stmt>,
    fixed: Set<Seq<char>>,
    guard: Set<int>,
    d: nat,
    world: World,
    m: Machine,
    array: Operand,
    h: nat,
    j: int,
) -> (n: nat)
    requires
        gather_block(s.push(Map::empty()), stmts, 0, fixed),
        knows(w, s),
        sound(c),
        sees(c, scoped_made(w, stmts).0),
        joint(w, world, m),
        stands(w, m),
        w.open,
        guarded(w, fixed, guard),
        arrays_guarded(w, guard),
        clear(m, guard, h),
        collecting(w, array),
        collector(m, array, h),
        goes_on(c, w, j),
        does_scoped(d, world, stmts).1 is Ok,
    ensures
        gathered(
            w,
            scoped_made(w, stmts).0,
            scoped_made(w, stmts).1,
            world,
            does_scoped(d, world, stmts),
            m,
            steps(c, m, n),
            scoped_made(w, stmts).0.code.len() as int,
            fixed,
            guard,
            w,
            does_scoped(d, world, stmts).0,
            h,
            j,
        ),
    decreases stmts, stmts@.len() + 1,
{
    gather_calm_scoped(w, s, stmts, fixed, array);
    does_scoped_parts(d, world, stmts);
    lemma_opens(w, world, m, fixed, guard);
    lemma_with_frame_knows(w, s);
    let w0 = with_frame(w);
    let (wb, left) = block_made(w0, stmts, 0);
    let wf = scoped_made(w, stmts).0;
    let world0 = opened(world);
    assert(w0.frames.drop_last() =~= w.frames && w0.handbacks == w.handbacks && w0.continues == w.continues) by {
        reveal(with_frame);
    }
    assert(arrays_guarded(w0, guard)) by {
        reveal(with_frame);
        assert forall|x: int, y: int|
            #![trigger w0.frames[x][y]]
            0 <= x < w0.frames.len() && 0 <= y < w0.frames[x].len() && w0.frames[x][y].native is Array implies guard.contains(
            w0.frames[x][y].slot as int,
        ) by {
            assert(w0.frames[x][y] == w.frames[x][y]);
        }
    }
    let n = gather_sim_block(c, w0, s.push(Map::empty()), stmts, 0, fixed, guard, d, world0, m, array, h, j);
    let m1 = steps(c, m, n);
    let r = does_block(d, world0, stmts, 0);
    if r.1->Ok_0 is Normal {
        assert(wf.frames == wb.frames.drop_last()) by {
            reveal(without_frame);
            reveal(with_frame);
            reveal(stride);
            lemma_block(w0, stmts, 0);
        }
        assert forall|x: int, y: int|
            #![trigger wf.frames[x][y]]
            0 <= x < wf.frames.len() && 0 <= y < wf.frames[x].len() && guard.contains(wf.frames[x][y].slot as int) implies fixed.contains(
            wf.frames[x][y].name,
        ) by {
            assert(wf.frames[x][y] == w.frames[x][y]);
        }
        lemma_closes(wb, wf, r.0, m1, fixed, guard);
    } else {
        lemma_slots_old(w, world, m);
        lemma_handed_back(
            w,
            around(w0),
            closed_scope(r.0),
            m,
            m1,
            w.code.len() as int,
            fixed,
            guard,
            r.1->Ok_0->Handback_0,
            h,
            j,
        );
    }
    n
}

#[verifier::spinoff_prover]
proof fn gather_sim_if(
    c: CompiledView,
    w: WorkView,
    s: Seq<Scope>,
    chain: IfChain,
    fixed: Set<Seq<char>>,
    guard: Set<int>,
    d: nat,
    world: World,
    m: Machine,
    array: Operand,
    h: nat,
    j: int,
) -> (n: nat)
    requires
        gather_arms(s, chain, 0, fixed),
        knows(w, s),
        sound(c),
        sees(c, if_made(w, chain).0),
        joint(w, world, m),
        stands(w, m),
        w.open,
        guarded(w, fixed, guard),
        arrays_guarded(w, guard),
        clear(m, guard, h),
        collecting(w, array),
        collector(m, array, h),
        goes_on(c, w, j),
        does_arms(d, world, chain, 0).1 is Ok,
    ensures
        gathered(
            w,
            if_made(w, chain).0,
            if_made(w, chain).1,
            world,
            does_arms(d, world, chain, 0),
            m,
            steps(c, m, n),
            if_made(w, chain).0.code.len() as int,
            fixed,
            guard,
            w,
            does_arms(d, world, chain, 0).0,
            h,
            j,
        ),
    decreases chain, chain.arms@.len() + 1,
{
    gather_if_parts(w, chain);
    gather_calm_if(w, s, chain, fixed, array);
    let merge = w.code.len() as usize;
    let w1 = put(w, Inst::Block);
    let (w2, all) = arms_made(w1, chain, 0, merge, true);
    let wj = joined(w2, !w2.open, merge);
    let w3 = put(wj, Inst::At(merge));
    let (wf, left) = if_made(w, chain);
    if left {
        lemma_sees_put(c, w3, Inst::Unreachable);
    }
    let e = wj.code.len() as int;
    lemma_sees_put(c, wj, Inst::At(merge));
    if w2.open {
        lemma_sees_put(c, w2, Inst::Jump(merge));
        assert(wj.code[w2.code.len() as int] == Inst::Jump(merge));
        lemma_code(c, wj, w2.code.len() as int);
    }
    lemma_arms(w1, chain, 0, merge, true);
    lemma_sees_step(c, w1, w2);
    reveal(step);
    assert(w3.code[e] == Inst::At(merge));
    lemma_code(c, w3, e);
    assert(w1.code[merge as int] == Inst::Block);
    lemma_code(c, w1, w.code.len() as int);
    run_at(c, m);
    let n0 = w.code.len() as int;
    let m1 = at(m, n0 + 1);
    lemma_at(w, w1, world, m, n0 + 1, n0, guard);
    lemma_guarded_frames(w, w1, fixed, guard);
    lemma_knows_frames(w, w1, s);
    let k = gather_sim_arms(c, w1, s, chain, 0, merge, true, fixed, guard, d, world, m1, e, array, h, j);
    let m2 = steps(c, m1, k);
    lemma_steps_add(c, m, 1, k);
    let r = does_arms(d, world, chain, 0);
    if r.1->Ok_0 is Normal {
        lemma_went_then(n0, w1.code.len() as int, guard, guard, m, m1, m2);
        run_at(c, m2);
        lemma_steps_add(c, m, 1 + k, 1);
        lemma_at(w1, w3, r.0, m2, e + 1, n0, guard);
        lemma_went_then(n0, n0, guard, guard, m, m2, at(m2, e + 1));
        lemma_guarded_frames(w, w3, fixed, guard);
        1 + k + 1
    } else {
        let v = r.1->Ok_0->Handback_0;
        lemma_handed_then(w1, r.0, m, m1, m2, n0, w1.code.len() as int, guard, v, h, j);
        lemma_slots_old(w, world, m);
        lemma_handed_back(w, w1, r.0, m, m2, n0, fixed, guard, v, h, j);
        1 + k
    }
}

/// Which code an arm has, and what of it the program holds.
#[verifier::spinoff_prover]
proof fn gather_arm_code(
    c: CompiledView,
    w: WorkView,
    s: Seq<Scope>,
    e: Expr,
    body: Vec<Stmt>,
    merge: usize,
    fixed: Set<Seq<char>>,
    array: Operand,
)
    requires
        whole_expr(s, e, Native::Bool),
        gather_block(s.push(Map::empty()), body, 0, fixed),
        knows(w, s),
        w.open,
        collecting(w, array),
        sees(c, arm_passed(w, e, body, merge)),
    ensures
        ({
            let (w1, test) = expr_made(w, e, Native::Bool);
            let wi = arm_entered(w, e);
            let (w5, left) = scoped_made(wi, body);
            let wn = arm_passed(w, e, body, merge);
            let p = w1.code.len() as int;
            let code = c.main.code;
            let f = wn.code.len() as int - 1;
            &&& wn == put(joined(w5, left, merge), Inst::At((p + 1) as usize))
            &&& sees(c, w1) && sees(c, wi) && sees(c, w5)
            &&& w.code.len() <= p
            &&& wi.code.len() == p + 4
            &&& p + 4 <= w5.code.len() <= f
            &&& f < code.len()
            &&& code[p] == Inst::Block
            &&& code[p + 1] == Inst::Block
            &&& code[p + 2] == (Inst::Fork { test: test.at, yes: p as usize, no: (p + 1) as usize })
            &&& code[p + 3] == Inst::At(p as usize)
            &&& !left ==> w5.code.len() < code.len() && code[w5.code.len() as int] == Inst::Jump(merge)
            &&& code[f] == Inst::At((p + 1) as usize)
            &&& wi.frames == w.frames && w5.frames == w.frames && wn.frames == w.frames
            &&& knows(wi, s) && knows(wn, s)
            &&& wi.open && wn.open
            &&& collecting(wi, array) && collecting(wn, array)
            &&& wi.continues == w.continues && wn.continues == w.continues
        }),
{
    calm_entered(w, s, e);
    lemma_entered_keeps(w, s, e, array);
    let (w1, test) = expr_made(w, e, Native::Bool);
    let wi = arm_entered(w, e);
    gather_calm_scoped(wi, s, body, fixed, array);
    let (w5, left) = scoped_made(wi, body);
    let wn = arm_passed(w, e, body, merge);
    let p = w1.code.len() as int;
    let wj = joined(w5, left, merge);
    lemma_sees_put(c, wj, Inst::At((p + 1) as usize));
    if !left {
        lemma_sees_put(c, w5, Inst::Jump(merge));
        let q = w5.code.len() as int;
        assert(wj.code[q] == Inst::Jump(merge));
        lemma_code(c, wj, q);
    }
    lemma_scoped(wi, body);
    lemma_sees_step(c, wi, w5);
    reveal(step);
    assert(extended(wi.code, w5.code));
    reveal(crate::codegen::work::forked);
    let fork = Inst::Fork { test: test.at, yes: p as usize, no: (p + 1) as usize };
    let w3 = put(put(w1, Inst::Block), Inst::Block);
    assert(wi == put(put(w3, fork), Inst::At(p as usize)));
    lemma_sees_put(c, put(w3, fork), Inst::At(p as usize));
    lemma_sees_put(c, w3, fork);
    lemma_sees_put(c, put(w1, Inst::Block), Inst::Block);
    lemma_sees_put(c, w1, Inst::Block);
    assert(wi.code[p] == Inst::Block && wi.code[p + 1] == Inst::Block && wi.code[p + 2] == fork && wi.code[p + 3]
        == Inst::At(p as usize));
    lemma_code(c, wi, p);
    lemma_code(c, wi, p + 1);
    lemma_code(c, wi, p + 2);
    lemma_code(c, wi, p + 3);
    let f = wn.code.len() as int - 1;
    assert(wn.code[f] == Inst::At((p + 1) as usize));
    lemma_code(c, wn, f);
    lemma_knows_frames(w, wn, s);
}

#[verifier::spinoff_prover]
proof fn gather_sim_arms(
    c: CompiledView,
    w: WorkView,
    s: Seq<Scope>,
    chain: IfChain,
    i: nat,
    merge: usize,
    all: bool,
    fixed: Set<Seq<char>>,
    guard: Set<int>,
    d: nat,
    world: World,
    m: Machine,
    e: int,
    array: Operand,
    h: nat,
    j: int,
) -> (n: nat)
    requires
        gather_arms(s, chain, i, fixed),
        knows(w, s),
        sound(c),
        sees(c, arms_made(w, chain, i, merge, all).0),
        joint(w, world, m),
        stands(w, m),
        w.open,
        guarded(w, fixed, guard),
        arrays_guarded(w, guard),
        clear(m, guard, h),
        collecting(w, array),
        collector(m, array, h),
        goes_on(c, w, j),
        does_arms(d, world, chain, i).1 is Ok,
        merge < c.main.code.len(),
        c.main.code[merge as int] is Block,
        0 <= e < c.main.code.len(),
        c.main.code[e] == Inst::At(merge),
        arms_made(w, chain, i, merge, all).0.open ==> ({
            let wa = arms_made(w, chain, i, merge, all).0;
            wa.code.len() < c.main.code.len() && c.main.code[wa.code.len() as int] == Inst::Jump(merge)
        }),
    ensures
        gathered(
            w,
            w,
            arms_made(w, chain, i, merge, all).1 && !arms_made(w, chain, i, merge, all).0.open,
            world,
            does_arms(d, world, chain, i),
            m,
            steps(c, m, n),
            e,
            fixed,
            guard,
            w,
            does_arms(d, world, chain, i).0,
            h,
            j,
        ),
        !all ==> !arms_made(w, chain, i, merge, all).1,
    decreases chain, chain.arms@.len() - i,
{
    lemma_arms_left(w, chain, i, merge, all);
    arms_next(w, chain, i, merge, all);
    does_arms_next(d, world, chain, i);
    let n0 = w.code.len() as int;
    if i >= chain.arms@.len() {
        run_to(c, m, merge, e);
        lemma_at(w, w, world, m, e, n0, guard);
        1
    } else {
        lemma_slots_old(w, world, m);
        let arm = chain.arms@[i as int];
        let r = does_arms(d, world, chain, i);
        match arm.condition {
            None => {
                gather_calm_scoped(w, s, arm.body, fixed, array);
                let (w1, left) = scoped_made(w, arm.body);
                let w2 = joined(w1, left, merge);
                arms_next(w2, chain, i + 1, merge, all && left);
                if !left {
                    lemma_sees_put(c, w1, Inst::Jump(merge));
                }
                let k = gather_sim_scoped(c, w, s, arm.body, fixed, guard, d, world, m, array, h, j);
                let m1 = steps(c, m, k);
                if r.1->Ok_0 is Normal {
                    assert(w2.code[w1.code.len() as int] == Inst::Jump(merge));
                    lemma_code(c, w2, w1.code.len() as int);
                    run_to(c, m1, merge, e);
                    lemma_steps_add(c, m, k, 1);
                    lemma_at(w1, w1, r.0, m1, e, n0, guard);
                    lemma_back(w, w1, r.0, m, at(m1, e), fixed, guard);
                    lemma_went_then(n0, n0, guard, guard, m, m1, at(m1, e));
                    k + 1
                } else {
                    k
                }
            },
            Some(cond) => {
                let (w1, test) = expr_made(w, cond, Native::Bool);
                let wi = arm_entered(w, cond);
                let (w5, left) = scoped_made(wi, arm.body);
                let wn = arm_passed(w, cond, arm.body, merge);
                lemma_arms(wn, chain, i + 1, merge, all && left);
                lemma_sees_step(c, wn, arms_made(w, chain, i, merge, all).0);
                gather_arm_code(c, w, s, cond, arm.body, merge, fixed, array);
                calm_entered(w, s, cond);
                let k = sim_expr(c, w, cond, Native::Bool, d, world, None, m);
                let m1 = steps(c, m, k);
                lemma_ran_went(w, w1, m, m1, n0, fixed, guard);
                lemma_still_mirrors(w, w1, world, m, m1);
                let bit = meaning(d, world, cond, None).1->Ok_0->Bool_0;
                let p = w1.code.len() as int;
                let to = if bit {
                    p + 3
                } else {
                    wn.code.len() as int - 1
                };
                run_branch(c, w1, m1, test.at, bit, to);
                lemma_steps_add(c, m, k, 4);
                let m2 = at(m1, to + 1);
                let wt = if bit {
                    wi
                } else {
                    wn
                };
                lemma_at(w1, wt, world, m1, to + 1, n0, guard);
                lemma_went_then(n0, n0, guard, guard, m, m1, m2);
                lemma_guarded_frames(w, wt, fixed, guard);
                assert(arrays_guarded(wt, guard));
                assert(clear(m2, guard, h));
                assert(reg(top(m2), array.at) == reg(top(m), array.at));
                assert(collector(m2, array, h));
                assert(goes_on(c, wt, j));
                let q = if bit {
                    gather_sim_scoped(c, wi, s, arm.body, fixed, guard, d, world, m2, array, h, j)
                } else {
                    gather_sim_arms(
                        c,
                        wn,
                        s,
                        chain,
                        i + 1,
                        merge,
                        all && left,
                        fixed,
                        guard,
                        d,
                        world,
                        m2,
                        e,
                        array,
                        h,
                        j,
                    )
                };
                let m3 = steps(c, m2, q);
                lemma_steps_add(c, m, k + 4, q);
                if r.1->Ok_0 is Normal {
                    lemma_went_then(n0, wt.code.len() as int, guard, guard, m, m2, m3);
                    if bit {
                        lemma_arms_left(wn, chain, i + 1, merge, all && left);
                        run_to(c, m3, merge, e);
                        lemma_steps_add(c, m, k + 4 + q, 1);
                        lemma_at(w5, w5, r.0, m3, e, n0, guard);
                        lemma_went_then(n0, n0, guard, guard, m, m3, at(m3, e));
                        lemma_back(w, w5, r.0, m, at(m3, e), fixed, guard);
                        k + 4 + q + 1
                    } else {
                        lemma_back(w, wn, r.0, m, m3, fixed, guard);
                        k + 4 + q
                    }
                } else {
                    let v = r.1->Ok_0->Handback_0;
                    lemma_arms_left(wn, chain, i + 1, merge, all && left);
                    let wo = if bit {
                        wi
                    } else {
                        wn
                    };
                    lemma_handed_then(wo, r.0, m, m2, m3, n0, wt.code.len() as int, guard, v, h, j);
                    lemma_handed_back(w, wo, r.0, m, m3, n0, fixed, guard, v, h, j);
                    k + 4 + q
                }
            },
        }
    }
}

/// An arm that does not leave is enough for a conditional not to leave.
proof fn lemma_arms_left(w: WorkView, chain: IfChain, i: nat, merge: usize, all: bool)
    ensures
        !all ==> !arms_made(w, chain, i, merge, all).1,
    decreases chain.arms@.len() - i,
{
    arms_next(w, chain, i, merge, all);
    if i < chain.arms@.len() {
        let body = chain.arms@[i as int].body;
        match chain.arms@[i as int].condition {
            Some(c) => {
                lemma_arms_left(
                    arm_passed(w, c, body, merge),
                    chain,
                    i + 1,
                    merge,
                    all && scoped_made(arm_entered(w, c), body).1,
                );
            },
            None => {
                let (w1, left) = scoped_made(w, body);
                lemma_arms_left(joined(w1, left, merge), chain, i + 1, merge, all && left);
            },
        }
    }
}

// ── counted loops that collect ──────────────────────────────────────────────

#[verifier::spinoff_prover]
proof fn does_counted_collects(
    d: nat,
    world: World,
    body: Vec<Stmt>,
    var: Seq<char>,
    span: Span,
    i: int,
    to: int,
    by: int,
    acc: Seq<Val>,
)
    requires
        does_counted(d, world, body, var, span, i, to, by, acc).1 is Ok,
    ensures
        !in_range(i, to, by) ==> does_counted(d, world, body, var, span, i, to, by, acc) == (
            world,
            Ok::<Seq<Val>, StopView>(acc),
        ),
        in_range(i, to, by) ==> {
            let r = does_block(d, defined(opened(once_more(world)), var, Val::Int(i as i128)), body, 0);
            &&& r.1 is Ok
            &&& does_counted(d, world, body, var, span, i, to, by, acc) == does_counted(
                d,
                closed_scope(r.0),
                body,
                var,
                span,
                i + by,
                to,
                by,
                semantics::collected(acc, r.1->Ok_0),
            )
        },
{
    reveal(does_counted);
    reveal(does_block);
}

/// The lowering of a loop that collects: what hands back is pushed, and its array is older.
pub open spec fn pushing(w: WorkView, array: Operand) -> bool {
    &&& w.handbacks.len() > 0
    &&& w.handbacks.last() == (Handback::Push { array, elem: Native::Int })
    &&& array.kind == Kind::Ptr
    &&& array.at < w.code.len()
}

#[verifier::spinoff_prover]
proof fn inside_collects(w: WorkView, s: Seq<Scope>, var: Seq<char>, b: Bounds, array: Operand)
    requires
        knows(w, s),
        pushing(w, array),
        b.start.kind == Kind::Word,
        b.end.kind == Kind::Word,
        b.step.kind == Kind::Word,
    ensures
        collecting(counted_inside(w, var, b), array),
        counted_inside(w, var, b).continues == w.continues.push(loop_entered(w, b).1.step),
{
    let _ = entered_parts(w, b);
    reveal(with_frame);
    reveal(crate::codegen::work::declared);
}

/// What the program holds of a counted loop that collects.
#[verifier::spinoff_prover]
#[verifier::rlimit(30)]
proof fn gather_counted_code(
    c: CompiledView,
    w: WorkView,
    s: Seq<Scope>,
    var: Seq<char>,
    b: Bounds,
    body: Vec<Stmt>,
    fixed: Set<Seq<char>>,
    array: Operand,
) -> (q: int)
    requires
        gather_block(with_name(s.push(Map::empty()), var, Native::Int), body, 0, fixed),
        knows(w, s),
        pushing(w, array),
        b.start.kind == Kind::Word,
        b.end.kind == Kind::Word,
        b.step.kind == Kind::Word,
        sound(c),
        sees(c, counted_made(w, var, b, body)),
    ensures
        ({
            let w2 = counted_inside(w, var, b);
            let (w3, left) = block_made(w2, body, 0);
            let wf = counted_made(w, var, b, body);
            let r = wf.code.len() as int - 11;
            &&& loop_code(c.main.code, w.code.len() as int, q, r, b)
            &&& sees(c, w3)
            &&& w2.code.len() == q + 16
            &&& w3.code.len() <= r
            &&& !left ==> r == w3.code.len() + 1 && c.main.code[r - 1] == Inst::Jump((q + 14) as usize)
            &&& loop_entered(w, b).1.slot == (q + 1) as usize
            &&& goes_on(c, w2, r)
            &&& collecting(w2, array)
            &&& wf.frames == w.frames
            &&& wf.temps == w.temps
            &&& wf.open
            &&& wf.handbacks == w.handbacks
        }),
{
    let q = entered_parts(w, b);
    inside_knows(w, s, var, b);
    inside_collects(w, s, var, b, array);
    counted_parts(w, var, b, body);
    let (w1, l) = loop_entered(w, b);
    let w2 = counted_inside(w, var, b);
    let s1 = with_name(s.push(Map::empty()), var, Native::Int);
    let (w3, left) = block_made(w2, body, 0);
    let s3 = gather_calm_block(w2, s1, body, 0, fixed, array);
    let w3c = without_continue(w3);
    if left {
        reveal(scope_released);
        reveal(crate::codegen::work::frame_released_at);
    } else {
        lemma_knows_frames(w3, w3c, s3);
        lemma_nothing_released(w3c, s3);
    }
    let w4 = without_frame(w3c);
    let w5 = joined(w4, left, l.step);
    let wf = counted_made(w, var, b, body);
    left_parts(w5, b, l);
    let r = w5.code.len() as int;
    lemma_block(w2, body, 0);
    crate::codegen::laws::lemma_counted(w, var, b, body);
    reveal(step);
    assert(w4.code == w3.code && w4.texts == w3.texts && w4.temps == w3.temps) by {
        reveal(without_frame);
    }
    assert(extended(w5.code, wf.code));
    lemma_extended_then(w5.code, wf.code, c.main.code);
    assert(sees(c, w5));
    let jump = Inst::Jump(l.step);
    if !left {
        lemma_sees_put(c, w4, jump);
        assert(w5.code[r - 1] == jump);
        lemma_code(c, w5, r - 1);
    }
    assert(sees(c, w3));
    lemma_sees_stride(c, w2, w3);
    assert(w2.code.len() <= w3.code.len()) by {
        reveal(stride);
    }
    lemma_loop_code(c.main.code, w1.code, wf.code, w.code.len() as int, q, r, b);
    q
}

/// Whether a loop collected what the interpreter collected.
pub open spec fn collected_all(
    w: WorkView,
    wf: WorkView,
    world: World,
    out: (World, Result<Seq<Val>, StopView>),
    m: Machine,
    m1: Machine,
    fixed: Set<Seq<char>>,
    guard: Set<int>,
    h: nat,
    count: int,
    kind: u32,
) -> bool {
    &&& out.1 is Ok
    &&& all_whole(out.1->Ok_0)
    &&& joint(wf, out.0, m1)
    &&& stands(wf, m1)
    &&& guarded(wf, fixed, guard)
    &&& out.0.steps >= world.steps
    &&& m1.heap == m.heap.update(h as int, Some(Held { count, value: Boxed::Array(vector_of(cells(out.1->Ok_0), kind)) }))
    &&& m1.answers == m.answers
    &&& m1.asked == m.asked
    &&& forall|i: usize| i < w.code.len() ==> #[trigger] reg(top(m1), i) == reg(top(m), i)
    &&& forall|k: int| guard.contains(k) ==> #[trigger] slot(top(m1).slots, k, 0) == slot(top(m).slots, k, 0)
}

#[verifier::spinoff_prover]
#[verifier::rlimit(40)]
proof fn gather_sim_counted(
    c: CompiledView,
    w: WorkView,
    s: Seq<Scope>,
    var: Seq<char>,
    b: Bounds,
    body: Vec<Stmt>,
    span: Span,
    q: int,
    fixed: Set<Seq<char>>,
    guard: Set<int>,
    d: nat,
    world: World,
    m: Machine,
    i: i128,
    to: i128,
    by: i128,
    acc: Seq<Val>,
    array: Operand,
    h: nat,
    count: int,
    kind: u32,
) -> (n: nat)
    requires
        gather_block(with_name(s.push(Map::empty()), var, Native::Int), body, 0, fixed.insert(var)),
        knows(w, s),
        pushing(w, array),
        sound(c),
        sees(c, counted_made(w, var, b, body)),
        b.start.kind == Kind::Word,
        b.end.kind == Kind::Word,
        b.step.kind == Kind::Word,
        b.end.at < w.code.len(),
        b.step.at < w.code.len(),
        ({
            let w2 = counted_inside(w, var, b);
            let (w3, left) = block_made(w2, body, 0);
            let wf = counted_made(w, var, b, body);
            let r = wf.code.len() as int - 11;
            &&& loop_code(c.main.code, w.code.len() as int, q, r, b)
            &&& sees(c, w3)
            &&& w2.code.len() == q + 16
            &&& w3.code.len() <= r
            &&& !left ==> r == w3.code.len() + 1 && c.main.code[r - 1] == Inst::Jump((q + 14) as usize)
            &&& goes_on(c, w2, r)
            &&& collecting(w2, array)
            &&& wf.frames == w.frames
        }),
        loop_entered(w, b).1.slot == (q + 1) as usize,
        joint(w, world, m),
        top(m).pc == q + 7,
        slot(top(m).slots, q + 1, 0) == Datum::Word(i),
        reg(top(m), w.code.len() as usize) == Datum::Word(0),
        reg(top(m), b.end.at) == Datum::Word(to),
        reg(top(m), b.step.at) == Datum::Word(by),
        by != 0,
        guarded(w, fixed, guard),
        arrays_guarded(w, guard),
        clear(m, guard, h),
        collector(m, array, h),
        m.heap[h as int] == Some(Held { count, value: Boxed::Array(vector_of(cells(acc), kind)) }),
        all_whole(acc),
        does_counted(d, world, body, var, span, i as int, to as int, by as int, acc).1 is Ok,
    ensures
        collected_all(
            w,
            counted_made(w, var, b, body),
            world,
            does_counted(d, world, body, var, span, i as int, to as int, by as int, acc),
            m,
            steps(c, m, n),
            fixed,
            guard,
            h,
            count,
            kind,
        ),
    decreases body, body@.len() + 2 + range_left(i as int, to as int, by as int),
{
    let p = w.code.len() as int;
    let w2 = counted_inside(w, var, b);
    let (w3, left) = block_made(w2, body, 0);
    let wf = counted_made(w, var, b, body);
    let r = wf.code.len() as int - 11;
    does_counted_collects(d, world, body, var, span, i as int, to as int, by as int, acc);
    inside_knows(w, s, var, b);
    lemma_slots_old(w, world, m);
    let n1 = run_test(c, m, p, q, r, b, i, to, by);
    let m1 = steps(c, m, n1);
    if !in_range(i as int, to as int, by as int) {
        lemma_turned(w, wf, world, m, m1, q + 8, r + 11, q + 1, fixed, guard);
        assert(m.heap.update(h as int, m.heap[h as int]) =~= m.heap);
        n1
    } else {
        lemma_turned(w, w, world, m, m1, q + 8, q + 16, q + 1, fixed, guard);
        let world1 = once_more(world);
        assert(mirrors(w, world1, m1));
        let world2 = defined(opened(world1), var, Val::Int(i));
        lemma_counter(w, s, var, b, q, world1, m1, i, fixed, guard);
        let fixed1 = fixed.insert(var);
        let guard1 = guard.insert(q + 1);
        let s1 = with_name(s.push(Map::empty()), var, Native::Int);
        lemma_inside_guarded(w, w2, guard, q);
        assert(clear(m1, guard1, h));
        assert(reg(top(m1), array.at) == reg(top(m), array.at));
        let e = gather_sim_block(c, w2, s1, body, 0, fixed1, guard1, d, world2, m1, array, h, r);
        let m2 = steps(c, m1, e);
        lemma_steps_add(c, m, n1, e);
        let out = does_block(d, world2, body, 0);
        let world3 = out.0;
        let world4 = closed_scope(world3);
        let acc1 = semantics::collected(acc, out.1->Ok_0);
        // The machine where the counter is advanced.
        let k0 = if out.1->Ok_0 is Normal {
            assert(went(p, guard, m1, m2));
            lemma_went_then(p, p, guard, guard, m, m1, m2);
            lemma_block(w2, body, 0);
            crate::codegen::agreement::lemma_loop_closed(w, w2, w3, world3, m2, fixed, guard);
            run_to(c, m2, (q + 14) as usize, r);
            lemma_at(w, w, world4, m2, r, p, guard);
            1nat
        } else {
            let v = out.1->Ok_0->Handback_0;
            assert(handed(around(w2), world4, m1, m2, q + 16, guard, v, h, r));
            lemma_handed_back(w, around(w2), world4, m1, m2, q + 16, fixed, guard, v, h, r);
            assert(cells(acc1) =~= cells(acc).push(CellView::Int(v->Int_0)));
            0nat
        };
        let mr = steps(c, m2, k0);
        lemma_steps_add(c, m, n1 + e, k0);
        let grown = Some(Held { count, value: Boxed::Array(vector_of(cells(acc1), kind)) });
        assert(mr.heap =~= m.heap.update(h as int, grown));
        assert(joint(w, world4, mr));
        assert(top(mr).pc == r);
        assert(all_whole(acc1));
        assert(slot(top(mr).slots, q + 1, 0) == Datum::Word(i)) by {
            assert(slot(top(m2).slots, q + 1, 0) == slot(top(m1).slots, q + 1, 0));
        }
        assert forall|x: usize| x < q + 8 implies #[trigger] reg(top(mr), x) == reg(top(m), x) by {
            assert(reg(top(m2), x) == reg(top(m1), x));
            assert(reg(top(m1), x) == reg(top(m), x));
        }
        assert forall|x: int| guard.contains(x) implies #[trigger] slot(top(mr).slots, x, 0) == slot(top(m).slots, x, 0) by {
            assert(slot(top(m2).slots, x, 0) == slot(top(m1).slots, x, 0));
            assert(slot(top(m1).slots, x, 0) == slot(top(m).slots, x, 0));
        }
        let k = run_advance(c, mr, p, q, r, b, i, by);
        let m3 = steps(c, mr, k);
        lemma_steps_add(c, m, n1 + e + k0, k);
        let goal = if crate::text::fits(i + by) {
            q + 7
        } else {
            r + 11
        };
        lemma_turned(w, w, world4, mr, m3, r, goal, q + 1, fixed, guard);
        assert(m3.heap == mr.heap);
        if crate::text::fits(i + by) {
            assert(reg(top(m3), array.at) == reg(top(m), array.at));
            let g = gather_sim_counted(
                c,
                w,
                s,
                var,
                b,
                body,
                span,
                q,
                fixed,
                guard,
                d,
                world4,
                m3,
                (i + by) as i128,
                to,
                by,
                acc1,
                array,
                h,
                count,
                kind,
            );
            lemma_steps_add(c, m, n1 + e + k0 + k, g);
            let m4 = steps(c, m3, g);
            let vs = does_counted(d, world, body, var, span, i as int, to as int, by as int, acc).1->Ok_0;
            let last = Some(Held { count, value: Boxed::Array(vector_of(cells(vs), kind)) });
            assert(m.heap.update(h as int, grown).update(h as int, last) =~= m.heap.update(h as int, last));
            n1 + e + k0 + k + g
        } else {
            does_counted_collects(d, world4, body, var, span, i + by, to as int, by as int, acc1);
            lemma_turned(w, wf, world4, mr, m3, r, r + 11, q + 1, fixed, guard);
            n1 + e + k0 + k
        }
    }
}

proof fn lemma_inside_guarded(w: WorkView, w2: WorkView, guard: Set<int>, q: int)
    requires
        arrays_guarded(w, guard),
        w2.frames.len() == w.frames.len() + 1,
        w2.frames.drop_last() == w.frames,
        w2.frames.last().len() == 1,
        w2.frames.last()[0].native is Int,
    ensures
        arrays_guarded(w2, guard.insert(q + 1)),
{
    assert forall|x: int, y: int|
        #![trigger w2.frames[x][y]]
        0 <= x < w2.frames.len() && 0 <= y < w2.frames[x].len() && w2.frames[x][y].native is Array implies guard.insert(
        q + 1,
    ).contains(w2.frames[x][y].slot as int) by {
        if x < w.frames.len() {
            assert(w2.frames[x] == w2.frames.drop_last()[x]);
            assert(w.frames[x][y].native is Array);
        }
    }
}

// ── declarations of what a loop collects ────────────────────────────────────

/// A list of whole numbers, not empty.
pub open spec fn whole_items(s: Seq<Scope>, items: Vec<Expr>) -> bool {
    &&& items@.len() > 0
    &&& forall|i: int| 0 <= i < items@.len() ==> whole_expr(s, #[trigger] items@[i], Native::Int)
}

/// A declaration of a vector whose whole numbers are listed.
pub open spec fn lists(s: Seq<Scope>, v: VarDecl, fixed: Set<Seq<char>>) -> bool {
    &&& v.bindings@.len() == 1
    &&& v.ty.rank is Some
    &&& native_of(v.ty, v.bindings@[0].shape) == Ok::<Native, Seq<char>>(Native::Array(0, 1))
    &&& whole_context(binding_context(v.ty, v.bindings@[0].precision))
    &&& !fixed.contains(v.bindings@[0].name@)
    &&& v.bindings@[0].value is Some
    &&& v.bindings@[0].value->0.kind matches ExprKind::ArrayLit(items) && whole_items(s, items)
}

/// A declaration of what a loop collects.
pub open spec fn collects(s: Seq<Scope>, v: VarDecl, fixed: Set<Seq<char>>) -> bool {
    &&& v.bindings@.len() == 1
    &&& v.ty.rank is Some
    &&& native_of(v.ty, v.bindings@[0].shape) == Ok::<Native, Seq<char>>(Native::Array(0, 1))
    &&& !fixed.contains(v.bindings@[0].name@)
    &&& v.bindings@[0].value is Some
    &&& v.bindings@[0].value->0.kind matches ExprKind::Loop(l) && gather_loop(s, *l, fixed)
}

pub open spec fn gather_loop(s: Seq<Scope>, l: LoopStmt, fixed: Set<Seq<char>>) -> bool {
    match l.kind {
        LoopKind::Counted { var, range, .. } => {
            &&& whole_bounds(s, range)
            &&& !fixed.contains(var@)
            &&& gather_block(with_name(s.push(Map::empty()), var@, Native::Int), l.body, 0, fixed.insert(var@))
        },
        LoopKind::While { condition } => {
            &&& whole_expr(s, condition, Native::Bool)
            &&& gather_block(s.push(Map::empty()), l.body, 0, fixed)
        },
    }
}

/// The loop behind a declaration.
pub open spec fn loop_of(v: VarDecl) -> LoopStmt {
    *v.bindings@[0].value->0.kind->Loop_0
}

/// The lowering in front of a loop that collects.
pub open spec fn array_opened(w: WorkView, digits: u32) -> (WorkView, Operand) {
    let (w1, kind) = made(with_digits(w, digits), Inst::Small(0), Kind::Small);
    let (w2, array) = called(w1, Rt::ArrayEmpty, seq![kind]);
    (with_handback(w2, Handback::Push { array, elem: Native::Int }), array)
}

#[verifier::spinoff_prover]
proof fn loop_value_parts(w: WorkView, e: Expr, digits: u32)
    requires
        e.kind is Loop,
    ensures
        ({
            let (w2, array) = array_opened(w, digits);
            expr_made(with_digits(w, digits), e, Native::Array(0, 1)) == (
                without_handback(loop_made(w2, *e.kind->Loop_0)),
                array,
            )
        }),
{
    reveal(expr_made);
    reveal(loop_value);
    let l = *e.kind->Loop_0;
    let w0 = with_digits(w, digits);
    assert(expr_made(w0, e, Native::Array(0, 1)) == loop_value(w0, l, Native::Array(0, 1)));
}

/// The lowering behind such a declaration, with nothing left to release.
pub open spec fn array_declared(wl: WorkView, array: Operand, name: Seq<char>, mark: nat) -> WorkView {
    let at = wl.code.len() as usize;
    let w4 = put(wl, Inst::Slot(Kind::Ptr));
    let w5 = called(w4, Rt::ArrayRetain, seq![array]).0;
    let w6 = put(w5, Inst::Store { into: at, value: array.at });
    let w7 = with_digits(declared(w6, name, at, Native::Array(0, 1)), DEFAULT_DIGITS);
    called(WorkView { temps: w7.temps.take(mark as int), ..w7 }, Rt::ArrayRelease, seq![array]).0
}

#[verifier::spinoff_prover]
proof fn collects_parts(w: WorkView, s: Seq<Scope>, v: VarDecl, fixed: Set<Seq<char>>)
    requires
        collects(s, v, fixed),
        ({
            let b = v.bindings@[0];
            let (w2, array) = array_opened(w, places_wanted(b.precision, v.ty.precision));
            let wl = without_handback(loop_made(w2, loop_of(v)));
            &&& wl.open
            &&& wl.temps == w.temps.push(Temp { value: array, native: Native::Array(0, 1) })
            &&& array.kind == Kind::Ptr
        }),
    ensures
        ({
            let b = v.bindings@[0];
            let (w2, array) = array_opened(w, places_wanted(b.precision, v.ty.precision));
            let wl = without_handback(loop_made(w2, loop_of(v)));
            &&& !stmt_made(w, Stmt::Var(v)).1
            &&& temps_released(stmt_made(w, Stmt::Var(v)).0, w.temps.len()) == array_declared(
                wl,
                array,
                b.name@,
                w.temps.len(),
            )
        }),
{
    let b = v.bindings@[0];
    let digits = places_wanted(b.precision, v.ty.precision);
    let native = Native::Array(0, 1);
    let (w2, array) = array_opened(w, digits);
    let wl = without_handback(loop_made(w2, loop_of(v)));
    stmt_parts(w, Stmt::Var(v));
    lemma_bindings_next(w, v, 0, native);
    let w1 = binding_made(w, b, native, digits);
    bindings_end(w1, v, 1);
    loop_value_parts(w, b.value->0, digits);
    let at = wl.code.len() as usize;
    let w4 = put(wl, Inst::Slot(Kind::Ptr));
    let w5 = called(w4, Rt::ArrayRetain, seq![array]).0;
    let w6 = put(w5, Inst::Store { into: at, value: array.at });
    let w7 = with_digits(declared(w6, b.name@, at, native), DEFAULT_DIGITS);
    assert(w1 == w7) by {
        reveal(binding_made);
        reveal(kept);
        reveal(handle);
        reveal(stored);
    }
    assert(kinds(seq![array]) =~= takes(Rt::ArrayRetain));
    lemma_called_quiet(w4, Rt::ArrayRetain, seq![array]);
    assert(w7.temps == wl.temps && w7.open) by {
        reveal(declared);
    }
    let mark = w.temps.len();
    let dropped = WorkView { temps: w7.temps.take(mark as int), ..w7 };
    assert(kinds(seq![array]) =~= takes(Rt::ArrayRelease));
    lemma_called_quiet(dropped, Rt::ArrayRelease, seq![array]);
    assert(temps_released(w7, mark) == array_declared(wl, array, b.name@, mark)) by {
        reveal(temps_released);
        reveal(let_go);
        reveal(handle);
        reveal_with_fuel(temps_popped, 3);
        assert(w7.temps[mark as int] == (Temp { value: array, native }));
    }
}

/// A heap in which one object alone has changed, or is new.
pub open spec fn elsewhere_same(a: Seq<Option<Held>>, b: Seq<Option<Held>>, h: nat) -> bool {
    &&& a.len() <= b.len()
    &&& forall|o: int| 0 <= o < a.len() && o != h ==> #[trigger] b[o] == a[o]
}

proof fn lemma_elsewhere(w: WorkView, world: World, m: Machine, m1: Machine, guard: Set<int>, h: nat)
    requires
        mirrors(w, world, m),
        arrays_guarded(w, guard),
        clear(m, guard, h),
        elsewhere_same(m.heap, m1.heap, h),
        forall|i: int, k: int| 0 <= i < w.code.len() ==> #[trigger] slot(top(m1).slots, i, k) == slot(top(m).slots, i, k),
    ensures
        mirrors(w, world, m1),
{
    assert forall|i: int, j: int|
        #![trigger w.frames[i][j]]
        0 <= i < w.frames.len() && 0 <= j < w.frames[i].len() implies {
        &&& mirrored(w, world.frames[i], m1, w.frames[i][j])
        &&& local_index(w.frames[i], w.frames[i][j].name) == j
    } by {
        let l = w.frames[i][j];
        assert(mirrored(w, world.frames[i], m, l));
        assert(slot(top(m1).slots, l.slot as int, 0) == slot(top(m).slots, l.slot as int, 0));
        if l.native is Array {
            assert(guard.contains(l.slot as int));
            assert(slot(top(m).slots, l.slot as int, 0) != Datum::Object(h));
        }
    }
}

/// Each guarded slot holds an array of its own.
pub open spec fn owned(m: Machine, guard: Set<int>) -> bool {
    &&& forall|k: int|
        guard.contains(k) ==> (#[trigger] slot(top(m).slots, k, 0) matches Datum::Object(o) && o < m.heap.len()
            && m.heap[o as int] is Some)
    &&& forall|k: int, l: int|
        guard.contains(k) && guard.contains(l) && k != l ==> #[trigger] slot(top(m).slots, k, 0) != #[trigger] slot(
            top(m).slots,
            l,
            0,
        )
}

/// A new array: the code in front of a loop that collects.
#[verifier::spinoff_prover]
proof fn run_array_opened(c: CompiledView, w: WorkView, m: Machine, digits: u32) -> (n: nat)
    requires
        sound(c),
        sees(c, array_opened(w, digits).0),
        stands(w, m),
    ensures
        ({
            let (w2, array) = array_opened(w, digits);
            let m1 = steps(c, m, n);
            &&& m1 == with(
                Machine {
                    heap: m.heap.push(Some(Held { count: 1, value: Boxed::Array(vector_of(Seq::empty(), 0)) })),
                    ..m
                },
                top(m1),
            )
            &&& stands(w2, m1)
            &&& keeps_below(w.code.len() as int, top(m), top(m1))
            &&& reg(top(m1), array.at) == Datum::Object(m.heap.len())
            &&& array.kind == Kind::Ptr
            &&& array.at < w2.code.len()
            &&& w2.code.len() == w.code.len() + 3
            &&& w2.frames == w.frames
            &&& w2.texts == w.texts
            &&& extended(w.code, w2.code)
            &&& w2.open == w.open
            &&& w2.temps == w.temps.push(Temp { value: array, native: Native::Array(0, 1) })
            &&& w2.handbacks == w.handbacks.push(Handback::Push { array, elem: Native::Int })
            &&& w2.continues == w.continues
        }),
{
    reveal(called);
    reveal(crate::codegen::work::expecting_all);
    reveal_with_fuel(crate::codegen::work::with_args, 3);
    let (w2, array) = array_opened(w, digits);
    let p = w.code.len() as int;
    let kind = Operand { at: p as usize, kind: Kind::Small };
    assert(kinds(seq![kind]) =~= takes(Rt::ArrayEmpty));
    assert(w2.code =~= w.code.push(Inst::Small(0)).push(Inst::Arg(p as usize)).push(Inst::CallRt(Rt::ArrayEmpty)));
    lemma_code(c, w2, p);
    lemma_code(c, w2, p + 1);
    lemma_code(c, w2, p + 2);
    let a1 = crate::codegen::machine::gave(top(m), Datum::Small(0))->0;
    lemma_does(c, m, Inst::Small(0), a1);
    let m1 = with(m, a1);
    let a2 = Activation { pc: p + 2, args: seq![Datum::Small(0)], ..a1 };
    assert(a1.args.push(reg(a1, p as usize)) =~= seq![Datum::Small(0)]);
    lemma_does(c, m1, Inst::Arg(p as usize), a2);
    lemma_steps_add(c, m, 1, 1);
    let m2 = with(m1, a2);
    let heap = m.heap.push(Some(Held { count: 1, value: Boxed::Array(vector_of(Seq::empty(), 0)) }));
    let after = Machine { heap, ..m2 };
    assert(runtime_call(m2, a2.slots, Rt::ArrayEmpty, a2.args) == Call::Gives(
        after,
        a2.slots,
        Datum::Object(m.heap.len()),
    )) by {
        reveal(runtime_call);
    }
    lemma_calls(c, m2, Rt::ArrayEmpty, after, a2.slots, Datum::Object(m.heap.len()));
    lemma_steps_add(c, m, 2, 1);
    let m3 = steps(c, m, 3);
    assert(m3.calls =~= seq![top(m3)]);
    3
}

/// One more or one less reference to an array.
#[verifier::spinoff_prover]
proof fn run_counted_by(
    c: CompiledView,
    w: WorkView,
    m: Machine,
    f: Rt,
    v: Operand,
    h: nat,
    held: Held,
) -> (n: nat)
    requires
        f == Rt::ArrayRetain || f == Rt::ArrayRelease,
        sound(c),
        sees(c, called(w, f, seq![v]).0),
        stands(w, m),
        v.kind == Kind::Ptr,
        reg(top(m), v.at) == Datum::Object(h),
        h < m.heap.len(),
        m.heap[h as int] == Some(held),
    ensures
        ({
            let w1 = called(w, f, seq![v]).0;
            let m1 = steps(c, m, n);
            let count = held.count + (if f == Rt::ArrayRetain { 1int } else { -1int });
            let next = if count <= 0 {
                None
            } else {
                Some(Held { count, value: held.value })
            };
            &&& quiet(w, w1)
            &&& m1 == with(Machine { heap: m.heap.update(h as int, next), ..m }, top(m1))
            &&& stands(w1, m1)
            &&& top(m1).slots == top(m).slots
            &&& keeps_below(w.code.len() as int, top(m), top(m1))
        }),
{
    let args = seq![v];
    let given = Seq::new(args.len(), |i: int| reg(top(m), args[i].at));
    let act = Activation { pc: (w.code.len() + args.len()) as int, args: given, ..top(m) };
    let count = held.count + (if f == Rt::ArrayRetain { 1int } else { -1int });
    let next = if count <= 0 {
        None
    } else {
        Some(Held { count, value: held.value })
    };
    let before = with(m, act);
    let after = Machine { heap: m.heap.update(h as int, next), ..before };
    assert(given[0] == Datum::Object(h));
    assert(runtime_call(before, top(m).slots, f, given) == Call::Gives(after, top(m).slots, Datum::Nothing)) by {
        reveal(runtime_call);
    }
    assert(kinds(args) =~= takes(f));
    let n = run_called(c, w, m, f, args, after, Datum::Nothing);
    let m1 = steps(c, m, n);
    assert(m1.calls =~= seq![top(m1)]);
    n
}

/// A loop that collects leaves the lowering as it found it.
#[verifier::spinoff_prover]
proof fn gather_calm_counted(
    w: WorkView,
    s: Seq<Scope>,
    var: Seq<char>,
    b: Bounds,
    body: Vec<Stmt>,
    fixed: Set<Seq<char>>,
    array: Operand,
)
    requires
        gather_block(with_name(s.push(Map::empty()), var, Native::Int), body, 0, fixed),
        knows(w, s),
        pushing(w, array),
        b.start.kind == Kind::Word,
        b.end.kind == Kind::Word,
        b.step.kind == Kind::Word,
    ensures
        ({
            let wf = counted_made(w, var, b, body);
            &&& wf.frames == w.frames
            &&& wf.temps == w.temps
            &&& wf.open
            &&& wf.handbacks == w.handbacks
        }),
{
    let _ = entered_parts(w, b);
    inside_knows(w, s, var, b);
    inside_collects(w, s, var, b, array);
    counted_parts(w, var, b, body);
    let l = loop_entered(w, b).1;
    let w2 = counted_inside(w, var, b);
    let s1 = with_name(s.push(Map::empty()), var, Native::Int);
    let (w3, left) = block_made(w2, body, 0);
    let s3 = gather_calm_block(w2, s1, body, 0, fixed, array);
    let w3c = without_continue(w3);
    if left {
        reveal(scope_released);
        reveal(crate::codegen::work::frame_released_at);
    } else {
        lemma_knows_frames(w3, w3c, s3);
        lemma_nothing_released(w3c, s3);
    }
    let w4 = without_frame(w3c);
    assert(w4.temps == w3.temps) by {
        reveal(without_frame);
    }
    left_parts(joined(w4, left, l.step), b, l);
    crate::codegen::laws::lemma_counted(w, var, b, body);
    reveal(step);
}

/// What a declaration of collected values comes to.
pub open spec fn declared_on(
    d: nat,
    world: World,
    v: VarDecl,
    var: Seq<char>,
    from: i128,
    to: i128,
    by: i128,
) -> bool {
    let l = loop_of(v);
    let out = does_counted(d, world, l.body, var, l.span, from as int, to as int, by as int, Seq::empty());
    &&& by != 0
    &&& out.1 is Ok
    &&& does_stmt(d, world, Stmt::Var(v)) == normally(defined(out.0, v.bindings@[0].name@, assembled(out.1->Ok_0)))
}

#[verifier::spinoff_prover]
proof fn does_declaration(
    d: nat,
    world: World,
    v: VarDecl,
    var: String,
    range: Expr,
    from: Expr,
    to: Expr,
    by: Option<Box<Expr>>,
)
    requires
        does_stmt(d, world, Stmt::Var(v)).1 is Ok,
        v.bindings@.len() == 1,
        v.ty.rank is Some,
        v.bindings@[0].value is Some,
        v.bindings@[0].value->0.kind is Loop,
        loop_of(v).kind matches LoopKind::Counted { var: x, range: y, .. } && x == var && y == range,
        ({
            let inside = match range.kind {
                ExprKind::Math(inner) => *inner,
                _ => range,
            };
            inside.kind == (ExprKind::Range { from: Box::new(from), to: Box::new(to), by })
        }),
    ensures
        ({
            let a = meaning(d, world, from, whole());
            &&& a.1 is Ok
            &&& a == (world, Ok::<Val, StopView>(Val::Int(a.1->Ok_0->Int_0))) ==> {
                let e = meaning(d, world, to, whole());
                &&& e.1 is Ok
                &&& e == (world, Ok::<Val, StopView>(Val::Int(e.1->Ok_0->Int_0))) ==> match by {
                    None => declared_on(d, world, v, var@, a.1->Ok_0->Int_0, e.1->Ok_0->Int_0, 1),
                    Some(x) => {
                        let f = meaning(d, world, *x, whole());
                        &&& f.1 is Ok
                        &&& f == (world, Ok::<Val, StopView>(Val::Int(f.1->Ok_0->Int_0))) ==> declared_on(
                            d,
                            world,
                            v,
                            var@,
                            a.1->Ok_0->Int_0,
                            e.1->Ok_0->Int_0,
                            f.1->Ok_0->Int_0,
                        )
                    },
                }
            }
        }),
{
    reveal(does_stmt);
    reveal(does_counted);
    reveal(meaning);
    let l = loop_of(v);
    let b = v.bindings@[0];
    let e = b.value->0;
    let hint = binding_context(v.ty, b.precision);
    let r = semantics::loop_result(d, world, l);
    assert(expr_result(d, world, e, hint) == match r {
        (w1, Ok(vs)) => (w1, semantics::loop_array(vs, l.span)),
        (w1, Err(x)) => (w1, Err(x)),
    });
    assert(statement_result(d, world, Stmt::Var(v)) == bindings_from(d, world, v, 0));
    assert(r.1 is Ok);
    let world1 = defined(r.0, b.name@, assembled(r.1->Ok_0));
    assert(bindings_from(d, world1, v, 1) == normally(world1));
    assert(bindings_from(d, world, v, 0) == bindings_from(d, world1, v, 1));
    let k = semantics::bounds_result(d, world, range);
    assert(k.1 is Ok);
}

/// Whole numbers collected are an array of just them.
proof fn lemma_assembled(vs: Seq<Val>)
    requires
        all_whole(vs),
    ensures
        assembled(vs) is Array,
        assembled(vs)->Array_items == vs,
{
    lemma_flattened(vs, vs.len());
    assert(vs.take(vs.len() as int) =~= vs);
}

proof fn lemma_flattened(vs: Seq<Val>, n: nat)
    requires
        all_whole(vs),
        n <= vs.len(),
    ensures
        flattened(vs, n) == vs.take(n as int),
    decreases n,
{
    if n > 0 {
        lemma_flattened(vs, (n - 1) as nat);
        assert(vs[n - 1] is Int);
    }
    assert(flattened(vs, n) =~= vs.take(n as int));
}

/// What holds between two statements of a program.
pub open spec fn level(
    w: WorkView,
    s: Seq<Scope>,
    world: World,
    m: Machine,
    fixed: Set<Seq<char>>,
    guard: Set<int>,
) -> bool {
    &&& knows(w, s)
    &&& joint(w, world, m)
    &&& stands(w, m)
    &&& w.open
    &&& guarded(w, fixed, guard)
    &&& arrays_guarded(w, guard)
    &&& owned(m, guard)
}

/// The array that a declaration declares is guarded from there on.
#[verifier::spinoff_prover]
proof fn lemma_array_guarded(
    wl: WorkView,
    w8: WorkView,
    s: Seq<Scope>,
    world: World,
    m: Machine,
    name: Seq<char>,
    at: usize,
    fixed: Set<Seq<char>>,
    guard: Set<int>,
)
    requires
        knows(wl, s),
        mirrors(wl, world, m),
        wl.code.len() <= at < w8.code.len(),
        w8.frames == declared(wl, name, at, Native::Array(0, 1)).frames,
        guarded(wl, fixed, guard),
        arrays_guarded(wl, guard),
    ensures
        guarded(w8, fixed.insert(name), guard.insert(at as int)),
        arrays_guarded(w8, guard.insert(at as int)),
{
    reveal(declared);
    let l = LocalView { name, slot: at, native: Native::Array(0, 1) };
    let k = wl.frames.len() - 1;
    let f = wl.frames[k];
    let g = with_local(f, l);
    lemma_local(f, name);
    assert forall|i: int, j: int|
        #![trigger w8.frames[i][j]]
        0 <= i < w8.frames.len() && 0 <= j < w8.frames[i].len() implies {
        ||| w8.frames[i][j] == l
        ||| i < wl.frames.len() && j < wl.frames[i].len() && w8.frames[i][j] == wl.frames[i][j] && wl.frames[i][j].slot
            < wl.code.len()
    } by {
        if i == k {
            assert(w8.frames[i] == g);
        }
        if w8.frames[i][j] != l {
            assert(mirrored(wl, world.frames[i], m, wl.frames[i][j]));
        }
    }
}

#[verifier::spinoff_prover]
#[verifier::rlimit(60)]
proof fn sim_counted_declaration(
    c: CompiledView,
    w: WorkView,
    s: Seq<Scope>,
    v: VarDecl,
    fixed: Set<Seq<char>>,
    guard: Set<int>,
    d: nat,
    world: World,
    m: Machine,
) -> (n: (nat, int))
    requires
        collects(s, v, fixed),
        loop_of(v).kind is Counted,
        level(w, s, world, m, fixed, guard),
        sound(c),
        sees(c, temps_released(stmt_made(w, Stmt::Var(v)).0, w.temps.len())),
        does_stmt(d, world, Stmt::Var(v)).1 is Ok,
    ensures
        ({
            let name = v.bindings@[0].name@;
            let w8 = temps_released(stmt_made(w, Stmt::Var(v)).0, w.temps.len());
            let r = does_stmt(d, world, Stmt::Var(v));
            &&& !stmt_made(w, Stmt::Var(v)).1
            &&& r == normally(r.0)
            &&& level(
                w8,
                with_name(s, name, Native::Array(0, 1)),
                r.0,
                steps(c, m, n.0),
                fixed.insert(name),
                guard.insert(n.1),
            )
        }),
{
    let b = v.bindings@[0];
    let name = b.name@;
    let native = Native::Array(0, 1);
    let digits = places_wanted(b.precision, v.ty.precision);
    let l = loop_of(v);
    let var = l.kind->Counted_var;
    let range = l.kind->Counted_range;
    let inside = match range.kind {
        ExprKind::Math(inner) => *inner,
        _ => range,
    };
    let from = *inside.kind->Range_from;
    let to = *inside.kind->Range_to;
    let by = inside.kind->Range_by;
    let (w2, array) = array_opened(w, digits);
    array_opened_parts(w, digits);
    lemma_knows_frames(w, w2, s);
    loop_parts(w2, l);
    calm_bounds(w2, s, range, from, to, by);
    let (wa, x0) = expr_made(w2, from, Native::Int);
    let (we, y0) = expr_made(wa, to, Native::Int);
    let (wb, z0) = step_made(we, by);
    let bds = Bounds { start: x0, end: y0, step: z0 };
    lemma_knows_frames(w2, wa, s);
    lemma_knows_frames(w2, we, s);
    lemma_knows_frames(w2, wb, s);
    let fixed1 = fixed.insert(var@);
    gather_calm_counted(wb, s, var@, bds, l.body, fixed1, array);
    let wf = counted_made(wb, var@, bds, l.body);
    let wl = without_handback(wf);
    assert(wl.code == wf.code && wl.texts == wf.texts && wl.frames == w.frames);
    collects_parts(w, s, v, fixed);
    // The code of the declaration, from its end to its start.
    let w8 = array_declared(wl, array, name, w.temps.len());
    let at0 = wl.code.len() as usize;
    let w4 = put(wl, Inst::Slot(Kind::Ptr));
    let w5 = called(w4, Rt::ArrayRetain, seq![array]).0;
    let store = Inst::Store { into: at0, value: array.at };
    let w6 = put(w5, store);
    let w7 = with_digits(declared(w6, name, at0, native), DEFAULT_DIGITS);
    let dropped = WorkView { temps: w7.temps.take(w.temps.len() as int), ..w7 };
    assert(w7.code == w6.code && w7.texts == w6.texts && w7.open == w6.open) by {
        reveal(declared);
    }
    assert(kinds(seq![array]) =~= takes(Rt::ArrayRelease));
    assert(kinds(seq![array]) =~= takes(Rt::ArrayRetain));
    lemma_called_quiet(dropped, Rt::ArrayRelease, seq![array]);
    lemma_sees_before(c, dropped, w8);
    assert(sees(c, w6));
    lemma_sees_put(c, w5, store);
    lemma_called_quiet(w4, Rt::ArrayRetain, seq![array]);
    lemma_sees_before(c, w4, w5);
    lemma_sees_put(c, wl, Inst::Slot(Kind::Ptr));
    assert(sees(c, wf));
    crate::codegen::laws::lemma_counted(wb, var@, bds, l.body);
    lemma_sees_step(c, wb, wf);
    lemma_sees_before(c, we, wb);
    lemma_sees_before(c, wa, we);
    lemma_sees_before(c, w2, wa);
    // The new array.
    let h = m.heap.len();
    let n1 = run_array_opened(c, w, m, digits);
    let m1 = steps(c, m, n1);
    assert(clear(m, guard, h));
    assert(elsewhere_same(m.heap, m1.heap, h));
    lemma_elsewhere(w, world, m, m1, guard, h);
    lemma_still_mirrors(w, w2, world, m1, m1);
    lemma_guarded_frames(w, w2, fixed, guard);
    // Its bounds.
    does_declaration(d, world, v, var, range, from, to, by);
    let n2 = sim_expr(c, w2, from, Native::Int, d, world, whole(), m1);
    let m2 = steps(c, m1, n2);
    lemma_steps_add(c, m, n1, n2);
    lemma_still_mirrors(w2, wa, world, m1, m2);
    let n3 = sim_expr(c, wa, to, Native::Int, d, world, whole(), m2);
    let m3 = steps(c, m2, n3);
    lemma_steps_add(c, m, n1 + n2, n3);
    lemma_ran_then(w2, wa, we, m1, m2, m3);
    lemma_still_mirrors(w2, we, world, m1, m3);
    let n4 = sim_step(c, we, s, by, d, world, m3);
    let m4 = steps(c, m3, n4);
    lemma_steps_add(c, m, n1 + n2 + n3, n4);
    lemma_ran_then(w2, we, wb, m1, m3, m4);
    lemma_still_mirrors(w2, wb, world, m1, m4);
    let x = meaning(d, world, from, whole()).1->Ok_0->Int_0;
    let y = meaning(d, world, to, whole()).1->Ok_0->Int_0;
    let z = match by {
        Some(g) => meaning(d, world, *g, whole()).1->Ok_0->Int_0,
        None => 1,
    };
    assert(reg(top(m3), x0.at) == Datum::Word(x));
    assert(reg(top(m4), x0.at) == Datum::Word(x));
    assert(reg(top(m4), y0.at) == Datum::Word(y));
    assert(reg(top(m4), z0.at) == Datum::Word(z));
    assert(declared_on(d, world, v, var@, x, y, z));
    lemma_ran_went(w2, wb, m1, m4, w2.code.len() as int, fixed, guard);
    lemma_guarded_frames(w2, wb, fixed, guard);
    // The loop.
    let q = gather_counted_code(c, wb, s, var@, bds, l.body, fixed1, array);
    let p = wb.code.len() as int;
    let r = wf.code.len() as int - 11;
    let n5 = run_entry(c, m4, p, q, r, bds, x, z);
    let m5 = steps(c, m4, n5);
    lemma_steps_add(c, m, n1 + n2 + n3 + n4, n5);
    lemma_turned(wb, wb, world, m4, m5, p, q + 7, q + 1, fixed, guard);
    assert(reg(top(m4), array.at) == reg(top(m1), array.at));
    assert(reg(top(m5), array.at) == reg(top(m4), array.at));
    assert(cells(Seq::<Val>::empty()) =~= Seq::<CellView>::empty());
    assert(clear(m5, guard, h)) by {
        assert forall|k: int| guard.contains(k) implies #[trigger] slot(top(m5).slots, k, 0) != Datum::Object(h) by {
            assert(slot(top(m4).slots, k, 0) == slot(top(m1).slots, k, 0));
            assert(slot(top(m1).slots, k, 0) == slot(top(m).slots, k, 0));
        }
    }
    let n6 = gather_sim_counted(
        c,
        wb,
        s,
        var@,
        bds,
        l.body,
        l.span,
        q,
        fixed,
        guard,
        d,
        world,
        m5,
        x,
        y,
        z,
        Seq::empty(),
        array,
        h,
        1,
        0,
    );
    let m6 = steps(c, m5, n6);
    lemma_steps_add(c, m, n1 + n2 + n3 + n4 + n5, n6);
    let out = does_counted(d, world, l.body, var@, l.span, x as int, y as int, z as int, Seq::empty());
    let vs = out.1->Ok_0;
    lemma_assembled(vs);
    assert(reg(top(m6), array.at) == Datum::Object(h));
    let done = n1 + n2 + n3 + n4 + n5 + n6;
    let k = run_declared(c, wl, m6, array, name, w.temps.len(), h, vs, fixed, guard, s, out.0);
    lemma_steps_add(c, m, done, k);
    let m9 = steps(c, m6, k);
    let s1 = with_name(s, name, native);
    let world1 = defined(out.0, name, assembled(vs));
    // The arrays of before are where they were.
    assert(owned(m9, guard.insert(at0 as int))) by {
        assert forall|g: int| guard.contains(g) implies (slot(top(m9).slots, g, 0) == slot(top(m).slots, g, 0)) by {
            assert(slot(top(m6).slots, g, 0) == slot(top(m5).slots, g, 0));
            assert(slot(top(m5).slots, g, 0) == slot(top(m4).slots, g, 0));
            assert(slot(top(m4).slots, g, 0) == slot(top(m1).slots, g, 0));
            assert(slot(top(m1).slots, g, 0) == slot(top(m).slots, g, 0));
        }
        assert forall|g: int| guard.insert(at0 as int).contains(g) implies (#[trigger] slot(top(m9).slots, g, 0) matches Datum::Object(o)
            && o < m9.heap.len() && m9.heap[o as int] is Some) by {
            if g != at0 {
                assert(slot(top(m9).slots, g, 0) == slot(top(m).slots, g, 0));
            }
        }
    }
    assert(level(w8, s1, world1, m9, fixed.insert(name), guard.insert(at0 as int)));
    assert(steps(c, m, done) == m6);
    assert(steps(c, m, done + k) == m9);
    assert(does_stmt(d, world, Stmt::Var(v)) == normally(world1));
    assert(temps_released(stmt_made(w, Stmt::Var(v)).0, w.temps.len()) == w8);
    assert(!stmt_made(w, Stmt::Var(v)).1);
    (done + k, at0 as int)
}

#[verifier::spinoff_prover]
#[verifier::rlimit(60)]
proof fn sim_while_declaration(
    c: CompiledView,
    w: WorkView,
    s: Seq<Scope>,
    v: VarDecl,
    fixed: Set<Seq<char>>,
    guard: Set<int>,
    d: nat,
    world: World,
    m: Machine,
) -> (n: (nat, int))
    requires
        collects(s, v, fixed),
        loop_of(v).kind is While,
        level(w, s, world, m, fixed, guard),
        sound(c),
        sees(c, temps_released(stmt_made(w, Stmt::Var(v)).0, w.temps.len())),
        does_stmt(d, world, Stmt::Var(v)).1 is Ok,
    ensures
        ({
            let name = v.bindings@[0].name@;
            let w8 = temps_released(stmt_made(w, Stmt::Var(v)).0, w.temps.len());
            let r = does_stmt(d, world, Stmt::Var(v));
            &&& !stmt_made(w, Stmt::Var(v)).1
            &&& r == normally(r.0)
            &&& level(
                w8,
                with_name(s, name, Native::Array(0, 1)),
                r.0,
                steps(c, m, n.0),
                fixed.insert(name),
                guard.insert(n.1),
            )
        }),
{
    let b = v.bindings@[0];
    let name = b.name@;
    let native = Native::Array(0, 1);
    let digits = places_wanted(b.precision, v.ty.precision);
    let l = loop_of(v);
    let (w2, array) = array_opened(w, digits);
    array_opened_parts(w, digits);
    lemma_knows_frames(w, w2, s);
    loop_parts(w2, l);
    let condition = l.kind->While_condition;
    gather_calm_while(w2, s, condition, l.body, fixed, array);
    let wf = loop_made(w2, l);
    let wl = without_handback(wf);
    assert(wl.code == wf.code && wl.texts == wf.texts && wl.frames == w.frames);
    collects_parts(w, s, v, fixed);
    // The code of the declaration, from its end to its start.
    let w8 = array_declared(wl, array, name, w.temps.len());
    let at0 = wl.code.len() as usize;
    let w4 = put(wl, Inst::Slot(Kind::Ptr));
    let w5 = called(w4, Rt::ArrayRetain, seq![array]).0;
    let store = Inst::Store { into: at0, value: array.at };
    let w6 = put(w5, store);
    let w7 = with_digits(declared(w6, name, at0, native), DEFAULT_DIGITS);
    let dropped = WorkView { temps: w7.temps.take(w.temps.len() as int), ..w7 };
    assert(w7.code == w6.code && w7.texts == w6.texts && w7.open == w6.open) by {
        reveal(declared);
    }
    assert(kinds(seq![array]) =~= takes(Rt::ArrayRelease));
    assert(kinds(seq![array]) =~= takes(Rt::ArrayRetain));
    lemma_called_quiet(dropped, Rt::ArrayRelease, seq![array]);
    lemma_sees_before(c, dropped, w8);
    assert(sees(c, w6));
    lemma_sees_put(c, w5, store);
    lemma_called_quiet(w4, Rt::ArrayRetain, seq![array]);
    lemma_sees_before(c, w4, w5);
    lemma_sees_put(c, wl, Inst::Slot(Kind::Ptr));
    assert(sees(c, wf));
    crate::codegen::laws::lemma_loop(w2, l);
    assert(array.at < wl.code.len()) by {
        reveal(step);
    }
    lemma_sees_step(c, w2, wf);
    // The new array.
    let h = m.heap.len();
    let n1 = run_array_opened(c, w, m, digits);
    let m1 = steps(c, m, n1);
    assert(clear(m, guard, h));
    assert(elsewhere_same(m.heap, m1.heap, h));
    lemma_elsewhere(w, world, m, m1, guard, h);
    lemma_still_mirrors(w, w2, world, m1, m1);
    lemma_guarded_frames(w, w2, fixed, guard);
    // The loop.
    does_while_declaration(d, world, v);
    assert(cells(Seq::<Val>::empty()) =~= Seq::<CellView>::empty());
    assert(clear(m1, guard, h)) by {
        assert forall|k: int| guard.contains(k) implies #[trigger] slot(top(m1).slots, k, 0) != Datum::Object(h) by {
            assert(slot(top(m1).slots, k, 0) == slot(top(m).slots, k, 0));
        }
    }
    let n6 = gather_sim_looping(c, w2, s, l, fixed, guard, d, world, m1, array, h);
    let m6 = steps(c, m1, n6);
    lemma_steps_add(c, m, n1, n6);
    let out = does_while(d, world, l, Seq::empty());
    let vs = out.1->Ok_0;
    lemma_assembled(vs);
    assert(reg(top(m6), array.at) == Datum::Object(h));
    let done = n1 + n6;
    let k = run_declared(c, wl, m6, array, name, w.temps.len(), h, vs, fixed, guard, s, out.0);
    lemma_steps_add(c, m, done, k);
    let m9 = steps(c, m6, k);
    let s1 = with_name(s, name, native);
    let world1 = defined(out.0, name, assembled(vs));
    // The arrays of before are where they were.
    assert(owned(m9, guard.insert(at0 as int))) by {
        assert forall|g: int| guard.contains(g) implies (slot(top(m9).slots, g, 0) == slot(top(m).slots, g, 0)) by {
            assert(slot(top(m6).slots, g, 0) == slot(top(m1).slots, g, 0));
            assert(slot(top(m1).slots, g, 0) == slot(top(m).slots, g, 0));
        }
        assert forall|g: int| guard.insert(at0 as int).contains(g) implies (#[trigger] slot(top(m9).slots, g, 0) matches Datum::Object(o)
            && o < m9.heap.len() && m9.heap[o as int] is Some) by {
            if g != at0 {
                assert(slot(top(m9).slots, g, 0) == slot(top(m).slots, g, 0));
            }
        }
    }
    assert(level(w8, s1, world1, m9, fixed.insert(name), guard.insert(at0 as int)));
    assert(steps(c, m, done) == m6);
    assert(steps(c, m, done + k) == m9);
    assert(does_stmt(d, world, Stmt::Var(v)) == normally(world1));
    assert(temps_released(stmt_made(w, Stmt::Var(v)).0, w.temps.len()) == w8);
    assert(!stmt_made(w, Stmt::Var(v)).1);
    (done + k, at0 as int)
}

#[verifier::spinoff_prover]
proof fn sim_declaration(
    c: CompiledView,
    w: WorkView,
    s: Seq<Scope>,
    v: VarDecl,
    fixed: Set<Seq<char>>,
    guard: Set<int>,
    d: nat,
    world: World,
    m: Machine,
) -> (n: (nat, int))
    requires
        collects(s, v, fixed),
        level(w, s, world, m, fixed, guard),
        sound(c),
        sees(c, temps_released(stmt_made(w, Stmt::Var(v)).0, w.temps.len())),
        does_stmt(d, world, Stmt::Var(v)).1 is Ok,
    ensures
        ({
            let name = v.bindings@[0].name@;
            let w8 = temps_released(stmt_made(w, Stmt::Var(v)).0, w.temps.len());
            let r = does_stmt(d, world, Stmt::Var(v));
            &&& !stmt_made(w, Stmt::Var(v)).1
            &&& r == normally(r.0)
            &&& level(
                w8,
                with_name(s, name, Native::Array(0, 1)),
                r.0,
                steps(c, m, n.0),
                fixed.insert(name),
                guard.insert(n.1),
            )
        }),
{
    if loop_of(v).kind is While {
        sim_while_declaration(c, w, s, v, fixed, guard, d, world, m)
    } else {
        sim_counted_declaration(c, w, s, v, fixed, guard, d, world, m)
    }
}

#[verifier::spinoff_prover]
proof fn array_opened_parts(w: WorkView, digits: u32)
    ensures
        ({
            let (w2, array) = array_opened(w, digits);
            &&& array.kind == Kind::Ptr
            &&& array.at < w2.code.len()
            &&& w2.code.len() == w.code.len() + 3
            &&& w2.frames == w.frames
            &&& w2.open == w.open
            &&& w2.temps == w.temps.push(Temp { value: array, native: Native::Array(0, 1) })
            &&& w2.handbacks.len() > 0
            &&& w2.handbacks.last() == (Handback::Push { array, elem: Native::Int })
        }),
{
    reveal(called);
    reveal(crate::codegen::work::expecting_all);
    reveal_with_fuel(crate::codegen::work::with_args, 3);
}

/// The slot of what was collected, and its one reference.
#[verifier::spinoff_prover]
#[verifier::rlimit(40)]
proof fn run_declared(
    c: CompiledView,
    wl: WorkView,
    m: Machine,
    array: Operand,
    name: Seq<char>,
    mark: nat,
    h: nat,
    vs: Seq<Val>,
    fixed: Set<Seq<char>>,
    guard: Set<int>,
    s: Seq<Scope>,
    world: World,
) -> (n: nat)
    requires
        sound(c),
        sees(c, array_declared(wl, array, name, mark)),
        knows(wl, s),
        joint(wl, world, m),
        stands(wl, m),
        wl.open,
        guarded(wl, fixed, guard),
        arrays_guarded(wl, guard),
        clear(m, guard, h),
        array.kind == Kind::Ptr,
        array.at < wl.code.len(),
        reg(top(m), array.at) == Datum::Object(h),
        h < m.heap.len(),
        m.heap[h as int] == Some(Held { count: 1, value: Boxed::Array(vector_of(cells(vs), 0)) }),
        all_whole(vs),
        assembled(vs) is Array,
        assembled(vs)->Array_items == vs,
    ensures
        ({
            let w8 = array_declared(wl, array, name, mark);
            let m1 = steps(c, m, n);
            let at0 = wl.code.len() as int;
            &&& knows(w8, with_name(s, name, Native::Array(0, 1)))
            &&& joint(w8, defined(world, name, assembled(vs)), m1)
            &&& stands(w8, m1)
            &&& w8.open
            &&& guarded(w8, fixed.insert(name), guard.insert(at0))
            &&& arrays_guarded(w8, guard.insert(at0))
            &&& m1.heap == m.heap
            &&& slot(top(m1).slots, at0, 0) == Datum::Object(h)
            &&& forall|k: int| guard.contains(k) ==> #[trigger] slot(top(m1).slots, k, 0) == slot(top(m).slots, k, 0)
        }),
{
    let native = Native::Array(0, 1);
    let w8 = array_declared(wl, array, name, mark);
    let at0 = wl.code.len() as usize;
    let w4 = put(wl, Inst::Slot(Kind::Ptr));
    let w5 = called(w4, Rt::ArrayRetain, seq![array]).0;
    let store = Inst::Store { into: at0, value: array.at };
    let w6 = put(w5, store);
    let w7 = with_digits(declared(w6, name, at0, native), DEFAULT_DIGITS);
    let dropped = WorkView { temps: w7.temps.take(mark as int), ..w7 };
    assert(w7.code == w6.code && w7.texts == w6.texts && w7.open == w6.open) by {
        reveal(declared);
    }
    assert(kinds(seq![array]) =~= takes(Rt::ArrayRelease));
    assert(kinds(seq![array]) =~= takes(Rt::ArrayRetain));
    lemma_called_quiet(dropped, Rt::ArrayRelease, seq![array]);
    lemma_sees_before(c, dropped, w8);
    assert(sees(c, w6));
    lemma_sees_put(c, w5, store);
    lemma_called_quiet(w4, Rt::ArrayRetain, seq![array]);
    lemma_sees_before(c, w4, w5);
    run_value(c, wl, m, Inst::Slot(Kind::Ptr), Datum::Slot(wl.code.len() as int));
    let m1 = steps(c, m, 1);
    assert(reg(top(m1), array.at) == reg(top(m), array.at));
    let view = Boxed::Array(vector_of(cells(vs), 0));
    let k1 = run_counted_by(c, w4, m1, Rt::ArrayRetain, array, h, Held { count: 1, value: view });
    let m2 = steps(c, m1, k1);
    lemma_steps_add(c, m, 1, k1);
    assert(reg(top(m2), array.at) == reg(top(m1), array.at));
    let a = Activation {
        pc: top(m2).pc + 1,
        slots: top(m2).slots.insert((at0 as int, 0), reg(top(m2), array.at)),
        ..top(m2)
    };
    run_effect(c, w5, m2, store, a);
    lemma_steps_add(c, m, 1 + k1, 1);
    let m3 = with(m2, a);
    assert(stands(dropped, m3));
    assert(reg(top(m3), array.at) == Datum::Object(h));
    let k2 = run_counted_by(c, dropped, m3, Rt::ArrayRelease, array, h, Held { count: 2, value: view });
    let m4 = steps(c, m3, k2);
    lemma_steps_add(c, m, 2 + k1, k2);
    assert(m4.heap =~= m.heap);
    // The slots are those of before, and the new one.
    assert forall|i: int, k: int| i != at0 implies #[trigger] slot(top(m4).slots, i, k) == slot(top(m).slots, i, k) by {
        assert(slot(top(m1).slots, i, k) == slot(top(m).slots, i, k));
    }
    assert(slot(top(m4).slots, at0 as int, 0) == Datum::Object(h));
    assert(array_held(m4.heap, h, assembled(vs)));
    assert(w8.frames == declared(wl, name, at0, native).frames) by {
        reveal(declared);
    }
    lemma_declares(wl, w8, world, m, m4, name, at0, native, assembled(vs), fixed, guard);
    lemma_array_guarded(wl, w8, s, world, m, name, at0, fixed, guard);
    lemma_declared_knows(wl, s, name, at0, native);
    lemma_knows_frames(declared(wl, name, at0, native), w8, with_name(s, name, native));
    2 + k1 + k2
}

// ── loops with a condition that collect ─────────────────────────────────────

#[verifier::spinoff_prover]
proof fn does_while_collects(d: nat, world: World, l: LoopStmt, acc: Seq<Val>)
    requires
        l.kind is While,
        does_while(d, world, l, acc).1 is Ok,
    ensures
        world.steps < u64::MAX,
        ({
            let r = meaning(d, once_more(world), l.kind->While_condition, None);
            &&& r.1 is Ok
            &&& r.1->Ok_0 == Val::Bool(false) ==> does_while(d, world, l, acc) == (r.0, Ok::<Seq<Val>, StopView>(acc))
            &&& r.1->Ok_0 == Val::Bool(true) ==> {
                let t = does_scoped(d, r.0, l.body);
                &&& t.1 is Ok
                &&& t.0.steps > world.steps ==> does_while(d, world, l, acc) == does_while(
                    d,
                    t.0,
                    l,
                    semantics::collected(acc, t.1->Ok_0),
                )
            }
        }),
{
    reveal(does_while);
    reveal(does_scoped);
    reveal(meaning);
}

#[verifier::spinoff_prover]
proof fn does_while_declaration(d: nat, world: World, v: VarDecl)
    requires
        does_stmt(d, world, Stmt::Var(v)).1 is Ok,
        v.bindings@.len() == 1,
        v.ty.rank is Some,
        v.bindings@[0].value is Some,
        v.bindings@[0].value->0.kind is Loop,
        loop_of(v).kind is While,
    ensures
        ({
            let out = does_while(d, world, loop_of(v), Seq::empty());
            &&& out.1 is Ok
            &&& does_stmt(d, world, Stmt::Var(v)) == normally(
                defined(out.0, v.bindings@[0].name@, assembled(out.1->Ok_0)),
            )
        }),
{
    reveal(does_stmt);
    reveal(does_while);
    let l = loop_of(v);
    let b = v.bindings@[0];
    let e = b.value->0;
    let hint = binding_context(v.ty, b.precision);
    let r = semantics::loop_result(d, world, l);
    assert(r == semantics::while_from(d, world, l, Seq::empty()));
    assert(expr_result(d, world, e, hint) == match r {
        (w1, Ok(vs)) => (w1, semantics::loop_array(vs, l.span)),
        (w1, Err(x)) => (w1, Err(x)),
    });
    assert(statement_result(d, world, Stmt::Var(v)) == bindings_from(d, world, v, 0));
    assert(r.1 is Ok);
    let world1 = defined(r.0, b.name@, assembled(r.1->Ok_0));
    assert(bindings_from(d, world1, v, 1) == normally(world1));
    assert(bindings_from(d, world, v, 0) == bindings_from(d, world1, v, 1));
}

#[verifier::spinoff_prover]
proof fn gather_calm_while(w: WorkView, s: Seq<Scope>, condition: Expr, body: Vec<Stmt>, fixed: Set<Seq<char>>, array: Operand)
    requires
        whole_expr(s, condition, Native::Bool),
        gather_block(s.push(Map::empty()), body, 0, fixed),
        knows(w, s),
        pushing(w, array),
    ensures
        ({
            let w4 = while_asked(w);
            let (w5, test) = expr_made(w4, condition, Native::Bool);
            let at = (w.code.len() + 1) as usize;
            let i = Inst::Fork { test: test.at, yes: at, no: (w.code.len() + 2) as usize };
            let w7 = while_inside(w, condition);
            let (w8, left) = scoped_made(w7, body);
            let wj = joined(without_continue(w8), left, w.code.len() as usize);
            let wf = put(wj, Inst::At((w.code.len() + 2) as usize));
            &&& knows(w4, s)
            &&& w4.open
            &&& w4.frames == w.frames
            &&& crate::codegen::simulation::typed(w4, condition, Native::Bool)
            &&& quiet(w4, w5)
            &&& test.kind == Kind::Bit
            &&& w7 == with_continue(put(put(w5, i), Inst::At(at)), w.code.len() as usize)
            &&& knows(w7, s)
            &&& w7.open
            &&& w7.frames == w.frames
            &&& collecting(w7, array)
            &&& kept_going(w7, (w8, left), s)
            &&& w8.frames == w.frames
            &&& wf.frames == w.frames
            &&& wf.temps == w.temps
            &&& wf.open
            &&& wf.handbacks == w.handbacks
            &&& knows(wf, s)
        }),
{
    let w4 = while_asked(w);
    lemma_knows_frames(w, w4, s);
    crate::codegen::whole::lemma_typed(w4, s, condition, Native::Bool);
    crate::codegen::whole::lemma_expr_quiet(w4, condition, Native::Bool);
    let w5 = expr_made(w4, condition, Native::Bool).0;
    lemma_no_temps(w5, w4.temps.len());
    reveal(crate::codegen::work::forked);
    let w7 = while_inside(w, condition);
    lemma_knows_frames(w, w7, s);
    gather_calm_scoped(w7, s, body, fixed, array);
    let (w8, left) = scoped_made(w7, body);
    lemma_scoped(w7, body);
    reveal(step);
    let wf = put(
        joined(without_continue(w8), left, w.code.len() as usize),
        Inst::At((w.code.len() + 2) as usize),
    );
    lemma_knows_frames(w, wf, s);
}

#[verifier::spinoff_prover]
proof fn gather_while_code(c: CompiledView, w: WorkView, s: Seq<Scope>, condition: Expr, body: Vec<Stmt>, fixed: Set<Seq<char>>, array: Operand)
    requires
        whole_expr(s, condition, Native::Bool),
        gather_block(s.push(Map::empty()), body, 0, fixed),
        knows(w, s),
        pushing(w, array),
        ({
            let (w8, left) = scoped_made(while_inside(w, condition), body);
            let wj = joined(without_continue(w8), left, w.code.len() as usize);
            sees(c, put(wj, Inst::At((w.code.len() + 2) as usize)))
        }),
    ensures
        ({
            let p = w.code.len() as int;
            let w4 = while_asked(w);
            let (w5, test) = expr_made(w4, condition, Native::Bool);
            let w7 = while_inside(w, condition);
            let (w8, left) = scoped_made(w7, body);
            let wj = joined(without_continue(w8), left, w.code.len() as usize);
            let q = w5.code.len() as int;
            let x = wj.code.len() as int;
            let code = c.main.code;
            &&& sees(c, w4) && sees(c, w5) && sees(c, w7) && sees(c, w8)
            &&& w4.code.len() == p + 5
            &&& p + 5 <= q
            &&& w7.code.len() == q + 2
            &&& q + 2 <= w8.code.len() <= x
            &&& x < code.len()
            &&& code[p] == Inst::Block
            &&& code[p + 1] == Inst::Block
            &&& code[p + 2] == Inst::Block
            &&& code[p + 3] == Inst::Jump(p as usize)
            &&& code[p + 4] == Inst::At(p as usize)
            &&& code[q] == (Inst::Fork { test: test.at, yes: (p + 1) as usize, no: (p + 2) as usize })
            &&& code[q + 1] == Inst::At((p + 1) as usize)
            &&& !left ==> w8.code.len() < code.len() && code[w8.code.len() as int] == Inst::Jump(p as usize)
            &&& code[x] == Inst::At((p + 2) as usize)
        }),
{
    gather_calm_while(w, s, condition, body, fixed, array);
    let p = w.code.len() as int;
    let w4 = while_asked(w);
    let (w5, test) = expr_made(w4, condition, Native::Bool);
    let fork = Inst::Fork { test: test.at, yes: (p + 1) as usize, no: (p + 2) as usize };
    let w6 = put(w5, fork);
    let w7 = while_inside(w, condition);
    let (w8, left) = scoped_made(w7, body);
    let w9 = without_continue(w8);
    let wj = joined(w9, left, p as usize);
    let wf = put(wj, Inst::At((p + 2) as usize));
    let q = w5.code.len() as int;
    let x = wj.code.len() as int;
    lemma_sees_put(c, wj, Inst::At((p + 2) as usize));
    if !left {
        lemma_sees_put(c, w9, Inst::Jump(p as usize));
        assert(wj.code[w8.code.len() as int] == Inst::Jump(p as usize));
        lemma_code(c, wj, w8.code.len() as int);
    }
    assert(sees(c, w8));
    lemma_scoped(w7, body);
    lemma_sees_step(c, w7, w8);
    reveal(step);
    assert(sees(c, put(w6, Inst::At((p + 1) as usize))));
    lemma_sees_put(c, w6, Inst::At((p + 1) as usize));
    lemma_sees_put(c, w5, fork);
    lemma_sees_before(c, w4, w5);
    assert(w4.code[p] == Inst::Block && w4.code[p + 1] == Inst::Block && w4.code[p + 2] == Inst::Block);
    assert(w4.code[p + 3] == Inst::Jump(p as usize) && w4.code[p + 4] == Inst::At(p as usize));
    lemma_code(c, w4, p);
    lemma_code(c, w4, p + 1);
    lemma_code(c, w4, p + 2);
    lemma_code(c, w4, p + 3);
    lemma_code(c, w4, p + 4);
    assert(w7.code[q] == fork && w7.code[q + 1] == Inst::At((p + 1) as usize));
    lemma_code(c, w7, q);
    lemma_code(c, w7, q + 1);
    assert(wf.code[x] == Inst::At((p + 2) as usize));
    lemma_code(c, wf, x);
}

/// A loop with a condition that collects, from where the condition is asked.
#[verifier::spinoff_prover]
#[verifier::rlimit(60)]
proof fn gather_sim_while(
    c: CompiledView,
    w: WorkView,
    s: Seq<Scope>,
    l: LoopStmt,
    fixed: Set<Seq<char>>,
    guard: Set<int>,
    d: nat,
    world: World,
    m: Machine,
    acc: Seq<Val>,
    array: Operand,
    h: nat,
    count: int,
    kind: u32,
) -> (n: nat)
    requires
        l.kind is While,
        gather_loop(s, l, fixed),
        knows(w, s),
        pushing(w, array),
        sound(c),
        sees(c, loop_made(w, l)),
        joint(w, world, m),
        top(m).pc == w.code.len() + 4,
        guarded(w, fixed, guard),
        arrays_guarded(w, guard),
        clear(m, guard, h),
        collector(m, array, h),
        m.heap[h as int] == Some(Held { count, value: Boxed::Array(vector_of(cells(acc), kind)) }),
        all_whole(acc),
        does_while(d, world, l, acc).1 is Ok,
    ensures
        collected_all(
            w,
            loop_made(w, l),
            world,
            does_while(d, world, l, acc),
            m,
            steps(c, m, n),
            fixed,
            guard,
            h,
            count,
            kind,
        ),
    decreases l, semantics::ticks_left(world),
{
    let condition = l.kind->While_condition;
    loop_parts(w, l);
    gather_calm_while(w, s, condition, l.body, fixed, array);
    does_while_collects(d, world, l, acc);
    gather_while_code(c, w, s, condition, l.body, fixed, array);
    lemma_slots_old(w, world, m);
    let p = w.code.len() as int;
    let cond = p as usize;
    let yes = (p + 1) as usize;
    let done = (p + 2) as usize;
    let w4 = while_asked(w);
    let (w5, test) = expr_made(w4, condition, Native::Bool);
    let w7 = while_inside(w, condition);
    let (w8, left) = scoped_made(w7, l.body);
    let wf = loop_made(w, l);
    let q = w5.code.len() as int;
    let x = wf.code.len() as int - 1;
    let world1 = once_more(world);
    run_at(c, m);
    let m1 = at(m, p + 5);
    lemma_at(w, w4, world1, Machine { ..m }, p + 5, p, guard);
    lemma_guarded_frames(w, w4, fixed, guard);
    let k = sim_expr(c, w4, condition, Native::Bool, d, world1, None, m1);
    let m2 = steps(c, m1, k);
    lemma_steps_add(c, m, 1, k);
    lemma_ran_went(w4, w5, m1, m2, p, fixed, guard);
    lemma_went_then(p, p, guard, guard, m, m1, m2);
    lemma_still_mirrors(w4, w5, world1, m1, m2);
    let bit = meaning(d, world1, condition, None).1->Ok_0->Bool_0;
    if bit {
        run_to(c, m2, yes, q + 1);
        lemma_steps_add(c, m, 1 + k, 1);
        let m3 = at(m2, q + 1);
        run_at(c, m3);
        lemma_steps_add(c, m, 1 + k + 1, 1);
        let m4 = at(m2, q + 2);
        assert(at(m3, q + 2) == m4);
        lemma_at(w5, w7, world1, m2, q + 2, p, guard);
        lemma_went_then(p, p, guard, guard, m, m2, m4);
        lemma_guarded_frames(w, w7, fixed, guard);
        assert(arrays_guarded(w7, guard));
        assert(clear(m4, guard, h));
        assert(reg(top(m4), array.at) == reg(top(m), array.at));
        assert(goes_on(c, w7, p + 4));
        let e = gather_sim_scoped(c, w7, s, l.body, fixed, guard, d, world1, m4, array, h, p + 4);
        let m5 = steps(c, m4, e);
        lemma_steps_add(c, m, k + 3, e);
        let out = does_scoped(d, world1, l.body);
        let world2 = out.0;
        let acc1 = semantics::collected(acc, out.1->Ok_0);
        let k0 = if out.1->Ok_0 is Normal {
            lemma_went_then(p, w7.code.len() as int, guard, guard, m, m4, m5);
            run_to(c, m5, cond, p + 4);
            lemma_at(w8, w8, world2, m5, p + 4, p, guard);
            lemma_went_then(p, p, guard, guard, m, m5, at(m5, p + 4));
            lemma_back(w, w8, world2, m, at(m5, p + 4), fixed, guard);
            1nat
        } else {
            let v = out.1->Ok_0->Handback_0;
            lemma_handed_then(w7, world2, m, m4, m5, p, w7.code.len() as int, guard, v, h, p + 4);
            lemma_handed_back(w, w7, world2, m, m5, p, fixed, guard, v, h, p + 4);
            assert(cells(acc1) =~= cells(acc).push(CellView::Int(v->Int_0)));
            0nat
        };
        let m6 = steps(c, m5, k0);
        lemma_steps_add(c, m, k + 3 + e, k0);
        let grown = Some(Held { count, value: Boxed::Array(vector_of(cells(acc1), kind)) });
        assert(m6.heap =~= m.heap.update(h as int, grown));
        assert(joint(w, world2, m6));
        assert(top(m6).pc == p + 4);
        assert(all_whole(acc1));
        assert forall|z: int| guard.contains(z) implies #[trigger] slot(top(m6).slots, z, 0) == slot(top(m).slots, z, 0) by {}
        assert(reg(top(m6), array.at) == reg(top(m), array.at));
        let g = gather_sim_while(c, w, s, l, fixed, guard, d, world2, m6, acc1, array, h, count, kind);
        lemma_steps_add(c, m, k + 3 + e + k0, g);
        let vs = does_while(d, world, l, acc).1->Ok_0;
        let last = Some(Held { count, value: Boxed::Array(vector_of(cells(vs), kind)) });
        assert(m.heap.update(h as int, grown).update(h as int, last) =~= m.heap.update(h as int, last));
        k + 3 + e + k0 + g
    } else {
        run_to(c, m2, done, x);
        lemma_steps_add(c, m, 1 + k, 1);
        let m3 = at(m2, x);
        run_at(c, m3);
        lemma_steps_add(c, m, 1 + k + 1, 1);
        let m4 = at(m2, x + 1);
        assert(at(m3, x + 1) == m4);
        lemma_at(w5, wf, world1, m2, x + 1, p, guard);
        lemma_went_then(p, p, guard, guard, m, m2, m4);
        lemma_guarded_frames(w, wf, fixed, guard);
        assert(m.heap.update(h as int, m.heap[h as int]) =~= m.heap);
        k + 3
    }
}

#[verifier::spinoff_prover]
proof fn gather_sim_looping(
    c: CompiledView,
    w: WorkView,
    s: Seq<Scope>,
    l: LoopStmt,
    fixed: Set<Seq<char>>,
    guard: Set<int>,
    d: nat,
    world: World,
    m: Machine,
    array: Operand,
    h: nat,
) -> (n: nat)
    requires
        l.kind is While,
        gather_loop(s, l, fixed),
        knows(w, s),
        pushing(w, array),
        sound(c),
        sees(c, loop_made(w, l)),
        joint(w, world, m),
        stands(w, m),
        guarded(w, fixed, guard),
        arrays_guarded(w, guard),
        clear(m, guard, h),
        collector(m, array, h),
        m.heap[h as int] == Some(Held { count: 1, value: Boxed::Array(vector_of(cells(Seq::empty()), 0)) }),
        does_while(d, world, l, Seq::empty()).1 is Ok,
    ensures
        collected_all(
            w,
            loop_made(w, l),
            world,
            does_while(d, world, l, Seq::empty()),
            m,
            steps(c, m, n),
            fixed,
            guard,
            h,
            1,
            0,
        ),
{
    loop_parts(w, l);
    gather_while_code(c, w, s, l.kind->While_condition, l.body, fixed, array);
    let p = w.code.len() as int;
    run_at(c, m);
    let m1 = at(m, p + 1);
    run_at(c, m1);
    lemma_steps_add(c, m, 1, 1);
    let m2 = at(m, p + 2);
    assert(at(m1, p + 2) == m2);
    run_at(c, m2);
    lemma_steps_add(c, m, 2, 1);
    let m3 = at(m, p + 3);
    assert(at(m2, p + 3) == m3);
    run_to(c, m3, p as usize, p + 4);
    lemma_steps_add(c, m, 3, 1);
    let m4 = at(m, p + 4);
    assert(at(m3, p + 4) == m4);
    lemma_at(w, w, world, m, p + 4, p, guard);
    assert(clear(m4, guard, h));
    let k = gather_sim_while(c, w, s, l, fixed, guard, d, world, m4, Seq::empty(), array, h, 1, 0);
    lemma_steps_add(c, m, 4, k);
    let m5 = steps(c, m4, k);
    assert forall|z: usize| z < w.code.len() implies #[trigger] reg(top(m5), z) == reg(top(m), z) by {
        assert(reg(top(m5), z) == reg(top(m4), z));
    }
    assert forall|z: int| guard.contains(z) implies #[trigger] slot(top(m5).slots, z, 0) == slot(top(m).slots, z, 0) by {
        assert(slot(top(m5).slots, z, 0) == slot(top(m4).slots, z, 0));
    }
    4 + k
}

// ── lists of whole numbers ──────────────────────────────────────────────────

pub open spec fn items_of(v: VarDecl) -> Vec<Expr> {
    v.bindings@[0].value->0.kind->ArrayLit_0
}

/// A new vector of `n` noughts.
pub open spec fn noughts_made(w: WorkView, digits: u32, n: u64) -> (WorkView, Operand) {
    array_made(with_digits(w, digits), Native::Int, seq![n])
}

/// A vector of `n` places, the first of them filled.
pub open spec fn filled(acc: Seq<Val>, n: nat) -> ArrayView {
    ArrayView {
        items: Seq::new(
            n,
            |i: int|
                if i < acc.len() {
                    CellView::Int(acc[i]->Int_0)
                } else {
                    CellView::Int(0)
                },
        ),
        shape: seq![n as u64],
        kind: 0,
    }
}

#[verifier::spinoff_prover]
proof fn list_value_parts(w: WorkView, s: Seq<Scope>, e: Expr, digits: u32)
    requires
        e.kind is ArrayLit,
        whole_items(s, e.kind->ArrayLit_0),
    ensures
        ({
            let items = e.kind->ArrayLit_0;
            let (w2, array) = noughts_made(w, digits, items@.len() as u64);
            expr_made(with_digits(w, digits), e, Native::Array(0, 1)) == (
                items_made(w2, items, 0, Native::Int, array, 1).0,
                array,
            )
        }),
{
    reveal(expr_made);
    let items = e.kind->ArrayLit_0;
    assert(whole_expr(s, items@[0], Native::Int));
    assert(literal_dims(items) =~= seq![items@.len() as u64]);
}

#[verifier::spinoff_prover]
proof fn noughts_parts(w: WorkView, digits: u32, n: u64)
    ensures
        ({
            let (w2, array) = noughts_made(w, digits, n);
            let p = w.code.len();
            &&& array == (Operand { at: (p + 8) as usize, kind: Kind::Ptr })
            &&& w2.code == w.code + seq![
                Inst::Slots { kind: Kind::Long, count: 1 },
                Inst::Long(n),
                Inst::StoreAt { into: p as usize, kind: Kind::Long, index: 0, value: (p + 1) as usize },
                Inst::Small(0),
                Inst::Small(1),
                Inst::Arg((p + 3) as usize),
                Inst::Arg((p + 4) as usize),
                Inst::Arg(p as usize),
                Inst::CallRt(Rt::ArrayNew),
            ]
            &&& w2.texts == w.texts
            &&& w2.frames == w.frames
            &&& w2.open == w.open
            &&& w2.temps == w.temps.push(Temp { value: array, native: Native::Array(0, 1) })
        }),
{
    reveal(array_made);
    reveal(called);
    reveal(crate::codegen::work::expecting_all);
    reveal(crate::codegen::work::stored_at);
    reveal_with_fuel(crate::codegen::work::with_args, 4);
    reveal_with_fuel(dims_stored, 3);
    let (w2, array) = noughts_made(w, digits, n);
    let p = w.code.len();
    let kind = Operand { at: (p + 3) as usize, kind: Kind::Small };
    let rank = Operand { at: (p + 4) as usize, kind: Kind::Small };
    let shape = Operand { at: p as usize, kind: Kind::Ptr };
    assert(kinds(seq![kind, rank, shape]) =~= takes(Rt::ArrayNew));
    assert(w2.code =~= w.code + seq![
        Inst::Slots { kind: Kind::Long, count: 1 },
        Inst::Long(n),
        Inst::StoreAt { into: p as usize, kind: Kind::Long, index: 0, value: (p + 1) as usize },
        Inst::Small(0),
        Inst::Small(1),
        Inst::Arg((p + 3) as usize),
        Inst::Arg((p + 4) as usize),
        Inst::Arg(p as usize),
        Inst::CallRt(Rt::ArrayNew),
    ]);
}

#[verifier::spinoff_prover]
proof fn run_noughts(c: CompiledView, w: WorkView, m: Machine, digits: u32, n: u64) -> (k: nat)
    requires
        sound(c),
        sees(c, noughts_made(w, digits, n).0),
        stands(w, m),
    ensures
        ({
            let (w2, array) = noughts_made(w, digits, n);
            let m1 = steps(c, m, k);
            &&& m1 == with(
                Machine {
                    heap: m.heap.push(Some(Held { count: 1, value: Boxed::Array(filled(Seq::empty(), n as nat)) })),
                    ..m
                },
                top(m1),
            )
            &&& stands(w2, m1)
            &&& keeps_below(w.code.len() as int, top(m), top(m1))
            &&& reg(top(m1), array.at) == Datum::Object(m.heap.len())
        }),
{
    noughts_parts(w, digits, n);
    let (w2, array) = noughts_made(w, digits, n);
    let p = w.code.len() as int;
    assert forall|i: int| p <= i < p + 9 implies #[trigger] c.main.code[i] == w2.code[i] by {
        lemma_code(c, w2, i);
    }
    lemma_code(c, w2, p);
    lemma_code(c, w2, p + 1);
    lemma_code(c, w2, p + 2);
    lemma_code(c, w2, p + 3);
    lemma_code(c, w2, p + 4);
    lemma_code(c, w2, p + 5);
    lemma_code(c, w2, p + 6);
    lemma_code(c, w2, p + 7);
    lemma_code(c, w2, p + 8);
    let a1 = crate::codegen::machine::gave(top(m), Datum::Slot(p))->0;
    lemma_does(c, m, Inst::Slots { kind: Kind::Long, count: 1 }, a1);
    let m1 = with(m, a1);
    let a2 = crate::codegen::machine::gave(a1, Datum::Long(n))->0;
    lemma_does(c, m1, Inst::Long(n), a2);
    lemma_steps_add(c, m, 1, 1);
    let m2 = with(m1, a2);
    let a3 = Activation { pc: p + 3, slots: a2.slots.insert((p, 0), Datum::Long(n)), ..a2 };
    lemma_does(
        c,
        m2,
        Inst::StoreAt { into: p as usize, kind: Kind::Long, index: 0, value: (p + 1) as usize },
        a3,
    );
    lemma_steps_add(c, m, 2, 1);
    let m3 = with(m2, a3);
    let a4 = crate::codegen::machine::gave(a3, Datum::Small(0))->0;
    lemma_does(c, m3, Inst::Small(0), a4);
    lemma_steps_add(c, m, 3, 1);
    let m4 = with(m3, a4);
    let a5 = crate::codegen::machine::gave(a4, Datum::Small(1))->0;
    lemma_does(c, m4, Inst::Small(1), a5);
    lemma_steps_add(c, m, 4, 1);
    let m5 = with(m4, a5);
    let a6 = Activation { pc: p + 6, args: a5.args.push(Datum::Small(0)), ..a5 };
    lemma_does(c, m5, Inst::Arg((p + 3) as usize), a6);
    lemma_steps_add(c, m, 5, 1);
    let m6 = with(m5, a6);
    let a7 = Activation { pc: p + 7, args: a6.args.push(Datum::Small(1)), ..a6 };
    lemma_does(c, m6, Inst::Arg((p + 4) as usize), a7);
    lemma_steps_add(c, m, 6, 1);
    let m7 = with(m6, a7);
    let a8 = Activation { pc: p + 8, args: a7.args.push(Datum::Slot(p)), ..a7 };
    lemma_does(c, m7, Inst::Arg(p as usize), a8);
    lemma_steps_add(c, m, 7, 1);
    let m8 = with(m7, a8);
    let made = zeros(0, dims_at(a8.slots, Datum::Slot(p), 1));
    assert(made == filled(Seq::empty(), n as nat)) by {
        assert(dims_at(a8.slots, Datum::Slot(p), 1) =~= seq![n]);
        reveal_with_fuel(crate::runtime::array::extent_from, 3);
        assert(made.items =~= filled(Seq::empty(), n as nat).items);
    }
    let heap = m.heap.push(Some(Held { count: 1, value: Boxed::Array(made) }));
    let after = Machine { heap, ..m8 };
    assert(a8.args =~= seq![Datum::Small(0), Datum::Small(1), Datum::Slot(p)]);
    assert(runtime_call(m8, a8.slots, Rt::ArrayNew, a8.args) == Call::Gives(
        after,
        a8.slots,
        Datum::Object(m.heap.len()),
    )) by {
        reveal(runtime_call);
    }
    lemma_calls(c, m8, Rt::ArrayNew, after, a8.slots, Datum::Object(m.heap.len()));
    lemma_steps_add(c, m, 8, 1);
    let m9 = steps(c, m, 9);
    assert(m9.calls =~= seq![top(m9)]);
    9
}

/// The next number of a list, lowered.
#[verifier::spinoff_prover]
proof fn items_next(w: WorkView, s: Seq<Scope>, items: Vec<Expr>, i: nat, array: Operand, next: u64)
    requires
        whole_items(s, items),
    ensures
        i >= items@.len() ==> items_made(w, items, i, Native::Int, array, next).0 == w,
        i < items@.len() ==> {
            let (w1, v) = expr_made(w, items@[i as int], Native::Int);
            let (w2, index) = made(w1, Inst::Word(next as i128), Kind::Word);
            let w3 = called(w2, Rt::ArraySetInt, seq![array, index, v]).0;
            items_made(w, items, i, Native::Int, array, next).0 == items_made(
                w3,
                items,
                i + 1,
                Native::Int,
                array,
                next_index(next),
            ).0
        },
{
    reveal_with_fuel(items_made, 2);
    reveal(item_made);
    reveal(element_stored);
    if i < items@.len() {
        assert(whole_expr(s, items@[i as int], Native::Int));
    }
}

#[verifier::spinoff_prover]
proof fn items_quiet(w: WorkView, s: Seq<Scope>, items: Vec<Expr>, i: nat, array: Operand, next: u64)
    requires
        whole_items(s, items),
        knows(w, s),
        array.kind == Kind::Ptr,
    ensures
        quiet(w, items_made(w, items, i, Native::Int, array, next).0),
        items_made(w, items, i, Native::Int, array, next).0.code.len() >= w.code.len() + items@.len() - i,
    decreases items@.len() - i,
{
    items_next(w, s, items, i, array, next);
    if i < items@.len() {
        let e = items@[i as int];
        crate::codegen::whole::lemma_typed(w, s, e, Native::Int);
        crate::codegen::whole::lemma_expr_quiet(w, e, Native::Int);
        let (w1, v) = expr_made(w, e, Native::Int);
        let (w2, index) = made(w1, Inst::Word(next as i128), Kind::Word);
        let args = seq![array, index, v];
        assert(kinds(args) =~= takes(Rt::ArraySetInt));
        called_quiet(w2, Rt::ArraySetInt, args);
        let w3 = called(w2, Rt::ArraySetInt, args).0;
        lemma_knows_frames(w, w3, s);
        items_quiet(w3, s, items, i + 1, array, next_index(next));
    }
}

#[verifier::spinoff_prover]
proof fn values_next(d: nat, world: World, items: Vec<Expr>, hint: Option<Numeric>, i: nat, acc: Seq<Val>)
    requires
        values_from(d, world, items, hint, i, acc).1 is Ok,
    ensures
        i >= items@.len() ==> values_from(d, world, items, hint, i, acc) == (world, Ok::<Seq<Val>, StopView>(acc)),
        i < items@.len() ==> {
            let r = meaning(d, world, items@[i as int], hint);
            &&& r.1 is Ok
            &&& values_from(d, world, items, hint, i, acc) == values_from(
                d,
                r.0,
                items,
                hint,
                i + 1,
                acc.push(r.1->Ok_0),
            )
        },
{
    reveal(meaning);
}

/// The numbers of a list from the `i`-th on, stored in the array that is made for them.
#[verifier::spinoff_prover]
#[verifier::rlimit(40)]
proof fn sim_items(
    c: CompiledView,
    w: WorkView,
    s: Seq<Scope>,
    items: Vec<Expr>,
    i: nat,
    acc: Seq<Val>,
    array: Operand,
    h: nat,
    guard: Set<int>,
    d: nat,
    world: World,
    hint: Option<Numeric>,
    m: Machine,
) -> (n: nat)
    requires
        whole_items(s, items),
        items@.len() < u64::MAX,
        i <= items@.len(),
        acc.len() == i,
        all_whole(acc),
        knows(w, s),
        w.open,
        sound(c),
        sees(c, items_made(w, items, i, Native::Int, array, (i + 1) as u64).0),
        mirrors(w, world, m),
        stands(w, m),
        arrays_guarded(w, guard),
        clear(m, guard, h),
        forall|k: int| #[trigger] guard.contains(k) ==> 0 <= k < w.code.len(),
        array.kind == Kind::Ptr,
        array.at < w.code.len(),
        reg(top(m), array.at) == Datum::Object(h),
        h < m.heap.len(),
        m.heap[h as int] == Some(Held { count: 1, value: Boxed::Array(filled(acc, items@.len())) }),
        whole_context(hint),
        values_from(d, world, items, hint, i, acc).1 is Ok,
    ensures
        ({
            let w1 = items_made(w, items, i, Native::Int, array, (i + 1) as u64).0;
            let m1 = steps(c, m, n);
            let r = values_from(d, world, items, hint, i, acc);
            let vs = r.1->Ok_0;
            let held = Held { count: 1, value: Boxed::Array(filled(vs, items@.len())) };
            &&& r.0 == world
            &&& vs.len() == items@.len()
            &&& all_whole(vs)
            &&& m1 == with(Machine { heap: m.heap.update(h as int, Some(held)), ..m }, top(m1))
            &&& stands(w1, m1)
            &&& keeps_below(w.code.len() as int, top(m), top(m1))
        }),
    decreases items@.len() - i,
{
    let next = (i + 1) as u64;
    items_next(w, s, items, i, array, next);
    values_next(d, world, items, hint, i, acc);
    if i >= items@.len() {
        assert(m.heap.update(h as int, m.heap[h as int]) =~= m.heap);
        assert(m.calls =~= seq![top(m)]);
        0
    } else {
        let e = items@[i as int];
        crate::codegen::whole::lemma_typed(w, s, e, Native::Int);
        crate::codegen::whole::lemma_expr_quiet(w, e, Native::Int);
        let (w1, v) = expr_made(w, e, Native::Int);
        let word = Inst::Word(next as i128);
        let (w2, index) = made(w1, word, Kind::Word);
        let args = seq![array, index, v];
        assert(kinds(args) =~= takes(Rt::ArraySetInt));
        called_quiet(w2, Rt::ArraySetInt, args);
        let w3 = called(w2, Rt::ArraySetInt, args).0;
        lemma_knows_frames(w, w3, s);
        items_quiet(w3, s, items, i + 1, array, next_index(next));
        lemma_sees_before(c, w3, items_made(w3, items, i + 1, Native::Int, array, next_index(next)).0);
        lemma_sees_before(c, w2, w3);
        lemma_sees_put(c, w1, word);
        let k = sim_expr(c, w, e, Native::Int, d, world, hint, m);
        let m1 = steps(c, m, k);
        let x = meaning(d, world, e, hint).1->Ok_0;
        assert(reg(top(m1), array.at) == Datum::Object(h));
        run_value(c, w1, m1, word, Datum::Word(next as i128));
        let m2 = steps(c, m1, 1);
        lemma_steps_add(c, m, k, 1);
        assert(reg(top(m2), array.at) == Datum::Object(h));
        assert(reg(top(m2), v.at) == reg(top(m1), v.at));
        let given = data(top(m2), args);
        let a = Activation { pc: (w2.code.len() + args.len()) as int, args: given, ..top(m2) };
        let acc1 = acc.push(x);
        let total = items@.len();
        let held = Some(Held { count: 1, value: Boxed::Array(filled(acc1, total)) });
        let before = with(m2, a);
        let after = Machine { heap: m.heap.update(h as int, held), ..before };
        assert(filled(acc1, total).items =~= filled(acc, total).items.update(i as int, CellView::Int(x->Int_0)));
        assert(runtime_call(before, top(m2).slots, Rt::ArraySetInt, given) == Call::Gives(
            after,
            top(m2).slots,
            Datum::Nothing,
        )) by {
            reveal(runtime_call);
            assert(given[0] == Datum::Object(h));
            assert(given[1] == Datum::Word(next as i128));
            assert(given[2] == Datum::Word(x->Int_0));
            assert(filled(acc, total).items.len() == total);
            assert(with_cell(filled(acc, total), next as int, CellView::Int(x->Int_0)) == filled(acc1, total));
        }
        run_any(c, w2, m2, Rt::ArraySetInt, args, after, top(m2).slots, Datum::Nothing);
        let m3 = steps(c, m2, 4);
        lemma_steps_add(c, m, k + 1, 4);
        assert(m3.calls =~= seq![top(m3)]);
        assert(keeps_below(w.code.len() as int, top(m), top(m3))) by {
            assert forall|j: usize| j < w.code.len() implies #[trigger] reg(top(m3), j) == reg(top(m), j) by {
                assert(reg(top(m1), j) == reg(top(m), j));
                assert(reg(top(m2), j) == reg(top(m1), j));
            }
            assert forall|z: int, y: int| 0 <= z < w.code.len() implies #[trigger] slot(top(m3).slots, z, y) == slot(
                top(m).slots,
                z,
                y,
            ) by {
                assert(slot(top(m1).slots, z, y) == slot(top(m).slots, z, y));
                assert(slot(top(m2).slots, z, y) == slot(top(m1).slots, z, y));
            }
        }
        assert(elsewhere_same(m.heap, m3.heap, h));
        lemma_elsewhere(w, world, m, m3, guard, h);
        lemma_still_mirrors(w, w3, world, m3, m3);
        assert(arrays_guarded(w3, guard));
        assert forall|g: int| guard.contains(g) implies #[trigger] slot(top(m3).slots, g, 0) != Datum::Object(h) by {
            assert(slot(top(m3).slots, g, 0) == slot(top(m).slots, g, 0));
        }
        let r = sim_items(c, w3, s, items, i + 1, acc1, array, h, guard, d, world, hint, m3);
        lemma_steps_add(c, m, k + 5, r);
        let m4 = steps(c, m3, r);
        let vs = values_from(d, world, items, hint, i, acc).1->Ok_0;
        let last = Some(Held { count: 1, value: Boxed::Array(filled(vs, total)) });
        assert(m.heap.update(h as int, held).update(h as int, last) =~= m.heap.update(h as int, last));
        assert(keeps_below(w.code.len() as int, top(m), top(m4))) by {
            assert forall|j: usize| j < w.code.len() implies #[trigger] reg(top(m4), j) == reg(top(m), j) by {
                assert(reg(top(m4), j) == reg(top(m3), j));
            }
            assert forall|z: int, y: int| 0 <= z < w.code.len() implies #[trigger] slot(top(m4).slots, z, y) == slot(
                top(m).slots,
                z,
                y,
            ) by {
                assert(slot(top(m4).slots, z, y) == slot(top(m3).slots, z, y));
            }
        }
        k + 5 + r
    }
}

#[verifier::spinoff_prover]
proof fn does_list_declaration(d: nat, world: World, v: VarDecl)
    requires
        does_stmt(d, world, Stmt::Var(v)).1 is Ok,
        v.bindings@.len() == 1,
        v.ty.rank is Some,
        v.bindings@[0].value is Some,
        v.bindings@[0].value->0.kind is ArrayLit,
    ensures
        ({
            let b = v.bindings@[0];
            let out = values_from(d, world, items_of(v), binding_context(v.ty, b.precision), 0, Seq::empty());
            &&& out.1 is Ok
            &&& does_stmt(d, world, Stmt::Var(v)) == normally(defined(out.0, b.name@, assembled(out.1->Ok_0)))
        }),
{
    reveal(does_stmt);
    let b = v.bindings@[0];
    let e = b.value->0;
    let hint = binding_context(v.ty, b.precision);
    let r = values_from(d, world, items_of(v), hint, 0, Seq::empty());
    assert(expr_result(d, world, e, hint) == match r {
        (w1, Ok(vs)) => (w1, Ok(assembled(vs))),
        (w1, Err(x)) => (w1, Err(x)),
    });
    assert(statement_result(d, world, Stmt::Var(v)) == bindings_from(d, world, v, 0));
    assert(r.1 is Ok);
    let world1 = defined(r.0, b.name@, assembled(r.1->Ok_0));
    assert(bindings_from(d, world1, v, 1) == normally(world1));
    assert(bindings_from(d, world, v, 0) == bindings_from(d, world1, v, 1));
}

#[verifier::spinoff_prover]
proof fn lists_parts(w: WorkView, s: Seq<Scope>, v: VarDecl, fixed: Set<Seq<char>>)
    requires
        lists(s, v, fixed),
        ({
            let b = v.bindings@[0];
            let n = items_of(v)@.len() as u64;
            let (w2, array) = noughts_made(w, places_wanted(b.precision, v.ty.precision), n);
            let wl = items_made(w2, items_of(v), 0, Native::Int, array, 1).0;
            &&& wl.open
            &&& wl.temps == w.temps.push(Temp { value: array, native: Native::Array(0, 1) })
            &&& array.kind == Kind::Ptr
        }),
    ensures
        ({
            let b = v.bindings@[0];
            let n = items_of(v)@.len() as u64;
            let (w2, array) = noughts_made(w, places_wanted(b.precision, v.ty.precision), n);
            let wl = items_made(w2, items_of(v), 0, Native::Int, array, 1).0;
            &&& !stmt_made(w, Stmt::Var(v)).1
            &&& temps_released(stmt_made(w, Stmt::Var(v)).0, w.temps.len()) == array_declared(
                wl,
                array,
                b.name@,
                w.temps.len(),
            )
        }),
{
    let b = v.bindings@[0];
    let digits = places_wanted(b.precision, v.ty.precision);
    let native = Native::Array(0, 1);
    let (w2, array) = noughts_made(w, digits, items_of(v)@.len() as u64);
    let wl = items_made(w2, items_of(v), 0, Native::Int, array, 1).0;
    stmt_parts(w, Stmt::Var(v));
    lemma_bindings_next(w, v, 0, native);
    let w1 = binding_made(w, b, native, digits);
    bindings_end(w1, v, 1);
    list_value_parts(w, s, b.value->0, digits);
    let at = wl.code.len() as usize;
    let w4 = put(wl, Inst::Slot(Kind::Ptr));
    let w5 = called(w4, Rt::ArrayRetain, seq![array]).0;
    let w6 = put(w5, Inst::Store { into: at, value: array.at });
    let w7 = with_digits(declared(w6, b.name@, at, native), DEFAULT_DIGITS);
    assert(w1 == w7) by {
        reveal(binding_made);
        reveal(kept);
        reveal(handle);
        reveal(stored);
    }
    assert(kinds(seq![array]) =~= takes(Rt::ArrayRetain));
    lemma_called_quiet(w4, Rt::ArrayRetain, seq![array]);
    assert(w7.temps == wl.temps && w7.open) by {
        reveal(declared);
    }
    let mark = w.temps.len();
    let dropped = WorkView { temps: w7.temps.take(mark as int), ..w7 };
    assert(kinds(seq![array]) =~= takes(Rt::ArrayRelease));
    lemma_called_quiet(dropped, Rt::ArrayRelease, seq![array]);
    assert(temps_released(w7, mark) == array_declared(wl, array, b.name@, mark)) by {
        reveal(temps_released);
        reveal(let_go);
        reveal(handle);
        reveal_with_fuel(temps_popped, 3);
        assert(w7.temps[mark as int] == (Temp { value: array, native }));
    }
}

#[verifier::spinoff_prover]
#[verifier::rlimit(60)]
proof fn sim_list_declaration(
    c: CompiledView,
    w: WorkView,
    s: Seq<Scope>,
    v: VarDecl,
    fixed: Set<Seq<char>>,
    guard: Set<int>,
    d: nat,
    world: World,
    m: Machine,
) -> (n: (nat, int))
    requires
        lists(s, v, fixed),
        level(w, s, world, m, fixed, guard),
        sound(c),
        sees(c, temps_released(stmt_made(w, Stmt::Var(v)).0, w.temps.len())),
        does_stmt(d, world, Stmt::Var(v)).1 is Ok,
    ensures
        ({
            let name = v.bindings@[0].name@;
            let w8 = temps_released(stmt_made(w, Stmt::Var(v)).0, w.temps.len());
            let r = does_stmt(d, world, Stmt::Var(v));
            &&& !stmt_made(w, Stmt::Var(v)).1
            &&& r == normally(r.0)
            &&& level(
                w8,
                with_name(s, name, Native::Array(0, 1)),
                r.0,
                steps(c, m, n.0),
                fixed.insert(name),
                guard.insert(n.1),
            )
        }),
{
    let b = v.bindings@[0];
    let name = b.name@;
    let native = Native::Array(0, 1);
    let digits = places_wanted(b.precision, v.ty.precision);
    let items = items_of(v);
    let n0 = items@.len() as u64;
    let (w2, array) = noughts_made(w, digits, n0);
    noughts_parts(w, digits, n0);
    lemma_knows_frames(w, w2, s);
    items_quiet(w2, s, items, 0, array, 1);
    let wl = items_made(w2, items, 0, Native::Int, array, 1).0;
    lists_parts(w, s, v, fixed);
    // The code of the declaration, from its end to its start.
    let w8 = array_declared(wl, array, name, w.temps.len());
    let at0 = wl.code.len() as usize;
    let w4 = put(wl, Inst::Slot(Kind::Ptr));
    let w5 = called(w4, Rt::ArrayRetain, seq![array]).0;
    let store = Inst::Store { into: at0, value: array.at };
    let w6 = put(w5, store);
    let w7 = with_digits(declared(w6, name, at0, native), DEFAULT_DIGITS);
    let dropped = WorkView { temps: w7.temps.take(w.temps.len() as int), ..w7 };
    assert(w7.code == w6.code && w7.texts == w6.texts && w7.open == w6.open) by {
        reveal(declared);
    }
    assert(kinds(seq![array]) =~= takes(Rt::ArrayRelease));
    assert(kinds(seq![array]) =~= takes(Rt::ArrayRetain));
    lemma_called_quiet(dropped, Rt::ArrayRelease, seq![array]);
    lemma_sees_before(c, dropped, w8);
    assert(sees(c, w6));
    lemma_sees_put(c, w5, store);
    lemma_called_quiet(w4, Rt::ArrayRetain, seq![array]);
    lemma_sees_before(c, w4, w5);
    lemma_sees_put(c, wl, Inst::Slot(Kind::Ptr));
    lemma_sees_before(c, w2, wl);
    // The new array.
    let h = m.heap.len();
    let n1 = run_noughts(c, w, m, digits, n0);
    let m1 = steps(c, m, n1);
    assert(clear(m, guard, h));
    assert(elsewhere_same(m.heap, m1.heap, h));
    lemma_elsewhere(w, world, m, m1, guard, h);
    lemma_still_mirrors(w, w2, world, m1, m1);
    lemma_guarded_frames(w, w2, fixed, guard);
    // The numbers.
    does_list_declaration(d, world, v);
    let hint = binding_context(v.ty, b.precision);
    assert(clear(m1, guard, h)) by {
        assert forall|k: int| guard.contains(k) implies #[trigger] slot(top(m1).slots, k, 0) != Datum::Object(h) by {
            assert(slot(top(m1).slots, k, 0) == slot(top(m).slots, k, 0));
        }
    }
    assert(items@.len() < u64::MAX);
    let n6 = sim_items(c, w2, s, items, 0, Seq::empty(), array, h, guard, d, world, hint, m1);
    let m6 = steps(c, m1, n6);
    lemma_steps_add(c, m, n1, n6);
    let out = values_from(d, world, items, hint, 0, Seq::empty());
    let vs = out.1->Ok_0;
    assert(filled(vs, items@.len()) == vector_of(cells(vs), 0)) by {
        assert(filled(vs, items@.len()).items =~= cells(vs));
    }
    assert(elsewhere_same(m1.heap, m6.heap, h));
    lemma_elsewhere(w2, world, m1, m6, guard, h);
    lemma_still_mirrors(w2, wl, world, m6, m6);
    lemma_guarded_frames(w2, wl, fixed, guard);
    lemma_knows_frames(w2, wl, s);
    assert(clear(m6, guard, h)) by {
        assert forall|k: int| guard.contains(k) implies #[trigger] slot(top(m6).slots, k, 0) != Datum::Object(h) by {
            assert(slot(top(m6).slots, k, 0) == slot(top(m1).slots, k, 0));
        }
    }
    lemma_assembled(vs);
    assert(reg(top(m6), array.at) == Datum::Object(h));
    let done = n1 + n6;
    let k = run_declared(c, wl, m6, array, name, w.temps.len(), h, vs, fixed, guard, s, out.0);
    lemma_steps_add(c, m, done, k);
    let m9 = steps(c, m6, k);
    let s1 = with_name(s, name, native);
    let world1 = defined(out.0, name, assembled(vs));
    // The arrays of before are where they were.
    assert(owned(m9, guard.insert(at0 as int))) by {
        assert forall|g: int| guard.contains(g) implies (slot(top(m9).slots, g, 0) == slot(top(m).slots, g, 0)) by {
            assert(slot(top(m6).slots, g, 0) == slot(top(m1).slots, g, 0));
            assert(slot(top(m1).slots, g, 0) == slot(top(m).slots, g, 0));
        }
        assert forall|g: int| guard.insert(at0 as int).contains(g) implies (#[trigger] slot(top(m9).slots, g, 0) matches Datum::Object(o)
            && o < m9.heap.len() && m9.heap[o as int] is Some) by {
            if g != at0 {
                assert(slot(top(m9).slots, g, 0) == slot(top(m).slots, g, 0));
            }
        }
    }
    assert(level(w8, s1, world1, m9, fixed.insert(name), guard.insert(at0 as int)));
    assert(steps(c, m, done) == m6);
    assert(steps(c, m, done + k) == m9);
    assert(does_stmt(d, world, Stmt::Var(v)) == normally(world1));
    assert(temps_released(stmt_made(w, Stmt::Var(v)).0, w.temps.len()) == w8);
    assert(!stmt_made(w, Stmt::Var(v)).1);
    (done + k, at0 as int)
}

proof fn lists_knows(w: WorkView, s: Seq<Scope>, v: VarDecl, fixed: Set<Seq<char>>)
    requires
        lists(s, v, fixed),
        knows(w, s),
        w.open,
    ensures
        ({
            let w2 = temps_released(stmt_made(w, Stmt::Var(v)).0, w.temps.len());
            &&& knows(w2, with_name(s, v.bindings@[0].name@, Native::Array(0, 1)))
            &&& w2.open
        }),
{
    let b = v.bindings@[0];
    let name = b.name@;
    let native = Native::Array(0, 1);
    let digits = places_wanted(b.precision, v.ty.precision);
    let items = items_of(v);
    let (w2, array) = noughts_made(w, digits, items@.len() as u64);
    noughts_parts(w, digits, items@.len() as u64);
    lemma_knows_frames(w, w2, s);
    items_quiet(w2, s, items, 0, array, 1);
    let wl = items_made(w2, items, 0, Native::Int, array, 1).0;
    lists_parts(w, s, v, fixed);
    let at0 = wl.code.len() as usize;
    let w4 = put(wl, Inst::Slot(Kind::Ptr));
    let w5 = called(w4, Rt::ArrayRetain, seq![array]).0;
    let w6 = put(w5, Inst::Store { into: at0, value: array.at });
    let w7 = with_digits(declared(w6, name, at0, native), DEFAULT_DIGITS);
    let dropped = WorkView { temps: w7.temps.take(w.temps.len() as int), ..w7 };
    assert(kinds(seq![array]) =~= takes(Rt::ArrayRelease));
    assert(kinds(seq![array]) =~= takes(Rt::ArrayRetain));
    lemma_called_quiet(w4, Rt::ArrayRetain, seq![array]);
    lemma_called_quiet(dropped, Rt::ArrayRelease, seq![array]);
    lemma_knows_frames(w, w6, s);
    lemma_declared_knows(w6, s, name, at0, native);
    let w8 = array_declared(wl, array, name, w.temps.len());
    lemma_knows_frames(declared(w6, name, at0, native), w8, with_name(s, name, native));
    reveal(declared);
}

// ── programs ────────────────────────────────────────────────────────────────

/// The statements of a program from the `i`-th on: statements on whole numbers, and
/// declarations of vectors that are listed or that loops collect.
pub open spec fn gather_statements(s: Seq<Scope>, stmts: Vec<Stmt>, i: nat, fixed: Set<Seq<char>>) -> bool
    decreases stmts@.len() - i,
{
    i >= stmts@.len() || {
        let st = stmts@[i as int];
        if declares_array(st) {
            &&& collects(s, st->Var_0, fixed) || lists(s, st->Var_0, fixed)
            &&& gather_statements(
                with_name(s, array_name(st), Native::Array(0, 1)),
                stmts,
                i + 1,
                fixed.insert(array_name(st)),
            )
        } else {
            whole_stmt(s, st, fixed) && gather_statements(scopes_after(s, st), stmts, i + 1, fixed)
        }
    }
}

pub open spec fn declares_array(st: Stmt) -> bool {
    st is Var && st->Var_0.ty.rank is Some
}

pub open spec fn array_name(st: Stmt) -> Seq<char> {
    st->Var_0.bindings@[0].name@
}

/// A program on whole numbers and vectors of them that are listed or that loops collect: no
/// names are known where it starts.
pub open spec fn gather_program(p: Program) -> bool {
    gather_statements(seq![Map::empty()], p.statements, 0, Set::empty())
}

/// A declaration of whole numbers leaves the arrays alone.
#[verifier::spinoff_prover]
proof fn bindings_arrays(w: WorkView, s: Seq<Scope>, v: VarDecl, i: nat, fixed: Set<Seq<char>>, guard: Set<int>)
    requires
        i <= v.bindings@.len(),
        forall|j: int|
            #![trigger v.bindings@[j]]
            0 <= j < v.bindings@.len() ==> whole_binding(with_bindings(s, v, j as nat), v, j, fixed),
        knows(w, with_bindings(s, v, i)),
        arrays_guarded(w, guard),
    ensures
        arrays_guarded(bindings_made(w, v, i), guard),
    decreases v.bindings@.len() - i,
{
    if i < v.bindings@.len() {
        let b = v.bindings@[i as int];
        made_binding(w, with_bindings(s, v, i), v, i, fixed);
        let w1 = binding_end(w, v, i);
        let native = whole_type(v.ty)->0;
        let k = w.frames.len() - 1;
        assert forall|x: int, y: int|
            #![trigger w1.frames[x][y]]
            0 <= x < w1.frames.len() && 0 <= y < w1.frames[x].len() && w1.frames[x][y].native is Array implies guard.contains(
            w1.frames[x][y].slot as int,
        ) by {
            reveal(declared);
            lemma_local(w.frames[k], b.name@);
            if x == k {
                let e = expr_made(with_digits(w, places_wanted(b.precision, v.ty.precision)), b.value->0, native).0;
                assert(e.frames == w.frames);
                let l = LocalView { name: b.name@, slot: e.code.len() as usize, native };
                assert(w1.frames[x] == with_local(w.frames[k], l));
                assert(w1.frames[x][y] == w.frames[x][y]);
            } else {
                assert(w1.frames[x][y] == w.frames[x][y]);
            }
        }
        bindings_arrays(w1, s, v, i + 1, fixed, guard);
    } else {
        bindings_end(w, v, i);
    }
}

#[verifier::spinoff_prover]
proof fn stmt_arrays(w: WorkView, s: Seq<Scope>, st: Stmt, fixed: Set<Seq<char>>, guard: Set<int>)
    requires
        whole_stmt(s, st, fixed),
        knows(w, s),
        arrays_guarded(w, guard),
    ensures
        arrays_guarded(stmt_made(w, st).0, guard),
{
    stmt_parts(w, st);
    reveal(step);
    match st {
        Stmt::Var(v) => {
            bindings_arrays(w, s, v, 0, fixed, guard);
        },
        Stmt::Change(ch) => {
            calm_targets(w, s, ch, 0, fixed);
        },
        Stmt::Print { args, .. } => {
            calm_prints(w, s, args, 0);
            let w1 = prints_made(w, args, 0);
            assert(kinds(Seq::<Operand>::empty()) =~= takes(Rt::PrintNewline));
            lemma_called_quiet(w1, Rt::PrintNewline, Seq::empty());
        },
        Stmt::If(chain) => {
            lemma_if(w, chain);
        },
        Stmt::Loop(l) => {
            crate::codegen::laws::lemma_loop(w, l);
        },
        _ => {},
    }
}

#[verifier::spinoff_prover]
proof fn sim_statements(
    c: CompiledView,
    w: WorkView,
    s: Seq<Scope>,
    stmts: Vec<Stmt>,
    i: nat,
    fixed: Set<Seq<char>>,
    guard: Set<int>,
    d: nat,
    world: World,
    m: Machine,
) -> (r: (nat, Seq<Scope>, Set<Seq<char>>, Set<int>))
    requires
        gather_statements(s, stmts, i, fixed),
        level(w, s, world, m, fixed, guard),
        sound(c),
        sees(c, block_made(w, stmts, i).0),
        does_block(d, world, stmts, i).1 is Ok,
    ensures
        !block_made(w, stmts, i).1,
        does_block(d, world, stmts, i) == normally(does_block(d, world, stmts, i).0),
        level(block_made(w, stmts, i).0, r.1, does_block(d, world, stmts, i).0, steps(c, m, r.0), r.2, r.3),
    decreases stmts@.len() - i,
{
    block_next(w, stmts, i);
    does_block_next(d, world, stmts, i);
    if i < stmts@.len() {
        let st = stmts@[i as int];
        let w1 = stmt_made(w, st).0;
        let w2 = temps_released(w1, w.temps.len());
        lemma_block(w2, stmts, i + 1);
        if declares_array(st) {
            let v = st->Var_0;
            collects_calm(w, s, v, fixed);
            lemma_sees_stride(c, w2, block_made(w, stmts, i).0);
            let (k, at) = if lists(s, v, fixed) {
                sim_list_declaration(c, w, s, v, fixed, guard, d, world, m)
            } else {
                sim_declaration(c, w, s, v, fixed, guard, d, world, m)
            };
            let m1 = steps(c, m, k);
            let name = array_name(st);
            let s1 = with_name(s, name, Native::Array(0, 1));
            let world1 = does_stmt(d, world, st).0;
            let r = sim_statements(c, w2, s1, stmts, i + 1, fixed.insert(name), guard.insert(at), d, world1, m1);
            lemma_steps_add(c, m, k, r.0);
            (k + r.0, r.1, r.2, r.3)
        } else {
            calm_stmt(w, s, st, fixed);
            lemma_no_temps(w1, w.temps.len());
            lemma_sees_stride(c, w2, block_made(w, stmts, i).0);
            let k = sim_stmt(c, w, s, st, fixed, guard, d, world, m);
            let m1 = steps(c, m, k);
            stmt_arrays(w, s, st, fixed, guard);
            let world1 = does_stmt(d, world, st).0;
            assert(owned(m1, guard)) by {
                assert forall|g: int| guard.contains(g) implies (#[trigger] slot(top(m1).slots, g, 0) matches Datum::Object(o)
                    && o < m1.heap.len() && m1.heap[o as int] is Some) by {
                    assert(slot(top(m1).slots, g, 0) == slot(top(m).slots, g, 0));
                }
                assert forall|g: int, l: int|
                    guard.contains(g) && guard.contains(l) && g != l implies #[trigger] slot(top(m1).slots, g, 0)
                    != #[trigger] slot(top(m1).slots, l, 0) by {
                    assert(slot(top(m1).slots, g, 0) == slot(top(m).slots, g, 0));
                    assert(slot(top(m1).slots, l, 0) == slot(top(m).slots, l, 0));
                }
            }
            let r = sim_statements(c, w1, scopes_after(s, st), stmts, i + 1, fixed, guard, d, world1, m1);
            lemma_steps_add(c, m, k, r.0);
            (k + r.0, r.1, r.2, r.3)
        }
    } else {
        (0, s, fixed, guard)
    }
}

/// A declaration of collected values goes on behind itself.
#[verifier::spinoff_prover]
proof fn collects_calm(w: WorkView, s: Seq<Scope>, v: VarDecl, fixed: Set<Seq<char>>)
    requires
        collects(s, v, fixed) || lists(s, v, fixed),
        knows(w, s),
    ensures
        !stmt_made(w, Stmt::Var(v)).1,
{
    stmt_parts(w, Stmt::Var(v));
}

/// The arrays of a scope released at its end.
#[verifier::spinoff_prover]
proof fn run_releases(c: CompiledView, w: WorkView, frame: FrameView, i: nat, m: Machine) -> (n: nat)
    requires
        sound(c),
        sees(c, frame_released(w, frame, i)),
        stands(w, m),
        forall|x: int|
            i <= x < frame.len() ==> held_native((#[trigger] frame[x]).native) && (frame[x].native is Array ==> (slot(
                top(m).slots,
                frame[x].slot as int,
                0,
            ) matches Datum::Object(o) && o < m.heap.len() && m.heap[o as int] is Some)),
        forall|x: int, y: int|
            #![trigger frame[x], frame[y]]
            i <= x < y < frame.len() && frame[x].native is Array && frame[y].native is Array ==> slot(
                top(m).slots,
                frame[x].slot as int,
                0,
            ) != slot(top(m).slots, frame[y].slot as int, 0),
    ensures
        stands(frame_released(w, frame, i), steps(c, m, n)),
        steps(c, m, n).lines == m.lines,
        extended(w.code, frame_released(w, frame, i).code),
        extended(w.texts, frame_released(w, frame, i).texts),
    decreases frame.len() - i,
{
    if i >= frame.len() {
        0
    } else {
        let l = frame[i as int];
        if l.native is Array {
            let (w1, v) = made(w, Inst::Load { kind: Kind::Ptr, from: l.slot }, Kind::Ptr);
            let w2 = called(w1, Rt::ArrayRelease, seq![v]).0;
            assert(let_go(w1, v, l.native) == w2) by {
                reveal(let_go);
                reveal(handle);
            }
            crate::codegen::laws::keeps_frame_released(w2, frame, i + 1);
            lemma_sees_step(c, w2, frame_released(w, frame, i));
            assert(kinds(seq![v]) =~= takes(Rt::ArrayRelease));
            lemma_called_quiet(w1, Rt::ArrayRelease, seq![v]);
            lemma_sees_before(c, w1, w2);
            let x = slot(top(m).slots, l.slot as int, 0);
            let o = x->Object_0;
            run_value(c, w, m, Inst::Load { kind: Kind::Ptr, from: l.slot }, x);
            let m1 = steps(c, m, 1);
            let k = run_counted_by(c, w1, m1, Rt::ArrayRelease, v, o, m.heap[o as int]->0);
            let m2 = steps(c, m1, k);
            lemma_steps_add(c, m, 1, k);
            assert(top(m2).slots == top(m).slots);
            let j = run_releases(c, w2, frame, i + 1, m2);
            lemma_steps_add(c, m, 1 + k, j);
            lemma_extended_then(w.code, w1.code, w2.code);
            lemma_extended_then(w.code, w2.code, frame_released(w, frame, i).code);
            lemma_extended_then(w.texts, w2.texts, frame_released(w, frame, i).texts);
            1 + k + j
        } else {
            run_releases(c, w, frame, i + 1, m)
        }
    }
}

#[verifier::spinoff_prover]
pub(crate) proof fn main_parts(p: Program, fns: Seq<SigView>)
    requires
        !block_made(with_frame(fresh(fns, Native::Nothing, true)), p.statements, 0).1,
    ensures
        ({
            let w1 = block_made(with_frame(fresh(fns, Native::Nothing, true)), p.statements, 0).0;
            let w2 = scope_released(w1);
            main_made(fns, p) == put(put(w2, Inst::Small(0)), Inst::Return(w2.code.len() as usize))
        }),
{
    reveal(main_made);
}

/// No statement of such a program leaves it.
#[verifier::spinoff_prover]
proof fn lemma_not_left(w: WorkView, s: Seq<Scope>, stmts: Vec<Stmt>, i: nat, fixed: Set<Seq<char>>)
    requires
        gather_statements(s, stmts, i, fixed),
        knows(w, s),
        w.open,
    ensures
        !block_made(w, stmts, i).1,
    decreases stmts@.len() - i,
{
    block_next(w, stmts, i);
    if i < stmts@.len() {
        let st = stmts@[i as int];
        let w1 = stmt_made(w, st).0;
        let w2 = temps_released(w1, w.temps.len());
        if declares_array(st) {
            collects_calm(w, s, st->Var_0, fixed);
            if lists(s, st->Var_0, fixed) {
                lists_knows(w, s, st->Var_0, fixed);
            } else {
                collects_knows(w, s, st->Var_0, fixed);
            }
            let s1 = with_name(s, array_name(st), Native::Array(0, 1));
            lemma_not_left(w2, s1, stmts, i + 1, fixed.insert(array_name(st)));
        } else {
            calm_stmt(w, s, st, fixed);
            lemma_no_temps(w1, w.temps.len());
            lemma_not_left(w1, scopes_after(s, st), stmts, i + 1, fixed);
        }
    }
}

/// What the lowering knows behind a declaration of collected values.
#[verifier::spinoff_prover]
#[verifier::rlimit(30)]
proof fn collects_knows(w: WorkView, s: Seq<Scope>, v: VarDecl, fixed: Set<Seq<char>>)
    requires
        collects(s, v, fixed),
        knows(w, s),
        w.open,
    ensures
        ({
            let w2 = temps_released(stmt_made(w, Stmt::Var(v)).0, w.temps.len());
            &&& knows(w2, with_name(s, v.bindings@[0].name@, Native::Array(0, 1)))
            &&& w2.open
        }),
{
    let b = v.bindings@[0];
    let name = b.name@;
    let native = Native::Array(0, 1);
    let digits = places_wanted(b.precision, v.ty.precision);
    let l = loop_of(v);
    let (w2, array) = array_opened(w, digits);
    array_opened_parts(w, digits);
    lemma_knows_frames(w, w2, s);
    loop_parts(w2, l);
    match l.kind {
        LoopKind::Counted { var, range, .. } => {
            let inside = match range.kind {
                ExprKind::Math(inner) => *inner,
                _ => range,
            };
            calm_bounds(w2, s, range, *inside.kind->Range_from, *inside.kind->Range_to, inside.kind->Range_by);
            let (wb, bds) = bounds_made(w2, range);
            lemma_knows_frames(w2, wb, s);
            gather_calm_counted(wb, s, var@, bds, l.body, fixed.insert(var@), array);
        },
        LoopKind::While { condition } => {
            gather_calm_while(w2, s, condition, l.body, fixed, array);
        },
    }
    let wl = without_handback(loop_made(w2, l));
    collects_parts(w, s, v, fixed);
    let at0 = wl.code.len() as usize;
    let w4 = put(wl, Inst::Slot(Kind::Ptr));
    let w5 = called(w4, Rt::ArrayRetain, seq![array]).0;
    let w6 = put(w5, Inst::Store { into: at0, value: array.at });
    let w7 = with_digits(declared(w6, name, at0, native), DEFAULT_DIGITS);
    let dropped = WorkView { temps: w7.temps.take(w.temps.len() as int), ..w7 };
    assert(kinds(seq![array]) =~= takes(Rt::ArrayRelease));
    assert(kinds(seq![array]) =~= takes(Rt::ArrayRetain));
    lemma_called_quiet(w4, Rt::ArrayRetain, seq![array]);
    lemma_called_quiet(dropped, Rt::ArrayRelease, seq![array]);
    lemma_knows_frames(w, w6, s);
    lemma_declared_knows(w6, s, name, at0, native);
    let w8 = array_declared(wl, array, name, w.temps.len());
    lemma_knows_frames(declared(w6, name, at0, native), w8, with_name(s, name, native));
    reveal(declared);
}

/// A program on whole numbers, and on vectors of them that are listed or that loops collect,
/// which the interpreter runs to its end: compiled, it comes to its end too and has printed
/// the same lines. What a loop collects is handed back anywhere in its body, or in the arms of
/// conditionals there, and handing back ends the iteration in both. Everything else is as in
/// programs on whole numbers, and arrays can be printed.
pub proof fn compiled_collecting_programs_print_what_is_interpreted(
    p: Program,
    answers: Seq<AnswerView>,
) -> (fuel: nat)
    requires
        gather_program(p),
        lowered(p) is Ok,
        lowered(p)->Ok_0.main.code.len() <= usize::MAX,
        lowered(p)->Ok_0.main.texts.len() <= usize::MAX,
        run_meaning(p, answers).error is None,
        run_meaning(p, answers).request is None,
    ensures
        machine_run(lowered(p)->Ok_0, answers, fuel) == Some(run_meaning(p, answers)),
{
    let c = lowered(p)->Ok_0;
    compiled_code_is_well_formed(p);
    assert(sound(c));
    let fns = signatures(p.statements@, p.statements@.len())->Ok_0;
    let w0 = with_frame(fresh(fns, Native::Nothing, true));
    let s0 = seq![Map::<Seq<char>, Native>::empty()];
    assert(knows(w0, s0) && w0.open && w0.code.len() == 0) by {
        reveal(with_frame);
        assert(w0.frames =~= seq![Seq::empty()]);
    }
    let (w1, left) = block_made(w0, p.statements, 0);
    let wf = main_made(fns, p);
    assert(c.main.code == wf.code && c.main.texts == wf.texts);
    assert(sees(c, wf));
    lemma_not_left(w0, s0, p.statements, 0, Set::empty());
    main_parts(p, fns);
    let w2 = scope_released(w1);
    let zero = w2.code.len() as usize;
    lemma_sees_put(c, put(w2, Inst::Small(0)), Inst::Return(zero));
    lemma_sees_put(c, w2, Inst::Small(0));
    crate::codegen::laws::keeps_scope_released(w1);
    lemma_sees_step(c, w1, w2);
    let m = machine_for(answers);
    let world = fresh_world(functions_in(p.statements@, p.statements@.len()), answers);
    let d = u64::MAX as nat;
    assert(does_block(d, world, p.statements, 0) == block_from(d, world, p.statements, 0)) by {
        reveal(does_block);
    }
    assert(mirrors(w0, world, m) && arrays_guarded(w0, Set::empty())) by {
        reveal(with_frame);
        assert(w0.frames =~= seq![Seq::empty()]);
    }
    let r = sim_statements(c, w0, s0, p.statements, 0, Set::empty(), Set::empty(), d, world, m);
    let m1 = steps(c, m, r.0);
    lemma_frame_owned(w1, r.1, does_block(d, world, p.statements, 0).0, m1, r.2, r.3);
    let k = w1.frames.len() - 1;
    assert(w2 == frame_released(w1, w1.frames[k], 0)) by {
        reveal(scope_released);
        reveal(crate::codegen::work::frame_released_at);
    }
    let n = run_releases(c, w1, w1.frames[k], 0, m1);
    let m2 = steps(c, m1, n);
    lemma_steps_add(c, m, r.0, n);
    let e = w2.code.len() as int;
    assert(wf.code[e] == Inst::Small(0) && wf.code[e + 1] == Inst::Return(zero));
    run_end(c, m2, zero);
    lemma_steps_add(c, m, r.0 + n, 2);
    r.0 + n + 2
}

/// Each array of the outermost scope can be released.
#[verifier::spinoff_prover]
proof fn lemma_frame_owned(
    w: WorkView,
    s: Seq<Scope>,
    world: World,
    m: Machine,
    fixed: Set<Seq<char>>,
    guard: Set<int>,
)
    requires
        level(w, s, world, m, fixed, guard),
    ensures
        ({
            let frame = w.frames[w.frames.len() - 1];
            &&& forall|x: int|
                0 <= x < frame.len() ==> held_native((#[trigger] frame[x]).native) && (frame[x].native is Array ==> (slot(
                    top(m).slots,
                    frame[x].slot as int,
                    0,
                ) matches Datum::Object(o) && o < m.heap.len() && m.heap[o as int] is Some))
            &&& forall|x: int, y: int|
                #![trigger frame[x], frame[y]]
                0 <= x < y < frame.len() && frame[x].native is Array && frame[y].native is Array ==> slot(
                    top(m).slots,
                    frame[x].slot as int,
                    0,
                ) != slot(top(m).slots, frame[y].slot as int, 0)
        }),
{
    let k = w.frames.len() - 1;
    let frame = w.frames[k];
    assert forall|x: int| 0 <= x < frame.len() implies held_native((#[trigger] frame[x]).native) && (
    frame[x].native is Array ==> (slot(top(m).slots, frame[x].slot as int, 0) matches Datum::Object(o) && o < m.heap.len()
        && m.heap[o as int] is Some)) by {
        let l = w.frames[k][x];
        assert(held_native(l.native));
        if l.native is Array {
            assert(guard.contains(l.slot as int));
        }
    }
    assert forall|x: int, y: int|
        #![trigger frame[x], frame[y]]
        0 <= x < y < frame.len() && frame[x].native is Array && frame[y].native is Array implies slot(
        top(m).slots,
        frame[x].slot as int,
        0,
    ) != slot(top(m).slots, frame[y].slot as int, 0) by {
        let a = w.frames[k][x];
        let b = w.frames[k][y];
        assert(guard.contains(a.slot as int) && guard.contains(b.slot as int));
        assert(a.slot != b.slot);
    }
}

} // verus!
