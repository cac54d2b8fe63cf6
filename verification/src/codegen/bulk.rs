//! Statements on whole arrays.

use vstd::prelude::*;

use crate::ast::{Expr, ExprKind, Stmt, VarDecl};
use crate::codegen::agreement::{
    does_stmt, does_stmt_parts, does_texts, lemma_guarded_frames, normally, texts_next,
};
use crate::codegen::boxes::{array_of, cell_rep, heap_grown, holdable, stands_for};
use crate::codegen::correct::{
    abreast, agreed, moved_on, ready, run_held, run_kept, run_newline, same_level, sim_print,
};
use crate::codegen::exactly::single;
use crate::codegen::language::{bound, calm_print, kept_quiet, placed, print_ok, Bars};
use crate::codegen::lowering::{
    binding_made, expr_made, places_wanted, prints_made, stmt_made, with_digits, CompiledView,
};
use crate::codegen::machine::{array_in, reg, runtime_call, slot, steps, Activation, Call, Datum, Machine};
use crate::codegen::native::{element_of, kind_of, native_of, Native};
use crate::codegen::runtime::{takes, Kind, Rt};
use crate::codegen::scalars::talks;
use crate::codegen::simulation::{
    lemma_sees_before, lemma_sees_put, lemma_steps_add, meaning, quiet, run_effect, run_value, sees, top,
    with,
};
use crate::codegen::standing::{
    attuned, lemma_attuned, lemma_declared_fits, lemma_declares, lemma_natural, lemma_seen_defined,
    lemma_still_mirrors, nat_of, seen, Env, Framing,
};
use crate::codegen::steps::printed;
use crate::codegen::straight::{called_quiet, data, run_any};
use crate::codegen::vectors::{
    ac, ac_busy, array_name, name_parts, operand_busy, operand_ok, sim_ac, temps_pointed,
};
use crate::codegen::whole::{bindings_end, lemma_bindings_next, lemma_prints_next, print_made, stmt_parts};
use crate::codegen::work::{
    called, declared, kept, kinds, put, stored, temps_released, Inst, Operand, WorkView,
};
use crate::codegen::workings::{
    busy, lemma_below_then, lemma_busy_then, lemma_quiet_busy, lemma_sees_busy, lemma_temps_stay,
    lemma_worked_then, lessened, run_temps, temp_object, temps_alive, temps_quiet, worked,
};
use crate::eval::numeric::{binding_context, DEFAULT_DIGITS};
use crate::eval::ops::summed;
use crate::eval::semantics;
use crate::eval::semantics::{defined, World};
use crate::eval::value::{comma_separated, item_texts, val_text, Val};
use crate::runtime::array::{cell_text, cell_texts, ArrayView, CellView};

verus! {

// ── the statements ──────────────────────────────────────────────────────────

/// The representation that a declaration of one name gives it.
pub open spec fn declared_native(v: VarDecl) -> Option<Native> {
    if v.bindings@.len() == 1 {
        match native_of(v.ty, v.bindings@[0].shape) {
            Ok(n) => Some(n),
            Err(_) => None,
        }
    } else {
        None
    }
}

/// What can be printed where arrays can.
pub open spec fn shows_ok(env: Env, e: Expr, first: bool) -> bool {
    ||| print_ok(env, e) && (first || !talks(e))
    ||| !(e.kind is Str) && array_name(env, e, nat_of(env, e))
    ||| first && !(e.kind is Str) && nat_of(env, e) is Array && ac(env, e, nat_of(env, e), None)
}

/// A statement that makes arrays.
pub open spec fn broad_ok(env: Env, stmt: Stmt, bars: Bars) -> bool {
    match stmt {
        Stmt::Var(v) => declared_native(v) matches Some(n) && {
            let b = v.bindings@[0];
            &&& n is Array ==> v.ty.rank is Some || v.ty.base@ == "nna"@
            &&& !(n is Array) ==> v.ty.rank is None
            &&& !bars.fixed.contains(b.name@)
            &&& !bars.params.contains(b.name@)
            &&& b.value matches Some(e) && ac(
                placed(env, places_wanted(b.precision, v.ty.precision)),
                e,
                n,
                binding_context(v.ty, b.precision),
            )
        },
        Stmt::Print { args, .. } => forall|i: int| 0 <= i < args@.len() ==> shows_ok(env, #[trigger] args@[i], i == 0),
        _ => false,
    }
}

/// The lowering behind such a statement.
pub open spec fn broad_end(w: WorkView, stmt: Stmt) -> WorkView {
    temps_released(stmt_made(w, stmt).0, w.temps.len())
}

pub open spec fn broad_env(env: Env, stmt: Stmt) -> Env {
    match stmt {
        Stmt::Var(v) => match declared_native(v) {
            Some(n) => bound(env, v.bindings@[0].name@, n),
            None => env,
        },
        _ => env,
    }
}

// ── declarations ────────────────────────────────────────────────────────────

pub open spec fn broad_declared(w: WorkView, v: VarDecl, n: Native) -> WorkView {
    let b = v.bindings@[0];
    let (w1, r) = expr_made(with_digits(w, places_wanted(b.precision, v.ty.precision)), b.value->0, n);
    let at = w1.code.len() as usize;
    let w2 = kept(put(w1, Inst::Slot(kind_of(n))), r, n);
    let w3 = put(w2, Inst::Store { into: at, value: r.at });
    with_digits(declared(w3, b.name@, at, n), DEFAULT_DIGITS)
}

#[verifier::spinoff_prover]
proof fn broad_var_parts(w: WorkView, env: Env, v: VarDecl, bars: Bars)
    requires
        broad_ok(env, Stmt::Var(v), bars),
        attuned(w, env),
        w.open,
    ensures
        ({
            let n = declared_native(v)->0;
            let b = v.bindings@[0];
            let digits = places_wanted(b.precision, v.ty.precision);
            let w0 = with_digits(w, digits);
            let (w1, r) = expr_made(w0, b.value->0, n);
            let w1s = put(w1, Inst::Slot(kind_of(n)));
            let w2 = kept(w1s, r, n);
            let w3 = put(w2, Inst::Store { into: w1.code.len() as usize, value: r.at });
            let wd = broad_declared(w, v, n);
            &&& holdable(n)
            &&& attuned(w0, placed(env, digits))
            &&& busy(w0, w1)
            &&& r.kind == kind_of(n)
            &&& n is Array ==> w1.temps.len() > w.temps.len() && w1.temps.last().value == r
            &&& temps_pointed(w.temps.len(), w1)
            &&& quiet(w1s, w2)
            &&& stmt_made(w, Stmt::Var(v)) == (wd, false)
            &&& wd.code == w3.code && wd.texts == w3.texts && wd.temps == w1.temps && wd.open
            &&& wd.frames == declared(w, b.name@, w1.code.len() as usize, n).frames
            &&& w3.frames == w.frames
            &&& wd == (WorkView { code: wd.code, texts: wd.texts, temps: wd.temps, frames: wd.frames, digits: DEFAULT_DIGITS, ..w })
            &&& extended_temps(w, wd)
        }),
{
    let n = declared_native(v)->0;
    let b = v.bindings@[0];
    let digits = places_wanted(b.precision, v.ty.precision);
    let w0 = with_digits(w, digits);
    let hint = binding_context(v.ty, b.precision);
    ac_busy(w0, placed(env, digits), b.value->0, n, hint);
    let (w1, r) = expr_made(w0, b.value->0, n);
    let w1s = put(w1, Inst::Slot(kind_of(n)));
    kept_quiet(w1s, r, n);
    stmt_parts(w, Stmt::Var(v));
    lemma_bindings_next(w, v, 0, n);
    let wb = binding_made(w, b, n, digits);
    bindings_end(wb, v, 1);
    assert(wb == broad_declared(w, v, n)) by {
        reveal(binding_made);
        reveal(stored);
    }
    reveal(declared);
    let wd = broad_declared(w, v, n);
    assert(wd.temps.take(w.temps.len() as int) =~= w.temps);
}

pub open spec fn extended_temps(w: WorkView, w1: WorkView) -> bool {
    w.temps.len() <= w1.temps.len() && w1.temps.take(w.temps.len() as int) == w.temps
}

/// What lowering such a statement leaves.
#[verifier::spinoff_prover]
pub(crate) proof fn calm_broad(w: WorkView, env: Env, stmt: Stmt, bars: Bars)
    requires
        broad_ok(env, stmt, bars),
        attuned(w, env),
        env.digits == DEFAULT_DIGITS,
        w.open,
    ensures
        !stmt_made(w, stmt).1,
        ({
            let w2 = broad_end(w, stmt);
            &&& w2.temps == w.temps
            &&& w2.digits == w.digits
            &&& w2.open
            &&& w2.handbacks == w.handbacks
            &&& w2.ret == w.ret
            &&& w2.top == w.top
            &&& w.code.len() <= w2.code.len()
            &&& attuned(w2, broad_env(env, stmt))
        }),
        broad_env(env, stmt).digits == DEFAULT_DIGITS,
        broad_env(env, stmt).fns == env.fns,
        broad_env(env, stmt).functions == env.functions,
{
    stmt_parts(w, stmt);
    match stmt {
        Stmt::Var(v) => {
            broad_var_parts(w, env, v, bars);
            let n = declared_native(v)->0;
            let b = v.bindings@[0];
            let wd = broad_declared(w, v, n);
            let at = expr_made(with_digits(w, places_wanted(b.precision, v.ty.precision)), b.value->0, n).0.code.len() as usize;
            temps_quiet(wd, w.temps.len());
            let w2 = broad_end(w, stmt);
            lemma_declared_fits(w, env.s, b.name@, at, n);
            let wx = declared(w, b.name@, at, n);
            assert(attuned(w2, broad_env(env, stmt))) by {
                assert(w2.frames == wx.frames);
            }
        },
        Stmt::Print { args, .. } => {
            broad_prints_busy(w, env, args, 0);
            let w1 = prints_made(w, args, 0);
            let w2 = called(w1, Rt::PrintNewline, Seq::empty()).0;
            assert(kinds(Seq::<Operand>::empty()) =~= takes(Rt::PrintNewline));
            called_quiet(w1, Rt::PrintNewline, Seq::empty());
            lemma_quiet_busy(w1, w2);
            lemma_busy_then(w, w1, w2);
            assert(w2.temps.take(w.temps.len() as int) =~= w.temps);
            assert(temps_pointed(w.temps.len(), w2));
            temps_quiet(w2, w.temps.len());
            lemma_attuned(w, broad_end(w, stmt), env);
        },
        _ => {},
    }
}

#[verifier::spinoff_prover]
proof fn broad_print_busy(w: WorkView, env: Env, e: Expr, first: bool)
    requires
        shows_ok(env, e, first),
        attuned(w, env),
    ensures
        busy(w, print_made(w, e)),
        temps_pointed(w.temps.len(), print_made(w, e)),
        !print_ok(env, e) ==> {
            let n = nat_of(env, e);
            let (w1, v) = expr_made(w, e, n);
            &&& n is Array
            &&& operand_ok(env, e, n, None)
            &&& busy(w, w1)
            &&& v.kind == Kind::Ptr
            &&& print_made(w, e) == called(w1, Rt::PrintArray, seq![v]).0
            &&& quiet(w1, print_made(w, e))
        },
{
    if print_ok(env, e) {
        calm_print(w, env, e);
        lemma_quiet_busy(w, print_made(w, e));
    } else {
        let n = nat_of(env, e);
        lemma_natural(w, env, e);
        if array_name(env, e, n) {
            name_parts(w, env, e, n);
            lemma_array_name(env, e, n);
        }
        operand_busy(w, env, e, n, None);
        let (w1, v) = expr_made(w, e, n);
        assert(kinds(seq![v]) =~= takes(Rt::PrintArray));
        called_quiet(w1, Rt::PrintArray, seq![v]);
        reveal(printed);
        lemma_quiet_busy(w1, print_made(w, e));
        lemma_busy_then(w, w1, print_made(w, e));
    }
}

proof fn lemma_array_name(env: Env, e: Expr, n: Native)
    requires
        array_name(env, e, n),
    ensures
        n is Array,
    decreases e,
{
    if let ExprKind::Math(inner) = e.kind {
        lemma_array_name(env, *inner, n);
    }
}

#[verifier::spinoff_prover]
proof fn broad_prints_busy(w: WorkView, env: Env, args: Vec<Expr>, i: nat)
    requires
        forall|j: int| 0 <= j < args@.len() ==> shows_ok(env, #[trigger] args@[j], j == 0),
        attuned(w, env),
    ensures
        busy(w, prints_made(w, args, i)),
        temps_pointed(w.temps.len(), prints_made(w, args, i)),
        i < args@.len() ==> prints_made(w, args, i) == prints_made(print_made(w, args@[i as int]), args, i + 1),
        i >= args@.len() ==> prints_made(w, args, i) == w,
    decreases args@.len() - i,
{
    lemma_prints_next(w, args, i);
    if i < args@.len() {
        let w1 = print_made(w, args@[i as int]);
        broad_print_busy(w, env, args@[i as int], i == 0);
        lemma_attuned(w, w1, env);
        broad_prints_busy(w1, env, args, i + 1);
        let wf = prints_made(w, args, i);
        lemma_busy_then(w, w1, wf);
        assert forall|k: int| #![trigger wf.temps[k]] w.temps.len() <= k < wf.temps.len() implies (wf.temps[k].native is Array
            || wf.temps[k].native is Num) && wf.temps[k].value.kind == Kind::Ptr by {
            if k < w1.temps.len() {
                assert(wf.temps[k] == w1.temps[k]);
            }
        }
    }
}

#[verifier::spinoff_prover]
proof fn declaration_meaning(d: nat, world: World, v: VarDecl, n: Native)
    requires
        declared_native(v) == Some(n),
        v.bindings@[0].value is Some,
        n is Array ==> v.ty.rank is Some || v.ty.base@ == "nna"@,
        does_stmt(d, world, Stmt::Var(v)).1 is Ok,
    ensures
        ({
            let b = v.bindings@[0];
            let r = meaning(d, world, b.value->0, binding_context(v.ty, b.precision));
            &&& r.1 is Ok
            &&& n is Array || !(r.1->Ok_0 is Array) ==> does_stmt(d, world, Stmt::Var(v)) == normally(
                defined(r.0, b.name@, r.1->Ok_0),
            )
        }),
{
    reveal(does_stmt);
    reveal(meaning);
    reveal(summed);
    let b = v.bindings@[0];
    let hint = binding_context(v.ty, b.precision);
    let r = semantics::expr_result(d, world, b.value->0, hint);
    assert(semantics::statement_result(d, world, Stmt::Var(v)) == semantics::bindings_from(d, world, v, 0));
    if r.1 is Ok {
        let world1 = defined(r.0, b.name@, r.1->Ok_0);
        assert(semantics::bindings_from(d, world1, v, 1) == normally(world1));
    }
}

/// A declaration of what an expression on arrays comes to.
#[verifier::spinoff_prover]
#[verifier::rlimit(60)]
proof fn sim_broad_var(
    c: CompiledView,
    w: WorkView,
    env: Env,
    f: Framing,
    v: VarDecl,
    bars: Bars,
    guard: Set<int>,
    d: nat,
    world: World,
    m: Machine,
) -> (k: nat)
    requires
        broad_ok(env, Stmt::Var(v), bars),
        ready(c, w, env, f, bars, guard, world, m),
        sees(c, broad_end(w, Stmt::Var(v))),
        does_stmt(d, world, Stmt::Var(v)).1 is Ok,
    ensures
        ({
            let r = does_stmt(d, world, Stmt::Var(v));
            let wf = broad_end(w, Stmt::Var(v));
            &&& r == normally(r.0)
            &&& same_level(f.base, world, r.0)
            &&& agreed(w, wf, f, r.0, m, steps(c, m, k), wf.code.len() as int, bars, guard)
        }),
    decreases d, v, 0nat,
{
    let st = Stmt::Var(v);
    let n = declared_native(v)->0;
    let b = v.bindings@[0];
    let e = b.value->0;
    let digits = places_wanted(b.precision, v.ty.precision);
    let hint = binding_context(v.ty, b.precision);
    broad_var_parts(w, env, v, bars);
    calm_broad(w, env, st, bars);
    declaration_meaning(d, world, v, n);
    let w0 = with_digits(w, digits);
    let (w1, r) = expr_made(w0, e, n);
    let slot_inst = Inst::Slot(kind_of(n));
    let w1s = put(w1, slot_inst);
    let w2 = kept(w1s, r, n);
    let at0 = w1.code.len() as usize;
    let store = Inst::Store { into: at0, value: r.at };
    let w3 = put(w2, store);
    let wd = broad_declared(w, v, n);
    let wf = broad_end(w, st);
    let mark = w.temps.len();
    temps_quiet(wd, mark);
    assert(sees(c, wd)) by {
        lemma_sees_before(c, WorkView { temps: wd.temps.take(mark as int), ..wd }, wf);
    }
    assert(sees(c, w3));
    lemma_sees_put(c, w2, store);
    lemma_sees_before(c, w1s, w2);
    lemma_sees_put(c, w1, slot_inst);
    lemma_still_mirrors(w, w0, seen(world.frames, f), m, m);
    assert(abreast(c, w0, placed(env, digits), f, world, m));
    let out = meaning(d, world, e, hint);
    let k1 = sim_ac(c, w0, placed(env, digits), f, e, n, hint, d, world, m);
    let m1 = steps(c, m, k1);
    let x = out.1->Ok_0;
    if !(n is Array) {
        crate::codegen::correct::lemma_rep_single(reg(top(m1), r.at), x, n);
    }
    run_value(c, w1, m1, slot_inst, Datum::Slot(w1.code.len() as int));
    lemma_steps_add(c, m, k1, 1);
    let m2 = steps(c, m, k1 + 1);
    assert(reg(top(m2), r.at) == reg(top(m1), r.at));
    kept_quiet(w1s, r, n);
    let k2: nat = if n is Array {
        run_held(c, w1s, m2, r, Rt::ArrayRetain);
        2
    } else {
        run_kept(c, w1s, m2, r, n, x)
    };
    lemma_steps_add(c, m, k1 + 1, k2);
    let m3 = steps(c, m, k1 + 1 + k2);
    assert(reg(top(m3), r.at) == reg(top(m2), r.at));
    let a = Activation {
        pc: top(m3).pc + 1,
        slots: top(m3).slots.insert((at0 as int, 0), reg(top(m3), r.at)),
        ..top(m3)
    };
    run_effect(c, w2, m3, store, a);
    lemma_steps_add(c, m, k1 + 1 + k2, 1);
    let m4 = steps(c, m, k1 + 1 + k2 + 1);
    assert(m4 == with(m3, a));
    assert(top(m4) == a);
    // The temporaries are where they were.
    assert forall|q: int|
        #![trigger wd.temps[q]]
        mark <= q < wd.temps.len() implies {
        &&& wd.temps[q] == w1.temps[q]
        &&& reg(top(m4), wd.temps[q].value.at) == reg(top(m1), w1.temps[q].value.at)
        &&& m4.heap[temp_object(m4, wd.temps[q]) as int] is Some
        &&& m4.heap[temp_object(m4, wd.temps[q]) as int]->0.count >= m1.heap[temp_object(m1, w1.temps[q]) as int]->0.count
    } by {
        assert(w1.temps[q] == wd.temps[q]);
        let z = w1.temps[q].value.at;
        assert(reg(top(m3), z) == reg(top(m2), z));
        assert(reg(top(m2), z) == reg(top(m1), z));
    }
    assert(temps_alive(wd, mark, m4, m.heap.len())) by {
        assert forall|i: int, j: int|
            #![trigger wd.temps[i], wd.temps[j]]
            mark <= i < j < wd.temps.len() implies temp_object(m4, wd.temps[i]) < temp_object(m4, wd.temps[j]) by {
            assert(temp_object(m1, w1.temps[i]) < temp_object(m1, w1.temps[j]));
        }
    }
    assert(m4.calls =~= seq![top(m4)]);
    let k3 = run_temps(c, wd, mark, m4, m.heap.len());
    lemma_steps_add(c, m, k1 + 1 + k2 + 1, k3);
    let m5 = steps(c, m4, k3);
    // What was there before is as it was.
    assert(heap_grown(m.heap, m5.heap)) by {
        assert forall|o: int| 0 <= o < m.heap.len() implies #[trigger] m5.heap[o] == m.heap[o] by {
            assert forall|q: int| mark <= q < wd.temps.len() implies temp_object(m4, #[trigger] wd.temps[q]) != o by {
                assert(w1.temps[q] == wd.temps[q]);
            }
            assert(m5.heap[o] == m4.heap[o]);
            assert(m1.heap[o] == m.heap[o]);
            if n is Array {
                let q = w1.temps.len() - 1;
                assert(w1.temps[q] == w1.temps.last());
                assert(temp_object(m1, w1.temps[q]) >= m.heap.len());
            }
        }
    }
    assert forall|z: int, y: int| 0 <= z < w.code.len() implies #[trigger] slot(top(m5).slots, z, y) == slot(top(m).slots, z, y) by {
        assert(slot(top(m5).slots, z, y) == slot(top(m4).slots, z, y));
        assert(slot(top(m3).slots, z, y) == slot(top(m2).slots, z, y));
        assert(slot(top(m2).slots, z, y) == slot(top(m1).slots, z, y));
        assert(slot(top(m1).slots, z, y) == slot(top(m).slots, z, y));
    }
    assert forall|z: usize| z < w.code.len() implies #[trigger] reg(top(m5), z) == reg(top(m), z) by {
        assert(reg(top(m5), z) == reg(top(m4), z));
        assert(reg(top(m3), z) == reg(top(m2), z));
        assert(reg(top(m2), z) == reg(top(m1), z));
        assert(reg(top(m1), z) == reg(top(m), z));
    }
    assert(slot(top(m5).slots, at0 as int, 0) == slot(top(m4).slots, at0 as int, 0));
    assert(slot(top(m4).slots, at0 as int, 0) == reg(top(m1), r.at));
    if n is Array {
        let q = w1.temps.len() - 1;
        assert(w1.temps[q] == w1.temps.last());
        assert(wd.temps[q] == w1.temps[q]);
        let o = temp_object(m1, w1.temps[q]);
        assert(reg(top(m1), r.at) == Datum::Object(o));
        assert(temp_object(m4, wd.temps[q]) == o);
        assert(m5.heap[o as int] == lessened(m4.heap[o as int]));
        assert(m4.heap[o as int]->0.value == m1.heap[o as int]->0.value);
    }
    assert(stands_for(m5.heap, slot(top(m5).slots, at0 as int, 0), x, n));
    lemma_declares(w, wf, seen(world.frames, f), m, m5, b.name@, at0, n, x, bars.fixed, guard);
    lemma_seen_defined(out.0, f, b.name@, x);
    assert(m5.calls =~= seq![top(m5)]);
    k1 + 1 + k2 + 1 + k3
}

// ── printing ────────────────────────────────────────────────────────────────

/// The same machine with another line in hand.
pub open spec fn relined(m: Machine, line: Seq<char>) -> Machine {
    Machine { line, ..m }
}

/// Whether the machine printed a text behind what was said meanwhile, and may have made heap
/// values.
pub open spec fn said_on(w: WorkView, w1: WorkView, m: Machine, m1: Machine, line: Seq<char>) -> bool {
    worked(w, w1, m, relined(m1, m.line)) && m1.line == line
}

#[verifier::spinoff_prover]
proof fn lemma_said_then(w: WorkView, w1: WorkView, w2: WorkView, m: Machine, m1: Machine, m2: Machine, line1: Seq<char>, line2: Seq<char>)
    requires
        said_on(w, w1, m, m1, line1),
        said_on(w1, w2, m1, m2, line2),
    ensures
        said_on(w, w2, m, m2, line2),
{
    let a1 = relined(m1, m.line);
    let a2 = relined(m2, m.line);
    let b2 = relined(m2, m1.line);
    assert(top(a1) == top(m1) && top(a2) == top(m2) && top(b2) == top(m2));
    assert(worked(w1, w2, a1, a2)) by {
        assert(temps_alive(w2, w1.temps.len(), a2, a1.heap.len())) by {
            assert(temps_alive(w2, w1.temps.len(), b2, m1.heap.len()));
            assert forall|k: int| #![trigger w2.temps[k]] 0 <= k < w2.temps.len() implies temp_object(a2, w2.temps[k]) == temp_object(
                b2,
                w2.temps[k],
            ) by {}
        }
        assert(a2 == (Machine { lines: a2.lines, heap: a2.heap, ..with(a1, top(a2)) })) by {
            assert(b2 == (Machine { lines: b2.lines, heap: b2.heap, ..with(m1, top(b2)) }));
        }
    }
    lemma_worked_then(w, w1, w2, m, a1, a2);
}

/// An array as it is printed, on both sides.
#[verifier::spinoff_prover]
proof fn lemma_array_text(a: ArrayView, v: Val, elem: Native)
    requires
        crate::codegen::boxes::array_rep(a, v, elem),
    ensures
        "{"@ + comma_separated(cell_texts(a.items)) + "}"@ == val_text(v),
{
    let items = v->Array_items;
    let p = cell_texts(a.items);
    let q = item_texts(items);
    assert(p =~= q) by {
        assert forall|i: int| 0 <= i < p.len() implies p[i] == q[i] by {
            assert(cell_rep(a.items[i], items[i]));
            lemma_cell_text(a.items[i], items[i]);
        }
    }
}

proof fn lemma_cell_text(c: CellView, v: Val)
    requires
        cell_rep(c, v),
    ensures
        cell_text(c) == val_text(v),
{
    reveal_with_fuel(crate::eval::decimal::normal, 2);
}

#[verifier::spinoff_prover]
#[verifier::rlimit(40)]
proof fn sim_broad_print(c: CompiledView, w: WorkView, env: Env, f: Framing, e: Expr, first: bool, d: nat, world: World, m: Machine) -> (n: nat)
    requires
        shows_ok(env, e, first),
        abreast(c, w, env, f, world, m),
        first ==> m.line.len() == 0,
        sees(c, print_made(w, e)),
        meaning(d, world, e, None).1 is Ok,
    ensures
        ({
            let r = meaning(d, world, e, None);
            let m1 = steps(c, m, n);
            &&& moved_on(world, r.0)
            &&& said_on(w, print_made(w, e), m, m1, m.line + val_text(r.1->Ok_0))
            &&& m1.lines == r.0.lines
        }),
    decreases d, e, 8nat,
{
    broad_print_busy(w, env, e, first);
    let wf = print_made(w, e);
    let out = meaning(d, world, e, None);
    if print_ok(env, e) && (first || !talks(e)) {
        let n = sim_print(c, w, env, f, e, d, world, m);
        let m1 = steps(c, m, n);
        calm_print(w, env, e);
        lemma_quiet_busy(w, wf);
        assert(top(relined(m1, m.line)) == top(m1));
        n
    } else {
        let n = nat_of(env, e);
        if print_ok(env, e) {
            lemma_print_array(env, e, n);
        }
        let (w1, v) = expr_made(w, e, n);
        lemma_sees_before(c, w1, wf);
        let k: nat = if array_name(env, e, n) {
            crate::codegen::vectors::sim_name(c, w, env, f, e, n, None, d, world, m);
            1
        } else {
            sim_ac(c, w, env, f, e, n, None, d, world, m)
        };
        let m1 = steps(c, m, k);
        let x = out.1->Ok_0;
        let a = array_of(m1.heap, reg(top(m1), v.at))->0;
        lemma_array_text(a, x, element_of(n));
        let args = seq![v];
        let given = data(top(m1), args);
        let act = Activation { pc: (w1.code.len() + args.len()) as int, args: given, ..top(m1) };
        let before = with(m1, act);
        let after = Machine { line: m1.line + val_text(x), ..before };
        assert(kinds(args) =~= takes(Rt::PrintArray));
        assert(runtime_call(before, top(m1).slots, Rt::PrintArray, given) == Call::Gives(after, top(m1).slots, Datum::Nothing)) by {
            reveal(runtime_call);
            assert(given[0] == reg(top(m1), v.at));
            assert(array_in(before, given[0]) == Some(a));
        }
        run_any(c, w1, m1, Rt::PrintArray, args, after, top(m1).slots, Datum::Nothing);
        lemma_steps_add(c, m, k, 2);
        let m2 = steps(c, m, k + 2);
        assert(m2.calls =~= seq![top(m2)]);
        assert(top(relined(m2, m1.line)) == top(m2));
        assert(said_on(w1, wf, m1, m2, m1.line + val_text(x))) by {
            lemma_quiet_busy(w1, wf);
        }
        assert(relined(m1, m.line) == m1);
        lemma_said_then(w, w1, wf, m, m1, m2, m1.line, m1.line + val_text(x));
        k + 2
    }
}

/// What stands for a single value is not an array.
proof fn lemma_print_array(env: Env, e: Expr, n: Native)
    requires
        print_ok(env, e),
        !(e.kind is Str),
        n == nat_of(env, e),
    ensures
        single(n),
        !array_name(env, e, n),
        !(n is Array),
{
    crate::codegen::scalars::sc_single(env, e, n, None);
    if array_name(env, e, n) {
        lemma_array_name(env, e, n);
    }
}

#[verifier::spinoff_prover]
#[verifier::rlimit(40)]
proof fn sim_broad_prints(c: CompiledView, w: WorkView, env: Env, f: Framing, args: Vec<Expr>, i: nat, d: nat, world: World, m: Machine) -> (n: nat)
    requires
        forall|j: int| 0 <= j < args@.len() ==> shows_ok(env, #[trigger] args@[j], j == 0),
        abreast(c, w, env, f, world, m),
        i == 0 ==> m.line.len() == 0,
        sees(c, prints_made(w, args, i)),
        does_texts(d, world, args, i, m.line).1 is Ok,
    ensures
        ({
            let r = does_texts(d, world, args, i, m.line);
            let m1 = steps(c, m, n);
            &&& moved_on(world, r.0)
            &&& said_on(w, prints_made(w, args, i), m, m1, r.1->Ok_0)
            &&& m1.lines == r.0.lines
        }),
    decreases d, args, args@.len() - i, 8nat,
{
    broad_prints_busy(w, env, args, i);
    texts_next(d, world, args, i, m.line);
    if i < args@.len() {
        let e = args@[i as int];
        let w1 = print_made(w, e);
        let wf = prints_made(w, args, i);
        broad_print_busy(w, env, e, i == 0);
        lemma_attuned(w, w1, env);
        broad_prints_busy(w1, env, args, i + 1);
        lemma_sees_busy(c, w1, wf);
        let k = sim_broad_print(c, w, env, f, e, i == 0, d, world, m);
        let m1 = steps(c, m, k);
        let world1 = meaning(d, world, e, None).0;
        let a1 = relined(m1, m.line);
        assert(top(a1) == top(m1));
        lemma_still_mirrors(w, w1, seen(world.frames, f), m, m1);
        assert(abreast(c, w1, env, f, world1, m1));
        let j = sim_broad_prints(c, w1, env, f, args, i + 1, d, world1, m1);
        lemma_steps_add(c, m, k, j);
        let line2 = does_texts(d, world, args, i, m.line).1->Ok_0;
        lemma_said_then(w, w1, wf, m, m1, steps(c, m, k + j), m1.line, line2);
        k + j
    } else {
        assert(m.calls =~= seq![top(m)]);
        assert(relined(m, m.line) == m);
        lemma_quiet_busy(w, w);
        0
    }
}

/// A line with arrays in it.
#[verifier::spinoff_prover]
#[verifier::rlimit(60)]
proof fn sim_broad_line(
    c: CompiledView,
    w: WorkView,
    env: Env,
    f: Framing,
    stmt: Stmt,
    args: Vec<Expr>,
    bars: Bars,
    guard: Set<int>,
    d: nat,
    world: World,
    m: Machine,
) -> (k: nat)
    requires
        stmt matches Stmt::Print { args: xs, .. } && xs == args,
        broad_ok(env, stmt, bars),
        ready(c, w, env, f, bars, guard, world, m),
        sees(c, broad_end(w, stmt)),
        does_stmt(d, world, stmt).1 is Ok,
    ensures
        ({
            let r = does_stmt(d, world, stmt);
            let wf = broad_end(w, stmt);
            &&& r == normally(r.0)
            &&& same_level(f.base, world, r.0)
            &&& agreed(w, wf, f, r.0, m, steps(c, m, k), wf.code.len() as int, bars, guard)
        }),
    decreases d, args, args@.len() + 1, 8nat,
{
    calm_broad(w, env, stmt, bars);
    stmt_parts(w, stmt);
    does_stmt_parts(d, world, stmt);
    broad_prints_busy(w, env, args, 0);
    let w1 = prints_made(w, args, 0);
    let w2 = called(w1, Rt::PrintNewline, Seq::empty()).0;
    let wf = broad_end(w, stmt);
    assert(kinds(Seq::<Operand>::empty()) =~= takes(Rt::PrintNewline));
    called_quiet(w1, Rt::PrintNewline, Seq::empty());
    lemma_quiet_busy(w1, w2);
    lemma_busy_then(w, w1, w2);
    let mark = w.temps.len();
    assert(temps_pointed(mark, w2));
    temps_quiet(w2, mark);
    assert(w2.temps.take(mark as int) =~= w.temps);
    assert(sees(c, w2)) by {
        lemma_sees_before(c, WorkView { temps: w2.temps.take(mark as int), ..w2 }, wf);
    }
    lemma_sees_before(c, w1, w2);
    assert(m.line =~= Seq::<char>::empty());
    let k1 = sim_broad_prints(c, w, env, f, args, 0, d, world, m);
    let m1 = steps(c, m, k1);
    assert(top(relined(m1, m.line)) == top(m1));
    run_newline(c, w1, m1);
    lemma_steps_add(c, m, k1, 1);
    let m2 = steps(c, m, k1 + 1);
    assert(temps_alive(w1, mark, m1, m.heap.len())) by {
        let a1 = relined(m1, m.line);
        assert(temps_alive(w1, mark, a1, m.heap.len()));
        assert forall|k: int| #![trigger w1.temps[k]] 0 <= k < w1.temps.len() implies temp_object(a1, w1.temps[k]) == temp_object(
            m1,
            w1.temps[k],
        ) by {}
    }
    lemma_temps_stay(w1, w2, mark, m1, m2, m.heap.len());
    let k2 = run_temps(c, w2, mark, m2, m.heap.len());
    let m3 = steps(c, m2, k2);
    lemma_steps_add(c, m, k1 + 1, k2);
    assert(heap_grown(m.heap, m3.heap)) by {
        assert forall|o: int| 0 <= o < m.heap.len() implies #[trigger] m3.heap[o] == m.heap[o] by {
            assert forall|q: int| mark <= q < w2.temps.len() implies temp_object(m2, #[trigger] w2.temps[q]) != o by {}
            assert(m3.heap[o] == m2.heap[o]);
            assert(m1.heap[o] == m.heap[o]);
        }
    }
    lemma_below_then(w.code.len() as int, w1.code.len() as int, top(m), top(m1), top(m2));
    lemma_below_then(w.code.len() as int, w2.code.len() as int, top(m), top(m2), top(m3));
    lemma_still_mirrors(w, wf, seen(world.frames, f), m, m3);
    lemma_guarded_frames(w, wf, bars.fixed, guard);
    assert(m3.line =~= m.line);
    assert(m3.calls =~= seq![top(m3)]);
    k1 + 1 + k2
}

/// A statement that makes arrays does what the interpreter does.
pub(crate) proof fn sim_broad(
    c: CompiledView,
    w: WorkView,
    env: Env,
    f: Framing,
    stmt: Stmt,
    bars: Bars,
    guard: Set<int>,
    d: nat,
    world: World,
    m: Machine,
) -> (k: nat)
    requires
        broad_ok(env, stmt, bars),
        ready(c, w, env, f, bars, guard, world, m),
        sees(c, broad_end(w, stmt)),
        does_stmt(d, world, stmt).1 is Ok,
    ensures
        ({
            let r = does_stmt(d, world, stmt);
            let wf = broad_end(w, stmt);
            &&& r == normally(r.0)
            &&& same_level(f.base, world, r.0)
            &&& agreed(w, wf, f, r.0, m, steps(c, m, k), wf.code.len() as int, bars, guard)
        }),
    decreases d, stmt, 0nat,
{
    match stmt {
        Stmt::Var(v) => sim_broad_var(c, w, env, f, v, bars, guard, d, world, m),
        Stmt::Print { args, .. } => sim_broad_line(c, w, env, f, stmt, args, bars, guard, d, world, m),
        _ => 0,
    }
}

} // verus!
