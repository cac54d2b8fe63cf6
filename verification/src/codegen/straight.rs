//! Stretches of code that run straight through: runtime calls, exact arithmetic, orders.

use vstd::prelude::*;

use crate::codegen::laws::extended;
use crate::codegen::lowering::CompiledView;
use crate::codegen::machine::{reg, runtime_call, slot, steps, Activation, Call, Datum, Machine, Slots};
use crate::codegen::native::allocated_by;
use crate::codegen::runtime::{gives, takes, Kind, Rt};
use crate::codegen::simulation::{
    lemma_calls, lemma_does, lemma_extended_then, lemma_quiet_then, lemma_sees_before, lemma_sees_put,
    lemma_steps_add, quiet, ran, run_effect, run_value, running, sees, sound, stands, top, with,
};
use crate::codegen::work::{
    called, called_into, expecting_all, kinds, made, put, spilled, stored, with_args, Inst, Operand, WorkView,
};

verus! {

/// The data that operands stand for.
pub open spec fn data(a: Activation, args: Seq<Operand>) -> Seq<Datum> {
    Seq::new(args.len(), |i: int| reg(a, args[i].at))
}

/// Arguments emitted.
pub(crate) proof fn with_args_parts(w: WorkView, args: Seq<Operand>, i: nat)
    requires
        i <= args.len(),
    ensures
        ({
            let w1 = with_args(w, args, i);
            &&& w1 == (WorkView { code: w1.code, ..w })
            &&& w1.code.len() == w.code.len() + args.len() - i
            &&& extended(w.code, w1.code)
            &&& forall|k: int| i <= k < args.len() ==> #[trigger] w1.code[w.code.len() + k - i] == Inst::Arg(args[k].at)
        }),
    decreases args.len() - i,
{
    if i < args.len() {
        let w0 = put(w, Inst::Arg(args[i as int].at));
        with_args_parts(w0, args, i + 1);
        let w1 = with_args(w, args, i);
        assert(w1.code[w.code.len() as int] == w0.code[w.code.len() as int]);
        lemma_extended_then(w.code, w0.code, w1.code);
        assert forall|k: int| i <= k < args.len() implies #[trigger] w1.code[w.code.len() + k - i] == Inst::Arg(
            args[k].at,
        ) by {
            if k > i {
                assert(w1.code[w0.code.len() + k - (i + 1)] == Inst::Arg(args[k].at));
            }
        }
    }
}

pub(crate) proof fn run_args(c: CompiledView, w: WorkView, m: Machine, args: Seq<Operand>, i: nat)
    requires
        i <= args.len(),
        sees(c, with_args(w, args, i)),
        m.end is None,
        m.calls.len() == 1,
        top(m).function is None,
        top(m).pc == w.code.len(),
        top(m).args == data(top(m), args).take(i as int),
    ensures
        steps(c, m, (args.len() - i) as nat) == with(
            m,
            Activation { pc: (w.code.len() + args.len() - i) as int, args: data(top(m), args), ..top(m) },
        ),
    decreases args.len() - i,
{
    let given = data(top(m), args);
    if i < args.len() {
        let inst = Inst::Arg(args[i as int].at);
        let w0 = put(w, inst);
        with_args_parts(w, args, i);
        with_args_parts(w0, args, i + 1);
        assert(with_args(w, args, i).code[w.code.len() as int] == inst);
        let a = Activation { pc: top(m).pc + 1, args: given.take(i as int + 1), ..top(m) };
        assert(given.take(i as int).push(given[i as int]) =~= given.take(i as int + 1));
        lemma_does(c, m, inst, a);
        let m1 = with(m, a);
        assert(data(a, args) =~= given);
        run_args(c, w0, m1, args, i + 1);
        lemma_steps_add(c, m, 1, (args.len() - i - 1) as nat);
    } else {
        assert(given.take(i as int) =~= given);
        assert(m.calls =~= seq![top(m)]);
    }
}

/// Any call into the runtime that makes no value to release.
#[verifier::spinoff_prover]
pub(crate) proof fn run_any(
    c: CompiledView,
    w: WorkView,
    m: Machine,
    f: Rt,
    args: Seq<Operand>,
    after: Machine,
    slots: Slots,
    v: Datum,
)
    requires
        sound(c),
        sees(c, called(w, f, args).0),
        stands(w, m),
        kinds(args) =~= takes(f),
        allocated_by(f) is None,
        ({
            let given = data(top(m), args);
            let a = Activation { pc: (w.code.len() + args.len()) as int, args: given, ..top(m) };
            &&& runtime_call(with(m, a), top(m).slots, f, given) == Call::Gives(after, slots, v)
            &&& after.calls == seq![a]
            &&& after.end is None
        }),
    ensures
        ({
            let (w1, r) = called(w, f, args);
            let m1 = steps(c, m, args.len() + 1);
            &&& quiet(w, w1)
            &&& r.kind == match gives(f) {
                Some(k) => k,
                None => Kind::Ptr,
            }
            &&& r.at == w.code.len() + args.len()
            &&& w1.code.len() == w.code.len() + args.len() + 1
            &&& m1 == with(
                after,
                Activation {
                    pc: w1.code.len() as int,
                    regs: top(m).regs.insert(r.at as int, v),
                    slots,
                    args: Seq::empty(),
                    ..top(m)
                },
            )
            &&& running(m1)
            &&& reg(top(m1), r.at) == v
        }),
{
    reveal(called);
    reveal(expecting_all);
    let (wf, r) = called(w, f, args);
    let ready = with_args(w, args, 0);
    with_args_parts(w, args, 0);
    assert(wf == put(ready, Inst::CallRt(f)));
    lemma_sees_put(c, ready, Inst::CallRt(f));
    assert(top(m).args =~= data(top(m), args).take(0));
    run_args(c, w, m, args, 0);
    let n = args.len();
    let a = Activation { pc: (w.code.len() + n) as int, args: data(top(m), args), ..top(m) };
    let m1 = with(m, a);
    assert(wf.code[ready.code.len() as int] == Inst::CallRt(f));
    lemma_calls(c, m1, f, after, slots, v);
    lemma_steps_add(c, m, n, 1);
    lemma_extended_then(w.code, ready.code, wf.code);
}

/// A value put into a slot for its address.
pub(crate) proof fn run_spilled(c: CompiledView, w: WorkView, m: Machine, v: Operand, kind: Kind)
    requires
        sound(c),
        sees(c, spilled(w, v, kind).0),
        stands(w, m),
        v.kind == kind,
        v.at < w.code.len(),
    ensures
        ({
            let (w1, r) = spilled(w, v, kind);
            let m1 = steps(c, m, 2);
            let p = w.code.len() as int;
            &&& ran(w, w1, m, m1)
            &&& r == (Operand { at: p as usize, kind: Kind::Ptr })
            &&& w1.code.len() == p + 2
            &&& top(m1).regs == top(m).regs.insert(p, Datum::Slot(p))
            &&& top(m1).slots == top(m).slots.insert((p, 0), reg(top(m), v.at))
        }),
{
    reveal(spilled);
    reveal(stored);
    let p = w.code.len() as int;
    let s = Inst::Slot(kind);
    let w1 = put(w, s);
    let store = Inst::Store { into: p as usize, value: v.at };
    let w2 = put(w1, store);
    lemma_sees_put(c, w1, store);
    run_value(c, w, m, s, Datum::Slot(p));
    let m1 = steps(c, m, 1);
    let a = Activation { pc: p + 2, slots: top(m1).slots.insert((p, 0), reg(top(m1), v.at)), ..top(m1) };
    run_effect(c, w1, m1, store, a);
    lemma_steps_add(c, m, 1, 1);
    let m2 = steps(c, m, 2);
    lemma_quiet_then(w, w1, w2);
    assert(m2.calls =~= seq![top(m2)]);
    assert forall|i: usize| i < w.code.len() implies #[trigger] reg(top(m2), i) == reg(top(m), i) by {}
    assert forall|i: int, k: int| 0 <= i < w.code.len() implies #[trigger] slot(top(m2).slots, i, k) == slot(
        top(m).slots,
        i,
        k,
    ) by {}
}

/// A call that writes its result through a pointer.
#[verifier::spinoff_prover]
pub(crate) proof fn run_into(c: CompiledView, w: WorkView, m: Machine, f: Rt, args: Seq<Operand>, kind: Kind, x: Datum)
    requires
        sound(c),
        sees(c, called_into(w, f, args, kind).0),
        stands(w, m),
        allocated_by(f) is None,
        forall|i: int| 0 <= i < args.len() ==> (#[trigger] args[i]).at < w.code.len(),
        kinds(seq![Operand { at: w.code.len() as usize, kind: Kind::Ptr }] + args) =~= takes(f),
        ({
            let p = w.code.len() as int;
            let given = seq![Datum::Slot(p)] + data(top(m), args);
            forall|any: Machine|
                #[trigger] runtime_call(any, top(m).slots, f, given) == Call::Gives(
                    any,
                    top(m).slots.insert((p, 0), x),
                    Datum::Nothing,
                )
        }),
    ensures
        ({
            let (w1, r) = called_into(w, f, args, kind);
            let m1 = steps(c, m, args.len() + 4);
            &&& ran(w, w1, m, m1)
            &&& r.kind == kind
            &&& r.at < w1.code.len()
            &&& reg(top(m1), r.at) == x
        }),
{
    reveal(called_into);
    let p = w.code.len() as int;
    let s = Inst::Slot(kind);
    let (w1, out) = made(w, s, Kind::Ptr);
    let all = seq![out] + args;
    let w2 = called(w1, f, all).0;
    let load = Inst::Load { kind, from: out.at };
    let wf = put(w2, load);
    lemma_sees_put(c, w2, load);
    called_quiet(w1, f, all);
    lemma_sees_before(c, w1, w2);
    run_value(c, w, m, s, Datum::Slot(p));
    let m1 = steps(c, m, 1);
    let given = data(top(m1), all);
    assert(given =~= seq![Datum::Slot(p)] + data(top(m), args)) by {
        assert forall|i: int| 0 <= i < given.len() implies given[i] == (seq![Datum::Slot(p)] + data(top(m), args))[i] by {
            if i > 0 {
                assert(all[i] == args[i - 1]);
                assert(args[i - 1].at < w.code.len());
            }
        }
    }
    let a = Activation { pc: (w1.code.len() + all.len()) as int, args: given, ..top(m1) };
    let after = with(m1, a);
    let slots = top(m).slots.insert((p, 0), x);
    assert(runtime_call(after, top(m).slots, f, given) == Call::Gives(after, slots, Datum::Nothing));
    run_any(c, w1, m1, f, all, after, slots, Datum::Nothing);
    let n = all.len() + 1;
    let m2 = steps(c, m1, n);
    lemma_steps_add(c, m, 1, n);
    run_value(c, w2, m2, load, x);
    lemma_steps_add(c, m, 1 + n, 1);
    let m3 = steps(c, m, n + 2);
    lemma_quiet_then(w, w1, w2);
    lemma_quiet_then(w, w2, wf);
    assert(m3.calls =~= seq![top(m3)]);
    assert forall|i: usize| i < w.code.len() implies #[trigger] reg(top(m3), i) == reg(top(m), i) by {}
    assert forall|i: int, k: int| 0 <= i < w.code.len() implies #[trigger] slot(top(m3).slots, i, k) == slot(
        top(m).slots,
        i,
        k,
    ) by {}
}

/// What a runtime call that makes no value to release leaves alone.
pub(crate) proof fn called_quiet(w: WorkView, f: Rt, args: Seq<Operand>)
    requires
        allocated_by(f) is None,
        kinds(args) =~= takes(f),
    ensures
        quiet(w, called(w, f, args).0),
        called(w, f, args).1.kind == match gives(f) {
            Some(k) => k,
            None => Kind::Ptr,
        },
        called(w, f, args).0.code.len() == w.code.len() + args.len() + 1,
{
    reveal(called);
    reveal(expecting_all);
    with_args_parts(w, args, 0);
    let ready = with_args(w, args, 0);
    lemma_extended_then(w.code, ready.code, called(w, f, args).0.code);
}

/// What such a call that writes through a pointer leaves alone.
pub(crate) proof fn into_quiet(w: WorkView, f: Rt, args: Seq<Operand>, kind: Kind)
    requires
        allocated_by(f) is None,
        kinds(seq![Operand { at: w.code.len() as usize, kind: Kind::Ptr }] + args) =~= takes(f),
    ensures
        quiet(w, called_into(w, f, args, kind).0),
        called_into(w, f, args, kind).1.kind == kind,
{
    reveal(called_into);
    let (w1, out) = made(w, Inst::Slot(kind), Kind::Ptr);
    called_quiet(w1, f, seq![out] + args);
    let w2 = called(w1, f, seq![out] + args).0;
    lemma_quiet_then(w, w1, w2);
    lemma_quiet_then(w, w2, called_into(w, f, args, kind).0);
}

/// What putting a value into a slot leaves alone.
pub(crate) proof fn spilled_quiet(w: WorkView, v: Operand, kind: Kind)
    requires
        v.kind == kind,
    ensures
        quiet(w, spilled(w, v, kind).0),
        spilled(w, v, kind).1 == (Operand { at: w.code.len() as usize, kind: Kind::Ptr }),
        spilled(w, v, kind).0.code.len() == w.code.len() + 2,
{
    reveal(spilled);
    reveal(stored);
    lemma_extended_then(w.code, put(w, Inst::Slot(kind)).code, spilled(w, v, kind).0.code);
}

} // verus!
