//! A function runs as the top level of a program of its own would.

use vstd::prelude::*;

use crate::codegen::lowering::CompiledView;
use crate::codegen::machine::{
    each_settled, array_call, element_call, exact_call, function_of, num_call, outside_call, runtime_call,
    stepped, steps, Activation, Call, Datum, Machine, Slots,
};
use crate::codegen::runtime::Rt;
use crate::codegen::work::Inst;

use crate::runtime::array::CellView;

verus! {

/// The program with one of its functions as its top level.
pub open spec fn program_at(c: CompiledView, i: nat) -> CompiledView {
    CompiledView { functions: c.functions, main: c.functions[i as int] }
}

/// The same machine with other calls.
pub open spec fn recalled(m: Machine, calls: Seq<Activation>) -> Machine {
    Machine { calls, ..m }
}

/// What a runtime call comes to does not depend on who called.
pub open spec fn recalled_call(r: Call, calls: Seq<Activation>) -> Call {
    match r {
        Call::Gives(m, s, v) => Call::Gives(recalled(m, calls), s, v),
        Call::Ends(e) => Call::Ends(e),
    }
}

#[verifier::spinoff_prover]
proof fn exact_alike(m: Machine, s: Slots, f: Rt, a: Seq<Datum>, calls: Seq<Activation>)
    ensures
        exact_call(recalled(m, calls), s, f, a) == recalled_call(exact_call(m, s, f, a), calls),
        exact_call(m, s, f, a) matches Call::Gives(m1, _, _) ==> m1.calls == m.calls,
{
}

#[verifier::spinoff_prover]
proof fn outside_alike(m: Machine, s: Slots, f: Rt, a: Seq<Datum>, calls: Seq<Activation>)
    ensures
        outside_call(recalled(m, calls), s, f, a) == recalled_call(outside_call(m, s, f, a), calls),
        outside_call(m, s, f, a) matches Call::Gives(m1, _, _) ==> m1.calls == m.calls,
{
}

#[verifier::spinoff_prover]
proof fn num_alike(m: Machine, s: Slots, f: Rt, a: Seq<Datum>, calls: Seq<Activation>)
    ensures
        num_call(recalled(m, calls), s, f, a) == recalled_call(num_call(m, s, f, a), calls),
        num_call(m, s, f, a) matches Call::Gives(m1, _, _) ==> m1.calls == m.calls,
{
}

#[verifier::spinoff_prover]
proof fn element_alike(m: Machine, s: Slots, f: Rt, a: Seq<Datum>, calls: Seq<Activation>)
    ensures
        element_call(recalled(m, calls), s, f, a) == recalled_call(element_call(m, s, f, a), calls),
        element_call(m, s, f, a) matches Call::Gives(m1, _, _) ==> m1.calls == m.calls,
{
}

proof fn each_alike(m: Machine, op: u32, items: Seq<CellView>, digits: u32, n: nat, calls: Seq<Activation>)
    ensures
        each_settled(recalled(m, calls), op, items, digits, n) == (match each_settled(m, op, items, digits, n) {
            Ok((m1, done)) => Ok((recalled(m1, calls), done)),
            Err(e) => Err(e),
        }),
        each_settled(m, op, items, digits, n) matches Ok((m1, _)) ==> m1.calls == m.calls,
    decreases n,
{
    if n > 0 {
        each_alike(m, op, items, digits, (n - 1) as nat, calls);
    }
}

#[verifier::spinoff_prover]
#[verifier::rlimit(60)]
proof fn array_alike(m: Machine, s: Slots, f: Rt, a: Seq<Datum>, calls: Seq<Activation>)
    ensures
        array_call(recalled(m, calls), s, f, a) == recalled_call(array_call(m, s, f, a), calls),
        array_call(m, s, f, a) matches Call::Gives(m1, _, _) ==> m1.calls == m.calls,
{
    if let Some(x) = crate::codegen::machine::array_in(m, a[1]) {
        each_alike(m, crate::codegen::machine::small(a[0]), x.items, crate::codegen::machine::small(a[2]), x.items.len(), calls);
    }
}

pub(crate) proof fn lemma_recalled(m: Machine, s: Slots, f: Rt, a: Seq<Datum>, calls: Seq<Activation>)
    ensures
        runtime_call(recalled(m, calls), s, f, a) == recalled_call(runtime_call(m, s, f, a), calls),
        runtime_call(m, s, f, a) matches Call::Gives(m1, _, _) ==> m1.calls == m.calls,
{
    reveal(runtime_call);
    exact_alike(m, s, f, a, calls);
    outside_alike(m, s, f, a, calls);
    num_alike(m, s, f, a, calls);
    element_alike(m, s, f, a, calls);
    array_alike(m, s, f, a, calls);
}

/// The calls of a function that runs by itself, on top of those of its callers.
pub open spec fn stacked(calls: Seq<Activation>, i: nat, base: Seq<Activation>) -> Seq<Activation> {
    base + calls.update(0, Activation { function: Some(i), ..calls[0] })
}

pub open spec fn lifted(m: Machine, i: nat, base: Seq<Activation>) -> Machine {
    recalled(m, stacked(m.calls, i, base))
}

/// The first call is the top level's, and no other is.
pub open spec fn rooted(m: Machine) -> bool {
    &&& m.calls.len() > 0
    &&& m.calls[0].function is None
    &&& forall|k: int| 0 < k < m.calls.len() ==> (#[trigger] m.calls[k]).function is Some
}

proof fn lemma_ended_stays(c: CompiledView, m: Machine, n: nat)
    requires
        m.end is Some,
    ensures
        steps(c, m, n).end is Some,
    decreases n,
{
    if n > 0 {
        reveal(stepped);
        lemma_ended_stays(c, m, (n - 1) as nat);
    }
}

#[verifier::spinoff_prover]
#[verifier::rlimit(40)]
proof fn lemma_lifted_step(c: CompiledView, i: nat, base: Seq<Activation>, m: Machine)
    requires
        i < c.functions.len(),
        m.end is None,
        rooted(m),
        stepped(program_at(c, i), m).end is None,
    ensures
        stepped(c, lifted(m, i, base)) == lifted(stepped(program_at(c, i), m), i, base),
        rooted(stepped(program_at(c, i), m)),
{
    reveal(stepped);
    let d = program_at(c, i);
    let a = m.calls.last();
    let up = lifted(m, i, base);
    let b = up.calls.last();
    let single = m.calls.len() == 1;
    assert(b == if single { Activation { function: Some(i), ..a } } else { a });
    let f = function_of(d, a.function);
    assert(function_of(c, b.function) == f) by {
        if single {
        } else {
            let k = m.calls.len() - 1;
            assert(m.calls[k].function is Some);
        }
    }
    let m1 = stepped(d, m);
    let stack = stacked(m.calls, i, base);
    match f.code[a.pc] {
        Inst::CallRt(rt) => {
            lemma_recalled(m, a.slots, rt, a.args, stack);
        },
        Inst::CallFn { index, .. } => {
            assert(rooted(m1)) by {
                assert forall|k: int| 0 < k < m1.calls.len() implies (#[trigger] m1.calls[k]).function is Some by {
                    if k < m.calls.len() {
                        assert(m.calls[k].function == m1.calls[k].function);
                    }
                }
                assert(m1.calls[0].function == m.calls[0].function);
            }
        },
        _ => {},
    }
    assert(stepped(c, up).calls =~= stacked(m1.calls, i, base));
    if m1.calls.len() > 0 {
        assert forall|k: int| 0 < k < m1.calls.len() implies (#[trigger] m1.calls[k]).function is Some by {
            if k < m.calls.len() {
                assert(m.calls[k].function is Some);
            }
        }
    }
}

/// A function does on top of its callers what it does by itself.
pub(crate) proof fn lemma_lifted(c: CompiledView, i: nat, base: Seq<Activation>, m: Machine, n: nat)
    requires
        i < c.functions.len(),
        rooted(m),
        steps(program_at(c, i), m, n).end is None,
    ensures
        steps(c, lifted(m, i, base), n) == lifted(steps(program_at(c, i), m, n), i, base),
    decreases n,
{
    if n > 0 {
        let d = program_at(c, i);
        let m1 = stepped(d, m);
        if m.end is Some {
            lemma_ended_stays(d, m, n);
        }
        if m1.end is Some {
            lemma_ended_stays(d, m1, (n - 1) as nat);
        }
        lemma_lifted_step(c, i, base, m);
        lemma_lifted(c, i, base, m1, (n - 1) as nat);
    }
}

} // verus!
