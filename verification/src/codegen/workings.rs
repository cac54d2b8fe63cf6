//! Stretches of code that make heap values, and how they let them go.

use vstd::prelude::*;

use crate::codegen::boxes::{heap_grown, lemma_heap_then, Heap};
use crate::codegen::laws::extended;
use crate::codegen::lowering::CompiledView;
use crate::codegen::machine::{
    placed, reg, runtime_call, slot, steps, Activation, Boxed, Call, Datum, Held, Machine,
};
use crate::codegen::native::allocated_by;
use crate::codegen::runtime::{gives, takes, Kind, Rt};
use crate::codegen::simulation::{
    keeps_below, lemma_calls, lemma_extended_then, lemma_quiet_then, lemma_sees_before, lemma_sees_put,
    lemma_steps_add, quiet, running, sees, sound, stands, top, with,
};
use crate::codegen::straight::{data, run_any, run_args, with_args_parts};
use crate::codegen::work::{
    called, expecting_all, kinds, let_go, put, temps_popped, temps_released, with_args, Inst, Operand, Temp,
    WorkView,
};

verus! {

// ── the lowering ────────────────────────────────────────────────────────────

/// What lowering something leaves alone: all but the temporaries, of which there may be
/// more.
pub open spec fn busy(a: WorkView, b: WorkView) -> bool {
    &&& quiet(a, WorkView { temps: a.temps, ..b })
    &&& extended(a.temps, b.temps)
}

pub(crate) proof fn lemma_busy_then(a: WorkView, b: WorkView, c: WorkView)
    requires
        busy(a, b),
        busy(b, c),
    ensures
        busy(a, c),
{
    lemma_extended_then(a.code, b.code, c.code);
    lemma_extended_then(a.texts, b.texts, c.texts);
    assert forall|i: int| 0 <= i < a.temps.len() implies c.temps[i] == a.temps[i] by {
        assert(b.temps[i] == a.temps[i]);
    }
}

pub(crate) proof fn lemma_quiet_busy(a: WorkView, b: WorkView)
    requires
        quiet(a, b),
    ensures
        busy(a, b),
{
}

pub(crate) proof fn lemma_sees_busy(c: CompiledView, a: WorkView, b: WorkView)
    requires
        busy(a, b),
        sees(c, b),
    ensures
        sees(c, a),
{
    lemma_sees_before(c, a, WorkView { temps: a.temps, ..b });
}

// ── the machine ─────────────────────────────────────────────────────────────

/// The heap value that a temporary stands for.
pub open spec fn temp_object(m: Machine, t: Temp) -> nat {
    reg(top(m), t.value.at)->Object_0
}

/// The temporaries from the `from`-th on are heap values no older than `base`, each held
/// `count` times at least, and none of them twice.
pub open spec fn temps_alive(w: WorkView, from: nat, m: Machine, base: nat) -> bool {
    &&& forall|k: int|
        #![trigger w.temps[k]]
        from <= k < w.temps.len() ==> {
            let t = w.temps[k];
            &&& t.native is Array || t.native is Num
            &&& t.value.kind == Kind::Ptr
            &&& t.value.at < w.code.len()
            &&& reg(top(m), t.value.at) is Object
            &&& base <= temp_object(m, t) < m.heap.len()
            &&& m.heap[temp_object(m, t) as int] is Some
            &&& m.heap[temp_object(m, t) as int]->0.count >= 1
        }
    &&& forall|j: int, k: int|
        #![trigger w.temps[j], w.temps[k]]
        from <= j < k < w.temps.len() ==> temp_object(m, w.temps[j]) < temp_object(m, w.temps[k])
}

/// Whether the machine came through a stretch of code that may have made heap values.
pub open spec fn worked(w: WorkView, w1: WorkView, m: Machine, m1: Machine) -> bool {
    &&& busy(w, w1)
    &&& running(m1)
    &&& top(m1).pc == w1.code.len()
    &&& top(m1).given == top(m).given
    &&& m1 == (Machine { lines: m1.lines, heap: m1.heap, ..with(m, top(m1)) })
    &&& heap_grown(m.heap, m1.heap)
    &&& keeps_below(w.code.len() as int, top(m), top(m1))
    &&& temps_alive(w1, w.temps.len(), m1, m.heap.len())
}

pub(crate) proof fn lemma_below_then(n: int, n1: int, a: Activation, b: Activation, c: Activation)
    requires
        keeps_below(n, a, b),
        keeps_below(n1, b, c),
        n <= n1,
    ensures
        keeps_below(n, a, c),
{
    assert forall|i: usize| i < n implies #[trigger] reg(c, i) == reg(a, i) by {
        assert(reg(b, i) == reg(a, i));
    }
    assert forall|i: int, k: int| 0 <= i < n implies #[trigger] slot(c.slots, i, k) == slot(a.slots, i, k) by {
        assert(slot(b.slots, i, k) == slot(a.slots, i, k));
    }
}

/// Temporaries are still there behind code that left them alone.
pub(crate) proof fn lemma_temps_stay(w: WorkView, w1: WorkView, from: nat, m: Machine, m1: Machine, base: nat)
    requires
        temps_alive(w, from, m, base),
        w1.temps == w.temps,
        w.code.len() <= w1.code.len(),
        keeps_below(w.code.len() as int, top(m), top(m1)),
        heap_grown(m.heap, m1.heap),
    ensures
        temps_alive(w1, from, m1, base),
{
    assert forall|k: int|
        #![trigger w1.temps[k]]
        from <= k < w1.temps.len() implies reg(top(m1), w1.temps[k].value.at) == reg(top(m), w1.temps[k].value.at) by {
        assert(w.temps[k] == w1.temps[k]);
    }
    assert forall|k: int|
        #![trigger w1.temps[k]]
        from <= k < w1.temps.len() implies m1.heap[temp_object(m1, w1.temps[k]) as int] == m.heap[temp_object(m, w.temps[k]) as int] by {
        assert(w.temps[k] == w1.temps[k]);
    }
    assert forall|j: int, k: int|
        #![trigger w1.temps[j], w1.temps[k]]
        from <= j < k < w1.temps.len() implies temp_object(m1, w1.temps[j]) < temp_object(m1, w1.temps[k]) by {
        assert(temp_object(m, w.temps[j]) < temp_object(m, w.temps[k]));
    }
}

#[verifier::spinoff_prover]
pub(crate) proof fn lemma_worked_then(w: WorkView, w1: WorkView, w2: WorkView, m: Machine, m1: Machine, m2: Machine)
    requires
        worked(w, w1, m, m1),
        worked(w1, w2, m1, m2),
    ensures
        worked(w, w2, m, m2),
{
    lemma_busy_then(w, w1, w2);
    lemma_heap_then(m.heap, m1.heap, m2.heap);
    lemma_below_then(w.code.len() as int, w1.code.len() as int, top(m), top(m1), top(m2));
    let from = w.temps.len();
    assert forall|k: int|
        #![trigger w2.temps[k]]
        from <= k < w1.temps.len() implies {
        &&& w2.temps[k] == w1.temps[k]
        &&& reg(top(m2), w2.temps[k].value.at) == reg(top(m1), w1.temps[k].value.at)
        &&& m2.heap[temp_object(m2, w2.temps[k]) as int] == m1.heap[temp_object(m1, w1.temps[k]) as int]
    } by {
        assert(w2.temps[k] == w1.temps[k]);
    }
    assert forall|k: int|
        #![trigger w2.temps[k]]
        from <= k < w2.temps.len() implies {
        let t = w2.temps[k];
        &&& t.native is Array || t.native is Num
        &&& t.value.kind == Kind::Ptr
        &&& t.value.at < w2.code.len()
        &&& reg(top(m2), t.value.at) is Object
        &&& m.heap.len() <= temp_object(m2, t) < m2.heap.len()
        &&& m2.heap[temp_object(m2, t) as int] is Some
        &&& m2.heap[temp_object(m2, t) as int]->0.count >= 1
    } by {
        if k < w1.temps.len() {
            assert(w2.temps[k] == w1.temps[k]);
        }
    }
    assert forall|j: int, k: int|
        #![trigger w2.temps[j], w2.temps[k]]
        from <= j < k < w2.temps.len() implies temp_object(m2, w2.temps[j]) < temp_object(m2, w2.temps[k]) by {
        if k < w1.temps.len() {
            assert(temp_object(m1, w1.temps[j]) < temp_object(m1, w1.temps[k]));
        } else if j < w1.temps.len() {
            assert(temp_object(m1, w1.temps[j]) < m1.heap.len());
        }
    }
}

// ── making heap values ──────────────────────────────────────────────────────

/// The lowering of a call that makes a heap value.
pub(crate) proof fn alloc_busy(w: WorkView, f: Rt, args: Seq<Operand>)
    requires
        kinds(args) =~= takes(f),
        allocated_by(f) is Some,
        gives(f) == Some(Kind::Ptr),
    ensures
        ({
            let (w1, r) = called(w, f, args);
            &&& busy(w, w1)
            &&& r == (Operand { at: (w.code.len() + args.len()) as usize, kind: Kind::Ptr })
            &&& w1.code.len() == w.code.len() + args.len() + 1
            &&& w1.temps == w.temps.push(Temp { value: r, native: allocated_by(f)->0 })
        }),
{
    reveal(called);
    reveal(expecting_all);
    with_args_parts(w, args, 0);
    let ready = with_args(w, args, 0);
    let (w1, r) = called(w, f, args);
    lemma_extended_then(w.code, ready.code, w1.code);
}

/// A call that makes a heap value.
#[verifier::spinoff_prover]
pub(crate) proof fn run_alloc(c: CompiledView, w: WorkView, m: Machine, f: Rt, args: Seq<Operand>, b: Boxed)
    requires
        sound(c),
        sees(c, called(w, f, args).0),
        stands(w, m),
        kinds(args) =~= takes(f),
        allocated_by(f) matches Some(n) && (n is Array || n is Num),
        gives(f) == Some(Kind::Ptr),
        ({
            let given = data(top(m), args);
            let a = Activation { pc: (w.code.len() + args.len()) as int, args: given, ..top(m) };
            runtime_call(with(m, a), top(m).slots, f, given) == Call::Gives(
                placed(with(m, a), b),
                top(m).slots,
                Datum::Object(m.heap.len()),
            )
        }),
    ensures
        ({
            let (w1, r) = called(w, f, args);
            let m1 = steps(c, m, args.len() + 1);
            &&& worked(w, w1, m, m1)
            &&& r == (Operand { at: (w.code.len() + args.len()) as usize, kind: Kind::Ptr })
            &&& r.at < w1.code.len()
            &&& w1.code.len() == w.code.len() + args.len() + 1
            &&& w1.temps == w.temps.push(Temp { value: r, native: allocated_by(f)->0 })
            &&& reg(top(m1), r.at) == Datum::Object(m.heap.len())
            &&& m1.heap == m.heap.push(Some(Held { count: 1, value: b }))
            &&& m1.lines == m.lines
        }),
{
    alloc_busy(w, f, args);
    reveal(called);
    reveal(expecting_all);
    let (wf, r) = called(w, f, args);
    let ready = with_args(w, args, 0);
    with_args_parts(w, args, 0);
    assert(wf.code == put(ready, Inst::CallRt(f)).code);
    assert(sees(c, put(ready, Inst::CallRt(f))));
    lemma_sees_put(c, ready, Inst::CallRt(f));
    assert(top(m).args =~= data(top(m), args).take(0));
    run_args(c, w, m, args, 0);
    let n = args.len();
    let a = Activation { pc: (w.code.len() + n) as int, args: data(top(m), args), ..top(m) };
    let m1 = with(m, a);
    assert(wf.code[ready.code.len() as int] == Inst::CallRt(f));
    lemma_calls(c, m1, f, placed(m1, b), top(m).slots, Datum::Object(m.heap.len()));
    lemma_steps_add(c, m, n, 1);
    let m2 = steps(c, m, n + 1);
    assert(m2.calls =~= seq![top(m2)]);
    assert(temps_alive(wf, w.temps.len(), m2, m.heap.len())) by {
        assert forall|k: int|
            #![trigger wf.temps[k]]
            w.temps.len() <= k < wf.temps.len() implies wf.temps[k] == (Temp { value: r, native: allocated_by(f)->0 }) by {}
    }
}

// ── letting go ──────────────────────────────────────────────────────────────

pub open spec fn lessened(h: Option<Held>) -> Option<Held> {
    match h {
        Some(x) => if x.count - 1 <= 0 {
            None
        } else {
            Some(Held { count: x.count - 1, value: x.value })
        },
        None => None,
    }
}

/// Whether the temporaries from the `from`-th on were let go, each once, and nothing else.
pub open spec fn temps_freed(w: WorkView, from: nat, m: Machine, a: Heap, b: Heap) -> bool {
    &&& b.len() == a.len()
    &&& forall|o: int|
        0 <= o < a.len() && (forall|k: int|
            from <= k < w.temps.len() ==> temp_object(m, #[trigger] w.temps[k]) != o) ==> #[trigger] b[o] == a[o]
    &&& forall|k: int|
        #![trigger w.temps[k]]
        from <= k < w.temps.len() ==> b[temp_object(m, w.temps[k]) as int] == lessened(a[temp_object(m, w.temps[k]) as int])
}

pub(crate) proof fn released_quiet(w: WorkView, mark: nat, n: nat)
    requires
        w.temps.len() == n,
        forall|k: int|
            #![trigger w.temps[k]]
            mark <= k < w.temps.len() ==> (w.temps[k].native is Array || w.temps[k].native is Num) && w.temps[k].value.kind
                == Kind::Ptr,
    ensures
        quiet(
            WorkView { temps: if mark < n { w.temps.take(mark as int) } else { w.temps }, ..w },
            temps_popped(w, mark, n),
        ),
    decreases n,
{
    if n > mark && n > 0 {
        let t = w.temps[n - 1];
        let dropped = WorkView { temps: w.temps.take(n - 1), ..w };
        let w1 = let_go(dropped, t.value, t.native);
        crate::codegen::language::let_go_quiet(dropped, t.value, t.native);
        assert forall|k: int| #![trigger w1.temps[k]] mark <= k < w1.temps.len() implies (w1.temps[k].native is Array
            || w1.temps[k].native is Num) && w1.temps[k].value.kind == Kind::Ptr by {
            assert(w1.temps[k] == w.temps[k]);
        }
        released_quiet(w1, mark, (n - 1) as nat);
        assert(w1.temps =~= w.temps.take(n - 1));
        let a = WorkView { temps: w.temps.take(mark as int), ..w };
        let b = WorkView { temps: w.temps.take(mark as int), ..w1 };
        assert(w1.temps.take(mark as int) =~= w.temps.take(mark as int));
        if mark == n - 1 {
            assert(w1.temps =~= w.temps.take(mark as int));
        }
        assert(quiet(a, b));
        lemma_quiet_then(a, b, temps_popped(w, mark, n));
    }
}

/// One temporary let go.
#[verifier::spinoff_prover]
proof fn run_released(c: CompiledView, w: WorkView, m: Machine, v: Operand, f: Rt)
    requires
        f == Rt::ArrayRelease || f == Rt::NumRelease,
        v.kind == Kind::Ptr,
        v.at < w.code.len(),
        sound(c),
        sees(c, called(w, f, seq![v]).0),
        stands(w, m),
        reg(top(m), v.at) matches Datum::Object(o) && o < m.heap.len() && m.heap[o as int] is Some,
    ensures
        ({
            let w1 = called(w, f, seq![v]).0;
            let m1 = steps(c, m, 2);
            let o = reg(top(m), v.at)->Object_0;
            &&& quiet(w, w1)
            &&& m1 == with(Machine { heap: m.heap.update(o as int, lessened(m.heap[o as int])), ..m }, top(m1))
            &&& running(m1)
            &&& top(m1).given == top(m).given
            &&& top(m1).pc == w1.code.len()
            &&& keeps_below(w.code.len() as int, top(m), top(m1))
        }),
{
    let args = seq![v];
    let given = data(top(m), args);
    let act = Activation { pc: (w.code.len() + args.len()) as int, args: given, ..top(m) };
    let o = reg(top(m), v.at)->Object_0;
    let before = with(m, act);
    let after = Machine { heap: m.heap.update(o as int, lessened(m.heap[o as int])), ..before };
    assert(given[0] == Datum::Object(o));
    assert(kinds(args) =~= takes(f));
    assert(runtime_call(before, top(m).slots, f, given) == Call::Gives(after, top(m).slots, Datum::Nothing)) by {
        reveal(runtime_call);
    }
    run_any(c, w, m, f, args, after, top(m).slots, Datum::Nothing);
    let m1 = steps(c, m, 2);
    assert(m1.calls =~= seq![top(m1)]);
}

#[verifier::spinoff_prover]
#[verifier::rlimit(30)]
proof fn run_popped(c: CompiledView, w: WorkView, mark: nat, n: nat, m: Machine, base: nat) -> (r: nat)
    requires
        w.temps.len() == n,
        sound(c),
        sees(c, temps_popped(w, mark, n)),
        stands(w, m),
        temps_alive(w, mark, m, base),
    ensures
        ({
            let w1 = temps_popped(w, mark, n);
            let m1 = steps(c, m, r);
            &&& m1 == with(Machine { heap: m1.heap, ..m }, top(m1))
            &&& running(m1)
            &&& top(m1).given == top(m).given
            &&& top(m1).pc == w1.code.len()
            &&& keeps_below(w.code.len() as int, top(m), top(m1))
            &&& temps_freed(w, mark, m, m.heap, m1.heap)
        }),
    decreases n,
{
    if n <= mark || n == 0 {
        assert(m.calls =~= seq![top(m)]);
        0
    } else {
        let t = w.temps[n - 1];
        let dropped = WorkView { temps: w.temps.take(n - 1), ..w };
        let w1 = let_go(dropped, t.value, t.native);
        let wf = temps_popped(w, mark, n);
        crate::codegen::language::let_go_quiet(dropped, t.value, t.native);
        assert(w1.temps =~= w.temps.take(n - 1));
        assert forall|k: int| #![trigger w1.temps[k]] mark <= k < w1.temps.len() implies (w1.temps[k].native is Array
            || w1.temps[k].native is Num) && w1.temps[k].value.kind == Kind::Ptr by {
            assert(w1.temps[k] == w.temps[k]);
        }
        released_quiet(w1, mark, (n - 1) as nat);
        assert(sees(c, w1)) by {
            let low = WorkView { temps: if mark < n - 1 { w1.temps.take(mark as int) } else { w1.temps }, ..w1 };
            lemma_sees_before(c, low, wf);
        }
        let f = if t.native is Array { Rt::ArrayRelease } else { Rt::NumRelease };
        assert(stands(dropped, m));
        run_released(c, dropped, m, t.value, f);
        let m1 = steps(c, m, 2);
        let o = temp_object(m, t);
        assert(temps_alive(w1, mark, m1, base)) by {
            assert forall|k: int|
                #![trigger w1.temps[k]]
                mark <= k < w1.temps.len() implies {
                &&& w1.temps[k] == w.temps[k]
                &&& reg(top(m1), w1.temps[k].value.at) == reg(top(m), w.temps[k].value.at)
                &&& m1.heap[temp_object(m1, w1.temps[k]) as int] == m.heap[temp_object(m, w.temps[k]) as int]
            } by {
                assert(w1.temps[k] == w.temps[k]);
                assert(w.temps[n - 1] == t);
                assert(temp_object(m, w.temps[k]) < temp_object(m, w.temps[n - 1]));
            }
            assert forall|j: int, k: int|
                #![trigger w1.temps[j], w1.temps[k]]
                mark <= j < k < w1.temps.len() implies temp_object(m1, w1.temps[j]) < temp_object(m1, w1.temps[k]) by {
                assert(temp_object(m, w.temps[j]) < temp_object(m, w.temps[k]));
            }
        }
        let k = run_popped(c, w1, mark, (n - 1) as nat, m1, base);
        lemma_steps_add(c, m, 2, k);
        let m2 = steps(c, m, 2 + k);
        lemma_below_then(w.code.len() as int, w1.code.len() as int, top(m), top(m1), top(m2));
        assert forall|x: int|
            #![trigger w1.temps[x]]
            mark <= x < n - 1 implies w1.temps[x] == w.temps[x] && temp_object(m1, w1.temps[x]) == temp_object(m, w.temps[x])
            && temp_object(m, w.temps[x]) < o by {
            assert(w1.temps[x] == w.temps[x]);
            assert(w.temps[n - 1] == t);
        }
        assert(temps_freed(w, mark, m, m.heap, m2.heap)) by {
            assert forall|q: int|
                0 <= q < m.heap.len() && (forall|x: int|
                    mark <= x < w.temps.len() ==> temp_object(m, #[trigger] w.temps[x]) != q) implies #[trigger] m2.heap[q]
                == m.heap[q] by {
                assert(w.temps[n - 1] == t);
                assert(q != o);
                assert forall|x: int| mark <= x < w1.temps.len() implies temp_object(m1, #[trigger] w1.temps[x]) != q by {
                    assert(w.temps[x] == w1.temps[x]);
                }
                assert(m1.heap[q] == m.heap[q]);
            }
            assert forall|x: int|
                #![trigger w.temps[x]]
                mark <= x < w.temps.len() implies m2.heap[temp_object(m, w.temps[x]) as int] == lessened(
                m.heap[temp_object(m, w.temps[x]) as int],
            ) by {
                if x < n - 1 {
                    assert(w1.temps[x] == w.temps[x]);
                } else {
                    assert forall|y: int| mark <= y < w1.temps.len() implies temp_object(m1, #[trigger] w1.temps[y]) != o by {
                        assert(w1.temps[y] == w.temps[y]);
                    }
                    assert(m2.heap[o as int] == m1.heap[o as int]);
                }
            }
        }
        2 + k
    }
}

/// The temporaries since a mark let go.
pub(crate) proof fn run_temps(c: CompiledView, w: WorkView, mark: nat, m: Machine, base: nat) -> (r: nat)
    requires
        mark <= w.temps.len(),
        w.open,
        sound(c),
        sees(c, temps_released(w, mark)),
        stands(w, m),
        temps_alive(w, mark, m, base),
    ensures
        ({
            let w1 = temps_released(w, mark);
            let m1 = steps(c, m, r);
            &&& quiet(WorkView { temps: w.temps.take(mark as int), ..w }, w1)
            &&& m1 == with(Machine { heap: m1.heap, ..m }, top(m1))
            &&& running(m1)
            &&& top(m1).given == top(m).given
            &&& top(m1).pc == w1.code.len()
            &&& keeps_below(w.code.len() as int, top(m), top(m1))
            &&& temps_freed(w, mark, m, m.heap, m1.heap)
        }),
{
    reveal(temps_released);
    released_quiet(w, mark, w.temps.len());
    assert(w.temps.take(w.temps.len() as int) =~= w.temps);
    run_popped(c, w, mark, w.temps.len(), m, base)
}

/// What releasing leaves of the lowering.
pub(crate) proof fn temps_quiet(w: WorkView, mark: nat)
    requires
        mark <= w.temps.len(),
        w.open,
        forall|k: int|
            #![trigger w.temps[k]]
            mark <= k < w.temps.len() ==> (w.temps[k].native is Array || w.temps[k].native is Num) && w.temps[k].value.kind
                == Kind::Ptr,
    ensures
        quiet(WorkView { temps: w.temps.take(mark as int), ..w }, temps_released(w, mark)),
{
    reveal(temps_released);
    released_quiet(w, mark, w.temps.len());
    assert(w.temps.take(w.temps.len() as int) =~= w.temps);
}

} // verus!
