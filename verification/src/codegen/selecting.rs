//! Selectors, lowered and run.

use vstd::prelude::*;

use crate::ast::Selector;
use crate::codegen::agreement::lemma_code;
use crate::codegen::boxes::{array_of, stands_for};
use crate::codegen::correct::{
    abreast, lemma_abreast_then, lemma_passed_then, lemma_ran_passed, moved_on, passed_on,
};
use crate::codegen::lowering::{
    described, indices_made, ptr_or_null, run_described, run_made, selector_made, word_or_zero, CompiledView,
    Described, RunLists,
};
use crate::codegen::machine::{
    array_in, at, described_pick, placed, reg, run_at, runtime_call, slot, steps, Activation, Boxed, Call,
    Datum, Machine, Slots,
};
use crate::codegen::native::{element_of, rank_of, Native};
use crate::codegen::picking::{ones, same_positions, selections_meet};
use crate::codegen::runtime::{takes, Kind, Rt};
use crate::codegen::simulation::{
    lemma_does, lemma_quiet_then, lemma_sees_before, lemma_sees_put, lemma_steps_add, quiet, run_value, sees,
    sound, stands, top, with,
};
use crate::codegen::standing::{attuned, lemma_attuned, Env, Framing};
use crate::codegen::straight::data;
use crate::codegen::vectors::yields;
use crate::codegen::work::{called, kinds, made, put, stored_at, Inst, Operand, Temp, WorkView};
use crate::codegen::workings::{
    alloc_busy, busy, lemma_busy_then, lemma_quiet_busy, lemma_sees_busy, lemma_worked_then, run_alloc,
    worked,
};
use crate::diagnostics::position::Span;
use crate::eval::ops::StopView;
use crate::eval::select;
use crate::eval::semantics::{
    dimension_result, first_beyond, index_list_from, picks_from, positions_result, run_result, whole_picks,
    whole_single, World,
};
use crate::eval::value::Val;
use crate::runtime::array;
use crate::runtime::array::{every, picked, ArrayView, PickView};

verus! {

// ── the selectors ───────────────────────────────────────────────────────────

/// A selector that keeps a dimension whole.
pub open spec fn selector_ok(env: Env, sel: Selector) -> bool {
    sel is All
}

pub open spec fn selectors_ok(env: Env, sels: Vec<Selector>) -> bool {
    forall|k: int| 0 <= k < sels@.len() ==> selector_ok(env, #[trigger] sels@[k])
}

/// How many dimensions one index picks, among the first `n` selectors.
pub open spec fn collapsing(sels: Seq<Selector>, n: nat) -> nat
    decreases n,
{
    if n == 0 {
        0
    } else {
        collapsing(sels, (n - 1) as nat) + (if sels[n - 1] matches Selector::Indices(ix) && ix@.len() == 1 {
            1nat
        } else {
            0nat
        })
    }
}

// ── storing into lists ──────────────────────────────────────────────────────

/// One value stored into a list.
#[verifier::spinoff_prover]
pub(crate) proof fn run_stored_at(c: CompiledView, w0: WorkView, w: WorkView, m0: Machine, m: Machine, into: usize, kind: Kind, index: u128, v: Operand)
    requires
        sound(c),
        v.kind == kind,
        sees(c, stored_at(w, into, kind, index, v)),
        passed_on(w0, w, m0, m),
        w0.code.len() <= into,
    ensures
        ({
            let w1 = stored_at(w, into, kind, index, v);
            let m1 = steps(c, m, 1);
            &&& passed_on(w0, w1, m0, m1)
            &&& w1.code.len() == w.code.len() + 1
            &&& quiet(w, w1)
            &&& m1 == with(m, top(m1))
            &&& top(m1).regs == top(m).regs
            &&& top(m1).slots == top(m).slots.insert((into as int, index as int), reg(top(m), v.at))
        }),
{
    reveal(stored_at);
    let inst = Inst::StoreAt { into, kind, index, value: v.at };
    let w1 = put(w, inst);
    let a = Activation {
        pc: top(m).pc + 1,
        slots: top(m).slots.insert((into as int, index as int), reg(top(m), v.at)),
        ..top(m)
    };
    assert(w1.code[w.code.len() as int] == inst);
    lemma_code(c, w1, w.code.len() as int);
    lemma_does(c, m, inst, a);
    let m1 = with(m, a);
    assert(quiet(w, w1));
    lemma_quiet_then(w0, w, w1);
    assert forall|i: usize| i < w0.code.len() implies #[trigger] reg(top(m1), i) == reg(top(m0), i) by {
        assert(reg(top(m), i) == reg(top(m0), i));
    }
    assert forall|i: int, k: int| 0 <= i < w0.code.len() implies #[trigger] slot(top(m1).slots, i, k) == slot(top(m0).slots, i, k) by {
        assert(slot(top(m).slots, i, k) == slot(top(m0).slots, i, k));
    }
}

pub(crate) proof fn stored_at_quiet(w: WorkView, into: usize, kind: Kind, index: u128, v: Operand)
    requires
        v.kind == kind,
    ensures
        quiet(w, stored_at(w, into, kind, index, v)),
        stored_at(w, into, kind, index, v).code.len() == w.code.len() + 1,
{
    reveal(stored_at);
}

/// A value made by one operation, behind what ran already.
#[verifier::spinoff_prover]
proof fn run_made_value(c: CompiledView, w0: WorkView, w: WorkView, m0: Machine, m: Machine, i: Inst, v: Datum)
    requires
        sound(c),
        sees(c, put(w, i)),
        passed_on(w0, w, m0, m),
        stands(w, m),
        i is Small || i is Word || i is Null || i is Long || i is Slots,
        crate::codegen::machine::done(top(m), c.main.code, c.main.texts, i) == crate::codegen::machine::gave(top(m), v),
    ensures
        ({
            let m1 = steps(c, m, 1);
            &&& passed_on(w0, put(w, i), m0, m1)
            &&& stands(put(w, i), m1)
            &&& quiet(w, put(w, i))
            &&& m1 == with(m, top(m1))
            &&& top(m1).slots == top(m).slots
            &&& reg(top(m1), w.code.len() as usize) == v
            &&& forall|z: usize| z < w.code.len() ==> #[trigger] reg(top(m1), z) == reg(top(m), z)
        }),
{
    run_value(c, w, m, i, v);
    let m1 = steps(c, m, 1);
    lemma_ran_passed(w, put(w, i), m, m1);
    lemma_passed_then(w0, w, put(w, i), m0, m, m1);
}

/// What the lists say of the selector at a position.
pub open spec fn lists_say(s: Slots, lists: RunLists, k: int, p: PickView) -> bool {
    p is All && slot(s, lists.kinds as int, k) == Datum::Small(0)
}

pub open spec fn lists_apart(lists: RunLists) -> bool {
    lists.kinds < lists.bounds && lists.bounds < lists.buffers && lists.buffers < lists.counts
}

/// The description of a selector, lowered.
#[verifier::spinoff_prover]
pub(crate) proof fn described_parts(w: WorkView, d: Described, k: u128, lists: RunLists)
    requires
        d.from is None && d.to is None && d.by is None,
        d.buffer matches Some(o) ==> o.kind == Kind::Ptr,
    ensures
        quiet(w, described(w, d, k, lists)),
{
    reveal(described);
    reveal(stored_at);
}

/// The description of a selector, written into the lists.
#[verifier::spinoff_prover]
#[verifier::rlimit(60)]
pub(crate) proof fn run_described_one(
    c: CompiledView,
    w0: WorkView,
    w: WorkView,
    m0: Machine,
    m: Machine,
    d: Described,
    k: nat,
    lists: RunLists,
    p: PickView,
) -> (n: nat)
    requires
        sound(c),
        d.from is None && d.to is None && d.by is None,
        d.buffer matches Some(o) ==> o.kind == Kind::Ptr && o.at < w.code.len(),
        k * 3 + 2 <= u64::MAX,
        sees(c, described(w, d, k as u128, lists)),
        passed_on(w0, w, m0, m),
        stands(w, m),
        lists_apart(lists),
        w0.code.len() <= lists.kinds,
        lists.counts < w.code.len(),
        p is All && d.tag == 0,
    ensures
        ({
            let w1 = described(w, d, k as u128, lists);
            let m1 = steps(c, m, n);
            &&& passed_on(w0, w1, m0, m1)
            &&& stands(w1, m1)
            &&& m1.lines == m.lines
            &&& lists_say(top(m1).slots, lists, k as int, p)
            &&& forall|z: usize| z < w.code.len() ==> #[trigger] reg(top(m1), z) == reg(top(m), z)
            &&& forall|z: int, y: int|
                z < w.code.len() && !((z == lists.kinds || z == lists.buffers || z == lists.counts) && y == k) && z != lists.bounds
                    ==> #[trigger] slot(top(m1).slots, z, y) == slot(top(m).slots, z, y)
        }),
{
    reveal(described);
    let kk = k as u128;
    let i1 = Inst::Small(d.tag);
    let (w1, tag) = made(w, i1, Kind::Small);
    let w2 = stored_at(w1, lists.kinds, Kind::Small, kk, tag);
    let zero = Inst::Word(0);
    let (w2a, o1) = word_or_zero(w2, d.from);
    let w3 = stored_at(w2a, lists.bounds, Kind::Word, (kk * 3) as u128, o1);
    let (w3a, o2) = word_or_zero(w3, d.to);
    let w4 = stored_at(w3a, lists.bounds, Kind::Word, (kk * 3 + 1) as u128, o2);
    let (w4a, o3) = word_or_zero(w4, d.by);
    let w5 = stored_at(w4a, lists.bounds, Kind::Word, (kk * 3 + 2) as u128, o3);
    let (w6, buffer) = ptr_or_null(w5, d.buffer);
    let w7 = stored_at(w6, lists.buffers, Kind::Ptr, kk, buffer);
    let i8 = Inst::Long(d.count);
    let (w8, count) = made(w7, i8, Kind::Long);
    let wf = stored_at(w8, lists.counts, Kind::Long, kk, count);
    assert(wf == described(w, d, kk, lists));
    stored_at_quiet(w1, lists.kinds, Kind::Small, kk, tag);
    stored_at_quiet(w2a, lists.bounds, Kind::Word, (kk * 3) as u128, o1);
    stored_at_quiet(w3a, lists.bounds, Kind::Word, (kk * 3 + 1) as u128, o2);
    stored_at_quiet(w4a, lists.bounds, Kind::Word, (kk * 3 + 2) as u128, o3);
    stored_at_quiet(w6, lists.buffers, Kind::Ptr, kk, buffer);
    stored_at_quiet(w8, lists.counts, Kind::Long, kk, count);
    lemma_sees_before(c, w8, wf);
    lemma_sees_put(c, w7, i8);
    lemma_sees_before(c, w6, w7);
    assert(quiet(w5, w6));
    lemma_sees_before(c, w5, w6);
    lemma_sees_before(c, w4a, w5);
    lemma_sees_put(c, w4, zero);
    lemma_sees_before(c, w3a, w4);
    lemma_sees_put(c, w3, zero);
    lemma_sees_before(c, w2a, w3);
    lemma_sees_put(c, w2, zero);
    lemma_sees_before(c, w1, w2);
    lemma_sees_put(c, w, i1);
    run_made_value(c, w0, w, m0, m, i1, Datum::Small(d.tag as int));
    let m1 = steps(c, m, 1);
    run_stored_at(c, w0, w1, m0, m1, lists.kinds, Kind::Small, kk, tag);
    let m2 = steps(c, m1, 1);
    lemma_steps_add(c, m, 1, 1);
    run_made_value(c, w0, w2, m0, m2, zero, Datum::Word(0));
    let m2a = steps(c, m2, 1);
    lemma_steps_add(c, m, 2, 1);
    run_stored_at(c, w0, w2a, m0, m2a, lists.bounds, Kind::Word, (kk * 3) as u128, o1);
    let m3 = steps(c, m2a, 1);
    lemma_steps_add(c, m, 3, 1);
    run_made_value(c, w0, w3, m0, m3, zero, Datum::Word(0));
    let m3a = steps(c, m3, 1);
    lemma_steps_add(c, m, 4, 1);
    run_stored_at(c, w0, w3a, m0, m3a, lists.bounds, Kind::Word, (kk * 3 + 1) as u128, o2);
    let m4 = steps(c, m3a, 1);
    lemma_steps_add(c, m, 5, 1);
    run_made_value(c, w0, w4, m0, m4, zero, Datum::Word(0));
    let m4a = steps(c, m4, 1);
    lemma_steps_add(c, m, 6, 1);
    run_stored_at(c, w0, w4a, m0, m4a, lists.bounds, Kind::Word, (kk * 3 + 2) as u128, o3);
    let m5 = steps(c, m4a, 1);
    lemma_steps_add(c, m, 7, 1);
    let k6: nat = if d.buffer is None {
        run_made_value(c, w0, w5, m0, m5, Inst::Null, Datum::Null);
        1
    } else {
        assert(m5.calls =~= seq![top(m5)]);
        0
    };
    let m6 = steps(c, m5, k6);
    lemma_steps_add(c, m, 8, k6);
    run_stored_at(c, w0, w6, m0, m6, lists.buffers, Kind::Ptr, kk, buffer);
    let m7 = steps(c, m6, 1);
    lemma_steps_add(c, m, 8 + k6, 1);
    run_made_value(c, w0, w7, m0, m7, i8, Datum::Long(d.count));
    let m8 = steps(c, m7, 1);
    lemma_steps_add(c, m, 8 + k6 + 1, 1);
    run_stored_at(c, w0, w8, m0, m8, lists.counts, Kind::Long, kk, count);
    let mf = steps(c, m8, 1);
    lemma_steps_add(c, m, 8 + k6 + 1 + 1, 1);
    assert forall|z: usize| z < w.code.len() implies #[trigger] reg(top(mf), z) == reg(top(m), z) by {
        assert(reg(top(m1), z) == reg(top(m), z));
        assert(reg(top(m2a), z) == reg(top(m2), z));
        assert(reg(top(m3a), z) == reg(top(m3), z));
        assert(reg(top(m4a), z) == reg(top(m4), z));
        if d.buffer is None {
            assert(reg(top(m6), z) == reg(top(m5), z));
        }
        assert(reg(top(m8), z) == reg(top(m7), z));
    }
    let s = top(m).slots;
    let b1 = (lists.bounds as int, (kk * 3) as u128 as int);
    let b2 = (lists.bounds as int, (kk * 3 + 1) as u128 as int);
    let b3 = (lists.bounds as int, (kk * 3 + 2) as u128 as int);
    let expected = s.insert((lists.kinds as int, kk as int), Datum::Small(d.tag as int)).insert(b1, Datum::Word(0)).insert(
        b2,
        Datum::Word(0),
    ).insert(b3, Datum::Word(0)).insert((lists.buffers as int, kk as int), reg(top(m6), buffer.at)).insert(
        (lists.counts as int, kk as int),
        Datum::Long(d.count),
    );
    assert(top(mf).slots == expected);
    if let Some(o) = d.buffer {
        assert(reg(top(m6), o.at) == reg(top(m), o.at)) by {
            assert(reg(top(m1), o.at) == reg(top(m), o.at));
            assert(reg(top(m2a), o.at) == reg(top(m2), o.at));
            assert(reg(top(m3a), o.at) == reg(top(m3), o.at));
            assert(reg(top(m4a), o.at) == reg(top(m4), o.at));
        }
    }
    assert forall|z: int, y: int|
        z < w.code.len() && !((z == lists.kinds || z == lists.buffers || z == lists.counts) && y == k) && z != lists.bounds implies #[trigger] slot(
        top(mf).slots,
        z,
        y,
    ) == slot(top(m).slots, z, y) by {}
    8 + k6 + 1 + 1 + 1
}

// ── one selector ────────────────────────────────────────────────────────────

#[verifier::spinoff_prover]
proof fn selector_parts(w: WorkView, sel: Selector)
    ensures
        sel is All ==> selector_made(w, sel) == (
            w,
            Described { tag: 0, from: None, to: None, by: None, buffer: None, count: 0 },
        ),
        sel matches Selector::Indices(ix) ==> selector_made(w, sel) == ({
            let (w1, list) = made(w, Inst::Slots { kind: Kind::Word, count: ix@.len() as u128 }, Kind::Ptr);
            (
                indices_made(w1, ix, 0, list.at),
                Described { tag: 1, from: None, to: None, by: None, buffer: Some(list), count: ix@.len() as u64 },
            )
        }),
{
    reveal(selector_made);
}

#[verifier::spinoff_prover]
proof fn selector_quiet(w: WorkView, env: Env, sel: Selector, k: nat, lists: RunLists)
    requires
        attuned(w, env),
        selector_ok(env, sel),
    ensures
        ({
            let (w1, d) = selector_made(w, sel);
            &&& quiet(w, w1)
            &&& quiet(w1, described(w1, d, k as u128, lists))
            &&& quiet(w, described(w1, d, k as u128, lists))
        }),
{
    selector_parts(w, sel);
    let (w1, d) = selector_made(w, sel);
    described_parts(w1, d, k as u128, lists);
    lemma_quiet_then(w, w1, described(w1, d, k as u128, lists));
}

#[verifier::spinoff_prover]
proof fn dimension_meaning(d: nat, world: World, sel: Selector, dim: int, extent: usize, span: Span)
    requires
        sel is All || sel is Indices,
        dimension_result(d, world, sel, dim, extent, span).1 is Ok,
    ensures
        ({
            let r = dimension_result(d, world, sel, dim, extent, span);
            let (chosen, one) = r.1->Ok_0;
            &&& first_beyond(chosen, extent, 0) is None
            &&& sel is All ==> r == (world, Ok::<(Seq<i128>, bool), StopView>((select::all_positions(extent), false)))
            &&& sel matches Selector::Indices(ix) ==> {
                let l = index_list_from(d, world, ix, 0, Seq::empty());
                &&& l.1 is Ok
                &&& r.0 == l.0
                &&& chosen == Seq::new(l.1->Ok_0.len(), |i: int| (l.1->Ok_0[i] - 1) as i128)
                &&& one == (l.1->Ok_0.len() == 1)
            }
        }),
{
    reveal_with_fuel(dimension_result, 3);
    reveal_with_fuel(positions_result, 3);
}

/// Whether the lists and what they stand for are the same on both sides.
pub open spec fn told_so_far(s: Slots, lists: RunLists, ps: Seq<PickView>, a: ArrayView, picks: Seq<Seq<i128>>, single: Seq<bool>, limit: int) -> bool {
    &&& picks.len() == ps.len()
    &&& single.len() == ps.len()
    &&& forall|j: int| 0 <= j < ps.len() ==> lists_say(s, lists, j, #[trigger] ps[j])
    &&& forall|j: int|
        0 <= j < ps.len() ==> (#[trigger] ps[j] is Indices ==> (slot(s, lists.buffers as int, j) matches Datum::Slot(b) && b < limit))
    &&& forall|j: int|
        0 <= j < ps.len() ==> (picked(#[trigger] ps[j], j, a.shape[j]) matches Ok((p, one)) && same_positions(p, picks[j]) && one
            == single[j] && p.len() <= usize::MAX && (one ==> p.len() == 1))
}

#[verifier::spinoff_prover]
proof fn run_described_next(w: WorkView, sels: Vec<Selector>, k: nat, lists: RunLists)
    ensures
        k >= sels@.len() ==> run_described(w, sels, 0, k, sels@.len(), lists) == w,
        k < sels@.len() ==> run_described(w, sels, 0, k, sels@.len(), lists) == ({
            let (w1, d) = selector_made(w, sels@[k as int]);
            run_described(described(w1, d, k as u128, lists), sels, 0, k + 1, sels@.len(), lists)
        }),
{
    reveal_with_fuel(run_described, 2);
}

#[verifier::spinoff_prover]
proof fn run_described_quiet(w: WorkView, env: Env, sels: Vec<Selector>, k: nat, lists: RunLists)
    requires
        attuned(w, env),
        selectors_ok(env, sels),
    ensures
        quiet(w, run_described(w, sels, 0, k, sels@.len(), lists)),
    decreases sels@.len() - k,
{
    run_described_next(w, sels, k, lists);
    if k < sels@.len() {
        let (w1, d) = selector_made(w, sels@[k as int]);
        selector_quiet(w, env, sels@[k as int], k, lists);
        let w2 = described(w1, d, k as u128, lists);
        lemma_attuned(w, w2, env);
        run_described_quiet(w2, env, sels, k + 1, lists);
        lemma_quiet_then(w, w2, run_described(w, sels, 0, k, sels@.len(), lists));
    }
}

#[verifier::spinoff_prover]
proof fn picks_next(d: nat, world: World, shape: Seq<usize>, sels: Vec<Selector>, k: nat, span: Span, picks: Seq<Seq<i128>>, single: Seq<bool>)
    requires
        picks_from(d, world, shape, sels, 0, k, sels@.len(), span, picks, single).1 is Ok,
    ensures
        k >= sels@.len() ==> picks_from(d, world, shape, sels, 0, k, sels@.len(), span, picks, single) == (
            world,
            Ok::<(Seq<Seq<i128>>, Seq<bool>), StopView>((picks, single)),
        ),
        k < sels@.len() ==> {
            let r = dimension_result(d, world, sels@[k as int], k as int, shape[k as int], span);
            &&& r.1 is Ok
            &&& picks_from(d, world, shape, sels, 0, k, sels@.len(), span, picks, single) == picks_from(
                d,
                r.0,
                shape,
                sels,
                0,
                k + 1,
                sels@.len(),
                span,
                picks.push(r.1->Ok_0.0),
                single.push(r.1->Ok_0.1),
            )
        },
{
    reveal_with_fuel(picks_from, 2);
}

/// One more selector told.
#[verifier::spinoff_prover]
proof fn lemma_told_more(
    s: Slots,
    s2: Slots,
    lists: RunLists,
    ps: Seq<PickView>,
    p: PickView,
    a: ArrayView,
    picks: Seq<Seq<i128>>,
    chosen: Seq<i128>,
    single: Seq<bool>,
    one: bool,
    limit: int,
    limit2: int,
)
    requires
        told_so_far(s, lists, ps, a, picks, single, limit),
        lists_apart(lists),
        lists.counts < limit <= limit2,
        lists_say(s2, lists, ps.len() as int, p),
        p is Indices ==> (slot(s2, lists.buffers as int, ps.len() as int) matches Datum::Slot(b) && b < limit2),
        picked(p, ps.len() as int, a.shape[ps.len() as int]) matches Ok((q, o)) && same_positions(q, chosen) && o == one && q.len()
            <= usize::MAX && (o ==> q.len() == 1),
        forall|z: int, y: int|
            0 <= z < limit && !((z == lists.kinds || z == lists.buffers || z == lists.counts) && y == ps.len()) && z
                != lists.bounds ==> #[trigger] slot(s2, z, y) == slot(s, z, y),
    ensures
        told_so_far(s2, lists, ps.push(p), a, picks.push(chosen), single.push(one), limit2),
{
    let k = ps.len() as int;
    let ps1 = ps.push(p);
    let picks1 = picks.push(chosen);
    let single1 = single.push(one);
    assert forall|j: int| 0 <= j < ps1.len() implies lists_say(s2, lists, j, #[trigger] ps1[j]) && (ps1[j] is Indices ==> (slot(
        s2,
        lists.buffers as int,
        j,
    ) matches Datum::Slot(b) && b < limit2)) by {
        if j < k {
            assert(ps1[j] == ps[j]);
            assert(lists_say(s, lists, j, ps[j]));
            assert(slot(s2, lists.kinds as int, j) == slot(s, lists.kinds as int, j));
            assert(slot(s2, lists.buffers as int, j) == slot(s, lists.buffers as int, j));
            assert(slot(s2, lists.counts as int, j) == slot(s, lists.counts as int, j));
        }
    }
    assert forall|j: int|
        0 <= j < ps1.len() implies (picked(#[trigger] ps1[j], j, a.shape[j]) matches Ok((q, o)) && same_positions(q, picks1[j]) && o
        == single1[j] && q.len() <= usize::MAX && (o ==> q.len() == 1)) by {
        if j < k {
            assert(ps1[j] == ps[j]);
            assert(picked(ps[j], j, a.shape[j]) is Ok);
        }
    }
}

/// One selector of a run, evaluated and described.
#[verifier::spinoff_prover]
#[verifier::rlimit(40)]
proof fn sim_selector(
    c: CompiledView,
    w0: WorkView,
    w: WorkView,
    env: Env,
    f: Framing,
    sel: Selector,
    k: nat,
    lists: RunLists,
    extent: u64,
    shown: usize,
    span: Span,
    d: nat,
    world0: World,
    world: World,
    m0: Machine,
    m: Machine,
) -> (r: (nat, PickView))
    requires
        selector_ok(env, sel),
        k * 3 + 2 <= u64::MAX,
        extent == shown,
        abreast(c, w0, env, f, world0, m0),
        m0.line.len() == 0,
        passed_on(w0, w, m0, m),
        moved_on(world0, world),
        m.lines == world.lines,
        stands(w, m),
        lists_apart(lists),
        w0.code.len() <= lists.kinds,
        lists.counts < w.code.len(),
        ({
            let (w1, desc) = selector_made(w, sel);
            sees(c, described(w1, desc, k as u128, lists))
        }),
        dimension_result(d, world, sel, k as int, shown, span).1 is Ok,
    ensures
        ({
            let (w1, desc) = selector_made(w, sel);
            let w2 = described(w1, desc, k as u128, lists);
            let m2 = steps(c, m, r.0);
            let out = dimension_result(d, world, sel, k as int, shown, span);
            let s2 = top(m2).slots;
            &&& passed_on(w0, w2, m0, m2)
            &&& stands(w2, m2)
            &&& w.code.len() <= w2.code.len()
            &&& moved_on(world0, out.0)
            &&& m2.lines == out.0.lines
            &&& lists_say(s2, lists, k as int, r.1)
            &&& r.1 is Indices ==> (slot(s2, lists.buffers as int, k as int) matches Datum::Slot(b) && b < w2.code.len())
            &&& picked(r.1, k as int, extent) matches Ok((q, o)) && same_positions(q, out.1->Ok_0.0) && o == out.1->Ok_0.1 && q.len()
                <= usize::MAX && (o ==> q.len() == 1)
            &&& out.1->Ok_0.1 == (sel matches Selector::Indices(ix) && ix@.len() == 1)
            &&& forall|z: usize| z < w.code.len() ==> #[trigger] reg(top(m2), z) == reg(top(m), z)
            &&& forall|z: int, y: int|
                0 <= z < w.code.len() && !((z == lists.kinds || z == lists.buffers || z == lists.counts) && y == k) && z
                    != lists.bounds ==> #[trigger] slot(s2, z, y) == slot(top(m).slots, z, y)
        }),
    decreases d, sel, 9nat,
{
    let (w1, desc) = selector_made(w, sel);
    let w2 = described(w1, desc, k as u128, lists);
    lemma_abreast_then(c, w0, w, env, f, world0, world, m0, m);
    selector_quiet(w, env, sel, k, lists);
    selector_parts(w, sel);
    lemma_sees_before(c, w1, w2);
    dimension_meaning(d, world, sel, k as int, shown, span);
    let out = dimension_result(d, world, sel, k as int, shown, span);
    let (chosen, one) = out.1->Ok_0;
    assert(same_positions(every(extent), select::all_positions(shown)));
    let n2 = run_described_one(c, w0, w1, m0, m, desc, k, lists, PickView::All);
    (n2, PickView::All)
}

/// The selectors of a run from the `k`-th on, evaluated and described.
#[verifier::spinoff_prover]
#[verifier::rlimit(40)]
proof fn sim_described(
    c: CompiledView,
    w0: WorkView,
    w: WorkView,
    env: Env,
    f: Framing,
    sels: Vec<Selector>,
    k: nat,
    lists: RunLists,
    ps: Seq<PickView>,
    a: ArrayView,
    shape: Seq<usize>,
    picks: Seq<Seq<i128>>,
    single: Seq<bool>,
    span: Span,
    d: nat,
    world0: World,
    world: World,
    m0: Machine,
    m: Machine,
) -> (r: (nat, Seq<PickView>))
    requires
        selectors_ok(env, sels),
        k <= sels@.len() <= shape.len(),
        sels@.len() * 3 <= u64::MAX,
        crate::codegen::picking::same_shape(a.shape, shape),
        ps.len() == k,
        abreast(c, w0, env, f, world0, m0),
        m0.line.len() == 0,
        passed_on(w0, w, m0, m),
        moved_on(world0, world),
        m.lines == world.lines,
        stands(w, m),
        lists_apart(lists),
        w0.code.len() <= lists.kinds,
        lists.counts < w.code.len(),
        attuned(w, env),
        sees(c, run_described(w, sels, 0, k, sels@.len(), lists)),
        told_so_far(top(m).slots, lists, ps, a, picks, single, w.code.len() as int),
        ones(single, single.len()) == collapsing(sels@, k),
        picks_from(d, world, shape, sels, 0, k, sels@.len(), span, picks, single).1 is Ok,
    ensures
        ({
            let w1 = run_described(w, sels, 0, k, sels@.len(), lists);
            let m1 = steps(c, m, r.0);
            let out = picks_from(d, world, shape, sels, 0, k, sels@.len(), span, picks, single);
            &&& passed_on(w0, w1, m0, m1)
            &&& stands(w1, m1)
            &&& moved_on(world0, out.0)
            &&& m1.lines == out.0.lines
            &&& r.1.len() == sels@.len()
            &&& told_so_far(top(m1).slots, lists, r.1, a, out.1->Ok_0.0, out.1->Ok_0.1, w1.code.len() as int)
            &&& ones(out.1->Ok_0.1, out.1->Ok_0.1.len()) == collapsing(sels@, sels@.len())
            &&& forall|z: usize| z < w.code.len() ==> #[trigger] reg(top(m1), z) == reg(top(m), z)
        }),
    decreases d, sels, sels@.len() - k, 9nat,
{
    run_described_next(w, sels, k, lists);
    picks_next(d, world, shape, sels, k, span, picks, single);
    if k < sels@.len() {
        let sel = sels@[k as int];
        let (w1, desc) = selector_made(w, sel);
        let w2 = described(w1, desc, k as u128, lists);
        assert(selector_ok(env, sel));
        selector_quiet(w, env, sel, k, lists);
        lemma_attuned(w, w2, env);
        run_described_quiet(w2, env, sels, k + 1, lists);
        lemma_sees_before(c, w2, run_described(w, sels, 0, k, sels@.len(), lists));
        assert(a.shape[k as int] == shape[k as int]);
        let out = dimension_result(d, world, sel, k as int, shape[k as int], span);
        let (chosen, one) = out.1->Ok_0;
        let (n1, p) = sim_selector(
            c,
            w0,
            w,
            env,
            f,
            sel,
            k,
            lists,
            a.shape[k as int],
            shape[k as int],
            span,
            d,
            world0,
            world,
            m0,
            m,
        );
        let m2 = steps(c, m, n1);
        lemma_told_more(
            top(m).slots,
            top(m2).slots,
            lists,
            ps,
            p,
            a,
            picks,
            chosen,
            single,
            one,
            w.code.len() as int,
            w2.code.len() as int,
        );
        let single1 = single.push(one);
        lemma_ones_push(single, one);
        let rest = sim_described(
            c,
            w0,
            w2,
            env,
            f,
            sels,
            k + 1,
            lists,
            ps.push(p),
            a,
            shape,
            picks.push(chosen),
            single1,
            span,
            d,
            world0,
            out.0,
            m0,
            m2,
        );
        lemma_steps_add(c, m, n1, rest.0);
        let m3 = steps(c, m, n1 + rest.0);
        assert forall|z: usize| z < w.code.len() implies #[trigger] reg(top(m3), z) == reg(top(m), z) by {
            assert(reg(top(m3), z) == reg(top(m2), z));
        }
        (n1 + rest.0, rest.1)
    } else {
        assert(m.calls =~= seq![top(m)]);
        (0, ps)
    }
}

proof fn lemma_ones_push(single: Seq<bool>, one: bool)
    ensures
        ones(single.push(one), single.len() + 1) == ones(single, single.len()) + (if one {
            1nat
        } else {
            0nat
        }),
{
    lemma_ones_prefix(single, single.push(one), single.len());
}

proof fn lemma_ones_prefix(a: Seq<bool>, b: Seq<bool>, n: nat)
    requires
        n <= a.len(),
        n <= b.len(),
        forall|i: int| 0 <= i < n ==> #[trigger] a[i] == b[i],
    ensures
        ones(a, n) == ones(b, n),
    decreases n,
{
    if n > 0 {
        lemma_ones_prefix(a, b, (n - 1) as nat);
    }
}

proof fn lemma_collapsing(sels: Seq<Selector>, n: nat)
    requires
        n <= sels.len(),
        forall|k: int| 0 <= k < sels.len() ==> #[trigger] sels[k] is All,
    ensures
        collapsing(sels, n) == 0,
    decreases n,
{
    if n > 0 {
        lemma_collapsing(sels, (n - 1) as nat);
        assert(sels[n - 1] is All);
    }
}

#[verifier::spinoff_prover]
proof fn run_meaning_parts(d: nat, world: World, v: Val, sels: Vec<Selector>, span: Span)
    requires
        v is Array,
        sels@.len() > 0,
        run_result(d, world, v, sels, 0, sels@.len(), span).1 is Ok,
    ensures
        ({
            let items = v->Array_items;
            let shape = v->Array_shape;
            let r = picks_from(d, world, shape, sels, 0, 0, sels@.len(), span, Seq::empty(), Seq::empty());
            &&& sels@.len() <= shape.len()
            &&& r.1 is Ok
            &&& select::selected(items, shape, whole_picks(r.1->Ok_0.0, shape), whole_single(r.1->Ok_0.1, shape)) is Some
            &&& run_result(d, world, v, sels, 0, sels@.len(), span) == (
                r.0,
                Ok::<Val, StopView>(
                    select::selected(items, shape, whole_picks(r.1->Ok_0.0, shape), whole_single(r.1->Ok_0.1, shape))->0,
                ),
            )
        }),
{
    reveal_with_fuel(run_result, 2);
}

// ── a run ───────────────────────────────────────────────────────────────────

pub open spec fn run_lists(w: WorkView) -> RunLists {
    let p = w.code.len();
    RunLists { kinds: p as usize, bounds: (p + 1) as usize, buffers: (p + 2) as usize, counts: (p + 3) as usize }
}

/// The lowering in front of the selectors of a run.
pub open spec fn run_opened(w: WorkView, n: u128) -> WorkView {
    let w1 = put(w, Inst::Slots { kind: Kind::Small, count: n });
    let w2 = put(w1, Inst::Slots { kind: Kind::Word, count: (n * 3) as u128 });
    let w3 = put(w2, Inst::Slots { kind: Kind::Ptr, count: n });
    put(w3, Inst::Slots { kind: Kind::Long, count: n })
}

#[verifier::spinoff_prover]
pub(crate) proof fn run_parts(w: WorkView, env: Env, sels: Vec<Selector>, current: Operand)
    requires
        attuned(w, env),
        selectors_ok(env, sels),
        sels@.len() > 0,
        current.kind == Kind::Ptr,
    ensures
        ({
            let n = sels@.len() as u128;
            let p = w.code.len();
            let w4 = run_opened(w, n);
            let w5 = run_described(w4, sels, 0, 0, sels@.len(), run_lists(w));
            let w6 = put(w5, Inst::Word(n as i128));
            let ptr = |i: int| Operand { at: (p + i) as usize, kind: Kind::Ptr };
            let args = seq![
                current,
                ptr(0),
                ptr(1),
                ptr(2),
                ptr(3),
                Operand { at: w5.code.len() as usize, kind: Kind::Word },
            ];
            let (wf, r) = run_made(w, sels, 0, sels@.len(), current);
            &&& quiet(w, w4) && quiet(w4, w5) && quiet(w5, w6) && quiet(w, w6)
            &&& (wf, r) == called(w6, Rt::ArraySelectRun, args)
            &&& kinds(args) =~= takes(Rt::ArraySelectRun)
            &&& busy(w, wf)
            &&& r.kind == Kind::Ptr
            &&& wf.temps == w.temps.push(Temp { value: r, native: Native::Array(0, 1) })
        }),
{
    reveal(run_made);
    let n = sels@.len() as u128;
    let w4 = run_opened(w, n);
    assert(quiet(w, w4));
    lemma_attuned(w, w4, env);
    run_described_quiet(w4, env, sels, 0, run_lists(w));
    let w5 = run_described(w4, sels, 0, 0, sels@.len(), run_lists(w));
    let w6 = put(w5, Inst::Word(n as i128));
    lemma_quiet_then(w, w4, w5);
    lemma_quiet_then(w, w5, w6);
    let p = w.code.len();
    let args = seq![
        current,
        Operand { at: p as usize, kind: Kind::Ptr },
        Operand { at: (p + 1) as usize, kind: Kind::Ptr },
        Operand { at: (p + 2) as usize, kind: Kind::Ptr },
        Operand { at: (p + 3) as usize, kind: Kind::Ptr },
        Operand { at: w5.code.len() as usize, kind: Kind::Word },
    ];
    assert(kinds(args) =~= takes(Rt::ArraySelectRun));
    alloc_busy(w6, Rt::ArraySelectRun, args);
    lemma_quiet_busy(w, w6);
    lemma_busy_then(w, w6, called(w6, Rt::ArraySelectRun, args).0);
}

/// A run of selectors.
#[verifier::spinoff_prover]
#[verifier::rlimit(60)]
pub(crate) proof fn sim_run(
    c: CompiledView,
    w: WorkView,
    env: Env,
    f: Framing,
    sels: Vec<Selector>,
    current: Operand,
    v: Val,
    n: Native,
    span: Span,
    d: nat,
    world: World,
    m: Machine,
) -> (k: nat)
    requires
        selectors_ok(env, sels),
        0 < sels@.len() <= rank_of(n),
        n is Array,
        abreast(c, w, env, f, world, m),
        m.line.len() == 0,
        current.kind == Kind::Ptr && current.at < w.code.len(),
        stands_for(m.heap, reg(top(m), current.at), v, n),
        sees(c, run_made(w, sels, 0, sels@.len(), current).0),
        run_result(d, world, v, sels, 0, sels@.len(), span).1 is Ok,
    ensures
        ({
            let (wf, r) = run_made(w, sels, 0, sels@.len(), current);
            let out = run_result(d, world, v, sels, 0, sels@.len(), span);
            yields(w, wf, r, world, out.0, m, steps(c, m, k), n, out.1->Ok_0)
        }),
    decreases d, sels, sels@.len() + 1, 9nat,
{
    run_parts(w, env, sels, current);
    let count = sels@.len() as u128;
    let p = w.code.len() as int;
    let lists = run_lists(w);
    let i0 = Inst::Slots { kind: Kind::Small, count };
    let i1 = Inst::Slots { kind: Kind::Word, count: (count * 3) as u128 };
    let i2 = Inst::Slots { kind: Kind::Ptr, count };
    let i3 = Inst::Slots { kind: Kind::Long, count };
    let w1 = put(w, i0);
    let w2 = put(w1, i1);
    let w3 = put(w2, i2);
    let w4 = put(w3, i3);
    assert(w4 == run_opened(w, count));
    let w5 = run_described(w4, sels, 0, 0, sels@.len(), lists);
    let iw = Inst::Word(count as i128);
    let w6 = put(w5, iw);
    let args = seq![
        current,
        Operand { at: p as usize, kind: Kind::Ptr },
        Operand { at: (p + 1) as usize, kind: Kind::Ptr },
        Operand { at: (p + 2) as usize, kind: Kind::Ptr },
        Operand { at: (p + 3) as usize, kind: Kind::Ptr },
        Operand { at: w5.code.len() as usize, kind: Kind::Word },
    ];
    let (wf, r) = run_made(w, sels, 0, sels@.len(), current);
    alloc_busy(w6, Rt::ArraySelectRun, args);
    lemma_sees_busy(c, w6, wf);
    lemma_sees_put(c, w5, iw);
    lemma_sees_before(c, w4, w5);
    lemma_sees_put(c, w3, i3);
    lemma_sees_put(c, w2, i2);
    lemma_sees_put(c, w1, i1);
    assert(passed_on(w, w, m, m)) by {
        assert(m.calls =~= seq![top(m)]);
    }
    run_made_value(c, w, w, m, m, i0, Datum::Slot(p));
    let m1 = steps(c, m, 1);
    run_made_value(c, w, w1, m, m1, i1, Datum::Slot(p + 1));
    let m2 = steps(c, m1, 1);
    lemma_steps_add(c, m, 1, 1);
    run_made_value(c, w, w2, m, m2, i2, Datum::Slot(p + 2));
    let m3 = steps(c, m2, 1);
    lemma_steps_add(c, m, 2, 1);
    run_made_value(c, w, w3, m, m3, i3, Datum::Slot(p + 3));
    let m4 = steps(c, m3, 1);
    lemma_steps_add(c, m, 3, 1);
    let x0 = reg(top(m), current.at);
    let a = array_of(m.heap, x0)->0;
    let shape = v->Array_shape;
    lemma_attuned(w, w4, env);
    let none = Seq::<PickView>::empty();
    let out = run_result(d, world, v, sels, 0, sels@.len(), span);
    run_meaning_parts(d, world, v, sels, span);
    assert(sels@.len() == sels.len());
    let (j, ps) = sim_described(
        c,
        w,
        w4,
        env,
        f,
        sels,
        0,
        lists,
        none,
        a,
        shape,
        Seq::empty(),
        Seq::empty(),
        span,
        d,
        world,
        world,
        m,
        m4,
    );
    let m5 = steps(c, m4, j);
    lemma_steps_add(c, m, 4, j);
    run_made_value(c, w, w5, m, m5, iw, Datum::Word(count as i128));
    let m6 = steps(c, m5, 1);
    lemma_steps_add(c, m, 4 + j, 1);
    let picked_out = picks_from(d, world, shape, sels, 0, 0, sels@.len(), span, Seq::empty(), Seq::empty());
    let (picks, single) = picked_out.1->Ok_0;
    lemma_collapsing(sels@, sels@.len());
    selections_meet(a, v, element_of(n), ps, picks, single);
    let b = array::run_selected(a, ps)->Ok_0;
    let given = data(top(m6), args);
    assert(reg(top(m6), current.at) == x0) by {
        assert(reg(top(m6), current.at) == reg(top(m), current.at));
    }
    let x6 = m6.heap[x0->Object_0 as int];
    assert(x6 == m.heap[x0->Object_0 as int]);
    assert(given[0] == x0);
    assert(given[1] == Datum::Slot(p)) by {
        assert(reg(top(m6), p as usize) == reg(top(m5), p as usize));
        assert(reg(top(m5), p as usize) == reg(top(m4), p as usize));
        assert(reg(top(m4), p as usize) == reg(top(m3), p as usize));
        assert(reg(top(m3), p as usize) == reg(top(m2), p as usize));
        assert(reg(top(m2), p as usize) == reg(top(m1), p as usize));
    }
    assert(given[5] == Datum::Word(count as i128));
    let act = Activation { pc: (w6.code.len() + args.len()) as int, args: given, ..top(m6) };
    assert(run_at(top(m6).slots, given) =~= ps) by {
        assert forall|q: int| 0 <= q < ps.len() implies described_pick(top(m6).slots, given, q) == ps[q] by {
            assert(lists_say(top(m5).slots, lists, q, ps[q]));
        }
    }
    assert(runtime_call(with(m6, act), top(m6).slots, Rt::ArraySelectRun, given) == Call::Gives(
        placed(with(m6, act), Boxed::Array(b)),
        top(m6).slots,
        Datum::Object(m6.heap.len()),
    )) by {
        reveal(runtime_call);
        assert(array_in(with(m6, act), given[0]) == Some(a));
    }
    run_alloc(c, w6, m6, Rt::ArraySelectRun, args, Boxed::Array(b));
    lemma_steps_add(c, m, 4 + j + 1, 7);
    let m7 = steps(c, m6, 7);
    assert(worked(w, w6, m, m6)) by {
        lemma_quiet_busy(w, w6);
    }
    lemma_worked_then(w, w6, wf, m, m6, m7);
    4 + j + 1 + 7
}

} // verus!
