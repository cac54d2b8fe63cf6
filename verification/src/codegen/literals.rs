//! Array literals, lowered and run.

use vstd::prelude::*;

use crate::ast::{Expr, ExprKind};
use crate::codegen::boxes::{cell_native, cell_rep, heap_but, Heap};
use crate::codegen::correct::{abreast, moved_on, sim_sc};
use crate::codegen::exactly::{rep, single};
use crate::codegen::lowering::{expr_made, item_made, items_made, next_index, CompiledView};
use crate::codegen::machine::{
    dims_at, reg, runtime_call, slot, steps, zeros, Activation, Boxed, Call, Datum, Held, Machine,
};
use crate::codegen::native::{kind_of, literal_dims, tag_of, Native};
use crate::codegen::runtime::{takes, Kind, Rt};
use crate::codegen::scalars::{sc, sc_quiet};
use crate::codegen::simulation::{
    keeps_below, lemma_does, lemma_quiet_then, lemma_sees_before, lemma_sees_put, lemma_steps_add, meaning,
    quiet, run_value, running, sees, sound, stands, top, with,
};
use crate::codegen::agreement::lemma_code;
use crate::codegen::standing::{
    attuned, lemma_attuned, mirrored, mirrors, no_older, seen, unshared, Env, Framing,
};
use crate::codegen::steps::{array_made, as_byte, dims_stored, element_stored};
use crate::codegen::straight::{called_quiet, data, run_any, run_spilled, spilled_quiet};
use crate::codegen::work::{called, kinds, made, put, spilled, stored_at, Inst, Operand, Temp, WorkView};
use crate::codegen::workings::{busy, lemma_below_then, worked};
use crate::eval::numeric::Numeric;
use crate::eval::ops::StopView;
use crate::eval::select::{assembled, flattened, inner_shape};
use crate::eval::semantics::{values_from, World};
use crate::eval::value::Val;
use crate::runtime::access::with_cell;
use crate::runtime::array::{extent_from, ArrayView, CellView};

verus! {

// ── what is lowered ─────────────────────────────────────────────────────────

/// One element of a literal: a value where one dimension is left, else a row.
pub open spec fn item_ok(env: Env, e: Expr, dims: Seq<u64>, elem: Native, hint: Option<Numeric>) -> bool
    decreases e, 0nat,
{
    match e.kind {
        ExprKind::ArrayLit(inner) => dims.len() > 1 && inner@.len() == dims[1] && inner@.len() > 0 && items_ok(
            env,
            inner,
            0,
            dims.skip(1),
            elem,
            hint,
        ),
        _ => dims.len() == 1 && sc(env, e, elem, hint),
    }
}

pub open spec fn items_ok(env: Env, items: Vec<Expr>, i: nat, dims: Seq<u64>, elem: Native, hint: Option<Numeric>) -> bool
    decreases items, items@.len() - i,
{
    i >= items@.len() || (item_ok(env, items@[i as int], dims, elem, hint) && items_ok(env, items, i + 1, dims, elem, hint))
}

/// A rectangular literal of single values.
pub open spec fn literal_ok(env: Env, items: Vec<Expr>, elem: Native, hint: Option<Numeric>) -> bool {
    let dims = literal_dims(items);
    &&& single(elem)
    &&& items@.len() > 0
    &&& items@.len() == dims[0]
    &&& dims.len() <= u32::MAX
    &&& extent_from(dims, 0) < u64::MAX
    &&& items_ok(env, items, 0, dims, elem, hint)
}

#[verifier::spinoff_prover]
proof fn items_next(w: WorkView, items: Vec<Expr>, i: nat, elem: Native, array: Operand, next: u64)
    ensures
        i >= items@.len() ==> items_made(w, items, i, elem, array, next) == (w, next),
        i < items@.len() ==> items_made(w, items, i, elem, array, next) == ({
            let (w1, n) = item_made(w, items@[i as int], elem, array, next);
            items_made(w1, items, i + 1, elem, array, n)
        }),
{
    reveal_with_fuel(items_made, 2);
}

#[verifier::spinoff_prover]
proof fn item_parts(w: WorkView, e: Expr, elem: Native, array: Operand, next: u64)
    ensures
        e.kind matches ExprKind::ArrayLit(inner) ==> item_made(w, e, elem, array, next) == items_made(
            w,
            inner,
            0,
            elem,
            array,
            next,
        ),
        !(e.kind is ArrayLit) ==> item_made(w, e, elem, array, next) == ({
            let (w1, v) = expr_made(w, e, elem);
            let (w2, index) = made(w1, Inst::Word(next as i128), Kind::Word);
            (element_stored(w2, array, index, v, elem), next_index(next))
        }),
{
    reveal(item_made);
}

pub open spec fn setter(elem: Native) -> Rt {
    match elem {
        Native::Deci => Rt::ArraySetDeci,
        Native::Rat => Rt::ArraySetRat,
        Native::Str => Rt::ArraySetStr,
        Native::Bool => Rt::ArraySetBool,
        _ => Rt::ArraySetInt,
    }
}

/// What is handed to the setter in place of the value.
pub open spec fn stored_as(w: WorkView, v: Operand, elem: Native) -> (WorkView, Operand) {
    match elem {
        Native::Deci => spilled(w, v, Kind::Deci),
        Native::Rat => spilled(w, v, Kind::Rat),
        Native::Str => spilled(w, v, Kind::Text),
        Native::Bool => as_byte(w, v),
        _ => (w, v),
    }
}

#[verifier::spinoff_prover]
pub(crate) proof fn element_quiet(w: WorkView, array: Operand, index: Operand, v: Operand, elem: Native)
    requires
        single(elem),
        array.kind == Kind::Ptr,
        index.kind == Kind::Word,
        v.kind == kind_of(elem),
    ensures
        ({
            let (w1, p) = stored_as(w, v, elem);
            &&& element_stored(w, array, index, v, elem) == called(w1, setter(elem), seq![array, index, p]).0
            &&& quiet(w, w1)
            &&& kinds(seq![array, index, p]) =~= takes(setter(elem))
            &&& quiet(w1, element_stored(w, array, index, v, elem))
            &&& quiet(w, element_stored(w, array, index, v, elem))
        }),
{
    reveal(element_stored);
    let (w1, p) = stored_as(w, v, elem);
    if elem is Deci || elem is Rat || elem is Str {
        spilled_quiet(w, v, kind_of(elem));
    }
    assert(kinds(seq![array, index, p]) =~= takes(setter(elem)));
    called_quiet(w1, setter(elem), seq![array, index, p]);
    lemma_quiet_then(w, w1, element_stored(w, array, index, v, elem));
}

#[verifier::spinoff_prover]
proof fn item_quiet(w: WorkView, env: Env, e: Expr, dims: Seq<u64>, elem: Native, hint: Option<Numeric>, array: Operand, next: u64)
    requires
        attuned(w, env),
        single(elem),
        item_ok(env, e, dims, elem, hint),
        array.kind == Kind::Ptr,
    ensures
        quiet(w, item_made(w, e, elem, array, next).0),
    decreases e, 0nat,
{
    item_parts(w, e, elem, array, next);
    match e.kind {
        ExprKind::ArrayLit(inner) => {
            items_quiet(w, env, inner, 0, dims.skip(1), elem, hint, array, next);
        },
        _ => {
            sc_quiet(w, env, e, elem, hint);
            let (w1, v) = expr_made(w, e, elem);
            let (w2, index) = made(w1, Inst::Word(next as i128), Kind::Word);
            element_quiet(w2, array, index, v, elem);
            lemma_quiet_then(w, w1, w2);
            lemma_quiet_then(w, w2, item_made(w, e, elem, array, next).0);
        },
    }
}

#[verifier::spinoff_prover]
pub(crate) proof fn items_quiet(w: WorkView, env: Env, items: Vec<Expr>, i: nat, dims: Seq<u64>, elem: Native, hint: Option<Numeric>, array: Operand, next: u64)
    requires
        attuned(w, env),
        single(elem),
        items_ok(env, items, i, dims, elem, hint),
        array.kind == Kind::Ptr,
    ensures
        quiet(w, items_made(w, items, i, elem, array, next).0),
    decreases items, items@.len() - i,
{
    items_next(w, items, i, elem, array, next);
    if i < items@.len() {
        item_quiet(w, env, items@[i as int], dims, elem, hint, array, next);
        let (w1, n) = item_made(w, items@[i as int], elem, array, next);
        lemma_attuned(w, w1, env);
        items_quiet(w1, env, items, i + 1, dims, elem, hint, array, n);
        lemma_quiet_then(w, w1, items_made(w, items, i, elem, array, next).0);
    }
}

// ── filling ─────────────────────────────────────────────────────────────────

/// Whether a heap value is an array whose first elements stand for values.
pub open spec fn filled(heap: Heap, h: nat, acc: Seq<Val>, dims: Seq<u64>, elem: Native) -> bool {
    &&& h < heap.len()
    &&& heap[h as int] matches Some(x) && x.count == 1 && (x.value matches Boxed::Array(a) && {
        &&& a.shape == dims
        &&& a.items.len() == extent_from(dims, 0)
        &&& acc.len() <= a.items.len()
        &&& forall|i: int| 0 <= i < acc.len() ==> cell_rep(#[trigger] a.items[i], acc[i]) && cell_native(a.items[i]) == elem
    })
}

/// Whether no variable holds a heap value.
pub open spec fn nobodys(w: WorkView, m: Machine, h: nat) -> bool {
    forall|i: int, j: int|
        #![trigger w.frames[i][j]]
        0 <= i < w.frames.len() && 0 <= j < w.frames[i].len() && w.frames[i][j].native is Array ==> slot(
            top(m).slots,
            w.frames[i][j].slot as int,
            0,
        ) != Datum::Object(h)
}

/// Whether a stretch of code did nothing but to one heap value, and what functions do.
pub open spec fn filled_on(w: WorkView, w1: WorkView, m: Machine, m1: Machine, h: nat) -> bool {
    &&& quiet(w, w1)
    &&& running(m1)
    &&& top(m1).pc == w1.code.len()
    &&& top(m1).given == top(m).given
    &&& m1 == (Machine { lines: m1.lines, heap: m1.heap, ..with(m, top(m1)) })
    &&& heap_but(m.heap, m1.heap, Datum::Object(h))
    &&& keeps_below(w.code.len() as int, top(m), top(m1))
}

pub(crate) proof fn lemma_filled_then(w: WorkView, w1: WorkView, w2: WorkView, m: Machine, m1: Machine, m2: Machine, h: nat)
    requires
        filled_on(w, w1, m, m1, h),
        filled_on(w1, w2, m1, m2, h),
    ensures
        filled_on(w, w2, m, m2, h),
{
    lemma_quiet_then(w, w1, w2);
    lemma_below_then(w.code.len() as int, w1.code.len() as int, top(m), top(m1), top(m2));
    assert forall|o: int| 0 <= o < m.heap.len() && Datum::Object(h) != Datum::Object(o as nat) implies #[trigger] m2.heap[o]
        == m.heap[o] by {
        assert(m1.heap[o] == m.heap[o]);
    }
}

/// The mirror does not show a heap value that no variable holds.
#[verifier::spinoff_prover]
pub(crate) proof fn lemma_still_abreast(
    c: CompiledView,
    w: WorkView,
    w1: WorkView,
    env: Env,
    f: Framing,
    world: World,
    world1: World,
    m: Machine,
    m1: Machine,
    h: nat,
)
    requires
        abreast(c, w, env, f, world, m),
        filled_on(w, w1, m, m1, h),
        nobodys(w, m, h),
        moved_on(world, world1),
        m1.lines == world1.lines,
    ensures
        abreast(c, w1, env, f, world1, m1),
        nobodys(w1, m1, h),
        m1.line == m.line,
{
    let frames = seen(world.frames, f);
    lemma_attuned(w, w1, env);
    assert forall|i: int, j: int|
        #![trigger w1.frames[i][j]]
        0 <= i < w1.frames.len() && 0 <= j < w1.frames[i].len() implies {
        &&& w1.frames[i][j] == w.frames[i][j]
        &&& slot(top(m1).slots, w1.frames[i][j].slot as int, 0) == slot(top(m).slots, w.frames[i][j].slot as int, 0)
        &&& mirrored(w1, frames[i], m1, w1.frames[i][j])
    } by {
        assert(mirrored(w, frames[i], m, w.frames[i][j]));
        let l = w.frames[i][j];
        let x = slot(top(m).slots, l.slot as int, 0);
        if l.native is Array {
            let o = x->Object_0;
            assert(m1.heap[o as int] == m.heap[o as int]);
        }
    }
    assert(unshared(w1, m1)) by {
        assert forall|i: int, j: int, k: int, l: int|
            #![trigger w1.frames[i][j], w1.frames[k][l]]
            0 <= i < w1.frames.len() && 0 <= j < w1.frames[i].len() && 0 <= k < w1.frames.len() && 0 <= l
                < w1.frames[k].len() && w1.frames[i][j].native is Array && w1.frames[k][l].native is Array && slot(
                top(m1).slots,
                w1.frames[i][j].slot as int,
                0,
            ) == slot(top(m1).slots, w1.frames[k][l].slot as int, 0) implies i == k && j == l by {
            assert(w.frames[i][j] == w1.frames[i][j] && w.frames[k][l] == w1.frames[k][l]);
        }
    }
    assert(no_older(w1, m1, f.floor)) by {
        assert forall|i: int, j: int|
            #![trigger w1.frames[i][j]]
            0 <= i < w1.frames.len() && 0 <= j < w1.frames[i].len() && w1.frames[i][j].native is Array implies (slot(
            top(m1).slots,
            w1.frames[i][j].slot as int,
            0,
        ) matches Datum::Object(o) && o >= f.floor) by {
            assert(w.frames[i][j] == w1.frames[i][j]);
        }
    }
    assert(mirrors(w1, frames, m1)) by {
        assert forall|i: int, j: int|
            #![trigger w1.frames[i][j]]
            0 <= i < w1.frames.len() && 0 <= j < w1.frames[i].len() implies {
            &&& mirrored(w1, frames[i], m1, w1.frames[i][j])
            &&& crate::codegen::work::local_index(w1.frames[i], w1.frames[i][j].name) == j
        } by {
            assert(w.frames[i][j] == w1.frames[i][j]);
        }
    }
}

/// The cell that an element is stored as.
pub open spec fn cell_of(x: Datum, elem: Native) -> CellView {
    match elem {
        Native::Deci => CellView::Deci(x->Deci_0),
        Native::Rat => CellView::Rat(x->Rat_0),
        Native::Str => CellView::Str(x->Text_0),
        Native::Bool => CellView::Bool(x->Bit_0),
        _ => CellView::Int(x->Word_0),
    }
}

/// One element stored.
#[verifier::spinoff_prover]
#[verifier::rlimit(40)]
pub(crate) proof fn run_element(
    c: CompiledView,
    w: WorkView,
    m: Machine,
    array: Operand,
    index: Operand,
    v: Operand,
    elem: Native,
    h: nat,
    k: i128,
    x: Val,
    a: ArrayView,
    count: int,
) -> (n: nat)
    requires
        single(elem),
        sound(c),
        sees(c, element_stored(w, array, index, v, elem)),
        stands(w, m),
        array.kind == Kind::Ptr && array.at < w.code.len() && reg(top(m), array.at) == Datum::Object(h),
        index.kind == Kind::Word && index.at < w.code.len() && reg(top(m), index.at) == Datum::Word(k),
        v.kind == kind_of(elem) && v.at < w.code.len() && rep(reg(top(m), v.at), x, elem),
        h < m.heap.len(),
        m.heap[h as int] == Some(Held { count, value: Boxed::Array(a) }),
        1 <= k <= a.items.len(),
    ensures
        ({
            let w1 = element_stored(w, array, index, v, elem);
            let m1 = steps(c, m, n);
            let cell = cell_of(reg(top(m), v.at), elem);
            &&& filled_on(w, w1, m, m1, h)
            &&& m1.heap == m.heap.update(h as int, Some(Held { count, value: Boxed::Array(with_cell(a, k as int, cell)) }))
            &&& m1.lines == m.lines
            &&& cell_rep(cell, x)
            &&& cell_native(cell) == elem
        }),
{
    element_quiet(w, array, index, v, elem);
    let w1 = element_stored(w, array, index, v, elem);
    let (ws, p) = stored_as(w, v, elem);
    lemma_sees_before(c, ws, w1);
    let cell = cell_of(reg(top(m), v.at), elem);
    let n0: nat = if elem is Deci || elem is Rat || elem is Str {
        run_spilled(c, w, m, v, kind_of(elem));
        2
    } else if elem is Bool {
        let b = reg(top(m), v.at)->Bit_0;
        run_value(
            c,
            w,
            m,
            Inst::Widen { kind: Kind::Byte, value: v.at },
            Datum::Byte(if b { 1 } else { 0 }),
        );
        1
    } else {
        assert(m.calls =~= seq![top(m)]);
        0
    };
    let m0 = steps(c, m, n0);
    let args = seq![array, index, p];
    let given = data(top(m0), args);
    assert(reg(top(m0), array.at) == Datum::Object(h));
    assert(reg(top(m0), index.at) == Datum::Word(k));
    let act = Activation { pc: (ws.code.len() + args.len()) as int, args: given, ..top(m0) };
    let before = with(m0, act);
    let next = Some(Held { count, value: Boxed::Array(with_cell(a, k as int, cell)) });
    let after = Machine { heap: m.heap.update(h as int, next), ..before };
    let fun = setter(elem);
    assert(runtime_call(before, top(m0).slots, fun, given) == Call::Gives(after, top(m0).slots, Datum::Nothing)) by {
        reveal(runtime_call);
        assert(given[0] == Datum::Object(h));
        assert(given[1] == Datum::Word(k));
        assert(given[2] == reg(top(m0), p.at));
    }
    run_any(c, ws, m0, fun, args, after, top(m0).slots, Datum::Nothing);
    lemma_steps_add(c, m, n0, 4);
    let m1 = steps(c, m, n0 + 4);
    assert(m1.calls =~= seq![top(m1)]);
    lemma_below_then(w.code.len() as int, ws.code.len() as int, top(m), top(m0), top(m1));
    n0 + 4
}

/// The values that an item of a literal adds.
pub open spec fn leaves(v: Val) -> Seq<Val> {
    match v {
        Val::Array { items, .. } => items,
        _ => seq![v],
    }
}

/// Whether a value has the shape that is left of some dimensions.
pub open spec fn shaped(v: Val, dims: Seq<u64>) -> bool {
    if dims.len() <= 1 {
        !(v is Array)
    } else {
        v matches Val::Array { items, shape } && {
            &&& shape.len() == dims.len() - 1
            &&& forall|i: int| 0 <= i < shape.len() ==> #[trigger] shape[i] == dims[i + 1]
            &&& items.len() == extent_from(dims, 1)
        }
    }
}

proof fn lemma_extent_skip(dims: Seq<u64>, d: int)
    requires
        dims.len() > 0,
        0 <= d < dims.len(),
    ensures
        extent_from(dims.skip(1), d) == extent_from(dims, d + 1),
    decreases dims.len() - d,
{
    if d + 1 < dims.len() {
        lemma_extent_skip(dims, d + 1);
        assert(dims.skip(1)[d] == dims[d + 1]);
    } else {
        assert(extent_from(dims.skip(1), d) == 1);
    }
}

/// Rows of one shape, put together.
#[verifier::spinoff_prover]
proof fn lemma_flat(vs: Seq<Val>, n: nat, dims: Seq<u64>)
    requires
        n <= vs.len(),
        dims.len() > 0,
        forall|i: int| 0 <= i < vs.len() ==> shaped(#[trigger] vs[i], dims),
    ensures
        flattened(vs, n).len() == n * extent_from(dims, 1),
    decreases n,
{
    if n > 0 {
        lemma_flat(vs, (n - 1) as nat, dims);
        assert(shaped(vs[n - 1], dims));
        let e = extent_from(dims, 1);
        if dims.len() == 1 {
            assert(e == 1);
        }
        assert((n - 1) * e + e == n * e) by (nonlinear_arith);
    } else {
        assert(0 * extent_from(dims, 1) == 0);
    }
}

#[verifier::spinoff_prover]
pub(crate) proof fn lemma_assembled(vs: Seq<Val>, dims: Seq<u64>)
    requires
        dims.len() > 0,
        vs.len() == dims[0],
        0 < vs.len() <= usize::MAX,
        forall|i: int| 0 <= i < vs.len() ==> shaped(#[trigger] vs[i], dims),
    ensures
        assembled(vs) matches Val::Array { items, shape } && {
            &&& items == flattened(vs, vs.len())
            &&& items.len() == extent_from(dims, 0)
            &&& shape.len() == dims.len()
            &&& forall|i: int| 0 <= i < shape.len() ==> #[trigger] shape[i] == dims[i]
        },
{
    lemma_flat(vs, vs.len(), dims);
    lemma_inner(vs, vs.len(), dims);
    let shape = assembled(vs)->Array_shape;
    assert forall|i: int| 0 <= i < shape.len() implies #[trigger] shape[i] == dims[i] by {
        if i > 0 {
            assert(shaped(vs[0], dims));
            let s = vs[0]->Array_shape;
            assert(shape[i] == s[i - 1]);
        }
    }
}

#[verifier::spinoff_prover]
proof fn lemma_inner(vs: Seq<Val>, n: nat, dims: Seq<u64>)
    requires
        n <= vs.len(),
        n > 0,
        forall|i: int| 0 <= i < vs.len() ==> shaped(#[trigger] vs[i], dims),
    ensures
        dims.len() <= 1 ==> inner_shape(vs, n) is None,
        dims.len() > 1 ==> inner_shape(vs, n) == Some(vs[0]->Array_shape),
    decreases n,
{
    assert(shaped(vs[n - 1], dims));
    assert(shaped(vs[0], dims));
    if n > 1 {
        lemma_inner(vs, (n - 1) as nat, dims);
    } else {
        reveal_with_fuel(inner_shape, 2);
    }
}

proof fn lemma_flat_push(vs: Seq<Val>, v: Val)
    ensures
        flattened(vs.push(v), vs.len() + 1) == flattened(vs, vs.len()) + leaves(v),
{
    lemma_flat_same(vs, vs.push(v), vs.len());
    assert(flattened(vs, vs.len()).push(v) =~= flattened(vs, vs.len()) + seq![v]);
}

proof fn lemma_flat_same(a: Seq<Val>, b: Seq<Val>, n: nat)
    requires
        n <= a.len(),
        n <= b.len(),
        forall|i: int| 0 <= i < n ==> a[i] == b[i],
    ensures
        flattened(a, n) == flattened(b, n),
    decreases n,
{
    if n > 0 {
        lemma_flat_same(a, b, (n - 1) as nat);
    }
}

#[verifier::spinoff_prover]
pub(crate) proof fn literal_meaning(d: nat, world: World, e: Expr, hint: Option<Numeric>)
    requires
        e.kind is ArrayLit,
        meaning(d, world, e, hint).1 is Ok,
    ensures
        ({
            let r = values_from(d, world, e.kind->ArrayLit_0, hint, 0, Seq::empty());
            &&& r.1 is Ok
            &&& meaning(d, world, e, hint) == (r.0, Ok::<Val, StopView>(assembled(r.1->Ok_0)))
        }),
{
    reveal(meaning);
}

#[verifier::spinoff_prover]
proof fn values_next(d: nat, world: World, items: Vec<Expr>, hint: Option<Numeric>, i: nat, acc: Seq<Val>)
    requires
        values_from(d, world, items, hint, i, acc).1 is Ok,
    ensures
        i >= items@.len() ==> values_from(d, world, items, hint, i, acc) == (world, Ok::<Seq<Val>, StopView>(acc)),
        i < items@.len() ==> {
            let r = meaning(d, world, items@[i as int], hint);
            &&& r.1 is Ok
            &&& values_from(d, world, items, hint, i, acc) == values_from(d, r.0, items, hint, i + 1, acc.push(r.1->Ok_0))
        },
{
    reveal(meaning);
}

/// One item of a literal: its values are stored behind those before it.
#[verifier::spinoff_prover]
#[verifier::rlimit(60)]
proof fn sim_item(
    c: CompiledView,
    w: WorkView,
    env: Env,
    f: Framing,
    e: Expr,
    dims: Seq<u64>,
    elem: Native,
    hint: Option<Numeric>,
    array: Operand,
    h: nat,
    all: Seq<u64>,
    acc: Seq<Val>,
    d: nat,
    world: World,
    m: Machine,
) -> (n: nat)
    requires
        single(elem),
        item_ok(env, e, dims, elem, hint),
        abreast(c, w, env, f, world, m),
        m.line.len() == 0,
        sees(c, item_made(w, e, elem, array, (acc.len() + 1) as u64).0),
        array.kind == Kind::Ptr && array.at < w.code.len() && reg(top(m), array.at) == Datum::Object(h),
        filled(m.heap, h, acc, all, elem),
        nobodys(w, m, h),
        extent_from(all, 0) < u64::MAX,
        acc.len() + extent_from(dims, 1) <= extent_from(all, 0),
        meaning(d, world, e, hint).1 is Ok,
    ensures
        ({
            let (w1, next) = item_made(w, e, elem, array, (acc.len() + 1) as u64);
            let m1 = steps(c, m, n);
            let r = meaning(d, world, e, hint);
            let v = r.1->Ok_0;
            &&& filled_on(w, w1, m, m1, h)
            &&& filled(m1.heap, h, acc + leaves(v), all, elem)
            &&& shaped(v, dims)
            &&& leaves(v).len() == extent_from(dims, 1)
            &&& next == acc.len() + leaves(v).len() + 1
            &&& moved_on(world, r.0)
            &&& m1.lines == r.0.lines
        }),
    decreases d, e, 4nat,
{
    let next = (acc.len() + 1) as u64;
    item_parts(w, e, elem, array, next);
    let r = meaning(d, world, e, hint);
    match e.kind {
        ExprKind::ArrayLit(inner) => {
            literal_meaning(d, world, e, hint);
            lemma_extent_skip(dims, 0);
            lemma_extent_skip(dims, 1);
            let rest = dims.skip(1);
            assert(rest[0] == dims[1]);
            assert(extent_from(dims, 1) == dims[1] as nat * extent_from(dims, 2));
            let n = sim_items(c, w, env, f, inner, 0, rest, elem, hint, array, h, all, acc, Seq::empty(), d, world, m);
            let vs = values_from(d, world, inner, hint, 0, Seq::empty()).1->Ok_0;
            assert(inner@.len() == inner.len());
            lemma_assembled(vs, rest);
            assert(flattened(Seq::<Val>::empty(), 0) =~= Seq::<Val>::empty());
            n
        },
        _ => {
            assert(extent_from(dims, 1) == 1);
            sc_quiet(w, env, e, elem, hint);
            let (w1, v) = expr_made(w, e, elem);
            let word = Inst::Word(next as i128);
            let (w2, index) = made(w1, word, Kind::Word);
            let w3 = element_stored(w2, array, index, v, elem);
            element_quiet(w2, array, index, v, elem);
            lemma_sees_before(c, w2, w3);
            lemma_sees_put(c, w1, word);
            let k = sim_sc(c, w, env, f, e, elem, hint, d, world, m);
            let m1 = steps(c, m, k);
            let x = r.1->Ok_0;
            crate::codegen::correct::lemma_rep_single(reg(top(m1), v.at), x, elem);
            run_value(c, w1, m1, word, Datum::Word(next as i128));
            let m2 = steps(c, m1, 1);
            lemma_steps_add(c, m, k, 1);
            assert(m1.heap[h as int] == m.heap[h as int]);
            assert(reg(top(m1), array.at) == reg(top(m), array.at));
            assert(reg(top(m2), array.at) == reg(top(m1), array.at));
            assert(reg(top(m2), v.at) == reg(top(m1), v.at));
            let held = m.heap[h as int]->0;
            let a = held.value->Array_0;
            let j = run_element(c, w2, m2, array, index, v, elem, h, next as i128, x, a, 1);
            let m3 = steps(c, m2, j);
            lemma_steps_add(c, m, k + 1, j);
            let cell = cell_of(reg(top(m2), v.at), elem);
            let a1 = with_cell(a, next as int, cell);
            assert(a1.items == a.items.update(next - 1, cell));
            let acc1 = acc + seq![x];
            assert forall|i: int| 0 <= i < acc1.len() implies cell_rep(#[trigger] a1.items[i], acc1[i]) && cell_native(
                a1.items[i],
            ) == elem by {
                if i < acc.len() {
                    assert(a1.items[i] == a.items[i]);
                }
            }
            lemma_quiet_then(w, w1, w2);
            lemma_quiet_then(w, w2, w3);
            lemma_below_then(w.code.len() as int, w1.code.len() as int, top(m), top(m1), top(m2));
            lemma_below_then(w.code.len() as int, w2.code.len() as int, top(m), top(m2), top(m3));
            assert forall|o: int| 0 <= o < m.heap.len() && Datum::Object(h) != Datum::Object(o as nat) implies #[trigger] m3.heap[o]
                == m.heap[o] by {
                assert(m1.heap[o] == m.heap[o]);
            }
            k + 1 + j
        },
    }
}

/// The items of a literal from the `i`-th on.
#[verifier::spinoff_prover]
#[verifier::rlimit(60)]
pub(crate) proof fn sim_items(
    c: CompiledView,
    w: WorkView,
    env: Env,
    f: Framing,
    items: Vec<Expr>,
    i: nat,
    dims: Seq<u64>,
    elem: Native,
    hint: Option<Numeric>,
    array: Operand,
    h: nat,
    all: Seq<u64>,
    acc: Seq<Val>,
    vs: Seq<Val>,
    d: nat,
    world: World,
    m: Machine,
) -> (n: nat)
    requires
        single(elem),
        dims.len() > 0,
        items_ok(env, items, i, dims, elem, hint),
        i <= items@.len(),
        vs.len() == i,
        forall|j: int| 0 <= j < vs.len() ==> shaped(#[trigger] vs[j], dims),
        abreast(c, w, env, f, world, m),
        m.line.len() == 0,
        sees(c, items_made(w, items, i, elem, array, (acc.len() + 1) as u64).0),
        array.kind == Kind::Ptr && array.at < w.code.len() && reg(top(m), array.at) == Datum::Object(h),
        filled(m.heap, h, acc, all, elem),
        nobodys(w, m, h),
        extent_from(all, 0) < u64::MAX,
        acc.len() + (items@.len() - i) * extent_from(dims, 1) <= extent_from(all, 0),
        values_from(d, world, items, hint, i, vs).1 is Ok,
    ensures
        ({
            let (w1, next) = items_made(w, items, i, elem, array, (acc.len() + 1) as u64);
            let m1 = steps(c, m, n);
            let r = values_from(d, world, items, hint, i, vs);
            let out = r.1->Ok_0;
            let more = flattened(out, out.len()).skip(flattened(vs, vs.len()).len() as int);
            &&& filled_on(w, w1, m, m1, h)
            &&& filled(m1.heap, h, acc + more, all, elem)
            &&& out.len() == items@.len()
            &&& forall|j: int| 0 <= j < out.len() ==> shaped(#[trigger] out[j], dims)
            &&& flattened(vs, vs.len()) + more == flattened(out, out.len())
            &&& next == acc.len() + more.len() + 1
            &&& moved_on(world, r.0)
            &&& m1.lines == r.0.lines
        }),
    decreases d, items, items@.len() - i, 4nat,
{
    let next = (acc.len() + 1) as u64;
    items_next(w, items, i, elem, array, next);
    values_next(d, world, items, hint, i, vs);
    let e1 = extent_from(dims, 1);
    if i < items@.len() {
        let e = items@[i as int];
        let (w1, next1) = item_made(w, e, elem, array, next);
        item_quiet(w, env, e, dims, elem, hint, array, next);
        lemma_attuned(w, w1, env);
        items_quiet(w1, env, items, i + 1, dims, elem, hint, array, next1);
        let wf = items_made(w, items, i, elem, array, next).0;
        lemma_sees_before(c, w1, wf);
        assert((items@.len() - i) * e1 == e1 + (items@.len() - (i + 1)) * e1) by (nonlinear_arith);
        assert((items@.len() - (i + 1)) * e1 >= 0) by (nonlinear_arith)
            requires
                items@.len() >= i + 1,
                e1 >= 0,
        ;
        let k = sim_item(c, w, env, f, e, dims, elem, hint, array, h, all, acc, d, world, m);
        let m1 = steps(c, m, k);
        let r = meaning(d, world, e, hint);
        let v = r.1->Ok_0;
        lemma_still_abreast(c, w, w1, env, f, world, r.0, m, m1, h);
        let acc1 = acc + leaves(v);
        let vs1 = vs.push(v);
        assert forall|j: int| 0 <= j < vs1.len() implies shaped(#[trigger] vs1[j], dims) by {
            if j < vs.len() {
                assert(vs1[j] == vs[j]);
            }
        }
        assert(reg(top(m1), array.at) == reg(top(m), array.at));
        let j = sim_items(c, w1, env, f, items, i + 1, dims, elem, hint, array, h, all, acc1, vs1, d, r.0, m1);
        lemma_steps_add(c, m, k, j);
        lemma_filled_then(w, w1, wf, m, m1, steps(c, m, k + j), h);
        lemma_flat_push(vs, v);
        let out = values_from(d, world, items, hint, i, vs).1->Ok_0;
        let whole = flattened(out, out.len());
        let more1 = whole.skip(flattened(vs1, vs1.len()).len() as int);
        let more = whole.skip(flattened(vs, vs.len()).len() as int);
        assert(more =~= leaves(v) + more1) by {
            assert(whole == flattened(vs, vs.len()) + leaves(v) + more1);
        }
        assert(acc1 + more1 =~= acc + more);
        assert(flattened(vs, vs.len()) + more =~= whole);
        k + j
    } else {
        assert(m.calls =~= seq![top(m)]);
        let whole = flattened(vs, vs.len());
        assert(whole.skip(whole.len() as int) =~= Seq::<Val>::empty());
        assert(acc + Seq::<Val>::empty() =~= acc);
        assert(whole + Seq::<Val>::empty() =~= whole);
        0
    }
}

// ── a new array ─────────────────────────────────────────────────────────────

pub(crate) proof fn dims_quiet(w: WorkView, slots: usize, dims: Seq<u64>, i: nat)
    ensures
        quiet(w, dims_stored(w, slots, dims, i)),
        i <= dims.len() ==> dims_stored(w, slots, dims, i).code.len() == w.code.len() + 2 * (dims.len() - i),
    decreases dims.len() - i,
{
    reveal(stored_at);
    if i < dims.len() {
        let (w1, d) = made(w, Inst::Long(dims[i as int]), Kind::Long);
        let w2 = stored_at(w1, slots, Kind::Long, i as u128, d);
        dims_quiet(w2, slots, dims, i + 1);
        lemma_quiet_then(w, w1, w2);
        lemma_quiet_then(w, w2, dims_stored(w, slots, dims, i));
    }
}

/// The dimensions of a new array, written down.
#[verifier::spinoff_prover]
proof fn run_dims(c: CompiledView, w: WorkView, at: usize, dims: Seq<u64>, i: nat, m: Machine, n0: int) -> (n: nat)
    requires
        i <= dims.len() <= u32::MAX,
        sound(c),
        sees(c, dims_stored(w, at, dims, i)),
        stands(w, m),
        n0 <= at < w.code.len(),
        forall|j: int| 0 <= j < i ==> #[trigger] slot(top(m).slots, at as int, j) == Datum::Long(dims[j]),
    ensures
        ({
            let w1 = dims_stored(w, at, dims, i);
            let m1 = steps(c, m, n);
            &&& m1 == with(m, top(m1))
            &&& running(m1)
            &&& top(m1).pc == w1.code.len()
            &&& top(m1).given == top(m).given
            &&& forall|z: usize| z < w.code.len() ==> #[trigger] reg(top(m1), z) == reg(top(m), z)
            &&& forall|z: int, y: int| 0 <= z < n0 ==> #[trigger] slot(top(m1).slots, z, y) == slot(top(m).slots, z, y)
            &&& forall|j: int| 0 <= j < dims.len() ==> #[trigger] slot(top(m1).slots, at as int, j) == Datum::Long(dims[j])
        }),
    decreases dims.len() - i,
{
    if i < dims.len() {
        reveal(stored_at);
        let long = Inst::Long(dims[i as int]);
        let (w1, d) = made(w, long, Kind::Long);
        let store = Inst::StoreAt { into: at, kind: Kind::Long, index: i as u128, value: d.at };
        let w2 = put(w1, store);
        dims_quiet(w2, at, dims, i + 1);
        let wf = dims_stored(w, at, dims, i);
        assert(wf == dims_stored(w2, at, dims, i + 1));
        lemma_sees_before(c, w2, wf);
        lemma_sees_put(c, w1, store);
        run_value(c, w, m, long, Datum::Long(dims[i as int]));
        let m1 = steps(c, m, 1);
        let a = Activation {
            pc: top(m1).pc + 1,
            slots: top(m1).slots.insert((at as int, i as int), Datum::Long(dims[i as int])),
            ..top(m1)
        };
        assert(w2.code[w1.code.len() as int] == store);
        lemma_code(c, w2, w1.code.len() as int);
        lemma_does(c, m1, store, a);
        lemma_steps_add(c, m, 1, 1);
        let m2 = with(m1, a);
        assert forall|j: int| 0 <= j < i + 1 implies #[trigger] slot(top(m2).slots, at as int, j) == Datum::Long(dims[j]) by {
            if j < i {
                assert(slot(top(m1).slots, at as int, j) == slot(top(m).slots, at as int, j));
            }
        }
        let k = run_dims(c, w2, at, dims, i + 1, m2, n0);
        lemma_steps_add(c, m, 2, k);
        let m3 = steps(c, m, 2 + k);
        assert forall|z: usize| z < w.code.len() implies #[trigger] reg(top(m3), z) == reg(top(m), z) by {
            assert(reg(top(m3), z) == reg(top(m2), z));
            assert(reg(top(m1), z) == reg(top(m), z));
        }
        assert forall|z: int, y: int| 0 <= z < n0 implies #[trigger] slot(top(m3).slots, z, y) == slot(top(m).slots, z, y) by {
            assert(slot(top(m3).slots, z, y) == slot(top(m2).slots, z, y));
            assert(slot(top(m1).slots, z, y) == slot(top(m).slots, z, y));
        }
        2 + k
    } else {
        assert(m.calls =~= seq![top(m)]);
        0
    }
}

#[verifier::spinoff_prover]
pub(crate) proof fn new_busy(w: WorkView, elem: Native, dims: Seq<u64>)
    requires
        0 < dims.len() <= u32::MAX,
    ensures
        ({
            let (wf, r) = array_made(w, elem, dims);
            &&& busy(w, wf)
            &&& r.kind == Kind::Ptr
            &&& w.code.len() < wf.code.len() <= usize::MAX ==> r.at < wf.code.len()
            &&& wf.temps == w.temps.push(Temp { value: r, native: Native::Array(0, 1) })
        }),
{
    reveal(array_made);
    let slots = Inst::Slots { kind: Kind::Long, count: dims.len() as u128 };
    let (w1, shape) = made(w, slots, Kind::Ptr);
    let w2 = dims_stored(w1, shape.at, dims, 0);
    dims_quiet(w1, shape.at, dims, 0);
    let (w3, kind) = made(w2, Inst::Small(tag_of(elem)), Kind::Small);
    let (w4, rank) = made(w3, Inst::Small(dims.len() as u32), Kind::Small);
    let args = seq![kind, rank, shape];
    assert(kinds(args) =~= takes(Rt::ArrayNew));
    crate::codegen::workings::alloc_busy(w4, Rt::ArrayNew, args);
    lemma_quiet_then(w, w1, w2);
    lemma_quiet_then(w, w2, w4);
    crate::codegen::workings::lemma_busy_then(w, w4, array_made(w, elem, dims).0);
}

/// A new array of a shape.
#[verifier::spinoff_prover]
#[verifier::rlimit(40)]
pub(crate) proof fn run_new(c: CompiledView, w: WorkView, elem: Native, dims: Seq<u64>, m: Machine) -> (n: nat)
    requires
        single(elem),
        0 < dims.len() <= u32::MAX,
        sound(c),
        sees(c, array_made(w, elem, dims).0),
        stands(w, m),
    ensures
        ({
            let (wf, r) = array_made(w, elem, dims);
            let m1 = steps(c, m, n);
            &&& worked(w, wf, m, m1)
            &&& r.kind == Kind::Ptr
            &&& r.at < wf.code.len()
            &&& wf.temps == w.temps.push(Temp { value: r, native: Native::Array(0, 1) })
            &&& reg(top(m1), r.at) == Datum::Object(m.heap.len())
            &&& m1.heap == m.heap.push(Some(Held { count: 1, value: Boxed::Array(zeros(tag_of(elem), dims)) }))
            &&& m1.lines == m.lines
        }),
{
    reveal(array_made);
    let p = w.code.len() as int;
    let slots = Inst::Slots { kind: Kind::Long, count: dims.len() as u128 };
    let (w1, shape) = made(w, slots, Kind::Ptr);
    let w2 = dims_stored(w1, shape.at, dims, 0);
    dims_quiet(w1, shape.at, dims, 0);
    let tag = Inst::Small(tag_of(elem));
    let (w3, kind) = made(w2, tag, Kind::Small);
    let count = Inst::Small(dims.len() as u32);
    let (w4, rank) = made(w3, count, Kind::Small);
    let args = seq![kind, rank, shape];
    let (wf, r) = array_made(w, elem, dims);
    assert(kinds(args) =~= takes(Rt::ArrayNew));
    crate::codegen::workings::alloc_busy(w4, Rt::ArrayNew, args);
    crate::codegen::workings::lemma_sees_busy(c, w4, wf);
    lemma_sees_put(c, w3, count);
    lemma_sees_put(c, w2, tag);
    lemma_sees_before(c, w1, w2);
    run_value(c, w, m, slots, Datum::Slot(p));
    let m1 = steps(c, m, 1);
    let k = run_dims(c, w1, shape.at, dims, 0, m1, p);
    let m2 = steps(c, m1, k);
    lemma_steps_add(c, m, 1, k);
    run_value(c, w2, m2, tag, Datum::Small(tag_of(elem) as int));
    let m3 = steps(c, m2, 1);
    lemma_steps_add(c, m, 1 + k, 1);
    run_value(c, w3, m3, count, Datum::Small(dims.len() as u32 as int));
    let m4 = steps(c, m3, 1);
    lemma_steps_add(c, m, 1 + k + 1, 1);
    let given = data(top(m4), args);
    assert(reg(top(m4), kind.at) == reg(top(m3), kind.at));
    assert(reg(top(m2), shape.at) == reg(top(m1), shape.at));
    assert(reg(top(m3), shape.at) == reg(top(m2), shape.at));
    assert(reg(top(m4), shape.at) == reg(top(m3), shape.at));
    let b = Boxed::Array(zeros(tag_of(elem), dims));
    let act = Activation { pc: (w4.code.len() + args.len()) as int, args: given, ..top(m4) };
    assert(runtime_call(with(m4, act), top(m4).slots, Rt::ArrayNew, given) == Call::Gives(
        crate::codegen::machine::placed(with(m4, act), b),
        top(m4).slots,
        Datum::Object(m4.heap.len()),
    )) by {
        reveal(runtime_call);
        assert(given[0] == Datum::Small(tag_of(elem) as int));
        assert(given[1] == Datum::Small(dims.len() as int));
        assert(given[2] == Datum::Slot(p));
        assert(dims_at(top(m4).slots, given[2], dims.len()) =~= dims) by {
            assert forall|j: int| 0 <= j < dims.len() implies #[trigger] slot(top(m4).slots, p, j) == Datum::Long(dims[j]) by {
                assert(slot(top(m3).slots, p, j) == slot(top(m2).slots, p, j));
                assert(slot(top(m4).slots, p, j) == slot(top(m3).slots, p, j));
            }
        }
    }
    crate::codegen::workings::run_alloc(c, w4, m4, Rt::ArrayNew, args, b);
    lemma_steps_add(c, m, 1 + k + 1 + 1, 4);
    let m5 = steps(c, m, 1 + k + 1 + 1 + 4);
    lemma_quiet_then(w, w1, w2);
    lemma_quiet_then(w, w2, w4);
    assert(worked(w, w4, m, m4)) by {
        assert(keeps_below(p, top(m), top(m4))) by {
            assert forall|z: usize| z < p implies #[trigger] reg(top(m4), z) == reg(top(m), z) by {
                assert(reg(top(m1), z) == reg(top(m), z));
                assert(reg(top(m2), z) == reg(top(m1), z));
                assert(reg(top(m3), z) == reg(top(m2), z));
            }
            assert forall|z: int, y: int| 0 <= z < p implies #[trigger] slot(top(m4).slots, z, y) == slot(top(m).slots, z, y) by {
                assert(slot(top(m1).slots, z, y) == slot(top(m).slots, z, y));
                assert(slot(top(m2).slots, z, y) == slot(top(m1).slots, z, y));
                assert(slot(top(m3).slots, z, y) == slot(top(m2).slots, z, y));
            }
        }
        assert(m4.calls =~= seq![top(m4)]);
    }
    crate::codegen::workings::lemma_worked_then(w, w4, wf, m, m4, m5);
    1 + k + 1 + 1 + 4
}

} // verus!
