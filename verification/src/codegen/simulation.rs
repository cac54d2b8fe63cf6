//! The code of expressions, run on the machine, comes to what the expressions mean.

use vstd::prelude::*;

use crate::ast::{BinOp, Expr, ExprKind, UnOp};
use crate::codegen::laws::{extended, keeps_binary_made, keeps_checked_made, keeps_failing, lemma_expr, step};
use crate::codegen::lowering::{expr_made, CompiledView};
use crate::codegen::machine::{
    checked, done, gave, holds, place, reg, runtime_call, slot, stepped, steps, Activation, Boxed, Call,
    Datum, Held, Machine,
};
use crate::codegen::native::{allocated_by, kind_of, Native};
use crate::codegen::runtime::{gives, takes, Kind, Rt};
use crate::codegen::steps::{
    binary_made, binary_way, converted, literal_made, logic_made, relation_of, side_of, unary_made,
    words_made, BinaryWay, Side,
};
use crate::codegen::wellformed::placed_once;
use crate::codegen::work::{
    called, chars_made, checked_made, expecting, expecting_all, failing, forked, found, local_index,
    looked_up, made, natural, number_native, put, related, with_args, CheckedOp, FrameView, Inst, LocalView,
    Operand, WorkView,
};
use crate::eval::decimal::parsed_decimal;
use crate::eval::numeric::{asks_for, literal_meaning, Family, Numeric};
use crate::eval::ops::{arith, compared, summed, unary_val, StopView};
use crate::eval::parse::parsed_int;
use crate::eval::semantics;
use crate::eval::semantics::{
    bare, binary_result, expr_result, holder, is_array_operator, operand, run_result, selectors_from, World,
};
use crate::eval::value::Val;
use crate::runtime::array::CellView;
use crate::sema::laws::lemma_same_number;
use crate::diagnostics::position::Span;
use crate::text::fits;

verus! {

// ── stepping ────────────────────────────────────────────────────────────────

pub(crate) proof fn lemma_steps_add(c: CompiledView, m: Machine, a: nat, b: nat)
    ensures
        steps(c, m, a + b) == steps(c, steps(c, m, a), b),
    decreases a,
{
    if a > 0 {
        lemma_steps_add(c, stepped(c, m), (a - 1) as nat, b);
    }
}

pub(crate) proof fn lemma_one_step(c: CompiledView, m: Machine)
    ensures
        steps(c, m, 1) == stepped(c, m),
{
    assert(steps(c, stepped(c, m), 0) == stepped(c, m));
}

/// A machine that runs the top level of a program, with nothing handed over.
pub open spec fn running(m: Machine) -> bool {
    &&& m.end is None
    &&& m.calls.len() == 1
    &&& m.calls[0].function is None
    &&& m.calls[0].args.len() == 0
}

pub open spec fn top(m: Machine) -> Activation {
    m.calls[0]
}

/// The same machine with another activation.
pub open spec fn with(m: Machine, a: Activation) -> Machine {
    Machine { calls: seq![a], ..m }
}

/// A program whose top level is well placed and short enough for its positions to be told
/// apart.
pub open spec fn sound(c: CompiledView) -> bool {
    &&& c.main.code.len() <= usize::MAX
    &&& c.main.texts.len() <= usize::MAX
    &&& forall|b: int|
        #![trigger c.main.code[b]]
        0 <= b < c.main.code.len() && c.main.code[b] is Block ==> placed_once(c.main.code, b)
}

/// The program's code goes on from what has been emitted so far.
pub open spec fn sees(c: CompiledView, w: WorkView) -> bool {
    extended(w.code, c.main.code) && extended(w.texts, c.main.texts)
}

/// One operation that neither calls nor returns.
pub(crate) proof fn lemma_does(c: CompiledView, m: Machine, i: Inst, a: Activation)
    requires
        m.end is None,
        m.calls.len() == 1,
        top(m).function is None,
        0 <= top(m).pc < c.main.code.len(),
        c.main.code[top(m).pc] == i,
        !(i is CallRt) && !(i is CallFn) && !(i is Return) && !(i is ReturnNothing) && !(i is Unreachable),
        done(top(m), c.main.code, c.main.texts, i) == Some(a),
    ensures
        stepped(c, m) == with(m, a),
        steps(c, m, 1) == with(m, a),
{
    reveal(stepped);
    lemma_one_step(c, m);
    assert(m.calls.last() == m.calls[0]);
    assert(m.calls.drop_last().push(a) =~= seq![a]);
}

/// One call into the runtime.
pub(crate) proof fn lemma_calls(
    c: CompiledView,
    m: Machine,
    f: Rt,
    after: Machine,
    slots: crate::codegen::machine::Slots,
    v: Datum,
)
    requires
        m.end is None,
        m.calls.len() == 1,
        top(m).function is None,
        0 <= top(m).pc < c.main.code.len(),
        c.main.code[top(m).pc] == Inst::CallRt(f),
        runtime_call(m, top(m).slots, f, top(m).args) == Call::Gives(after, slots, v),
        after.calls == m.calls,
    ensures
        steps(c, m, 1) == with(
            after,
            Activation {
                pc: top(m).pc + 1,
                regs: top(m).regs.insert(top(m).pc, v),
                slots,
                args: Seq::empty(),
                ..top(m)
            },
        ),
{
    reveal(stepped);
    lemma_one_step(c, m);
    assert(m.calls.last() == m.calls[0]);
    let a = gave(Activation { slots, args: Seq::empty(), ..top(m) }, v)->0;
    assert(after.calls.drop_last().push(a) =~= seq![a]);
}

/// A block stands where it was placed.
pub(crate) proof fn lemma_place(c: CompiledView, b: usize, j: int)
    requires
        sound(c),
        b < c.main.code.len(),
        c.main.code[b as int] is Block,
        0 <= j < c.main.code.len(),
        c.main.code[j] == Inst::At(b),
    ensures
        place(c.main.code, b) == j,
{
    assert(placed_once(c.main.code, b as int));
    assert(b as int as usize == b);
}

/// What a stretch of code leaves alone: registers and slots from before it.
pub open spec fn keeps_below(n: int, a: Activation, b: Activation) -> bool {
    &&& forall|i: usize| i < n ==> #[trigger] reg(b, i) == reg(a, i)
    &&& forall|i: int, k: int| 0 <= i < n ==> #[trigger] slot(b.slots, i, k) == slot(a.slots, i, k)
}

// ── what mirrors what ───────────────────────────────────────────────────────

/// The machine's form of a whole number or a truth value.
pub open spec fn datum(v: Val) -> Datum {
    match v {
        Val::Int(n) => Datum::Word(n),
        Val::Bool(b) => Datum::Bit(b),
        _ => Datum::Nothing,
    }
}

/// Whether a value has a representation.
pub open spec fn fits_native(v: Val, n: Native) -> bool {
    match n {
        Native::Int => v is Int,
        Native::Bool => v is Bool,
        _ => false,
    }
}

/// The cells of whole numbers.
pub open spec fn cells(items: Seq<Val>) -> Seq<CellView> {
    Seq::new(items.len(), |i: int| CellView::Int(items[i]->Int_0))
}

pub open spec fn all_whole(items: Seq<Val>) -> bool {
    forall|i: int| 0 <= i < items.len() ==> #[trigger] items[i] is Int
}

/// Whether an object on the heap is an array that holds what a value holds.
pub open spec fn array_held(heap: Seq<Option<Held>>, o: nat, v: Val) -> bool {
    &&& o < heap.len()
    &&& heap[o as int] matches Some(h) && h.count > 0 && {
        &&& v is Array
        &&& all_whole(v->Array_items)
        &&& h.value matches Boxed::Array(a) && a.items == cells(v->Array_items)
    }
}

/// Whether a slot holds a value in a representation.
pub open spec fn holds_value(heap: Seq<Option<Held>>, x: Datum, v: Val, n: Native) -> bool {
    if n is Array {
        x matches Datum::Object(o) && array_held(heap, o, v)
    } else {
        fits_native(v, n) && x == datum(v)
    }
}

/// Whether a variable's slot holds what its name holds.
pub open spec fn mirrored(w: WorkView, names: Map<Seq<char>, Val>, m: Machine, l: LocalView) -> bool {
    &&& l.slot < w.code.len()
    &&& names.dom().contains(l.name)
    &&& holds_value(m.heap, slot(top(m).slots, l.slot as int, 0), names[l.name], l.native)
}

pub open spec fn has_name(f: FrameView, name: Seq<char>) -> bool {
    local_index(f, name) < f.len()
}

/// Whether the machine's slots hold what the interpreter's names hold, scope by scope.
pub open spec fn mirrors(w: WorkView, world: World, m: Machine) -> bool {
    &&& w.frames.len() == world.frames.len()
    &&& w.frames.len() > 0
    &&& forall|i: int, name: Seq<char>|
        0 <= i < w.frames.len() ==> (#[trigger] has_name(w.frames[i], name) <==> world.frames[i].dom().contains(name))
    &&& forall|i: int, j: int|
        #![trigger w.frames[i][j]]
        0 <= i < w.frames.len() && 0 <= j < w.frames[i].len() ==> {
            &&& mirrored(w, world.frames[i], m, w.frames[i][j])
            &&& local_index(w.frames[i], w.frames[i][j].name) == j
        }
    &&& forall|i: int, j: int, k: int, l: int|
        #![trigger w.frames[i][j], w.frames[k][l]]
        0 <= i < w.frames.len() && 0 <= j < w.frames[i].len() && 0 <= k < w.frames.len() && 0 <= l
            < w.frames[k].len() && w.frames[i][j].slot == w.frames[k][l].slot ==> i == k && j == l
}

/// What lowering an expression on whole numbers leaves alone.
pub open spec fn quiet(a: WorkView, b: WorkView) -> bool {
    &&& a.frames == b.frames
    &&& a.temps == b.temps
    &&& a.handbacks == b.handbacks
    &&& a.continues == b.continues
    &&& a.fns == b.fns
    &&& a.top == b.top
    &&& a.refusal == b.refusal
    &&& a.digits == b.digits
    &&& a.ret == b.ret
    &&& a.owned_from == b.owned_from
    &&& a.open ==> b.open
    &&& extended(a.code, b.code)
    &&& extended(a.texts, b.texts)
}

pub(crate) proof fn lemma_quiet_then(a: WorkView, b: WorkView, c: WorkView)
    requires
        quiet(a, b),
        quiet(b, c),
    ensures
        quiet(a, c),
{
    lemma_extended_then(a.code, b.code, c.code);
    lemma_extended_then(a.texts, b.texts, c.texts);
}

pub(crate) proof fn lemma_extended_then<T>(a: Seq<T>, b: Seq<T>, c: Seq<T>)
    requires
        extended(a, b),
        extended(b, c),
    ensures
        extended(a, c),
{
    assert forall|i: int| 0 <= i < a.len() implies #[trigger] c[i] == a[i] by {
        assert(b[i] == a[i]);
    }
}

pub(crate) proof fn lemma_sees_before(c: CompiledView, a: WorkView, b: WorkView)
    requires
        quiet(a, b),
        sees(c, b),
    ensures
        sees(c, a),
{
    lemma_extended_then(a.code, b.code, c.main.code);
    lemma_extended_then(a.texts, b.texts, c.main.texts);
}

/// Work that touched no variable leaves the mirror whole.
pub(crate) proof fn lemma_still_mirrors(w: WorkView, w1: WorkView, world: World, m: Machine, m1: Machine)
    requires
        mirrors(w, world, m),
        w1.frames == w.frames,
        w.code.len() <= w1.code.len(),
        keeps_below(w.code.len() as int, top(m), top(m1)),
        m1.heap == m.heap,
    ensures
        mirrors(w1, world, m1),
{
    assert forall|i: int, j: int|
        #![trigger w1.frames[i][j]]
        0 <= i < w1.frames.len() && 0 <= j < w1.frames[i].len() implies {
        &&& mirrored(w1, world.frames[i], m1, w1.frames[i][j])
        &&& local_index(w1.frames[i], w1.frames[i][j].name) == j
    } by {
        assert(mirrored(w, world.frames[i], m, w.frames[i][j]));
    }
}

/// A name is found in the same place on both sides, and holds the same.
pub(crate) proof fn lemma_found(w: WorkView, world: World, m: Machine, name: Seq<char>, n: nat)
    requires
        mirrors(w, world, m),
        n <= w.frames.len(),
        found(w.frames, name, n) is Some,
    ensures
        ({
            let (at, native) = found(w.frames, name, n)->0;
            &&& holder(world.frames, name, n) matches Some(i) && {
                let j = local_index(w.frames[i], name);
                &&& 0 <= i < n
                &&& j < w.frames[i].len()
                &&& w.frames[i][j as int] == (LocalView { name, slot: at, native })
                &&& mirrored(w, world.frames[i], m, w.frames[i][j as int])
            }
        }),
    decreases n,
{
    if n > 0 {
        let f = w.frames[n - 1];
        assert(has_name(f, name) <==> world.frames[n - 1].dom().contains(name));
        let i = local_index(f, name);
        if i < f.len() {
            lemma_local(f, name);
            assert(mirrored(w, world.frames[n - 1], m, w.frames[n - 1][i as int]));
        } else {
            lemma_found(w, world, m, name, (n - 1) as nat);
        }
    }
}

pub(crate) proof fn lemma_local(f: FrameView, name: Seq<char>)
    ensures
        local_index(f, name) <= f.len(),
        local_index(f, name) < f.len() ==> f[local_index(f, name) as int].name == name,
        forall|j: int| 0 <= j < local_index(f, name) ==> (#[trigger] f[j]).name != name,
    decreases f.len(),
{
    if f.len() > 0 && f[0].name != name {
        lemma_local(f.skip(1), name);
        let k = local_index(f.skip(1), name);
        assert forall|j: int| 0 <= j < local_index(f, name) implies (#[trigger] f[j]).name != name by {
            if j > 0 {
                assert(f.skip(1)[j - 1].name != name);
            }
        }
        if k < f.skip(1).len() {
            assert(f.skip(1)[k as int] == f[(k + 1) as int]);
        }
    }
}

/// The first place of a name.
pub(crate) proof fn lemma_first_local(f: FrameView, name: Seq<char>, k: nat)
    requires
        k <= f.len(),
        k < f.len() ==> f[k as int].name == name,
        forall|j: int| 0 <= j < k ==> (#[trigger] f[j]).name != name,
    ensures
        local_index(f, name) == k,
{
    lemma_local(f, name);
    let i = local_index(f, name);
    if i < k {
        assert(f[i as int].name != name);
    }
    if k < i {
        assert(f[k as int].name != name);
    }
}

// ── the language of whole numbers ───────────────────────────────────────────

/// A literal that both sides read as the same whole number.
pub open spec fn whole_literal(t: Seq<char>) -> bool {
    &&& t != "true"@
    &&& t != "false"@
    &&& number_native(t) is Int
    &&& parsed_int(t, 10) is Some
    &&& parsed_decimal(t) is Some
}

pub open spec fn is_whole_operation(op: BinOp) -> bool {
    op == BinOp::Add || op == BinOp::Sub || op == BinOp::Mul || op == BinOp::IntDiv || op == BinOp::Mod
}

/// An expression on whole numbers and truth values that comes to the wanted one of them.
pub open spec fn typed(w: WorkView, e: Expr, want: Native) -> bool
    decreases e,
{
    match e.kind {
        ExprKind::Math(inner) => typed(w, *inner, want),
        ExprKind::Number(t) => literal_typed(t@, want),
        ExprKind::Literal(t) => literal_typed(t@, want),
        ExprKind::Ref { name, selectors } => {
            &&& selectors@.len() == 0
            &&& want is Int || want is Bool
            &&& looked_up(w, name@) matches Some((_, n)) && n == want
        },
        ExprKind::Unary { op, operand } => if want is Int {
            op == UnOp::Neg && typed(w, *operand, Native::Int)
        } else {
            want is Bool && op == UnOp::Not && typed(w, *operand, Native::Bool)
        },
        ExprKind::Binary { op, lhs, rhs } => if want is Int {
            is_whole_operation(op) && typed(w, *lhs, Native::Int) && typed(w, *rhs, Native::Int)
        } else if op == BinOp::And || op == BinOp::Or {
            want is Bool && typed(w, *lhs, Native::Bool) && typed(w, *rhs, Native::Bool)
        } else {
            want is Bool && relation_of(op) is Some && typed(w, *lhs, Native::Int) && typed(w, *rhs, Native::Int)
        },
        _ => false,
    }
}

pub open spec fn literal_typed(t: Seq<char>, want: Native) -> bool {
    if want is Int {
        whole_literal(t)
    } else {
        want is Bool && (t == "true"@ || t == "false"@)
    }
}

/// A context that asks for nothing but whole numbers.
pub open spec fn whole_context(hint: Option<Numeric>) -> bool {
    hint is None || asks_for(hint, Family::Int)
}

pub(crate) proof fn lemma_natural(w: WorkView, e: Expr, want: Native)
    requires
        typed(w, e, want),
    ensures
        want is Int || want is Bool,
        want is Int ==> natural(w, e) is Int,
        natural(w, e) is Int || natural(w, e) is Bool,
    decreases e,
{
    reveal(looked_up);
    match e.kind {
        ExprKind::Math(inner) => {
            lemma_natural(w, *inner, want);
        },
        ExprKind::Unary { op, operand } => {
            lemma_natural(w, *operand, if want is Int { Native::Int } else { Native::Bool });
        },
        ExprKind::Binary { op, lhs, rhs } => {
            let side = if op == BinOp::And || op == BinOp::Or {
                Native::Bool
            } else {
                Native::Int
            };
            lemma_natural(w, *lhs, side);
            lemma_natural(w, *rhs, side);
        },
        ExprKind::Number(t) => {
            lemma_literal_native(t@);
        },
        ExprKind::Literal(t) => {
            lemma_literal_native(t@);
        },
        _ => {},
    }
}

pub(crate) proof fn lemma_literal_native(t: Seq<char>)
    ensures
        number_native(t) is Int || number_native(t) is Deci,
        t == "true"@ || t == "false"@ ==> number_native(t) is Int,
{
    reveal_strlit("true");
    reveal_strlit("false");
    reveal_with_fuel(crate::eval::decimal::first_index, 7);
}

// ── single operations, run ──────────────────────────────────────────────────

/// Whether a stretch of code, run from the place it was emitted at, comes out behind itself
/// with nothing changed before it.
pub open spec fn ran(w: WorkView, w1: WorkView, m: Machine, m1: Machine) -> bool {
    &&& quiet(w, w1)
    &&& m1 == with(m, top(m1))
    &&& running(m1)
    &&& top(m1).given == top(m).given
    &&& top(m1).pc == w1.code.len()
    &&& keeps_below(w.code.len() as int, top(m), top(m1))
}

/// Whether the machine stands where the next operation will be emitted.
pub open spec fn stands(w: WorkView, m: Machine) -> bool {
    running(m) && top(m).pc == w.code.len()
}

pub(crate) proof fn lemma_ran_then(
    w: WorkView,
    w1: WorkView,
    w2: WorkView,
    m: Machine,
    m1: Machine,
    m2: Machine,
)
    requires
        ran(w, w1, m, m1),
        ran(w1, w2, m1, m2),
    ensures
        ran(w, w2, m, m2),
{
    lemma_quiet_then(w, w1, w2);
}

/// An operation that gives a value.
pub(crate) proof fn run_value(c: CompiledView, w: WorkView, m: Machine, i: Inst, v: Datum)
    requires
        sound(c),
        sees(c, put(w, i)),
        stands(w, m),
        !(i is CallRt) && !(i is CallFn) && !(i is Return) && !(i is ReturnNothing) && !(i is Unreachable),
        !(i is Jump) && !(i is Fork),
        done(top(m), c.main.code, c.main.texts, i) == gave(top(m), v),
    ensures
        ran(w, put(w, i), m, steps(c, m, 1)),
        top(steps(c, m, 1)) == gave(top(m), v)->0,
        reg(top(steps(c, m, 1)), w.code.len() as usize) == v,
{
    let code = put(w, i).code;
    assert(code[w.code.len() as int] == i);
    assert(c.main.code[w.code.len() as int] == i);
    lemma_does(c, m, i, gave(top(m), v)->0);
    let m1 = steps(c, m, 1);
    assert(m1.calls =~= seq![top(m1)]);
    assert forall|k: usize| k < w.code.len() implies #[trigger] reg(top(m1), k) == reg(top(m), k) by {}
}

/// An operation that gives none and touches no slot of before.
pub(crate) proof fn run_effect(c: CompiledView, w: WorkView, m: Machine, i: Inst, a: Activation)
    requires
        sound(c),
        sees(c, put(w, i)),
        stands(w, m),
        i is Store || i is Block || i is At,
        done(top(m), c.main.code, c.main.texts, i) == Some(a),
        a.pc == w.code.len() + 1,
        a.args.len() == 0,
    ensures
        steps(c, m, 1) == with(m, a),
        running(steps(c, m, 1)),
        a.regs == top(m).regs,
        quiet(w, put(w, i)),
        i is Block || i is At ==> ran(w, put(w, i), m, steps(c, m, 1)),
{
    let code = put(w, i).code;
    assert(code[w.code.len() as int] == i);
    assert(c.main.code[w.code.len() as int] == i);
    lemma_does(c, m, i, a);
    assert(with(m, a).calls =~= seq![a]);
}

// ── groups of operations, run ───────────────────────────────────────────────

/// What stops a program emits code, but no value to release.
pub(crate) proof fn lemma_failing(w: WorkView, code: Seq<char>, message: Seq<char>)
    ensures
        ({
            let f = failing(w, code, message);
            &&& f.frames == w.frames
            &&& f.temps == w.temps
            &&& f.handbacks == w.handbacks
            &&& f.continues == w.continues
            &&& f.fns == w.fns
            &&& f.top == w.top
            &&& f.refusal == w.refusal
            &&& f.digits == w.digits
            &&& f.ret == w.ret
            &&& f.owned_from == w.owned_from
            &&& extended(w.code, f.code)
            &&& extended(w.texts, f.texts)
        }),
{
    keeps_failing(w, code, message);
    reveal(step);
    reveal(failing);
    reveal(chars_made);
    reveal(called);
    reveal(expecting_all);
    reveal_with_fuel(with_args, 4);
    let (w1, a) = chars_made(w, code);
    let (w2, b) = chars_made(w1, message);
    assert(crate::codegen::work::kinds(seq![a, b]) =~= takes(Rt::Fail));
}

/// Checked arithmetic that does not overflow.
pub(crate) proof fn run_checked(
    c: CompiledView,
    w: WorkView,
    m: Machine,
    op: CheckedOp,
    a: Operand,
    b: Operand,
    x: i128,
    y: i128,
) -> (n: nat)
    requires
        sound(c),
        sees(c, checked_made(w, op, a, b).0),
        stands(w, m),
        w.open,
        a.kind == Kind::Word,
        b.kind == Kind::Word,
        reg(top(m), a.at) == Datum::Word(x),
        reg(top(m), b.at) == Datum::Word(y),
        checked(op, x, y) matches Datum::Pair(_, o) && !o,
    ensures
        ({
            let (w1, r) = checked_made(w, op, a, b);
            &&& ran(w, w1, m, steps(c, m, n))
            &&& r.kind == Kind::Word
            &&& w.code.len() <= r.at < w1.code.len()
            &&& reg(top(steps(c, m, n)), r.at) == Datum::Word(checked(op, x, y)->Pair_0)
        }),
{
    reveal(checked_made);
    reveal(forked);
    let (wf, r) = checked_made(w, op, a, b);
    let p = w.code.len() as int;
    let v = checked(op, x, y)->Pair_0;
    let i0 = Inst::Checked { op, lhs: a.at, rhs: b.at };
    let w1 = put(w, i0);
    let i1 = Inst::CheckedValue(p as usize);
    let w2 = put(w1, i1);
    let i2 = Inst::Overflowed(p as usize);
    let w3 = put(w2, i2);
    let w4 = put(w3, Inst::Block);
    let w5 = put(w4, Inst::Block);
    let bad = (p + 3) as usize;
    let ok = (p + 4) as usize;
    let i5 = Inst::Fork { test: (p + 2) as usize, yes: bad, no: ok };
    let w6 = put(w5, i5);
    let w7 = put(w6, Inst::At(bad));
    let f = failing(w7, "AHPCL-PREC-0004"@, crate::codegen::work::checked_name(op));
    lemma_failing(w7, "AHPCL-PREC-0004"@, crate::codegen::work::checked_name(op));
    assert(wf == put(f, Inst::At(ok)));
    assert(extended(w7.code, wf.code));
    let code = c.main.code;
    assert(p + 8 <= wf.code.len() <= usize::MAX);
    assert forall|k: int| 0 <= k < w7.code.len() implies #[trigger] code[k] == w7.code[k] by {
        assert(wf.code[k] == w7.code[k]);
        assert(code[k] == wf.code[k]);
    }
    let j = f.code.len() as int;
    assert(wf.code[j] == Inst::At(ok));
    assert(code[j] == Inst::At(ok));
    assert(code[p] == w7.code[p] && code[p + 1] == w7.code[p + 1] && code[p + 2] == w7.code[p + 2]);
    assert(code[p + 3] == w7.code[p + 3] && code[p + 4] == w7.code[p + 4] && code[p + 5] == w7.code[p + 5]);
    let a0 = top(m);
    let a1 = gave(a0, Datum::Pair(v, false))->0;
    lemma_does(c, m, i0, a1);
    let m1 = with(m, a1);
    let a2 = gave(a1, Datum::Word(v))->0;
    lemma_does(c, m1, i1, a2);
    lemma_steps_add(c, m, 1, 1);
    let m2 = with(m1, a2);
    let a3 = gave(a2, Datum::Bit(false))->0;
    lemma_does(c, m2, i2, a3);
    lemma_steps_add(c, m, 2, 1);
    let m3 = with(m2, a3);
    let a4 = Activation { pc: p + 4, ..a3 };
    lemma_does(c, m3, Inst::Block, a4);
    lemma_steps_add(c, m, 3, 1);
    let m4 = with(m3, a4);
    let a5 = Activation { pc: p + 5, ..a3 };
    lemma_does(c, m4, Inst::Block, a5);
    lemma_steps_add(c, m, 4, 1);
    let m5 = with(m4, a5);
    lemma_place(c, ok, j);
    let a6 = Activation { pc: j, ..a3 };
    assert(reg(a5, (p + 2) as usize) == Datum::Bit(false));
    lemma_does(c, m5, i5, a6);
    lemma_steps_add(c, m, 5, 1);
    let m6 = with(m5, a6);
    let a7 = Activation { pc: j + 1, ..a3 };
    lemma_does(c, m6, Inst::At(ok), a7);
    lemma_steps_add(c, m, 6, 1);
    let m7 = with(m6, a7);
    assert(steps(c, m, 7) == m7);
    lemma_extended_then(w.code, w7.code, wf.code);
    lemma_extended_then(w.texts, w7.texts, wf.texts);
    assert(m7 == with(m, a7));
    7
}

/// A call into the runtime with up to two arguments, which makes no value to release.
pub(crate) proof fn run_called(
    c: CompiledView,
    w: WorkView,
    m: Machine,
    f: Rt,
    args: Seq<Operand>,
    after: Machine,
    v: Datum,
) -> (n: nat)
    requires
        sound(c),
        sees(c, called(w, f, args).0),
        stands(w, m),
        args.len() <= 2,
        crate::codegen::work::kinds(args) =~= takes(f),
        allocated_by(f) is None,
        ({
            let given = Seq::new(args.len(), |i: int| reg(top(m), args[i].at));
            let a = Activation { pc: (w.code.len() + args.len()) as int, args: given, ..top(m) };
            &&& runtime_call(with(m, a), top(m).slots, f, given) == Call::Gives(after, top(m).slots, v)
            &&& after.calls == seq![a]
        }),
    ensures
        ({
            let (w1, r) = called(w, f, args);
            let m1 = steps(c, m, n);
            &&& quiet(w, w1)
            &&& r.kind == match gives(f) {
                Some(k) => k,
                None => Kind::Ptr,
            }
            &&& r.at == w.code.len() + args.len()
            &&& w1.code.len() == w.code.len() + args.len() + 1
            &&& m1 == with(
                after,
                Activation {
                    pc: w1.code.len() as int,
                    regs: top(m).regs.insert(r.at as int, v),
                    ..top(m)
                },
            )
            &&& top(m1).args.len() == 0
            &&& keeps_below(w.code.len() as int, top(m), top(m1))
            &&& reg(top(m1), r.at) == v
        }),
{
    reveal(called);
    reveal(expecting_all);
    reveal_with_fuel(with_args, 4);
    let (wf, r) = called(w, f, args);
    let p = w.code.len() as int;
    let code = c.main.code;
    let a0 = top(m);
    assert(a0.args =~= Seq::<Datum>::empty());
    let given = Seq::new(args.len(), |i: int| reg(top(m), args[i].at));
    assert(m.calls =~= seq![a0]);
    if args.len() == 0 {
        assert(given =~= Seq::<Datum>::empty());
        assert(wf.code == w.code.push(Inst::CallRt(f)));
        assert(code[p] == wf.code[p]);
        let at = Activation { pc: p, args: given, ..a0 };
        assert(at == a0);
        assert(with(m, at) == m);
        lemma_calls(c, m, f, after, a0.slots, v);
        0 + 1
    } else if args.len() == 1 {
        let w1 = put(w, Inst::Arg(args[0].at));
        assert(wf.code == w1.code.push(Inst::CallRt(f)));
        assert(code[p] == wf.code[p]);
        assert(code[p + 1] == wf.code[p + 1]);
        let at = Activation { pc: p + 1, args: given, ..a0 };
        assert(a0.args.push(reg(a0, args[0].at)) =~= given);
        lemma_does(c, m, Inst::Arg(args[0].at), at);
        lemma_calls(c, with(m, at), f, after, a0.slots, v);
        lemma_steps_add(c, m, 1, 1);
        1 + 1
    } else {
        let w1 = put(w, Inst::Arg(args[0].at));
        let w2 = put(w1, Inst::Arg(args[1].at));
        assert(wf.code == w2.code.push(Inst::CallRt(f)));
        assert(code[p] == wf.code[p]);
        assert(code[p + 1] == wf.code[p + 1]);
        assert(code[p + 2] == wf.code[p + 2]);
        let first = Activation { pc: p + 1, args: seq![reg(a0, args[0].at)], ..a0 };
        assert(a0.args.push(reg(a0, args[0].at)) =~= seq![reg(a0, args[0].at)]);
        lemma_does(c, m, Inst::Arg(args[0].at), first);
        let at = Activation { pc: p + 2, args: given, ..a0 };
        assert(first.args.push(reg(first, args[1].at)) =~= given);
        lemma_does(c, with(m, first), Inst::Arg(args[1].at), at);
        lemma_steps_add(c, m, 1, 1);
        lemma_calls(c, with(m, at), f, after, a0.slots, v);
        lemma_steps_add(c, m, 2, 1);
        2 + 1
    }
}

// ── expressions, run ────────────────────────────────────────────────────────

/// Whether code ran through and left a value where its operand says.
pub open spec fn came_to(
    w: WorkView,
    w1: WorkView,
    r: Operand,
    m: Machine,
    m1: Machine,
    want: Native,
    v: Val,
) -> bool {
    &&& ran(w, w1, m, m1)
    &&& r.kind == kind_of(want)
    &&& r.at < w1.code.len()
    &&& reg(top(m1), r.at) == datum(v)
    &&& fits_native(v, want)
}

pub(crate) proof fn lemma_typed_frames(w: WorkView, w1: WorkView, e: Expr, want: Native)
    requires
        typed(w, e, want),
        w.frames == w1.frames,
    ensures
        typed(w1, e, want),
    decreases e,
{
    reveal(looked_up);
    match e.kind {
        ExprKind::Math(inner) => {
            lemma_typed_frames(w, w1, *inner, want);
        },
        ExprKind::Unary { op, operand } => {
            lemma_typed_frames(w, w1, *operand, want);
        },
        ExprKind::Binary { op, lhs, rhs } => {
            let side = if op == BinOp::And || op == BinOp::Or {
                Native::Bool
            } else {
                Native::Int
            };
            lemma_typed_frames(w, w1, *lhs, side);
            lemma_typed_frames(w, w1, *rhs, side);
        },
        _ => {},
    }
}

pub(crate) proof fn sim_literal(
    c: CompiledView,
    w: WorkView,
    t: Seq<char>,
    want: Native,
    hint: Option<Numeric>,
    m: Machine,
) -> (n: nat)
    requires
        literal_typed(t, want),
        sound(c),
        sees(c, literal_made(w, t, want).0),
        stands(w, m),
        whole_context(hint),
    ensures
        came_to(w, literal_made(w, t, want).0, literal_made(w, t, want).1, m, steps(c, m, n), want, literal_meaning(t, hint)),
{
    reveal(literal_made);
    reveal_strlit("true");
    reveal_strlit("false");
    if want is Int {
        lemma_same_number(t);
        let v = parsed_int(t, 10)->0;
        run_value(c, w, m, Inst::Word(v as i128), Datum::Word(v as i128));
    } else if t == "true"@ {
        run_value(c, w, m, Inst::Bool(true), Datum::Bit(true));
    } else {
        run_value(c, w, m, Inst::Bool(false), Datum::Bit(false));
    }
    1
}

/// What an operator makes of two whole numbers.
pub open spec fn whole_outcome(op: BinOp, x: i128, y: i128) -> Val {
    match op {
        BinOp::Add => Val::Int((x + y) as i128),
        BinOp::Sub => Val::Int((x - y) as i128),
        BinOp::Mul => Val::Int((x * y) as i128),
        BinOp::IntDiv => Val::Int((x as int / y as int) as i128),
        BinOp::Mod => Val::Int((x as int % y as int) as i128),
        _ => match relation_of(op) {
            Some(r) => Val::Bool(holds(r, x as int, y as int)),
            None => Val::Nothing,
        },
    }
}

/// How the interpreter compares two whole numbers.
pub(crate) proof fn lemma_whole_compared(op: BinOp, x: i128, y: i128, a: int, b: int, span: Span)
    requires
        relation_of(op) is Some,
        a == x,
        b == y,
    ensures
        compared(op, Val::Int(x), Val::Int(y), span) == Ok::<Val, StopView>(Val::Bool(holds(relation_of(op)->0, a, b))),
{
    reveal(compared);
    assert(a * 1 == a && b * 1 == b);
}

pub(crate) proof fn lemma_whole_arith(op: BinOp, x: i128, y: i128, span: Span, hint: Option<Numeric>)
    requires
        is_whole_operation(op),
        arith(op, Val::Int(x), Val::Int(y), span, hint) is Ok,
    ensures
        arith(op, Val::Int(x), Val::Int(y), span, hint) == Ok::<Val, StopView>(whole_outcome(op, x, y)),
        op == BinOp::Add ==> fits(x + y),
        op == BinOp::Sub ==> fits(x - y),
        op == BinOp::Mul ==> fits(x * y),
        op == BinOp::IntDiv ==> y != 0 && fits(x as int / y as int),
        op == BinOp::Mod ==> y != 0,
{
    reveal(arith);
}

pub(crate) proof fn lemma_whole_outcome(
    world: World,
    op: BinOp,
    x: i128,
    y: i128,
    span: Span,
    hint: Option<Numeric>,
)
    requires
        is_whole_operation(op) || relation_of(op) is Some,
        binary_result(world, op, Val::Int(x), Val::Int(y), span, hint).1 is Ok,
    ensures
        binary_result(world, op, Val::Int(x), Val::Int(y), span, hint) == (
            world,
            Ok::<Val, StopView>(whole_outcome(op, x, y)),
        ),
        op == BinOp::Add ==> fits(x + y),
        op == BinOp::Sub ==> fits(x - y),
        op == BinOp::Mul ==> fits(x * y),
        op == BinOp::IntDiv ==> y != 0 && fits(x as int / y as int),
        op == BinOp::Mod ==> y != 0,
{
    if is_whole_operation(op) {
        assert(!arithmetic_asks(op, x, y, span, hint)) by {
            reveal(arith);
        }
        lemma_whole_arith(op, x, y, span, hint);
    } else {
        lemma_whole_compared(op, x, y, x as int, y as int, span);
    }
}

/// Whether arithmetic on whole numbers asks the world outside.
spec fn arithmetic_asks(op: BinOp, x: i128, y: i128, span: Span, hint: Option<Numeric>) -> bool {
    arith(op, Val::Int(x), Val::Int(y), span, hint) matches Err(StopView::Ask(_))
}

pub(crate) proof fn lemma_whole_call(
    m: Machine,
    s: crate::codegen::machine::Slots,
    op: BinOp,
    given: Seq<Datum>,
    x: i128,
    y: i128,
)
    requires
        op == BinOp::IntDiv || op == BinOp::Mod,
        given.len() == 2,
        given[0] == Datum::Word(x),
        given[1] == Datum::Word(y),
        y != 0,
        op == BinOp::IntDiv ==> fits(x as int / y as int),
    ensures
        runtime_call(
            m,
            s,
            if op == BinOp::IntDiv {
                Rt::IntDiv
            } else {
                Rt::IntMod
            },
            given,
        ) == Call::Gives(m, s, datum(whole_outcome(op, x, y))),
{
    reveal(runtime_call);
}

/// An operator on two whole numbers.
#[verifier::spinoff_prover]
pub(crate) proof fn sim_words(
    c: CompiledView,
    w: WorkView,
    m: Machine,
    op: BinOp,
    a: Operand,
    b: Operand,
    x: i128,
    y: i128,
) -> (n: nat)
    requires
        is_whole_operation(op) || relation_of(op) is Some,
        op == BinOp::Add ==> fits(x + y),
        op == BinOp::Sub ==> fits(x - y),
        op == BinOp::Mul ==> fits(x * y),
        op == BinOp::IntDiv ==> y != 0 && fits(x as int / y as int),
        op == BinOp::Mod ==> y != 0,
        sound(c),
        sees(c, words_made(w, op, a, b).0),
        stands(w, m),
        w.open,
        a.kind == Kind::Word,
        b.kind == Kind::Word,
        a.at < w.code.len(),
        b.at < w.code.len(),
        reg(top(m), a.at) == Datum::Word(x),
        reg(top(m), b.at) == Datum::Word(y),
    ensures
        ({
            let (w1, r) = words_made(w, op, a, b);
            came_to(
                w,
                w1,
                r,
                m,
                steps(c, m, n),
                if is_whole_operation(op) {
                    Native::Int
                } else {
                    Native::Bool
                },
                whole_outcome(op, x, y),
            )
        }),
{
    match relation_of(op) {
        Some(relation) => {
            reveal(related);
            run_value(
                c,
                w,
                m,
                Inst::Relate { relation, kind: Kind::Word, lhs: a.at, rhs: b.at },
                Datum::Bit(holds(relation, x as int, y as int)),
            );
            1
        },
        None => if op == BinOp::Add {
            run_checked(c, w, m, CheckedOp::Add, a, b, x, y)
        } else if op == BinOp::Sub {
            run_checked(c, w, m, CheckedOp::Sub, a, b, x, y)
        } else if op == BinOp::Mul {
            run_checked(c, w, m, CheckedOp::Mul, a, b, x, y)
        } else {
            run_whole_call(c, w, m, op, a, b, x, y)
        },
    }
}

pub(crate) proof fn run_whole_call(
    c: CompiledView,
    w: WorkView,
    m: Machine,
    op: BinOp,
    a: Operand,
    b: Operand,
    x: i128,
    y: i128,
) -> (n: nat)
    requires
        op == BinOp::IntDiv || op == BinOp::Mod,
        y != 0,
        op == BinOp::IntDiv ==> fits(x as int / y as int),
        sound(c),
        sees(c, words_made(w, op, a, b).0),
        stands(w, m),
        w.open,
        a.kind == Kind::Word,
        b.kind == Kind::Word,
        reg(top(m), a.at) == Datum::Word(x),
        reg(top(m), b.at) == Datum::Word(y),
    ensures
        came_to(
            w,
            words_made(w, op, a, b).0,
            words_made(w, op, a, b).1,
            m,
            steps(c, m, n),
            Native::Int,
            whole_outcome(op, x, y),
        ),
{
    let f = if op == BinOp::IntDiv {
        Rt::IntDiv
    } else {
        Rt::IntMod
    };
    let args = seq![a, b];
    assert(words_made(w, op, a, b) == called(w, f, args));
    let given = Seq::new(args.len(), |i: int| reg(top(m), args[i].at));
    let act = Activation { pc: (w.code.len() + args.len()) as int, args: given, ..top(m) };
    let v = datum(whole_outcome(op, x, y));
    lemma_whole_call(with(m, act), top(m).slots, op, given, x, y);
    assert(crate::codegen::work::kinds(args) =~= takes(f));
    let n = run_called(c, w, m, f, args, with(m, act), v);
    let m1 = steps(c, m, n);
    assert(m1.calls =~= seq![top(m1)]);
    n
}

/// What an expression means to the interpreter.
#[verifier::opaque]
pub open spec fn meaning(
    d: nat,
    world: World,
    e: Expr,
    hint: Option<Numeric>,
) -> (World, Result<Val, StopView>) {
    expr_result(d, world, e, hint)
}

pub(crate) proof fn meaning_math(
    d: nat,
    world: World,
    e: Expr,
    hint: Option<Numeric>,
    w: WorkView,
    want: Native,
)
    requires
        e.kind is Math,
    ensures
        meaning(d, world, e, hint) == meaning(d, world, *e.kind->Math_0, hint),
        expr_made(w, e, want) == expr_made(w, *e.kind->Math_0, want),
{
    reveal(meaning);
    reveal_with_fuel(expr_made, 2);
}

pub(crate) proof fn meaning_literal(
    d: nat,
    world: World,
    e: Expr,
    t: String,
    hint: Option<Numeric>,
    w: WorkView,
    want: Native,
)
    requires
        e.kind == ExprKind::Number(t) || e.kind == ExprKind::Literal(t),
    ensures
        meaning(d, world, e, hint) == (world, Ok::<Val, StopView>(literal_meaning(t@, hint))),
        expr_made(w, e, want) == literal_made(w, t@, want),
{
    reveal(meaning);
    reveal(expr_made);
}

pub(crate) proof fn sim_ref(
    c: CompiledView,
    w: WorkView,
    e: Expr,
    want: Native,
    d: nat,
    world: World,
    hint: Option<Numeric>,
    m: Machine,
) -> (n: nat)
    requires
        e.kind is Ref,
        typed(w, e, want),
        sound(c),
        sees(c, expr_made(w, e, want).0),
        mirrors(w, world, m),
        stands(w, m),
        meaning(d, world, e, hint).1 is Ok,
    ensures
        meaning(d, world, e, hint).0 == world,
        came_to(
            w,
            expr_made(w, e, want).0,
            expr_made(w, e, want).1,
            m,
            steps(c, m, n),
            want,
            meaning(d, world, e, hint).1->Ok_0,
        ),
{
    reveal(expr_made);
    reveal(looked_up);
    reveal(converted);
    let name = e.kind->Ref_name;
    let (at, held) = looked_up(w, name@)->0;
    lemma_found(w, world, m, name@, w.frames.len());
    let v = semantics::looked_up(world, name@)->0;
    assert(meaning(d, world, e, hint) == (world, Ok::<Val, StopView>(v))) by {
        reveal(meaning);
        let selectors = e.kind->Ref_selectors;
        assert(selectors_from(d, world, v, selectors, 0, 0, e.span) == run_result(d, world, v, selectors, 0, 0, e.span));
    }
    run_value(c, w, m, Inst::Load { kind: kind_of(held), from: at }, datum(v));
    1
}

pub(crate) proof fn made_unary(c: CompiledView, w: WorkView, e: Expr, want: Native)
    requires
        e.kind is Unary,
        typed(w, e, want),
        sees(c, expr_made(w, e, want).0),
    ensures
        want is Int || want is Bool,
        ({
            let inner = *e.kind->Unary_operand;
            let (w1, x) = expr_made(w, inner, want);
            &&& typed(w, inner, want)
            &&& sees(c, w1)
            &&& want is Bool ==> e.kind->Unary_op == UnOp::Not && expr_made(w, e, want) == made(
                expecting(w1, x, Kind::Bit),
                Inst::Not(x.at),
                Kind::Bit,
            )
            &&& want is Int ==> e.kind->Unary_op == UnOp::Neg && {
                let (w2, zero) = made(w1, Inst::Word(0), Kind::Word);
                &&& sees(c, w2)
                &&& expr_made(w, e, want) == checked_made(w2, CheckedOp::Sub, zero, x)
            }
        }),
{
    let inner = *e.kind->Unary_operand;
    lemma_natural(w, inner, want);
    let (w1, x) = expr_made(w, inner, want);
    reveal_with_fuel(expr_made, 2);
    if want is Bool {
        lemma_sees_put(c, expecting(w1, x, Kind::Bit), Inst::Not(x.at));
    } else {
        reveal(unary_made);
        reveal(converted);
        let (w2, zero) = made(w1, Inst::Word(0), Kind::Word);
        keeps_checked_made(w2, CheckedOp::Sub, zero, x);
        assert(expr_made(w, e, want) == checked_made(w2, CheckedOp::Sub, zero, x));
        lemma_sees_step(c, w2, expr_made(w, e, want).0);
        lemma_sees_put(c, w1, Inst::Word(0));
    }
}

pub(crate) proof fn meaning_unary(d: nat, world: World, e: Expr, hint: Option<Numeric>, v: Val)
    requires
        e.kind is Unary,
        e.kind->Unary_op == UnOp::Neg || e.kind->Unary_op == UnOp::Not,
        meaning(d, world, e, hint).1 is Ok,
    ensures
        meaning(d, world, *e.kind->Unary_operand, hint).1 is Ok,
        meaning(d, world, *e.kind->Unary_operand, hint) == (world, Ok::<Val, StopView>(v)) ==> {
            &&& e.kind->Unary_op == UnOp::Neg && v is Int ==> fits(-v->Int_0) && meaning(d, world, e, hint) == (
                world,
                Ok::<Val, StopView>(Val::Int((-v->Int_0) as i128)),
            )
            &&& e.kind->Unary_op == UnOp::Not && v is Bool ==> meaning(d, world, e, hint) == (
                world,
                Ok::<Val, StopView>(Val::Bool(!v->Bool_0)),
            )
        },
{
    reveal(meaning);
    reveal(unary_val);
    reveal(summed);
}

pub(crate) proof fn made_binary(c: CompiledView, w: WorkView, e: Expr, want: Native, side: Native)
    requires
        e.kind is Binary,
        typed(w, e, want),
        sees(c, expr_made(w, e, want).0),
        side == (if e.kind->Binary_op == BinOp::And || e.kind->Binary_op == BinOp::Or {
            Native::Bool
        } else {
            Native::Int
        }),
    ensures
        ({
            let op = e.kind->Binary_op;
            let (w1, a) = expr_made(w, *e.kind->Binary_lhs, side);
            let (w2, b) = expr_made(w1, *e.kind->Binary_rhs, side);
            &&& typed(w, *e.kind->Binary_lhs, side)
            &&& typed(w1, *e.kind->Binary_rhs, side)
            &&& sees(c, w1)
            &&& sees(c, w2)
            &&& w1.frames == w.frames
            &&& side is Bool ==> want is Bool && expr_made(w, e, want) == logic_made(w2, op, a, b)
            &&& side is Int ==> expr_made(w, e, want) == words_made(w2, op, a, b) && (is_whole_operation(op)
                || relation_of(op) is Some) && want == (if is_whole_operation(op) {
                Native::Int
            } else {
                Native::Bool
            })
        }),
{
    let op = e.kind->Binary_op;
    let lhs = *e.kind->Binary_lhs;
    let rhs = *e.kind->Binary_rhs;
    lemma_plain_way(w, e, want, side);
    let way = binary_way(op, natural(w, lhs), natural(w, rhs), bare(lhs), bare(rhs), want);
    let (w1, a) = expr_made(w, lhs, side);
    let (w2, b) = expr_made(w1, rhs, side);
    assert(expr_made(w, e, want) == binary_made(w2, op, way, a, b, want)) by {
        reveal_with_fuel(expr_made, 2);
    }
    keeps_binary_made(w2, op, way, a, b, want);
    lemma_sees_step(c, w2, expr_made(w, e, want).0);
    lemma_expr(w1, rhs, side);
    lemma_sees_step(c, w1, w2);
    lemma_expr(w, lhs, side);
    reveal(step);
    lemma_typed_frames(w, w1, rhs, side);
    lemma_plain_binary(w2, op, way, a, b, want);
}

pub(crate) proof fn lemma_plain_binary(
    w: WorkView,
    op: BinOp,
    way: BinaryWay,
    a: Operand,
    b: Operand,
    want: Native,
)
    ensures
        way is Logic ==> binary_made(w, op, way, a, b, want) == logic_made(w, op, a, b),
        way is Words ==> binary_made(w, op, way, a, b, want) == words_made(w, op, a, b),
{
    reveal(binary_made);
}

/// How an operator on whole numbers or truth values is carried out.
pub(crate) proof fn lemma_plain_way(w: WorkView, e: Expr, want: Native, side: Native)
    requires
        e.kind is Binary,
        typed(w, e, want),
        side == (if e.kind->Binary_op == BinOp::And || e.kind->Binary_op == BinOp::Or {
            Native::Bool
        } else {
            Native::Int
        }),
    ensures
        ({
            let op = e.kind->Binary_op;
            let lhs = *e.kind->Binary_lhs;
            let rhs = *e.kind->Binary_rhs;
            let l = natural(w, lhs);
            let r = natural(w, rhs);
            let way = binary_way(op, l, r, bare(lhs), bare(rhs), want);
            &&& typed(w, lhs, side)
            &&& typed(w, rhs, side)
            &&& way is Logic || way is Words
            &&& way is Logic <==> side is Bool
            &&& side_of(op, way, true, l, want) == Side::As(side)
            &&& side_of(op, way, false, r, want) == Side::As(side)
            &&& side is Bool ==> want is Bool
            &&& side is Int ==> (is_whole_operation(op) || relation_of(op) is Some) && want == (if is_whole_operation(
                op,
            ) {
                Native::Int
            } else {
                Native::Bool
            })
        }),
{
    lemma_natural(w, *e.kind->Binary_lhs, side);
    lemma_natural(w, *e.kind->Binary_rhs, side);
}

pub(crate) proof fn meaning_binary(d: nat, world: World, e: Expr, hint: Option<Numeric>, x: Val, y: Val)
    requires
        e.kind is Binary,
        !is_array_operator(e.kind->Binary_op),
        meaning(d, world, e, hint).1 is Ok,
    ensures
        meaning(d, world, *e.kind->Binary_lhs, hint).1 is Ok,
        meaning(d, world, *e.kind->Binary_lhs, hint) == (world, Ok::<Val, StopView>(x)) ==> {
            &&& meaning(d, world, *e.kind->Binary_rhs, hint).1 is Ok
            &&& meaning(d, world, *e.kind->Binary_rhs, hint) == (world, Ok::<Val, StopView>(y)) && !(x is Array)
                && !(y is Array) ==> meaning(d, world, e, hint) == binary_result(
                world,
                e.kind->Binary_op,
                x,
                y,
                e.span,
                hint,
            )
        },
{
    reveal(meaning);
    reveal(summed);
}

pub(crate) proof fn sim_logic(
    c: CompiledView,
    w: WorkView,
    m: Machine,
    op: BinOp,
    a: Operand,
    b: Operand,
    x: bool,
    y: bool,
) -> (n: nat)
    requires
        op == BinOp::And || op == BinOp::Or,
        sound(c),
        sees(c, logic_made(w, op, a, b).0),
        stands(w, m),
        a.kind == Kind::Bit,
        b.kind == Kind::Bit,
        reg(top(m), a.at) == Datum::Bit(x),
        reg(top(m), b.at) == Datum::Bit(y),
    ensures
        came_to(
            w,
            logic_made(w, op, a, b).0,
            logic_made(w, op, a, b).1,
            m,
            steps(c, m, n),
            Native::Bool,
            Val::Bool(
                if op == BinOp::And {
                    x && y
                } else {
                    x || y
                },
            ),
        ),
{
    let i = if op is And {
        Inst::And(a.at, b.at)
    } else {
        Inst::Or(a.at, b.at)
    };
    run_value(
        c,
        w,
        m,
        i,
        Datum::Bit(
            if op is And {
                x && y
            } else {
                x || y
            },
        ),
    );
    1
}

/// Code that came to a value, behind code that ran through.
pub(crate) proof fn lemma_came_then(
    c: CompiledView,
    w: WorkView,
    w1: WorkView,
    w2: WorkView,
    r: Operand,
    m: Machine,
    n: nat,
    k: nat,
    want: Native,
    v: Val,
)
    requires
        ran(w, w1, m, steps(c, m, n)),
        came_to(w1, w2, r, steps(c, m, n), steps(c, steps(c, m, n), k), want, v),
    ensures
        steps(c, m, n + k) == steps(c, steps(c, m, n), k),
        came_to(w, w2, r, m, steps(c, m, n + k), want, v),
{
    lemma_steps_add(c, m, n, k);
    lemma_ran_then(w, w1, w2, m, steps(c, m, n), steps(c, m, n + k));
}

/// The code of an expression on whole numbers comes to what the expression means.
#[verifier::spinoff_prover]
pub(crate) proof fn sim_expr(
    c: CompiledView,
    w: WorkView,
    e: Expr,
    want: Native,
    d: nat,
    world: World,
    hint: Option<Numeric>,
    m: Machine,
) -> (n: nat)
    requires
        typed(w, e, want),
        sound(c),
        sees(c, expr_made(w, e, want).0),
        mirrors(w, world, m),
        stands(w, m),
        w.open,
        whole_context(hint),
        meaning(d, world, e, hint).1 is Ok,
    ensures
        meaning(d, world, e, hint).0 == world,
        came_to(
            w,
            expr_made(w, e, want).0,
            expr_made(w, e, want).1,
            m,
            steps(c, m, n),
            want,
            meaning(d, world, e, hint).1->Ok_0,
        ),
    decreases e,
{
    match e.kind {
        ExprKind::Math(inner) => {
            meaning_math(d, world, e, hint, w, want);
            sim_expr(c, w, *inner, want, d, world, hint, m)
        },
        ExprKind::Number(t) => {
            meaning_literal(d, world, e, t, hint, w, want);
            sim_literal(c, w, t@, want, hint, m)
        },
        ExprKind::Literal(t) => {
            meaning_literal(d, world, e, t, hint, w, want);
            sim_literal(c, w, t@, want, hint, m)
        },
        ExprKind::Ref { .. } => sim_ref(c, w, e, want, d, world, hint, m),
        ExprKind::Unary { op, operand: inner } => {
            made_unary(c, w, e, want);
            let v = meaning(d, world, *inner, hint).1->Ok_0;
            meaning_unary(d, world, e, hint, v);
            let (w1, x) = expr_made(w, *inner, want);
            let n = sim_expr(c, w, *inner, want, d, world, hint, m);
            let m1 = steps(c, m, n);
            if op is Not {
                run_value(c, w1, m1, Inst::Not(x.at), Datum::Bit(!v->Bool_0));
                lemma_came_then(
                    c,
                    w,
                    w1,
                    expr_made(w, e, want).0,
                    expr_made(w, e, want).1,
                    m,
                    n,
                    1,
                    want,
                    Val::Bool(!v->Bool_0),
                );
                n + 1
            } else {
                let (w2, zero) = made(w1, Inst::Word(0), Kind::Word);
                run_value(c, w1, m1, Inst::Word(0), Datum::Word(0));
                lemma_steps_add(c, m, n, 1);
                let m2 = steps(c, m, n + 1);
                lemma_ran_then(w, w1, w2, m, m1, m2);
                assert(reg(top(m2), x.at) == datum(v));
                let k = run_checked(c, w2, m2, CheckedOp::Sub, zero, x, 0, v->Int_0);
                lemma_came_then(
                    c,
                    w,
                    w2,
                    expr_made(w, e, want).0,
                    expr_made(w, e, want).1,
                    m,
                    n + 1,
                    k,
                    want,
                    Val::Int((-v->Int_0) as i128),
                );
                n + 1 + k
            }
        },
        ExprKind::Binary { op, lhs, rhs } => {
            let side = if op == BinOp::And || op == BinOp::Or {
                Native::Bool
            } else {
                Native::Int
            };
            made_binary(c, w, e, want, side);
            let (w1, a) = expr_made(w, *lhs, side);
            let (w2, b) = expr_made(w1, *rhs, side);
            let x = meaning(d, world, *lhs, hint).1->Ok_0;
            let y = meaning(d, world, *rhs, hint).1->Ok_0;
            meaning_binary(d, world, e, hint, x, y);
            let n = sim_expr(c, w, *lhs, side, d, world, hint, m);
            let m1 = steps(c, m, n);
            lemma_still_mirrors(w, w1, world, m, m1);
            let k = sim_expr(c, w1, *rhs, side, d, world, hint, m1);
            lemma_steps_add(c, m, n, k);
            let m2 = steps(c, m, n + k);
            lemma_ran_then(w, w1, w2, m, m1, m2);
            assert(reg(top(m2), a.at) == datum(x));
            let out = meaning(d, world, e, hint).1->Ok_0;
            let j = if side is Bool {
                sim_logic(c, w2, m2, op, a, b, x->Bool_0, y->Bool_0)
            } else {
                lemma_whole_outcome(world, op, x->Int_0, y->Int_0, e.span, hint);
                sim_words(c, w2, m2, op, a, b, x->Int_0, y->Int_0)
            };
            lemma_came_then(
                c,
                w,
                w2,
                expr_made(w, e, want).0,
                expr_made(w, e, want).1,
                m,
                n + k,
                j,
                want,
                out,
            );
            n + k + j
        },
        _ => 0,
    }
}

pub(crate) proof fn lemma_sees_step(c: CompiledView, a: WorkView, b: WorkView)
    requires
        step(a, b),
        sees(c, b),
    ensures
        sees(c, a),
{
    reveal(step);
    lemma_extended_then(a.code, b.code, c.main.code);
    lemma_extended_then(a.texts, b.texts, c.main.texts);
}

pub(crate) proof fn lemma_sees_put(c: CompiledView, a: WorkView, i: Inst)
    requires
        sees(c, put(a, i)),
    ensures
        sees(c, a),
{
    lemma_extended_then(a.code, put(a, i).code, c.main.code);
}

} // verus!
