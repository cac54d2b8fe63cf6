//! Single values in compiled code: what represents them, and the operations on them.

use vstd::prelude::*;

use crate::ast::{BinOp, UnOp};
use crate::codegen::lowering::CompiledView;
use crate::codegen::machine::{holds, reg, runtime_call, slot, steps, Activation, Call, Datum, Machine, Slots};
use crate::codegen::native::Native;
use crate::codegen::runtime::{takes, Kind, Rt};
use crate::codegen::simulation::{
    lemma_quiet_then, lemma_ran_then, lemma_sees_before, lemma_sees_put, lemma_steps_add, quiet, ran,
    run_value, sees, sound, stands, top, with,
};
use crate::codegen::steps::{converted, decis_made, ordering_related, rats_made, relation_of, unary_tag};
use crate::codegen::straight::{called_quiet, data, into_quiet, run_any, run_into, run_spilled, spilled_quiet};
use crate::codegen::work::{
    called, called_into, kinds, made, put, related, spilled, Inst, Operand, Relation, WorkView,
};
use crate::diagnostics::position::Span;
use crate::eval::decimal::{
    decimal_difference, decimal_product, decimal_quotient, decimal_sum, normal, Decimal,
};
use crate::eval::numeric::{asks_for, digits_wanted, rational_from, Family, Numeric};
use crate::eval::ops::{arith, compared, text_order, unary_val, StopView};
use crate::eval::rational::{
    common, fraction, rational_difference, rational_product, rational_quotient, rational_sum, Rational,
};
use crate::eval::value::Val;
use crate::runtime::exact::{
    as_fraction, decimal_sign, fraction_held, held, holding, rational_sign, AhpclDecimal, AhpclRational,
};
use crate::text::{abs_int, fits};

verus! {

/// Whether a datum stands for a value in a representation. A whole number may stand where a
/// decimal or a fraction is asked for: the interpreter leaves it whole.
pub open spec fn rep(x: Datum, v: Val, n: Native) -> bool {
    match n {
        Native::Int => v matches Val::Int(k) && x == Datum::Word(k),
        Native::Bool => v matches Val::Bool(b) && x == Datum::Bit(b),
        Native::Deci => x matches Datum::Deci(q) && as_decimal(v) == Some(held(q)),
        Native::Rat => x matches Datum::Rat(q) && as_rational(v) == Some(fraction_held(q)),
        Native::Str => v matches Val::Str(t) && x == Datum::Text(t, None),
        _ => false,
    }
}

pub open spec fn as_decimal(v: Val) -> Option<Decimal> {
    match v {
        Val::Int(n) => Some(Decimal { mantissa: n, scale: 0 }),
        Val::Deci(d) => Some(d),
        _ => None,
    }
}

pub open spec fn as_rational(v: Val) -> Option<Rational> {
    match v {
        Val::Int(n) => Some(Rational { num: n, den: 1 }),
        Val::Rat(r) => Some(r),
        _ => None,
    }
}

pub open spec fn single(n: Native) -> bool {
    n is Int || n is Bool || n is Deci || n is Rat || n is Str
}

/// Where a value of one representation can be had in another.
pub open spec fn passes(n: Native, want: Native) -> bool {
    (n == want && single(n)) || (n is Int && (want is Deci || want is Rat))
}

// ── conversions ─────────────────────────────────────────────────────────────

pub(crate) proof fn converted_quiet(w: WorkView, v: Operand, from: Native, to: Native)
    requires
        passes(from, to),
        v.kind == crate::codegen::native::kind_of(from),
    ensures
        quiet(w, converted(w, v, from, to).0),
        converted(w, v, from, to).1.kind == crate::codegen::native::kind_of(to),
{
    reveal(converted);
    if from != to {
        let f = if to is Deci { Rt::DeciFromInt } else { Rt::RatFromInt };
        let kind = if to is Deci { Kind::Deci } else { Kind::Rat };
        assert(kinds(seq![Operand { at: w.code.len() as usize, kind: Kind::Ptr }] + seq![v]) =~= takes(f));
        into_quiet(w, f, seq![v], kind);
    }
}

#[verifier::spinoff_prover]
pub(crate) proof fn run_converted(c: CompiledView, w: WorkView, m: Machine, v: Operand, from: Native, to: Native, x: Val) -> (n: nat)
    requires
        passes(from, to),
        sound(c),
        sees(c, converted(w, v, from, to).0),
        stands(w, m),
        v.kind == crate::codegen::native::kind_of(from),
        v.at < w.code.len(),
        rep(reg(top(m), v.at), x, from),
    ensures
        ({
            let (w1, r) = converted(w, v, from, to);
            let m1 = steps(c, m, n);
            &&& ran(w, w1, m, m1)
            &&& r.kind == crate::codegen::native::kind_of(to)
            &&& r.at < w1.code.len()
            &&& rep(reg(top(m1), r.at), x, to)
        }),
{
    reveal(converted);
    if from == to {
        assert(m.calls =~= seq![top(m)]);
        0
    } else {
        let f = if to is Deci { Rt::DeciFromInt } else { Rt::RatFromInt };
        let kind = if to is Deci { Kind::Deci } else { Kind::Rat };
        let k = x->Int_0;
        let d = if to is Deci {
            Datum::Deci(AhpclDecimal { mantissa: k, scale: 0, failed: 0 })
        } else {
            Datum::Rat(AhpclRational { num: k, den: 1, failed: 0 })
        };
        let p = w.code.len() as int;
        let args = seq![v];
        assert(kinds(seq![Operand { at: w.code.len() as usize, kind: Kind::Ptr }] + args) =~= takes(f));
        let given = seq![Datum::Slot(p)] + data(top(m), args);
        assert(given[1] == Datum::Word(k));
        assert forall|any: Machine| #[trigger] runtime_call(any, top(m).slots, f, given) == Call::Gives(
            any,
            top(m).slots.insert((p, 0), d),
            Datum::Nothing,
        ) by {
            reveal(runtime_call);
        }
        run_into(c, w, m, f, args, kind, d);
        5
    }
}

// ── exact arithmetic ────────────────────────────────────────────────────────

pub open spec fn exact_operation(op: BinOp) -> bool {
    op == BinOp::Add || op == BinOp::Sub || op == BinOp::Mul || op == BinOp::Div
}

/// What an operation on decimals comes to in the runtime.
pub open spec fn decimal_outcome(op: BinOp, a: Decimal, b: Decimal, digits: u32) -> Option<Decimal> {
    match op {
        BinOp::Add => decimal_sum(a, b),
        BinOp::Sub => decimal_difference(a, b),
        BinOp::Mul => decimal_product(a, b),
        _ => if b.mantissa == 0 {
            None
        } else {
            decimal_quotient(a, b, digits as nat)
        },
    }
}

pub open spec fn rational_outcome(op: BinOp, a: Rational, b: Rational) -> Option<Rational> {
    match op {
        BinOp::Add => rational_sum(a, b),
        BinOp::Sub => rational_difference(a, b),
        BinOp::Mul => rational_product(a, b),
        _ => rational_quotient(a, b),
    }
}

/// The interpreter's decimals are the runtime's.
#[verifier::spinoff_prover]
pub(crate) proof fn decimals_meet(op: BinOp, x: Val, y: Val, a: Decimal, b: Decimal, span: Span, hint: Option<Numeric>)
    requires
        exact_operation(op),
        as_decimal(x) == Some(a),
        as_decimal(y) == Some(b),
        op == BinOp::Div ==> !asks_for(hint, Family::Rat),
        arith(op, x, y, span, hint) is Ok,
    ensures
        ({
            let r = decimal_outcome(op, a, b, digits_wanted(hint));
            &&& r is Some
            &&& as_decimal(arith(op, x, y, span, hint)->Ok_0) == Some(held(holding(r->0)))
        }),
{
    reveal(arith);
    reveal_with_fuel(normal, 2);
    reveal_with_fuel(crate::eval::decimal::ten, 1);
    vstd::arithmetic::power::lemma_pow0(10);
}

/// A whole number as a fraction.
pub(crate) proof fn lemma_whole_fraction(n: int)
    requires
        fits(n),
    ensures
        fraction(n, 1) == Some(Rational { num: n as i128, den: 1 }),
{
    reveal_with_fuel(common, 3);
    assert(abs_int(n) as int / 1 == abs_int(n));
    assert(abs_int(n) % 1 == 0);
}

/// The interpreter's fractions are the runtime's.
#[verifier::spinoff_prover]
pub(crate) proof fn rationals_meet(op: BinOp, x: Val, y: Val, a: Rational, b: Rational, span: Span, hint: Option<Numeric>)
    requires
        exact_operation(op),
        as_rational(x) == Some(a),
        as_rational(y) == Some(b),
        op == BinOp::Div ==> asks_for(hint, Family::Rat),
        arith(op, x, y, span, hint) is Ok,
    ensures
        ({
            let r = rational_outcome(op, a, b);
            &&& r is Some
            &&& as_rational(arith(op, x, y, span, hint)->Ok_0) == r
        }),
{
    reveal(arith);
    if x is Int && y is Int && op != BinOp::Div {
        let n = match op {
            BinOp::Add => x->Int_0 + y->Int_0,
            BinOp::Sub => x->Int_0 - y->Int_0,
            _ => x->Int_0 * y->Int_0,
        };
        lemma_whole_fraction(n);
        assert(a.num * 1 == a.num && b.num * 1 == b.num);
    }
}

/// The runtime function for an operation on decimals, and on fractions.
pub open spec fn decimal_call(op: BinOp) -> Rt {
    match op {
        BinOp::Add => Rt::DeciAdd,
        BinOp::Sub => Rt::DeciSub,
        BinOp::Mul => Rt::DeciMul,
        _ => Rt::DeciDiv,
    }
}

pub open spec fn rational_call(op: BinOp) -> Rt {
    match op {
        BinOp::Add => Rt::RatAdd,
        BinOp::Sub => Rt::RatSub,
        BinOp::Mul => Rt::RatMul,
        _ => Rt::RatDiv,
    }
}

/// Two values put into slots.
pub(crate) proof fn run_spilled_pair(c: CompiledView, w: WorkView, m: Machine, a: Operand, b: Operand, kind: Kind)
    requires
        sound(c),
        ({
            let (w1, pa) = spilled(w, a, kind);
            sees(c, spilled(w1, b, kind).0)
        }),
        stands(w, m),
        a.kind == kind,
        b.kind == kind,
        a.at < w.code.len(),
        b.at < w.code.len(),
    ensures
        ({
            let (w1, pa) = spilled(w, a, kind);
            let (w2, pb) = spilled(w1, b, kind);
            let p = w.code.len() as int;
            let m2 = steps(c, m, 4);
            &&& ran(w, w2, m, m2)
            &&& w2.code.len() == p + 4
            &&& pa == (Operand { at: p as usize, kind: Kind::Ptr })
            &&& pb == (Operand { at: (p + 2) as usize, kind: Kind::Ptr })
            &&& reg(top(m2), pa.at) == Datum::Slot(p)
            &&& reg(top(m2), pb.at) == Datum::Slot(p + 2)
            &&& slot(top(m2).slots, p, 0) == reg(top(m), a.at)
            &&& slot(top(m2).slots, p + 2, 0) == reg(top(m), b.at)
        }),
{
    let (w1, pa) = spilled(w, a, kind);
    let (w2, pb) = spilled(w1, b, kind);
    spilled_quiet(w, a, kind);
    spilled_quiet(w1, b, kind);
    lemma_sees_before(c, w1, w2);
    run_spilled(c, w, m, a, kind);
    let m1 = steps(c, m, 2);
    assert(reg(top(m1), b.at) == reg(top(m), b.at));
    run_spilled(c, w1, m1, b, kind);
    let m2 = steps(c, m1, 2);
    lemma_steps_add(c, m, 2, 2);
    lemma_ran_then(w, w1, w2, m, m1, m2);
    let p = w.code.len() as int;
    assert(slot(top(m2).slots, p, 0) == slot(top(m1).slots, p, 0));
    assert(reg(top(m2), pa.at) == reg(top(m1), pa.at));
}

#[verifier::spinoff_prover]
pub(crate) proof fn decis_quiet(w: WorkView, op: BinOp, a: Operand, b: Operand)
    requires
        exact_operation(op),
        a.kind == Kind::Deci,
        b.kind == Kind::Deci,
    ensures
        quiet(w, decis_made(w, op, a, b).0),
        decis_made(w, op, a, b).1.kind == Kind::Deci,
{
    let (w1, pa) = spilled(w, a, Kind::Deci);
    let (w2, pb) = spilled(w1, b, Kind::Deci);
    spilled_quiet(w, a, Kind::Deci);
    spilled_quiet(w1, b, Kind::Deci);
    lemma_quiet_then(w, w1, w2);
    let f = decimal_call(op);
    let (w3, args) = if op == BinOp::Div {
        let (w3, digits) = made(w2, Inst::Small(w2.digits), Kind::Small);
        (w3, seq![pa, pb, digits])
    } else {
        (w2, seq![pa, pb])
    };
    assert(kinds(seq![Operand { at: w3.code.len() as usize, kind: Kind::Ptr }] + args) =~= takes(f));
    into_quiet(w3, f, args, Kind::Deci);
    lemma_quiet_then(w, w3, decis_made(w, op, a, b).0);
}

/// An operation on decimals.
#[verifier::spinoff_prover]
pub(crate) proof fn run_decis(c: CompiledView, w: WorkView, m: Machine, op: BinOp, a: Operand, b: Operand, x: AhpclDecimal, y: AhpclDecimal) -> (n: nat)
    requires
        exact_operation(op),
        sound(c),
        sees(c, decis_made(w, op, a, b).0),
        stands(w, m),
        a.kind == Kind::Deci,
        b.kind == Kind::Deci,
        a.at < w.code.len(),
        b.at < w.code.len(),
        reg(top(m), a.at) == Datum::Deci(x),
        reg(top(m), b.at) == Datum::Deci(y),
        decimal_outcome(op, held(x), held(y), w.digits) is Some,
    ensures
        ({
            let (w1, r) = decis_made(w, op, a, b);
            let m1 = steps(c, m, n);
            &&& ran(w, w1, m, m1)
            &&& r.kind == Kind::Deci
            &&& r.at < w1.code.len()
            &&& reg(top(m1), r.at) == Datum::Deci(holding(decimal_outcome(op, held(x), held(y), w.digits)->0))
        }),
{
    let (w1, pa) = spilled(w, a, Kind::Deci);
    let (w2, pb) = spilled(w1, b, Kind::Deci);
    let wf = decis_made(w, op, a, b).0;
    spilled_quiet(w, a, Kind::Deci);
    spilled_quiet(w1, b, Kind::Deci);
    let f = decimal_call(op);
    let div = op == BinOp::Div;
    let (w3, digits) = made(w2, Inst::Small(w2.digits), Kind::Small);
    let w4 = if div { w3 } else { w2 };
    let args = if div { seq![pa, pb, digits] } else { seq![pa, pb] };
    assert(kinds(seq![Operand { at: w4.code.len() as usize, kind: Kind::Ptr }] + args) =~= takes(f));
    into_quiet(w4, f, args, Kind::Deci);
    assert(decis_made(w, op, a, b) == called_into(w4, f, args, Kind::Deci));
    lemma_sees_before(c, w4, wf);
    if div {
        lemma_sees_put(c, w2, Inst::Small(w2.digits));
    }
    run_spilled_pair(c, w, m, a, b, Kind::Deci);
    let m2 = steps(c, m, 4);
    let k: nat = if div {
        run_value(c, w2, m2, Inst::Small(w2.digits), Datum::Small(w2.digits as int));
        lemma_steps_add(c, m, 4, 1);
        lemma_ran_then(w, w2, w3, m, m2, steps(c, m, 5));
        5
    } else {
        4
    };
    let m4 = steps(c, m, k);
    let p = w.code.len() as int;
    assert(w2.digits == w.digits) by {
        reveal(spilled);
        reveal(crate::codegen::work::stored);
    }
    assert(reg(top(m4), pa.at) == Datum::Slot(p) && reg(top(m4), pb.at) == Datum::Slot(p + 2));
    assert(slot(top(m4).slots, p, 0) == Datum::Deci(x) && slot(top(m4).slots, p + 2, 0) == Datum::Deci(y));
    let q = w4.code.len() as int;
    let given = seq![Datum::Slot(q)] + data(top(m4), args);
    assert(given[1] == Datum::Slot(p) && given[2] == Datum::Slot(p + 2));
    if div {
        assert(given[3] == Datum::Small(w.digits as int));
    }
    let out = Datum::Deci(holding(decimal_outcome(op, held(x), held(y), w.digits)->0));
    assert forall|any: Machine| #[trigger] runtime_call(any, top(m4).slots, f, given) == Call::Gives(
        any,
        top(m4).slots.insert((q, 0), out),
        Datum::Nothing,
    ) by {
        reveal(runtime_call);
    }
    run_into(c, w4, m4, f, args, Kind::Deci, out);
    let j = args.len() + 4;
    lemma_steps_add(c, m, k, j);
    lemma_ran_then(w, w4, wf, m, m4, steps(c, m, k + j));
    k + j
}

#[verifier::spinoff_prover]
pub(crate) proof fn rats_quiet(w: WorkView, op: BinOp, a: Operand, b: Operand)
    requires
        exact_operation(op),
        a.kind == Kind::Rat,
        b.kind == Kind::Rat,
    ensures
        quiet(w, rats_made(w, op, a, b).0),
        rats_made(w, op, a, b).1.kind == Kind::Rat,
{
    let (w1, pa) = spilled(w, a, Kind::Rat);
    let (w2, pb) = spilled(w1, b, Kind::Rat);
    spilled_quiet(w, a, Kind::Rat);
    spilled_quiet(w1, b, Kind::Rat);
    lemma_quiet_then(w, w1, w2);
    let f = rational_call(op);
    let args = seq![pa, pb];
    assert(kinds(seq![Operand { at: w2.code.len() as usize, kind: Kind::Ptr }] + args) =~= takes(f));
    into_quiet(w2, f, args, Kind::Rat);
    lemma_quiet_then(w, w2, rats_made(w, op, a, b).0);
}

/// An operation on fractions.
#[verifier::spinoff_prover]
pub(crate) proof fn run_rats(c: CompiledView, w: WorkView, m: Machine, op: BinOp, a: Operand, b: Operand, x: AhpclRational, y: AhpclRational) -> (n: nat)
    requires
        exact_operation(op),
        sound(c),
        sees(c, rats_made(w, op, a, b).0),
        stands(w, m),
        a.kind == Kind::Rat,
        b.kind == Kind::Rat,
        a.at < w.code.len(),
        b.at < w.code.len(),
        reg(top(m), a.at) == Datum::Rat(x),
        reg(top(m), b.at) == Datum::Rat(y),
        rational_outcome(op, fraction_held(x), fraction_held(y)) is Some,
    ensures
        ({
            let (w1, r) = rats_made(w, op, a, b);
            let m1 = steps(c, m, n);
            &&& ran(w, w1, m, m1)
            &&& r.kind == Kind::Rat
            &&& r.at < w1.code.len()
            &&& reg(top(m1), r.at) matches Datum::Rat(q) && fraction_held(q) == rational_outcome(
                op,
                fraction_held(x),
                fraction_held(y),
            )->0
        }),
{
    let (w1, pa) = spilled(w, a, Kind::Rat);
    let (w2, pb) = spilled(w1, b, Kind::Rat);
    let wf = rats_made(w, op, a, b).0;
    spilled_quiet(w, a, Kind::Rat);
    spilled_quiet(w1, b, Kind::Rat);
    let f = rational_call(op);
    let args = seq![pa, pb];
    assert(kinds(seq![Operand { at: w2.code.len() as usize, kind: Kind::Ptr }] + args) =~= takes(f));
    into_quiet(w2, f, args, Kind::Rat);
    assert(rats_made(w, op, a, b) == called_into(w2, f, args, Kind::Rat));
    lemma_sees_before(c, w2, wf);
    run_spilled_pair(c, w, m, a, b, Kind::Rat);
    let m2 = steps(c, m, 4);
    let p = w.code.len() as int;
    let q = w2.code.len() as int;
    let given = seq![Datum::Slot(q)] + data(top(m2), args);
    assert(given[1] == Datum::Slot(p) && given[2] == Datum::Slot(p + 2));
    let r = rational_outcome(op, fraction_held(x), fraction_held(y))->0;
    let out = Datum::Rat(AhpclRational { num: r.num, den: r.den, failed: 0 });
    assert forall|any: Machine| #[trigger] runtime_call(any, top(m2).slots, f, given) == Call::Gives(
        any,
        top(m2).slots.insert((q, 0), out),
        Datum::Nothing,
    ) by {
        reveal(runtime_call);
    }
    run_into(c, w2, m2, f, args, Kind::Rat, out);
    let j = args.len() + 4;
    lemma_steps_add(c, m, 4, j);
    lemma_ran_then(w, w2, wf, m, m2, steps(c, m, 4 + j));
    4 + j
}

// ── orders ──────────────────────────────────────────────────────────────────

/// The runtime function that orders values of a kind, and what it says of two.
pub open spec fn order_call(kind: Kind) -> Rt {
    match kind {
        Kind::Deci => Rt::DeciOrder,
        Kind::Rat => Rt::RatOrder,
        _ => Rt::StrOrder,
    }
}

pub open spec fn order_said(x: Datum, y: Datum) -> Option<int> {
    match (x, y) {
        (Datum::Deci(a), Datum::Deci(b)) => Some(decimal_sign(held(a), held(b))),
        (Datum::Rat(a), Datum::Rat(b)) => Some(rational_sign(fraction_held(a), fraction_held(b))),
        (Datum::Text(a, _), Datum::Text(b, _)) => Some(text_order(a, b)),
        _ => None,
    }
}

pub open spec fn is_kind(x: Datum, kind: Kind) -> bool {
    match kind {
        Kind::Deci => x is Deci,
        Kind::Rat => x is Rat,
        Kind::Text => x is Text,
        _ => false,
    }
}

/// Two values of a kind held to a relation, by way of the runtime's order.
pub open spec fn order_made(w: WorkView, relation: Relation, a: Operand, b: Operand, kind: Kind) -> (WorkView, Operand) {
    let (w1, pa) = spilled(w, a, kind);
    let (w2, pb) = spilled(w1, b, kind);
    let (w3, c) = called(w2, order_call(kind), seq![pa, pb]);
    ordering_related(w3, relation, c)
}

#[verifier::spinoff_prover]
pub(crate) proof fn order_quiet(w: WorkView, relation: Relation, a: Operand, b: Operand, kind: Kind)
    requires
        kind == Kind::Deci || kind == Kind::Rat || kind == Kind::Text,
        a.kind == kind,
        b.kind == kind,
    ensures
        quiet(w, order_made(w, relation, a, b, kind).0),
        order_made(w, relation, a, b, kind).1.kind == Kind::Bit,
{
    let (w1, pa) = spilled(w, a, kind);
    let (w2, pb) = spilled(w1, b, kind);
    spilled_quiet(w, a, kind);
    spilled_quiet(w1, b, kind);
    lemma_quiet_then(w, w1, w2);
    let f = order_call(kind);
    assert(kinds(seq![pa, pb]) =~= takes(f));
    called_quiet(w2, f, seq![pa, pb]);
    let (w3, c) = called(w2, f, seq![pa, pb]);
    lemma_quiet_then(w, w2, w3);
    reveal(related);
    lemma_quiet_then(w, w3, order_made(w, relation, a, b, kind).0);
}

#[verifier::spinoff_prover]
pub(crate) proof fn run_order(c: CompiledView, w: WorkView, m: Machine, relation: Relation, a: Operand, b: Operand, kind: Kind) -> (n: nat)
    requires
        kind == Kind::Deci || kind == Kind::Rat || kind == Kind::Text,
        sound(c),
        sees(c, order_made(w, relation, a, b, kind).0),
        stands(w, m),
        a.kind == kind,
        b.kind == kind,
        a.at < w.code.len(),
        b.at < w.code.len(),
        is_kind(reg(top(m), a.at), kind),
        is_kind(reg(top(m), b.at), kind),
    ensures
        ({
            let (w1, r) = order_made(w, relation, a, b, kind);
            let m1 = steps(c, m, n);
            &&& ran(w, w1, m, m1)
            &&& r.kind == Kind::Bit
            &&& r.at < w1.code.len()
            &&& reg(top(m1), r.at) == Datum::Bit(
                holds(relation, order_said(reg(top(m), a.at), reg(top(m), b.at))->0, 0),
            )
        }),
{
    let (w1, pa) = spilled(w, a, kind);
    let (w2, pb) = spilled(w1, b, kind);
    let f = order_call(kind);
    let args = seq![pa, pb];
    spilled_quiet(w, a, kind);
    spilled_quiet(w1, b, kind);
    assert(kinds(args) =~= takes(f));
    called_quiet(w2, f, args);
    let (w3, o) = called(w2, f, args);
    let zero = Inst::Small(0);
    let w4 = put(w3, zero);
    let z = Operand { at: w3.code.len() as usize, kind: Kind::Small };
    let rel = Inst::Relate { relation, kind: Kind::Small, lhs: o.at, rhs: z.at };
    let wf = put(w4, rel);
    assert(order_made(w, relation, a, b, kind).0 == wf) by {
        reveal(related);
    }
    assert(order_made(w, relation, a, b, kind).1 == (Operand { at: w4.code.len() as usize, kind: Kind::Bit })) by {
        reveal(related);
    }
    lemma_sees_put(c, w4, rel);
    lemma_sees_put(c, w3, zero);
    lemma_sees_before(c, w2, w3);
    run_spilled_pair(c, w, m, a, b, kind);
    let m2 = steps(c, m, 4);
    let x = reg(top(m), a.at);
    let y = reg(top(m), b.at);
    let said = order_said(x, y)->0;
    let p = w.code.len() as int;
    let given = data(top(m2), args);
    assert(given[0] == Datum::Slot(p) && given[1] == Datum::Slot(p + 2));
    let act = Activation { pc: (w2.code.len() + args.len()) as int, args: given, ..top(m2) };
    let after = with(m2, act);
    assert(runtime_call(after, top(m2).slots, f, given) == Call::Gives(after, top(m2).slots, Datum::Small(said))) by {
        reveal(runtime_call);
    }
    run_any(c, w2, m2, f, args, after, top(m2).slots, Datum::Small(said));
    lemma_steps_add(c, m, 4, 3);
    let m3 = steps(c, m, 7);
    assert(m3.calls =~= seq![top(m3)]);
    assert(ran(w2, w3, m2, m3));
    lemma_ran_then(w, w2, w3, m, m2, m3);
    run_value(c, w3, m3, zero, Datum::Small(0));
    lemma_steps_add(c, m, 7, 1);
    let m4 = steps(c, m, 8);
    assert(reg(top(m4), o.at) == Datum::Small(said));
    run_value(c, w4, m4, rel, Datum::Bit(holds(relation, said, 0)));
    lemma_steps_add(c, m, 8, 1);
    let m5 = steps(c, m, 9);
    lemma_ran_then(w, w3, w4, m, m3, m4);
    lemma_ran_then(w, w4, wf, m, m4, m5);
    9
}

/// Decimals, fractions and texts are ordered by the runtime as by the interpreter.
#[verifier::spinoff_prover]
pub(crate) proof fn orders_meet(op: BinOp, x: Datum, y: Datum, a: Val, b: Val, n: Native, span: Span)
    requires
        relation_of(op) is Some,
        n is Deci || n is Rat || n is Str,
        rep(x, a, n),
        rep(y, b, n),
        compared(op, a, b, span) is Ok,
    ensures
        order_said(x, y) is Some,
        compared(op, a, b, span) == Ok::<Val, StopView>(
            Val::Bool(holds(relation_of(op)->0, order_said(x, y)->0, 0)),
        ),
{
    reveal(compared);
    if n is Deci {
        lemma_as_fraction(a);
        lemma_as_fraction(b);
    }
}

/// What the interpreter orders a number by is what the runtime orders it by.
proof fn lemma_as_fraction(v: Val)
    requires
        as_decimal(v) is Some,
    ensures
        rational_from(v) == as_fraction(as_decimal(v)->0),
{
    if let Val::Int(n) = v {
        lemma_whole_fraction(v->Int_0 as int);
        vstd::arithmetic::power::lemma_pow0(10);
    }
}

// ── signs ───────────────────────────────────────────────────────────────────

/// Which unary operators single values have besides `not`.
pub open spec fn sign_operation(op: UnOp) -> bool {
    op == UnOp::Neg || op == UnOp::Abs
}

/// `-x` or `|x|` of a decimal or a fraction.
pub open spec fn turned_made(w: WorkView, op: UnOp, v: Operand, kind: Kind) -> (WorkView, Operand) {
    let (w1, tag) = made(w, Inst::Small(unary_tag(op)), Kind::Small);
    let (w2, digits) = made(w1, Inst::Small(w.digits), Kind::Small);
    let (w3, p) = spilled(w2, v, kind);
    called_into(w3, if kind == Kind::Deci { Rt::DeciUnary } else { Rt::RatUnary }, seq![tag, p, digits], kind)
}

#[verifier::spinoff_prover]
pub(crate) proof fn turned_quiet(w: WorkView, op: UnOp, v: Operand, kind: Kind)
    requires
        kind == Kind::Deci || kind == Kind::Rat,
        v.kind == kind,
    ensures
        quiet(w, turned_made(w, op, v, kind).0),
        turned_made(w, op, v, kind).1.kind == kind,
{
    let (w1, tag) = made(w, Inst::Small(unary_tag(op)), Kind::Small);
    let (w2, digits) = made(w1, Inst::Small(w.digits), Kind::Small);
    spilled_quiet(w2, v, kind);
    let (w3, p) = spilled(w2, v, kind);
    let f = if kind == Kind::Deci { Rt::DeciUnary } else { Rt::RatUnary };
    let args = seq![tag, p, digits];
    assert(kinds(seq![Operand { at: w3.code.len() as usize, kind: Kind::Ptr }] + args) =~= takes(f));
    into_quiet(w3, f, args, kind);
    lemma_quiet_then(w, w1, w2);
    lemma_quiet_then(w, w2, w3);
    lemma_quiet_then(w, w3, turned_made(w, op, v, kind).0);
}

#[verifier::spinoff_prover]
pub(crate) proof fn run_turned(c: CompiledView, w: WorkView, m: Machine, op: UnOp, v: Operand, n: Native, x: Val, span: Span, hint: Option<Numeric>) -> (k: nat)
    requires
        sign_operation(op),
        n is Deci || n is Rat,
        sound(c),
        sees(c, turned_made(w, op, v, crate::codegen::native::kind_of(n)).0),
        stands(w, m),
        v.kind == crate::codegen::native::kind_of(n),
        v.at < w.code.len(),
        rep(reg(top(m), v.at), x, n),
        unary_val(op, x, span, hint) is Ok,
    ensures
        ({
            let (w1, r) = turned_made(w, op, v, crate::codegen::native::kind_of(n));
            let m1 = steps(c, m, k);
            &&& ran(w, w1, m, m1)
            &&& r.kind == crate::codegen::native::kind_of(n)
            &&& r.at < w1.code.len()
            &&& rep(reg(top(m1), r.at), unary_val(op, x, span, hint)->Ok_0, n)
        }),
{
    let kind = crate::codegen::native::kind_of(n);
    let i0 = Inst::Small(unary_tag(op));
    let i1 = Inst::Small(w.digits);
    let (w1, tag) = made(w, i0, Kind::Small);
    let (w2, digits) = made(w1, i1, Kind::Small);
    spilled_quiet(w2, v, kind);
    let (w3, p) = spilled(w2, v, kind);
    let f = if kind == Kind::Deci { Rt::DeciUnary } else { Rt::RatUnary };
    let args = seq![tag, p, digits];
    let wf = turned_made(w, op, v, kind).0;
    assert(kinds(seq![Operand { at: w3.code.len() as usize, kind: Kind::Ptr }] + args) =~= takes(f));
    into_quiet(w3, f, args, kind);
    lemma_sees_before(c, w3, wf);
    lemma_sees_before(c, w2, w3);
    lemma_sees_put(c, w1, i1);
    run_value(c, w, m, i0, Datum::Small(unary_tag(op) as int));
    let m1 = steps(c, m, 1);
    run_value(c, w1, m1, i1, Datum::Small(w.digits as int));
    lemma_steps_add(c, m, 1, 1);
    let m2 = steps(c, m, 2);
    lemma_ran_then(w, w1, w2, m, m1, m2);
    assert(reg(top(m2), v.at) == reg(top(m), v.at));
    run_spilled(c, w2, m2, v, kind);
    lemma_steps_add(c, m, 2, 2);
    let m3 = steps(c, m, 4);
    lemma_ran_then(w, w2, w3, m, m2, m3);
    let q = w3.code.len() as int;
    let d = reg(top(m), v.at);
    let given = seq![Datum::Slot(q)] + data(top(m3), args);
    assert(reg(top(m2), tag.at) == Datum::Small(unary_tag(op) as int));
    assert(reg(top(m3), tag.at) == reg(top(m2), tag.at));
    assert(reg(top(m3), digits.at) == reg(top(m2), digits.at));
    assert(given[1] == Datum::Small(unary_tag(op) as int) && given[2] == Datum::Slot(p.at as int) && given[3]
        == Datum::Small(w.digits as int));
    assert(slot(top(m3).slots, p.at as int, 0) == d);
    let out = turned(d, op);
    turned_value(op, d, x, n, span, hint);
    assert forall|any: Machine| #[trigger] runtime_call(any, top(m3).slots, f, given) == Call::Gives(
        any,
        top(m3).slots.insert((q, 0), out),
        Datum::Nothing,
    ) by {
        turned_call(any, top(m3).slots, f, given, op, d, n, q, p.at as int);
    }
    run_into(c, w3, m3, f, args, kind, out);
    lemma_steps_add(c, m, 4, 7);
    lemma_ran_then(w, w3, wf, m, m3, steps(c, m, 11));
    11
}

#[verifier::spinoff_prover]
proof fn turned_value(op: UnOp, d: Datum, x: Val, n: Native, span: Span, hint: Option<Numeric>)
    requires
        sign_operation(op),
        n is Deci || n is Rat,
        rep(d, x, n),
        unary_val(op, x, span, hint) is Ok,
    ensures
        rep(turned(d, op), unary_val(op, x, span, hint)->Ok_0, n),
        turnable(d, op),
{
    reveal(unary_val);
}

/// Whether the opposite that is asked for fits.
pub open spec fn turnable(d: Datum, op: UnOp) -> bool {
    match d {
        Datum::Deci(q) => (op == UnOp::Neg || q.mantissa < 0) ==> fits(-q.mantissa),
        Datum::Rat(q) => (op == UnOp::Neg || q.num < 0) ==> fits(-q.num),
        _ => true,
    }
}

#[verifier::spinoff_prover]
proof fn turned_call(m: Machine, s: Slots, f: Rt, given: Seq<Datum>, op: UnOp, d: Datum, n: Native, q: int, p: int)
    requires
        sign_operation(op),
        n is Deci && f == Rt::DeciUnary && d is Deci || n is Rat && f == Rt::RatUnary && d is Rat,
        turnable(d, op),
        given.len() == 4,
        given[0] == Datum::Slot(q),
        given[1] == Datum::Small(unary_tag(op) as int),
        given[2] == Datum::Slot(p),
        given[3] is Small,
        slot(s, p, 0) == d,
    ensures
        runtime_call(m, s, f, given) == Call::Gives(m, s.insert((q, 0), turned(d, op)), Datum::Nothing),
{
    reveal(runtime_call);
    reveal(crate::runtime::num::cell_unary);
}

/// The opposite of a decimal or a fraction, where it is asked for.
pub open spec fn turned(d: Datum, op: UnOp) -> Datum {
    match d {
        Datum::Deci(q) => if op == UnOp::Neg || q.mantissa < 0 {
            Datum::Deci(AhpclDecimal { mantissa: (-q.mantissa) as i128, ..q })
        } else {
            d
        },
        Datum::Rat(q) => if op == UnOp::Neg || q.num < 0 {
            Datum::Rat(AhpclRational { num: (-q.num) as i128, ..q })
        } else {
            d
        },
        _ => d,
    }
}

} // verus!
