//! Single values, computed by the machine as by the interpreter.

use vstd::prelude::*;

use crate::ast::{BinOp, Expr, UnOp};
use crate::codegen::exactly::{
    as_decimal, as_rational, decimal_outcome, decimals_meet, exact_operation, orders_meet, passes,
    rationals_meet, rep, run_converted, run_decis, run_order, run_rats, run_turned, sign_operation, single,
};
use crate::codegen::lowering::{expr_made, CompiledView};
use crate::codegen::machine::{reg, slot, steps, Datum, Machine};
use crate::codegen::native::{kind_of, Native};
use crate::codegen::powers::{run_abs, run_power, word_unary_quiet};
use crate::codegen::runtime::Kind;
use crate::codegen::scalars::{
    literal_fits, operator_fits, operator_made, ref_parts, sign_quiet, way_native, word_operation,
};
use crate::codegen::simulation::{
    lemma_ran_then, lemma_sees_before, lemma_steps_add, lemma_whole_outcome, meaning, ran, run_checked,
    run_value, sees, sim_logic, sim_words, sound, stands, top,
};
use crate::codegen::standing::{attuned, lemma_found, lemma_seen_value, mirrors, seen, Env, Framing};
use crate::codegen::steps::{literal_made, relation_of, unary_made, word_unary, BinaryWay, UnaryWay};
use crate::codegen::whole::known;
use crate::codegen::work::{found, put, text_made, with_text, CheckedOp, Inst, Operand, WorkView};
use crate::diagnostics::position::Span;
use crate::eval::numeric::{literal_meaning, Numeric};
use crate::eval::ops::{arith, compared, unary_val, StopView};
use crate::eval::parse::parsed_int;
use crate::eval::decimal::parsed_decimal;
use crate::eval::rational::rational_of_decimal;
use crate::eval::semantics;
use crate::eval::semantics::{binary_result, World};
use crate::eval::value::Val;
use crate::runtime::exact::{fraction_held, held};
use crate::text::fits;

verus! {

/// Code that ran through and left a value where its operand says.
pub open spec fn gives(w: WorkView, w1: WorkView, r: Operand, m: Machine, m1: Machine, want: Native, v: Val) -> bool {
    &&& ran(w, w1, m, m1)
    &&& r.kind == kind_of(want)
    &&& r.at < w1.code.len()
    &&& rep(reg(top(m1), r.at), v, want)
}

#[verifier::spinoff_prover]
pub(crate) proof fn run_literal(c: CompiledView, w: WorkView, t: Seq<char>, want: Native, hint: Option<Numeric>, m: Machine) -> (n: nat)
    requires
        literal_fits(t, want, hint),
        sound(c),
        sees(c, literal_made(w, t, want).0),
        stands(w, m),
    ensures
        gives(w, literal_made(w, t, want).0, literal_made(w, t, want).1, m, steps(c, m, n), want, literal_meaning(t, hint)),
{
    reveal(literal_made);
    reveal_strlit("true");
    reveal_strlit("false");
    match want {
        Native::Bool => {
            run_value(c, w, m, Inst::Bool(t == "true"@), Datum::Bit(t == "true"@));
        },
        Native::Int => {
            let v = parsed_int(t, 10)->0;
            run_value(c, w, m, Inst::Word(v as i128), Datum::Word(v as i128));
        },
        Native::Deci => {
            let d = parsed_decimal(t)->0;
            let x = Datum::Deci(crate::runtime::exact::AhpclDecimal { mantissa: d.mantissa, scale: d.scale, failed: 0 });
            run_value(c, w, m, Inst::Deci { mantissa: d.mantissa, scale: d.scale }, x);
        },
        _ => {
            let q = rational_of_decimal(parsed_decimal(t)->0)->0;
            let x = Datum::Rat(crate::runtime::exact::AhpclRational { num: q.num, den: q.den, failed: 0 });
            run_value(c, w, m, Inst::Rat { num: q.num, den: q.den }, x);
        },
    }
    1
}

#[verifier::spinoff_prover]
pub(crate) proof fn run_text(c: CompiledView, w: WorkView, t: Seq<char>, m: Machine)
    requires
        sound(c),
        sees(c, text_made(w, t).0),
        stands(w, m),
    ensures
        gives(w, text_made(w, t).0, text_made(w, t).1, m, steps(c, m, 1), Native::Str, Val::Str(t)),
{
    reveal(text_made);
    let w1 = text_made(w, t).0;
    let k = w.texts.len() as usize;
    assert(w1.texts[w.texts.len() as int] == t);
    assert(c.main.texts[w.texts.len() as int] == t);
    run_value(c, with_text(w, t), m, Inst::Text(k), Datum::Text(t, None));
}

#[verifier::spinoff_prover]
pub(crate) proof fn run_name(
    c: CompiledView,
    w: WorkView,
    env: Env,
    f: Framing,
    e: Expr,
    want: Native,
    hint: Option<Numeric>,
    d: nat,
    world: World,
    m: Machine,
) -> (n: nat)
    requires
        e.kind is Ref,
        e.kind->Ref_selectors@.len() == 0,
        known(env.s, e.kind->Ref_name@, env.s.len()) matches Some(k) && passes(k, want),
        attuned(w, env),
        sound(c),
        sees(c, expr_made(w, e, want).0),
        mirrors(w, seen(world.frames, f), m),
        f.base < world.frames.len(),
        stands(w, m),
    ensures
        meaning(d, world, e, hint).1 is Ok,
        meaning(d, world, e, hint).0 == world,
        gives(w, expr_made(w, e, want).0, expr_made(w, e, want).1, m, steps(c, m, n), want, meaning(d, world, e, hint).1->Ok_0),
{
    let name = e.kind->Ref_name@;
    let k = known(env.s, name, env.s.len())->0;
    let (w1, r) = ref_parts(w, env, e, want);
    let wf = expr_made(w, e, want).0;
    let at = (found(w.frames, name, w.frames.len())->0).0;
    let frames = seen(world.frames, f);
    lemma_found(w, frames, m, name, w.frames.len());
    lemma_seen_value(world, f, name);
    let v = semantics::looked_up(world, name)->0;
    assert(meaning(d, world, e, hint) == (world, Ok::<Val, StopView>(v))) by {
        reveal(meaning);
        let selectors = e.kind->Ref_selectors;
        assert(semantics::selectors_from(d, world, v, selectors, 0, 0, e.span) == semantics::run_result(
            d,
            world,
            v,
            selectors,
            0,
            0,
            e.span,
        ));
    }
    crate::codegen::exactly::converted_quiet(w1, r, k, want);
    lemma_sees_before(c, w1, wf);
    let x = slot(top(m).slots, at as int, 0);
    run_value(c, w, m, Inst::Load { kind: kind_of(k), from: at }, x);
    let m1 = steps(c, m, 1);
    let n = run_converted(c, w1, m1, r, k, want, v);
    lemma_steps_add(c, m, 1, n);
    lemma_ran_then(w, w1, wf, m, m1, steps(c, m, 1 + n));
    1 + n
}

/// What the interpreter makes of two single values.
#[verifier::spinoff_prover]
pub(crate) proof fn pair_meaning(world: World, op: BinOp, x: Val, y: Val, span: Span, hint: Option<Numeric>, n: Native)
    requires
        binary_result(world, op, x, y, span, hint).1 is Ok,
        relation_of(op) is Some || exact_operation(op) || word_operation(op),
        n is Int ==> x is Int && y is Int,
        n is Deci ==> as_decimal(x) is Some && as_decimal(y) is Some,
        n is Rat ==> as_rational(x) is Some && as_rational(y) is Some,
        n is Str ==> x is Str && y is Str && relation_of(op) is Some,
        n is Deci || n is Rat ==> relation_of(op) is Some || exact_operation(op),
        single(n) && !(n is Bool),
    ensures
        relation_of(op) is Some ==> compared(op, x, y, span) is Ok && binary_result(world, op, x, y, span, hint) == (
            world,
            compared(op, x, y, span),
        ),
        relation_of(op) is None ==> arith(op, x, y, span, hint) is Ok && binary_result(world, op, x, y, span, hint) == (
            world,
            arith(op, x, y, span, hint),
        ),
{
    reveal(compared);
    reveal(arith);
}

#[verifier::spinoff_prover]
proof fn power_meaning(x: i128, y: i128, span: Span, hint: Option<Numeric>)
    requires
        arith(BinOp::Pow, Val::Int(x), Val::Int(y), span, hint) is Ok,
    ensures
        0 <= y <= u32::MAX,
        fits(vstd::arithmetic::power::pow(x as int, y as nat)),
        arith(BinOp::Pow, Val::Int(x), Val::Int(y), span, hint) == Ok::<Val, StopView>(
            Val::Int(vstd::arithmetic::power::pow(x as int, y as nat) as i128),
        ),
{
    reveal(arith);
}

/// An operator on single values.
#[verifier::spinoff_prover]
#[verifier::rlimit(30)]
pub(crate) proof fn run_operator(
    c: CompiledView,
    w: WorkView,
    m: Machine,
    op: BinOp,
    way: BinaryWay,
    a: Operand,
    b: Operand,
    want: Native,
    x: Val,
    y: Val,
    world: World,
    span: Span,
    hint: Option<Numeric>,
) -> (n: nat)
    requires
        operator_fits(op, way, want, hint, w.digits),
        single(way_native(way)),
        sound(c),
        sees(c, operator_made(w, op, way, a, b).0),
        stands(w, m),
        w.open,
        a.kind == kind_of(way_native(way)),
        b.kind == kind_of(way_native(way)),
        a.at < w.code.len(),
        b.at < w.code.len(),
        rep(reg(top(m), a.at), x, way_native(way)),
        rep(reg(top(m), b.at), y, way_native(way)),
        binary_result(world, op, x, y, span, hint).1 is Ok,
    ensures
        binary_result(world, op, x, y, span, hint).0 == world,
        gives(
            w,
            operator_made(w, op, way, a, b).0,
            operator_made(w, op, way, a, b).1,
            m,
            steps(c, m, n),
            want,
            binary_result(world, op, x, y, span, hint).1->Ok_0,
        ),
{
    match way {
        BinaryWay::Logic => sim_logic(c, w, m, op, a, b, x->Bool_0, y->Bool_0),
        BinaryWay::Words => {
            pair_meaning(world, op, x, y, span, hint, Native::Int);
            if op == BinOp::Pow {
                power_meaning(x->Int_0, y->Int_0, span, hint);
                run_power(c, w, m, a, b, x->Int_0, y->Int_0)
            } else {
                lemma_whole_outcome(world, op, x->Int_0, y->Int_0, span, hint);
                sim_words(c, w, m, op, a, b, x->Int_0, y->Int_0)
            }
        },
        BinaryWay::Decis => {
            pair_meaning(world, op, x, y, span, hint, Native::Deci);
            let p = reg(top(m), a.at)->Deci_0;
            let q = reg(top(m), b.at)->Deci_0;
            if relation_of(op) is Some {
                orders_meet(op, reg(top(m), a.at), reg(top(m), b.at), x, y, Native::Deci, span);
                run_order(c, w, m, relation_of(op)->0, a, b, Kind::Deci)
            } else {
                decimals_meet(op, x, y, held(p), held(q), span, hint);
                assert(op != BinOp::Div ==> decimal_outcome(op, held(p), held(q), w.digits) == decimal_outcome(
                    op,
                    held(p),
                    held(q),
                    crate::eval::numeric::digits_wanted(hint),
                ));
                run_decis(c, w, m, op, a, b, p, q)
            }
        },
        BinaryWay::Rats => {
            pair_meaning(world, op, x, y, span, hint, Native::Rat);
            let p = reg(top(m), a.at)->Rat_0;
            let q = reg(top(m), b.at)->Rat_0;
            if relation_of(op) is Some {
                orders_meet(op, reg(top(m), a.at), reg(top(m), b.at), x, y, Native::Rat, span);
                run_order(c, w, m, relation_of(op)->0, a, b, Kind::Rat)
            } else {
                rationals_meet(op, x, y, fraction_held(p), fraction_held(q), span, hint);
                run_rats(c, w, m, op, a, b, p, q)
            }
        },
        _ => {
            pair_meaning(world, op, x, y, span, hint, Native::Str);
            orders_meet(op, reg(top(m), a.at), reg(top(m), b.at), x, y, Native::Str, span);
            run_order(c, w, m, relation_of(op)->0, a, b, Kind::Text)
        },
    }
}

/// What the interpreter makes of one single value.
#[verifier::spinoff_prover]
pub(crate) proof fn one_meaning(world: World, op: UnOp, x: Val, span: Span, hint: Option<Numeric>)
    requires
        sign_operation(op) || op == UnOp::Not,
        !(x is Array),
        semantics::unary_result(world, op, x, span, hint).1 is Ok,
    ensures
        unary_val(op, x, span, hint) is Ok,
        semantics::unary_result(world, op, x, span, hint) == (world, unary_val(op, x, span, hint)),
        x is Int && op == UnOp::Neg ==> fits(-x->Int_0) && unary_val(op, x, span, hint)->Ok_0 == Val::Int(
            (-x->Int_0) as i128,
        ),
        x is Int && op == UnOp::Abs ==> (x->Int_0 < 0 ==> fits(-x->Int_0)) && unary_val(op, x, span, hint)->Ok_0
            == Val::Int(
            if x->Int_0 < 0 {
                (-x->Int_0) as i128
            } else {
                x->Int_0
            },
        ),
        x is Bool && op == UnOp::Not ==> unary_val(op, x, span, hint)->Ok_0 == Val::Bool(!x->Bool_0),
{
    reveal(unary_val);
}

/// A sign, turned or dropped.
#[verifier::spinoff_prover]
#[verifier::rlimit(30)]
pub(crate) proof fn run_sign(
    c: CompiledView,
    w: WorkView,
    m: Machine,
    op: UnOp,
    way: UnaryWay,
    v: Operand,
    want: Native,
    x: Val,
    world: World,
    span: Span,
    hint: Option<Numeric>,
) -> (n: nat)
    requires
        sign_operation(op),
        way is Word && v.kind == Kind::Word && passes(Native::Int, want) && rep(reg(top(m), v.at), x, Native::Int) || way is Deci
            && v.kind == Kind::Deci && want is Deci && rep(reg(top(m), v.at), x, Native::Deci) || way is Rat && v.kind
            == Kind::Rat && want is Rat && rep(reg(top(m), v.at), x, Native::Rat),
        sound(c),
        sees(c, unary_made(w, op, way, v, want).0),
        stands(w, m),
        w.open,
        v.at < w.code.len(),
        semantics::unary_result(world, op, x, span, hint).1 is Ok,
    ensures
        semantics::unary_result(world, op, x, span, hint).0 == world,
        gives(
            w,
            unary_made(w, op, way, v, want).0,
            unary_made(w, op, way, v, want).1,
            m,
            steps(c, m, n),
            want,
            semantics::unary_result(world, op, x, span, hint).1->Ok_0,
        ),
{
    one_meaning(world, op, x, span, hint);
    sign_quiet(w, op, way, v, want);
    let wf = unary_made(w, op, way, v, want).0;
    if way is Word {
        let k = x->Int_0;
        let (w1, out) = word_unary(w, op, v);
        word_unary_quiet(w, op, v);
        crate::codegen::exactly::converted_quiet(w1, out, Native::Int, want);
        lemma_sees_before(c, w1, wf);
        let n1 = if op == UnOp::Abs {
            run_abs(c, w, m, v, k)
        } else {
            let zero = Operand { at: w.code.len() as usize, kind: Kind::Word };
            let w0 = put(w, Inst::Word(0));
            crate::codegen::whole::lemma_checked_quiet(w0, CheckedOp::Sub, zero, v);
            lemma_sees_before(c, w0, w1);
            run_value(c, w, m, Inst::Word(0), Datum::Word(0));
            let m0 = steps(c, m, 1);
            assert(reg(top(m0), v.at) == reg(top(m), v.at));
            let j = run_checked(c, w0, m0, CheckedOp::Sub, zero, v, 0, k);
            lemma_steps_add(c, m, 1, j);
            lemma_ran_then(w, w0, w1, m, m0, steps(c, m, 1 + j));
            1 + j
        };
        let m1 = steps(c, m, n1);
        let y = unary_val(op, x, span, hint)->Ok_0;
        let n2 = run_converted(c, w1, m1, out, Native::Int, want, y);
        lemma_steps_add(c, m, n1, n2);
        lemma_ran_then(w, w1, wf, m, m1, steps(c, m, n1 + n2));
        n1 + n2
    } else {
        run_turned(c, w, m, op, v, want, x, span, hint)
    }
}

} // verus!
