//! Operators on one number, lowered and run: what compiled code computes or asks for is what
//! the interpreter does.

use vstd::prelude::*;

use crate::ast::UnOp;
use crate::codegen::lowering::CompiledView;
use crate::codegen::machine::{
    ended, num_in, placed, reg, runtime_call, stepped, steps, Activation, Boxed, Call, Datum, Ending, Machine,
};
use crate::codegen::native::Native;
use crate::codegen::runtime::{takes, Kind, Rt};
use crate::codegen::simulation::{
    lemma_one_step, lemma_sees_put, lemma_steps_add, run_value, sees, sound, stands, top, with,
};
use crate::codegen::steps::{converted, unary_made, unary_tag, UnaryWay};
use crate::codegen::straight::{data, run_args, with_args_parts};
use crate::codegen::work::{called, expecting_all, kinds, made, put, with_args, Inst, Operand, WorkView};
use crate::codegen::workings::{alloc_busy, lemma_sees_busy, run_alloc};
use crate::diagnostics::position::Span;
use crate::eval::laws::normal_keeps_the_value;
use crate::eval::number_laws::{
    an_absolute_value_is_never_below_zero, floors_and_ceilings_enclose, functions_are_asked_for, is_number,
    lemma_whole_decimal, negation_turns_a_number_round, number,
};
use crate::eval::numeric::{digits_wanted, square_root, Numeric};
use crate::eval::ops::{root_digits, unary_val, RequestView, StopView};
use crate::runtime::array::CellView;
use crate::runtime::exact::HaltView;
use crate::runtime::laws::value_held;
use crate::runtime::num::cell_unary;

verus! {

/// A function that is asked for: it is irrational as a rule.
pub open spec fn asked_for(op: UnOp) -> bool {
    op == UnOp::Sin || op == UnOp::Cos || op == UnOp::Tan || op == UnOp::Log || op == UnOp::Ln
}

/// The tag of an operator is the runtime's for that operator: under it the runtime asks for
/// the same function of the same number, to the same digits.
pub proof fn the_runtime_asks_for_the_same_function(op: UnOp, c: CellView, span: Span, hint: Option<Numeric>)
    requires
        asked_for(op),
        c is Int || c is Deci,
    ensures
        ({
            let digits = digits_wanted(hint);
            &&& cell_unary(unary_tag(op), c, digits) matches Err(HaltView::Ask(RequestView::Function { op: p, argument: x, digits: n }))
                && unary_val(op, value_held(c), span, hint) matches Err(StopView::Ask(RequestView::Function { op: q, argument: y, digits: k }))
                && p == op && q == op && n == digits && k == digits && is_number(x) && number(x) == number(y) && y == value_held(c)
        }),
{
    reveal(cell_unary);
    functions_are_asked_for(op, value_held(c), span, hint);
    if let CellView::Int(n) = c {
        lemma_whole_decimal(n);
    }
}

/// The other operators come to the same number under the runtime's tag, wherever the
/// interpreter comes to one.
pub proof fn the_runtime_computes_the_same_number(op: UnOp, c: CellView, span: Span, hint: Option<Numeric>)
    requires
        !asked_for(op),
        op != UnOp::Not,
        is_number(value_held(c)),
        op == UnOp::Sqrt ==> !(c is Rat),
        unary_val(op, value_held(c), span, hint) is Ok,
    ensures
        cell_unary(unary_tag(op), c, digits_wanted(hint)) matches Ok(r) && is_number(value_held(r)) && number(value_held(r)) == number(
            unary_val(op, value_held(c), span, hint)->Ok_0,
        ),
{
    reveal(unary_val);
    reveal(cell_unary);
    let v = value_held(c);
    negation_turns_a_number_round(v, span, hint);
    an_absolute_value_is_never_below_zero(v, span, hint);
    floors_and_ceilings_enclose(v, span, hint);
    if let CellView::Int(n) = c {
        lemma_whole_decimal(n);
    }
    if op == UnOp::Sqrt {
        let d = crate::eval::numeric::decimal_from(v)->0;
        let q = square_root(d, root_digits(hint))->0;
        normal_keeps_the_value(q);
        lemma_whole_decimal(crate::eval::decimal::normal(q).mantissa);
    }
}

/// A call that ends the run.
#[verifier::spinoff_prover]
proof fn run_ending(c: CompiledView, w: WorkView, m: Machine, f: Rt, args: Seq<Operand>, e: Ending)
    requires
        sound(c),
        sees(c, called(w, f, args).0),
        stands(w, m),
        kinds(args) =~= takes(f),
        ({
            let given = data(top(m), args);
            let a = Activation { pc: (w.code.len() + args.len()) as int, args: given, ..top(m) };
            runtime_call(with(m, a), top(m).slots, f, given) == Call::Ends(e)
        }),
    ensures
        steps(c, m, args.len() + 1).end == Some(e),
{
    reveal(called);
    reveal(expecting_all);
    let ready = with_args(w, args, 0);
    with_args_parts(w, args, 0);
    let wf = put(ready, Inst::CallRt(f));
    assert(called(w, f, args).0.code == wf.code);
    assert(sees(c, wf));
    lemma_sees_put(c, ready, Inst::CallRt(f));
    assert(top(m).args =~= data(top(m), args).take(0));
    run_args(c, w, m, args, 0);
    let n = args.len();
    let a = Activation { pc: (w.code.len() + n) as int, args: data(top(m), args), ..top(m) };
    let m1 = with(m, a);
    assert(wf.code[ready.code.len() as int] == Inst::CallRt(f));
    assert(c.main.code[ready.code.len() as int] == Inst::CallRt(f));
    assert(steps(c, m1, 1) == ended(m1, e)) by {
        reveal(stepped);
        lemma_one_step(c, m1);
        assert(m1.calls.last() == m1.calls[0]);
    }
    lemma_steps_add(c, m, n, 1);
}

/// The code of an operator on a number, run where nothing has been answered yet: it waits for
/// the function that the program names, of the number that it names, to the digits in force.
#[verifier::spinoff_prover]
pub proof fn compiled_code_asks_what_the_interpreter_asks(
    c: CompiledView,
    w: WorkView,
    m: Machine,
    op: UnOp,
    v: Operand,
    x: CellView,
    span: Span,
    hint: Option<Numeric>,
)
    requires
        asked_for(op),
        x is Int || x is Deci,
        sound(c),
        stands(w, m),
        sees(c, unary_made(w, op, UnaryWay::Num, v, Native::Num).0),
        v.kind == Kind::Ptr,
        v.at < w.code.len(),
        num_in(m, reg(top(m), v.at)) == Some(x),
        m.asked >= m.answers.len(),
        digits_wanted(hint) == w.digits,
    ensures
        unary_val(op, value_held(x), span, hint) matches Err(StopView::Ask(RequestView::Function { op: q, argument: y, digits: k }))
            && q == op && y == value_held(x) && (steps(c, m, 6).end matches Some(
            Ending::Waiting(RequestView::Function { op: p, argument: z, digits: n }),
        ) && p == q && number(z) == number(y) && n == k),
{
    the_runtime_asks_for_the_same_function(op, x, span, hint);
    reveal(unary_made);
    reveal(converted);
    let i1 = Inst::Small(unary_tag(op));
    let (w1, tag) = made(w, i1, Kind::Small);
    let i2 = Inst::Small(w.digits);
    let (w2, digits) = made(w1, i2, Kind::Small);
    let args = seq![tag, v, digits];
    assert(kinds(args) =~= takes(Rt::NumUnary));
    alloc_busy(w2, Rt::NumUnary, args);
    lemma_sees_busy(c, w2, called(w2, Rt::NumUnary, args).0);
    lemma_sees_put(c, w1, i2);
    run_value(c, w, m, i1, Datum::Small(unary_tag(op) as int));
    let m1 = steps(c, m, 1);
    run_value(c, w1, m1, i2, Datum::Small(w.digits as int));
    let m2 = steps(c, m1, 1);
    lemma_steps_add(c, m, 1, 1);
    assert(reg(top(m2), v.at) == reg(top(m), v.at));
    assert(reg(top(m2), tag.at) == reg(top(m1), tag.at));
    let given = data(top(m2), args);
    let act = Activation { pc: (w2.code.len() + args.len()) as int, args: given, ..top(m2) };
    let q = cell_unary(unary_tag(op), x, w.digits)->Err_0->Ask_0;
    assert(runtime_call(with(m2, act), top(m2).slots, Rt::NumUnary, given) == Call::Ends(Ending::Waiting(q))) by {
        reveal(runtime_call);
        assert(given[0] == Datum::Small(unary_tag(op) as int));
        assert(given[1] == reg(top(m), v.at));
        assert(given[2] == Datum::Small(w.digits as int));
        assert(num_in(with(m2, act), given[1]) == Some(x));
    }
    run_ending(c, w2, m2, Rt::NumUnary, args, Ending::Waiting(q));
    lemma_steps_add(c, m, 2, 4);
}

/// The code of an operator on a number comes to the number that the interpreter comes to.
#[verifier::spinoff_prover]
pub proof fn compiled_code_computes_what_the_interpreter_computes(
    c: CompiledView,
    w: WorkView,
    m: Machine,
    op: UnOp,
    v: Operand,
    x: CellView,
    span: Span,
    hint: Option<Numeric>,
)
    requires
        !asked_for(op),
        op != UnOp::Not,
        is_number(value_held(x)),
        op == UnOp::Sqrt ==> !(x is Rat),
        unary_val(op, value_held(x), span, hint) is Ok,
        sound(c),
        stands(w, m),
        sees(c, unary_made(w, op, UnaryWay::Num, v, Native::Num).0),
        v.kind == Kind::Ptr,
        v.at < w.code.len(),
        num_in(m, reg(top(m), v.at)) == Some(x),
        digits_wanted(hint) == w.digits,
    ensures
        ({
            let m1 = steps(c, m, 6);
            let r = unary_made(w, op, UnaryWay::Num, v, Native::Num).1;
            num_in(m1, reg(top(m1), r.at)) matches Some(y) && number(value_held(y)) == number(
                unary_val(op, value_held(x), span, hint)->Ok_0,
            )
        }),
{
    the_runtime_computes_the_same_number(op, x, span, hint);
    reveal(unary_made);
    reveal(converted);
    let i1 = Inst::Small(unary_tag(op));
    let (w1, tag) = made(w, i1, Kind::Small);
    let i2 = Inst::Small(w.digits);
    let (w2, digits) = made(w1, i2, Kind::Small);
    let args = seq![tag, v, digits];
    assert(kinds(args) =~= takes(Rt::NumUnary));
    alloc_busy(w2, Rt::NumUnary, args);
    lemma_sees_busy(c, w2, called(w2, Rt::NumUnary, args).0);
    lemma_sees_put(c, w1, i2);
    run_value(c, w, m, i1, Datum::Small(unary_tag(op) as int));
    let m1 = steps(c, m, 1);
    run_value(c, w1, m1, i2, Datum::Small(w.digits as int));
    let m2 = steps(c, m1, 1);
    lemma_steps_add(c, m, 1, 1);
    assert(reg(top(m2), v.at) == reg(top(m), v.at));
    assert(reg(top(m2), tag.at) == reg(top(m1), tag.at));
    let given = data(top(m2), args);
    let act = Activation { pc: (w2.code.len() + args.len()) as int, args: given, ..top(m2) };
    let y = cell_unary(unary_tag(op), x, w.digits)->Ok_0;
    assert(runtime_call(with(m2, act), top(m2).slots, Rt::NumUnary, given) == Call::Gives(
        placed(with(m2, act), Boxed::Num(y)),
        top(m2).slots,
        Datum::Object(m2.heap.len()),
    )) by {
        reveal(runtime_call);
        assert(given[0] == Datum::Small(unary_tag(op) as int));
        assert(given[1] == reg(top(m), v.at));
        assert(given[2] == Datum::Small(w.digits as int));
        assert(num_in(with(m2, act), given[1]) == Some(x));
    }
    run_alloc(c, w2, m2, Rt::NumUnary, args, Boxed::Num(y));
    lemma_steps_add(c, m, 2, 4);
}

} // verus!
