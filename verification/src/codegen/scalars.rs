//! Expressions that come to single values.

use vstd::prelude::*;

use crate::ast::{BinOp, Expr, ExprKind, IfChain, Stmt, UnOp};
use crate::codegen::exactly::{
    as_decimal, as_rational, converted_quiet, decis_quiet, exact_operation, order_made, order_quiet, passes,
    rats_quiet, sign_operation, single, turned_made, turned_quiet,
};
use crate::codegen::laws::extended;
use crate::codegen::lowering::{
    args_made, call_made, expr_made, if_value, scoped_made, value_arms, with_handback, without_handback,
};
use crate::codegen::machine::{slot, steps};
use crate::codegen::native::{kind_of, Native};
use crate::codegen::runtime::Kind;
use crate::codegen::simulation::{is_whole_operation, lemma_extended_then, lemma_quiet_then, quiet};
use crate::codegen::standing::{attuned, lemma_attuned, lemma_known, lemma_natural, nat_of, Env};
use crate::codegen::steps::{
    binary_made, binary_way, converted, decis_made, literal_made, logic_made, rats_made, relation_of,
    unary_made, unary_way, unary_wants, words_made, BinaryWay, UnaryWay,
};
use crate::codegen::whole::known;
use crate::codegen::work::{
    expecting, expecting_all, kept, scope_released, with_frame, Handback, found, function_named, looked_up,
    made, number_native, put, text_made, with_args, Inst, Operand, WorkView,
};
use crate::eval::decimal::parsed_decimal;
use crate::eval::numeric::{asks_for, digits_wanted, literal_meaning, Family, Numeric};
use crate::eval::parse::parsed_int;
use crate::eval::rational::rational_of_decimal;
use crate::eval::semantics::{bare, parameter_context};
use crate::eval::value::Val;

verus! {

// ── the expressions ─────────────────────────────────────────────────────────

/// A literal that both sides read alike.
pub open spec fn literal_fits(t: Seq<char>, want: Native, hint: Option<Numeric>) -> bool {
    let truth = t == "true"@ || t == "false"@;
    match want {
        Native::Bool => truth,
        Native::Int => {
            &&& !truth
            &&& number_native(t) is Int
            &&& parsed_int(t, 10) is Some
            &&& literal_meaning(t, hint) == Val::Int(parsed_int(t, 10)->0 as i128)
        },
        Native::Deci => {
            &&& !truth
            &&& parsed_decimal(t) is Some
            &&& as_decimal(literal_meaning(t, hint)) == parsed_decimal(t)
        },
        Native::Rat => {
            &&& !truth
            &&& parsed_decimal(t) matches Some(d) && rational_of_decimal(d) is Some && as_rational(
                literal_meaning(t, hint),
            ) == rational_of_decimal(d)
        },
        _ => false,
    }
}

/// Whole numbers have all the operations but dividing.
pub open spec fn word_operation(op: BinOp) -> bool {
    is_whole_operation(op) || op == BinOp::Pow
}

/// The representation of both sides, where an operator is carried out on single values.
pub open spec fn way_native(way: BinaryWay) -> Native {
    match way {
        BinaryWay::Logic => Native::Bool,
        BinaryWay::Words => Native::Int,
        BinaryWay::Decis => Native::Deci,
        BinaryWay::Rats => Native::Rat,
        BinaryWay::Texts => Native::Str,
        _ => Native::Nothing,
    }
}

/// Whether an operator on single values comes to what is wanted.
pub open spec fn operator_fits(op: BinOp, way: BinaryWay, want: Native, hint: Option<Numeric>, digits: u32) -> bool {
    if relation_of(op) is Some {
        want is Bool && !(way is Logic)
    } else {
        match way {
            BinaryWay::Logic => want is Bool && (op == BinOp::And || op == BinOp::Or),
            BinaryWay::Words => want is Int && word_operation(op),
            BinaryWay::Decis => want is Deci && exact_operation(op) && (op == BinOp::Div ==> !asks_for(
                hint,
                Family::Rat,
            ) && digits_wanted(hint) == digits),
            BinaryWay::Rats => want is Rat && exact_operation(op) && (op == BinOp::Div ==> asks_for(hint, Family::Rat)),
            _ => false,
        }
    }
}

pub open spec fn the_way(env: Env, e: Expr, want: Native) -> BinaryWay {
    let lhs = *e.kind->Binary_lhs;
    let rhs = *e.kind->Binary_rhs;
    binary_way(e.kind->Binary_op, nat_of(env, lhs), nat_of(env, rhs), bare(lhs), bare(rhs), want)
}

/// An expression that comes to a single value in the wanted representation.
pub open spec fn sc(env: Env, e: Expr, want: Native, hint: Option<Numeric>) -> bool
    decreases e,
{
    match e.kind {
        ExprKind::Math(inner) => sc(env, *inner, want, hint),
        ExprKind::Number(t) => literal_fits(t@, want, hint),
        ExprKind::Literal(t) => literal_fits(t@, want, hint),
        ExprKind::Str(_) => want is Str,
        ExprKind::Ref { name, selectors } => {
            &&& selectors@.len() == 0
            &&& known(env.s, name@, env.s.len()) matches Some(n) && passes(n, want)
        },
        ExprKind::Unary { op, operand } => if op == UnOp::Not {
            want is Bool && sc(env, *operand, Native::Bool, hint)
        } else {
            let way = unary_way(op, nat_of(env, *operand), bare(*operand));
            &&& sign_operation(op)
            &&& match way {
                UnaryWay::Word => passes(Native::Int, want) && sc(env, *operand, Native::Int, hint),
                UnaryWay::Deci => want is Deci && sc(env, *operand, Native::Deci, hint),
                UnaryWay::Rat => want is Rat && sc(env, *operand, Native::Rat, hint),
                _ => false,
            }
        },
        ExprKind::Binary { op, lhs, rhs } => {
            let way = the_way(env, e, want);
            &&& operator_fits(op, way, want, hint, env.digits)
            &&& single(way_native(way))
            &&& sc(env, *lhs, way_native(way), hint)
            &&& sc(env, *rhs, way_native(way), hint)
        },
        ExprKind::Call { name, args } => function_named(env.fns, name@, env.fns.len()) matches Some(i) && {
            &&& callable(env, i as int)
            &&& passes(env.fns[i as int].ret, want)
            &&& sc_args(env, args, 0, i as int)
        },
        ExprKind::If(chain) => single(want) && sc_arms(env, chain, 0, want),
        _ => false,
    }
}

/// The arms of a conditional used for its value, from the `i`-th on: each hands back at once,
/// and the last has no condition.
pub open spec fn sc_arms(env: Env, chain: IfChain, i: nat, want: Native) -> bool
    decreases chain, chain.arms@.len() - i,
{
    i < chain.arms@.len() && {
        let arm = chain.arms@[i as int];
        &&& arm.body@.len() == 1
        &&& arm.body@[0] matches Stmt::Handback { value, .. } && sc(
            Env { s: env.s.push(Map::empty()), ..env },
            value,
            want,
            None,
        )
        &&& match arm.condition {
            Some(e) => sc(env, e, Native::Bool, None) && sc_arms(env, chain, i + 1, want),
            None => i + 1 == chain.arms@.len(),
        }
    }
}

/// A function whose parameters are single values.
pub open spec fn callable(env: Env, i: int) -> bool {
    &&& 0 <= i < env.fns.len()
    &&& env.fns.len() == env.functions.len()
    &&& forall|k: int| 0 <= k < env.fns[i].params.len() ==> single(#[trigger] env.fns[i].params[k])
}

/// The arguments of a call, from the `k`-th on.
pub open spec fn sc_args(env: Env, args: Vec<Expr>, k: nat, i: int) -> bool
    decreases args, args@.len() - k,
{
    &&& args@.len() == env.fns[i].params.len()
    &&& k >= args@.len() || {
        &&& sc(env, args@[k as int], env.fns[i].params[k as int], parameter_context(env.functions[i], k))
        &&& sc_args(env, args, k + 1, i)
    }
}

/// Whether an expression calls a function, which may print.
pub open spec fn talks(e: Expr) -> bool
    decreases e,
{
    match e.kind {
        ExprKind::Math(inner) => talks(*inner),
        ExprKind::Unary { operand, .. } => talks(*operand),
        ExprKind::Binary { lhs, rhs, .. } => talks(*lhs) || talks(*rhs),
        ExprKind::Call { .. } => true,
        ExprKind::If(_) => true,
        _ => false,
    }
}

// ── their code ──────────────────────────────────────────────────────────────

pub(crate) proof fn sc_single(env: Env, e: Expr, want: Native, hint: Option<Numeric>)
    requires
        sc(env, e, want, hint),
    ensures
        single(want),
    decreases e,
{
    if let ExprKind::Math(inner) = e.kind {
        sc_single(env, *inner, want, hint);
    }
}

#[verifier::spinoff_prover]
pub(crate) proof fn binary_parts(w: WorkView, env: Env, e: Expr, want: Native)
    requires
        e.kind is Binary,
        attuned(w, env),
        single(way_native(the_way(env, e, want))),
        relation_of(e.kind->Binary_op) is Some || !(the_way(env, e, want) is Texts),
    ensures
        ({
            let op = e.kind->Binary_op;
            let way = the_way(env, e, want);
            let k = way_native(way);
            let (w1, a) = expr_made(w, *e.kind->Binary_lhs, k);
            let (w2, b) = expr_made(w1, *e.kind->Binary_rhs, k);
            expr_made(w, e, want) == binary_made(w2, op, way, a, b, want)
        }),
{
    lemma_natural(w, env, *e.kind->Binary_lhs);
    lemma_natural(w, env, *e.kind->Binary_rhs);
    reveal(expr_made);
}

#[verifier::spinoff_prover]
pub(crate) proof fn unary_parts(w: WorkView, env: Env, e: Expr, want: Native)
    requires
        e.kind is Unary,
        attuned(w, env),
        e.kind->Unary_op != UnOp::Sqrt,
    ensures
        ({
            let op = e.kind->Unary_op;
            let operand = *e.kind->Unary_operand;
            let held = nat_of(env, operand);
            let way = unary_way(op, held, bare(operand));
            let (w1, v) = expr_made(w, operand, unary_wants(way, held));
            let (w0, x) = expr_made(w, operand, Native::Bool);
            &&& op == UnOp::Not ==> expr_made(w, e, want) == made(expecting(w0, x, Kind::Bit), Inst::Not(x.at), Kind::Bit)
            &&& op != UnOp::Not ==> expr_made(w, e, want) == unary_made(w1, op, way, v, want)
        }),
{
    lemma_natural(w, env, *e.kind->Unary_operand);
    reveal(expr_made);
}

/// What an operator on single values is lowered to.
pub open spec fn operator_made(w: WorkView, op: BinOp, way: BinaryWay, a: Operand, b: Operand) -> (WorkView, Operand) {
    match way {
        BinaryWay::Logic => logic_made(w, op, a, b),
        BinaryWay::Words => words_made(w, op, a, b),
        BinaryWay::Decis => if relation_of(op) is Some {
            order_made(w, relation_of(op)->0, a, b, Kind::Deci)
        } else {
            decis_made(w, op, a, b)
        },
        BinaryWay::Rats => if relation_of(op) is Some {
            order_made(w, relation_of(op)->0, a, b, Kind::Rat)
        } else {
            rats_made(w, op, a, b)
        },
        _ => order_made(w, relation_of(op)->0, a, b, Kind::Text),
    }
}

#[verifier::spinoff_prover]
pub(crate) proof fn operator_parts(w: WorkView, op: BinOp, way: BinaryWay, a: Operand, b: Operand, want: Native)
    requires
        single(way_native(way)),
        relation_of(op) is Some || !(way is Texts),
    ensures
        binary_made(w, op, way, a, b, want) == operator_made(w, op, way, a, b),
{
    reveal(binary_made);
}

#[verifier::spinoff_prover]
pub(crate) proof fn operator_quiet(w: WorkView, op: BinOp, way: BinaryWay, a: Operand, b: Operand, want: Native, hint: Option<Numeric>, digits: u32)
    requires
        operator_fits(op, way, want, hint, digits),
        single(way_native(way)),
        a.kind == kind_of(way_native(way)),
        b.kind == kind_of(way_native(way)),
    ensures
        quiet(w, operator_made(w, op, way, a, b).0),
        operator_made(w, op, way, a, b).1.kind == kind_of(want),
        want is Bool || want is Int || want is Deci || want is Rat,
        relation_of(op) is Some || !(way is Texts),
{
    match way {
        BinaryWay::Logic => {},
        BinaryWay::Words => {
            if op == BinOp::Pow {
                crate::codegen::powers::power_quiet(w, a, b);
            } else {
                crate::codegen::whole::lemma_words_quiet(w, op, a, b);
            }
        },
        BinaryWay::Decis => {
            if relation_of(op) is Some {
                order_quiet(w, relation_of(op)->0, a, b, Kind::Deci);
            } else {
                decis_quiet(w, op, a, b);
            }
        },
        BinaryWay::Rats => {
            if relation_of(op) is Some {
                order_quiet(w, relation_of(op)->0, a, b, Kind::Rat);
            } else {
                rats_quiet(w, op, a, b);
            }
        },
        _ => {
            order_quiet(w, relation_of(op)->0, a, b, Kind::Text);
        },
    }
}

/// What lowering such an expression leaves alone.
#[verifier::spinoff_prover]
pub(crate) proof fn sc_quiet(w: WorkView, env: Env, e: Expr, want: Native, hint: Option<Numeric>)
    requires
        attuned(w, env),
        sc(env, e, want, hint),
    ensures
        quiet(w, expr_made(w, e, want).0),
        expr_made(w, e, want).1.kind == kind_of(want),
    decreases e, 2nat,
{
    let (wf, r) = expr_made(w, e, want);
    match e.kind {
        ExprKind::Math(inner) => {
            sc_quiet(w, env, *inner, want, hint);
            math_parts(w, e, want);
        },
        ExprKind::Number(t) => {
            leaf_parts(w, e, want);
            literal_quiet(w, t@, want, hint);
        },
        ExprKind::Literal(t) => {
            leaf_parts(w, e, want);
            literal_quiet(w, t@, want, hint);
        },
        ExprKind::Str(t) => {
            leaf_parts(w, e, want);
            reveal(text_made);
        },
        ExprKind::Ref { name, .. } => {
            let (w1, v) = ref_parts(w, env, e, want);
            converted_quiet(w1, v, known(env.s, name@, env.s.len())->0, want);
            lemma_quiet_then(w, w1, wf);
        },
        ExprKind::Unary { op, operand } => {
            unary_parts(w, env, e, want);
            if op == UnOp::Not {
                sc_quiet(w, env, *operand, Native::Bool, hint);
                let w1 = expr_made(w, *operand, Native::Bool).0;
                lemma_quiet_then(w, w1, wf);
            } else {
                let held = nat_of(env, *operand);
                let way = unary_way(op, held, bare(*operand));
                let k = unary_wants(way, held);
                sc_quiet(w, env, *operand, k, hint);
                let (w1, v) = expr_made(w, *operand, k);
                sign_quiet(w1, op, way, v, want);
                lemma_quiet_then(w, w1, wf);
            }
        },
        ExprKind::Binary { op, lhs, rhs } => {
            let way = the_way(env, e, want);
            let k = way_native(way);
            let (w1, a) = expr_made(w, *lhs, k);
            let (w2, b) = expr_made(w1, *rhs, k);
            sc_quiet(w, env, *lhs, k, hint);
            lemma_attuned(w, w1, env);
            sc_quiet(w1, env, *rhs, k, hint);
            operator_quiet(w2, op, way, a, b, want, hint, env.digits);
            binary_parts(w, env, e, want);
            operator_parts(w2, op, way, a, b, want);
            lemma_quiet_then(w, w1, w2);
            lemma_quiet_then(w, w2, wf);
        },
        ExprKind::Call { name, args } => {
            let i = function_named(env.fns, name@, env.fns.len())->0;
            call_quiet(w, env, e, want, i as int);
        },
        ExprKind::If(chain) => {
            if_value_parts(w, e, want);
            let slot = w.code.len() as usize;
            let w1 = put(w, Inst::Slot(kind_of(want)));
            let merge = w1.code.len() as usize;
            let w2 = put(w1, Inst::Block);
            lemma_attuned(w, w2, env);
            arms_quiet(w2, env, chain, 0, slot, want, merge);
            let w3 = value_arms(w2, chain, 0, slot, want, merge);
            assert(extended(w.code, w2.code));
            lemma_extended_then(w.code, w2.code, w3.code);
            lemma_extended_then(w.code, w3.code, wf.code);
        },
        _ => {},
    }
}

#[verifier::spinoff_prover]
pub(crate) proof fn if_value_parts(w: WorkView, e: Expr, want: Native)
    requires
        e.kind is If,
    ensures
        ({
            let slot = w.code.len() as usize;
            let w1 = put(w, Inst::Slot(kind_of(want)));
            let merge = w1.code.len() as usize;
            let w3 = value_arms(put(w1, Inst::Block), e.kind->If_0, 0, slot, want, merge);
            let w4 = put(put(w3, Inst::Jump(merge)), Inst::At(merge));
            expr_made(w, e, want) == made(w4, Inst::Load { kind: kind_of(want), from: slot }, kind_of(want))
        }),
{
    reveal_with_fuel(expr_made, 2);
    reveal_with_fuel(if_value, 2);
    match e.kind {
        ExprKind::If(chain) => {
            assert(expr_made(w, e, want) == if_value(w, chain, want));
        },
        _ => {},
    }
}

/// The lowering in an arm used for its value: its condition, and its block.
pub open spec fn value_entered(w: WorkView, condition: Option<Expr>) -> WorkView {
    let body = w.code.len() as usize;
    let next = (w.code.len() + 1) as usize;
    let w2 = put(put(w, Inst::Block), Inst::Block);
    let w3 = match condition {
        Some(c) => {
            let (x, test) = expr_made(w2, c, Native::Bool);
            put(x, Inst::Fork { test: test.at, yes: body, no: next })
        },
        None => put(w2, Inst::Jump(body)),
    };
    put(w3, Inst::At(body))
}

/// The lowering behind such an arm.
pub open spec fn value_left(w: WorkView, condition: Option<Expr>, value: Expr, slot: usize, want: Native, merge: usize) -> WorkView {
    let next = (w.code.len() + 1) as usize;
    let wi = value_entered(w, condition);
    let (w1, r) = expr_made(value_inside(wi, slot, want, merge), value, want);
    let w2 = put(kept(w1, r, want), Inst::Store { into: slot, value: r.at });
    let w3 = put(w2, Inst::Jump(merge));
    put(WorkView { frames: wi.frames, handbacks: wi.handbacks, ..w3 }, Inst::At(next))
}

/// The lowering where such an arm hands back.
pub open spec fn value_inside(wi: WorkView, slot: usize, want: Native, merge: usize) -> WorkView {
    with_frame(with_handback(wi, Handback::Store { slot, native: want, merge }))
}

#[verifier::spinoff_prover]
proof fn single_handback(w: WorkView, body: Vec<Stmt>, value: Expr, slot: usize, want: Native, merge: usize)
    requires
        body@.len() == 1,
        body@[0] is Handback,
        body@[0]->Handback_value == value,
        w.frames.len() > 0,
        ({
            let w0 = value_inside(w, slot, want, merge);
            let (w1, r) = expr_made(w0, value, want);
            &&& single(want)
            &&& r.kind == kind_of(want)
            &&& quiet(w0, w1)
            &&& quiet(w1, kept(w1, r, want))
        }),
    ensures
        ({
            let w0 = value_inside(w, slot, want, merge);
            let (w1, r) = expr_made(w0, value, want);
            let w2 = put(kept(w1, r, want), Inst::Store { into: slot, value: r.at });
            scoped_made(with_handback(w, Handback::Store { slot, native: want, merge }), body) == (
                WorkView { frames: w.frames, ..put(w2, Inst::Jump(merge)) },
                true,
            )
        }),
{
    let wh = with_handback(w, Handback::Store { slot, native: want, merge });
    let w0 = with_frame(wh);
    let (w1, r) = expr_made(w0, value, want);
    let w2 = put(kept(w1, r, want), Inst::Store { into: slot, value: r.at });
    let w3 = put(w2, Inst::Jump(merge));
    crate::codegen::whole::scoped_parts(wh, body);
    assert(w0 == (WorkView { frames: w.frames.push(Seq::empty()), ..wh })) by {
        reveal(with_frame);
    }
    crate::codegen::language::lemma_no_temps(w2, w0.temps.len());
    assert(scope_released(w2) == w2) by {
        reveal(scope_released);
        reveal(crate::codegen::work::frame_released_at);
        assert(w2.frames[w2.frames.len() - 1] =~= Seq::empty());
    }
    assert(crate::codegen::lowering::handback_made(w0, value) == (w3, true)) by {
        reveal(crate::codegen::lowering::handback_made);
        reveal(crate::codegen::lowering::store_made);
        reveal(crate::codegen::work::stored);
    }
    crate::codegen::language::other_stmt(w0, body@[0]);
    crate::codegen::language::block_left(w0, body, 0);
    assert(scope_released(w3) == w3) by {
        reveal(scope_released);
        reveal(crate::codegen::work::frame_released_at);
    }
    assert(crate::codegen::work::without_frame(w3) == (WorkView { frames: w.frames, ..w3 })) by {
        reveal(crate::codegen::work::without_frame);
        assert(w3.frames.drop_last() =~= w.frames);
    }
    assert(crate::codegen::lowering::temps_forgotten(w3, w0.temps.len()) == w3);
}

#[verifier::spinoff_prover]
pub(crate) proof fn value_arm_next(w: WorkView, env: Env, chain: IfChain, i: nat, slot: usize, want: Native, merge: usize)
    requires
        attuned(w, env),
        single(want),
        sc_arms(env, chain, i, want),
    ensures
        ({
            let arm = chain.arms@[i as int];
            let value = arm.body@[0]->Handback_value;
            let wn = value_left(w, arm.condition, value, slot, want, merge);
            let wi = value_entered(w, arm.condition);
            let w0 = value_inside(wi, slot, want, merge);
            let (w1, r) = expr_made(w0, value, want);
            &&& value_arms(w, chain, i, slot, want, merge) == value_arms(wn, chain, i + 1, slot, want, merge)
            &&& wn == (WorkView { code: wn.code, texts: wn.texts, open: true, ..w })
            &&& extended(w.code, wn.code)
            &&& extended(w.texts, wn.texts)
            &&& arm.condition matches Some(c) ==> {
                let w2 = put(put(w, Inst::Block), Inst::Block);
                let (x, test) = expr_made(w2, c, Native::Bool);
                &&& attuned(w2, env)
                &&& quiet(w2, x)
                &&& test.kind == Kind::Bit
            }
            &&& wi == (WorkView { code: wi.code, texts: wi.texts, open: true, ..w })
            &&& extended(w.code, wi.code)
            &&& attuned(wi, env)
            &&& attuned(w0, Env { s: env.s.push(Map::empty()), ..env })
            &&& w0.code == wi.code && w0.texts == wi.texts && w0.open
            &&& w0.frames == wi.frames.push(Seq::empty())
            &&& quiet(w0, w1)
            &&& r.kind == kind_of(want)
            &&& quiet(w1, kept(w1, r, want))
            &&& wn.code == kept(w1, r, want).code.push(Inst::Store { into: slot, value: r.at }).push(Inst::Jump(merge)).push(
                Inst::At((w.code.len() + 1) as usize),
            )
        }),
    decreases chain, chain.arms@.len() - i, 0nat,
{
    let arm = chain.arms@[i as int];
    let value = arm.body@[0]->Handback_value;
    let w2 = put(put(w, Inst::Block), Inst::Block);
    lemma_attuned(w, w2, env);
    if let Some(c) = arm.condition {
        sc_quiet(w2, env, c, Native::Bool, None);
    }
    let wi = value_entered(w, arm.condition);
    lemma_attuned(w, wi, env);
    let wh = with_handback(wi, Handback::Store { slot, native: want, merge });
    let w0 = with_frame(wh);
    crate::codegen::standing::lemma_with_frame_fits(wh, env.s);
    let env0 = Env { s: env.s.push(Map::empty()), ..env };
    assert(w0 == (WorkView { frames: wi.frames.push(Seq::empty()), ..wh })) by {
        reveal(with_frame);
    }
    sc_quiet(w0, env0, value, want, None);
    let (w1, r) = expr_made(w0, value, want);
    crate::codegen::language::kept_quiet(w1, r, want);
    let wk = kept(w1, r, want);
    lemma_quiet_then(w0, w1, wk);
    single_handback(wi, arm.body, value, slot, want, merge);
    let wn = value_left(w, arm.condition, value, slot, want, merge);
    assert(without_handback(WorkView { frames: wi.frames, ..put(put(wk, Inst::Store { into: slot, value: r.at }), Inst::Jump(merge)) })
        == (WorkView {
        frames: wi.frames,
        handbacks: wi.handbacks,
        ..put(put(wk, Inst::Store { into: slot, value: r.at }), Inst::Jump(merge))
    })) by {
        assert(wh.handbacks.drop_last() =~= wi.handbacks);
    }
    assert(extended(w.code, wi.code));
    lemma_extended_then(w.code, wi.code, wk.code);
    lemma_extended_then(w.code, wk.code, wn.code);
    lemma_extended_then(w.texts, wi.texts, wn.texts);
    reveal(value_arms);
    reveal(crate::codegen::work::forked);
}

#[verifier::spinoff_prover]
pub(crate) proof fn arms_quiet(w: WorkView, env: Env, chain: IfChain, i: nat, slot: usize, want: Native, merge: usize)
    requires
        attuned(w, env),
        single(want),
        sc_arms(env, chain, i, want),
    ensures
        ({
            let w1 = value_arms(w, chain, i, slot, want, merge);
            &&& w1 == (WorkView { code: w1.code, texts: w1.texts, open: true, ..w })
            &&& extended(w.code, w1.code)
            &&& extended(w.texts, w1.texts)
        }),
    decreases chain, chain.arms@.len() - i, 1nat,
{
    let arm = chain.arms@[i as int];
    let value = arm.body@[0]->Handback_value;
    value_arm_next(w, env, chain, i, slot, want, merge);
    let wn = value_left(w, arm.condition, value, slot, want, merge);
    let w1 = value_arms(w, chain, i, slot, want, merge);
    if arm.condition is Some {
        lemma_attuned(w, wn, env);
        arms_quiet(wn, env, chain, i + 1, slot, want, merge);
        lemma_extended_then(w.code, wn.code, w1.code);
        lemma_extended_then(w.texts, wn.texts, w1.texts);
    } else {
        arms_end(wn, chain, i + 1, slot, want, merge);
    }
}

#[verifier::spinoff_prover]
pub(crate) proof fn arms_end(w: WorkView, chain: IfChain, i: nat, slot: usize, want: Native, merge: usize)
    requires
        i >= chain.arms@.len(),
    ensures
        value_arms(w, chain, i, slot, want, merge) == w,
{
    reveal(value_arms);
}

#[verifier::spinoff_prover]
proof fn call_quiet(w: WorkView, env: Env, e: Expr, want: Native, i: int)
    requires
        attuned(w, env),
        e.kind is Call,
        function_named(env.fns, e.kind->Call_name@, env.fns.len()) == Some(i as usize),
        0 <= i <= usize::MAX,
        callable(env, i),
        passes(env.fns[i].ret, want),
        sc_args(env, e.kind->Call_args, 0, i),
    ensures
        quiet(w, expr_made(w, e, want).0),
        expr_made(w, e, want).1.kind == kind_of(want),
    decreases e, 1nat,
{
    let name = e.kind->Call_name;
    let args = e.kind->Call_args;
    let sig = env.fns[i];
    call_parts(w, env, e, want, i);
    let (w1, vs) = args_made(w, args, 0, sig.params, true, Seq::empty());
    args_quiet(w, env, args, 0, i, Seq::empty());
    crate::codegen::straight::with_args_parts(w1, vs, 0);
    let w2 = with_args(w1, vs, 0);
    let call = crate::codegen::work::Inst::CallFn { index: i as usize, gives: crate::codegen::lowering::ret_kind(sig.ret) };
    let (w3, v) = made(w2, call, kind_of(sig.ret));
    crate::codegen::simulation::lemma_extended_then(w1.code, w2.code, w3.code);
    lemma_quiet_then(w, w1, w3);
    converted_quiet(w3, v, sig.ret, want);
    lemma_quiet_then(w, w3, expr_made(w, e, want).0);
}

/// What lowering arguments leaves alone.
#[verifier::spinoff_prover]
pub(crate) proof fn args_quiet(w: WorkView, env: Env, args: Vec<Expr>, k: nat, i: int, acc: Seq<Operand>)
    requires
        attuned(w, env),
        callable(env, i),
        sc_args(env, args, k, i),
        k <= args@.len(),
        acc.len() == k,
        forall|x: int| 0 <= x < k ==> (#[trigger] acc[x]).kind == kind_of(env.fns[i].params[x]),
    ensures
        ({
            let (w1, vs) = args_made(w, args, k, env.fns[i].params, true, acc);
            &&& quiet(w, w1)
            &&& vs.len() == args@.len()
            &&& forall|x: int| 0 <= x < vs.len() ==> (#[trigger] vs[x]).kind == kind_of(env.fns[i].params[x])
        }),
    decreases args, args@.len() - k,
{
    args_next(w, args, k, env.fns[i].params, acc);
    if k < args@.len() {
        let e = args@[k as int];
        let n = env.fns[i].params[k as int];
        sc_quiet(w, env, e, n, parameter_context(env.functions[i], k));
        let (w1, v) = expr_made(w, e, n);
        lemma_attuned(w, w1, env);
        args_quiet(w1, env, args, k + 1, i, acc.push(v));
        lemma_quiet_then(w, w1, args_made(w, args, k, env.fns[i].params, true, acc).0);
    }
}

#[verifier::spinoff_prover]
pub(crate) proof fn args_next(w: WorkView, args: Vec<Expr>, k: nat, params: Seq<Native>, acc: Seq<Operand>)
    requires
        args@.len() == params.len(),
    ensures
        k >= args@.len() ==> args_made(w, args, k, params, true, acc) == (w, acc),
        k < args@.len() ==> {
            let (w1, v) = expr_made(w, args@[k as int], params[k as int]);
            args_made(w, args, k, params, true, acc) == args_made(w1, args, k + 1, params, true, acc.push(v))
        },
{
    reveal(args_made);
}

#[verifier::spinoff_prover]
pub(crate) proof fn call_parts(w: WorkView, env: Env, e: Expr, want: Native, i: int)
    requires
        attuned(w, env),
        e.kind is Call,
        0 <= i <= usize::MAX,
        function_named(env.fns, e.kind->Call_name@, env.fns.len()) == Some(i as usize),
        callable(env, i),
        passes(env.fns[i].ret, want),
        sc_args(env, e.kind->Call_args, 0, i),
    ensures
        ({
            let sig = env.fns[i];
            let (w1, vs) = args_made(w, e.kind->Call_args, 0, sig.params, true, Seq::empty());
            let call = Inst::CallFn { index: i as usize, gives: crate::codegen::lowering::ret_kind(sig.ret) };
            let (w3, v) = made(with_args(w1, vs, 0), call, kind_of(sig.ret));
            expr_made(w, e, want) == converted(w3, v, sig.ret, want)
        }),
    decreases e, 0nat,
{
    let sig = env.fns[i];
    let args = e.kind->Call_args;
    let (w1, vs) = args_made(w, args, 0, sig.params, true, Seq::empty());
    args_quiet(w, env, args, 0, i, Seq::empty());
    assert(crate::codegen::work::kinds(vs) =~= crate::codegen::lowering::param_kinds(sig.params));
    reveal(expecting_all);
    reveal(expr_made);
    reveal(call_made);
    assert(call_made(w, e.kind->Call_name@, args, true).2 == sig.ret);
}

#[verifier::spinoff_prover]
pub(crate) proof fn math_parts(w: WorkView, e: Expr, want: Native)
    requires
        e.kind is Math,
    ensures
        expr_made(w, e, want) == expr_made(w, *e.kind->Math_0, want),
{
    reveal(expr_made);
}

#[verifier::spinoff_prover]
pub(crate) proof fn leaf_parts(w: WorkView, e: Expr, want: Native)
    ensures
        e.kind matches ExprKind::Number(t) ==> expr_made(w, e, want) == literal_made(w, t@, want),
        e.kind matches ExprKind::Literal(t) ==> expr_made(w, e, want) == literal_made(w, t@, want),
        e.kind matches ExprKind::Str(t) ==> expr_made(w, e, want) == text_made(w, t@),
{
    reveal(expr_made);
}

#[verifier::spinoff_prover]
pub(crate) proof fn ref_parts(w: WorkView, env: Env, e: Expr, want: Native) -> (r: (WorkView, Operand))
    requires
        attuned(w, env),
        e.kind is Ref,
        e.kind->Ref_selectors@.len() == 0,
        known(env.s, e.kind->Ref_name@, env.s.len()) matches Some(n) && single(n),
    ensures
        ({
            let name = e.kind->Ref_name@;
            let n = known(env.s, name, env.s.len())->0;
            &&& found(w.frames, name, w.frames.len()) matches Some((at, k)) && k == n && r == made(
                w,
                Inst::Load { kind: kind_of(n), from: at },
                kind_of(n),
            )
            &&& expr_made(w, e, want) == converted(r.0, r.1, n, want)
        }),
{
    let name = e.kind->Ref_name@;
    lemma_known(w, env.s, name, env.s.len());
    let (at, n) = found(w.frames, name, w.frames.len())->0;
    reveal(looked_up);
    reveal(expr_made);
    made(w, Inst::Load { kind: kind_of(n), from: at }, kind_of(n))
}

#[verifier::spinoff_prover]
pub(crate) proof fn literal_quiet(w: WorkView, t: Seq<char>, want: Native, hint: Option<Numeric>)
    requires
        literal_fits(t, want, hint),
    ensures
        quiet(w, literal_made(w, t, want).0),
        literal_made(w, t, want).1.kind == kind_of(want),
{
    reveal(literal_made);
    reveal_strlit("true");
    reveal_strlit("false");
}

#[verifier::spinoff_prover]
pub(crate) proof fn sign_quiet(w: WorkView, op: UnOp, way: UnaryWay, v: Operand, want: Native)
    requires
        sign_operation(op),
        way is Word && v.kind == Kind::Word && passes(Native::Int, want) || way is Deci && v.kind == Kind::Deci
            && want is Deci || way is Rat && v.kind == Kind::Rat && want is Rat,
    ensures
        quiet(w, unary_made(w, op, way, v, want).0),
        unary_made(w, op, way, v, want).1.kind == kind_of(want),
        way is Word ==> unary_made(w, op, way, v, want) == ({
            let (w1, out) = crate::codegen::steps::word_unary(w, op, v);
            converted(w1, out, Native::Int, want)
        }),
        !(way is Word) ==> unary_made(w, op, way, v, want) == turned_made(w, op, v, kind_of(want)),
{
    reveal(unary_made);
    reveal(converted);
    if way is Word {
        let (w1, out) = crate::codegen::steps::word_unary(w, op, v);
        crate::codegen::powers::word_unary_quiet(w, op, v);
        converted_quiet(w1, out, Native::Int, want);
        lemma_quiet_then(w, w1, unary_made(w, op, way, v, want).0);
    } else {
        turned_quiet(w, op, v, kind_of(want));
    }
}

} // verus!
