//! Expressions on whole arrays.

use vstd::prelude::*;

use crate::ast::{BinOp, Expr, ExprKind, Selector, UnOp};
use crate::codegen::boxes::{
    array_of, array_rep, cell_native, cell_rep, heap_grown, holdable, lemma_still_stands, stands_for,
};
use crate::codegen::correct::{abreast, moved_on, sim_sc};
use crate::codegen::exactly::single;
use crate::codegen::literals::{
    element_quiet, filled, items_quiet, run_element, lemma_assembled, literal_meaning, literal_ok, new_busy,
    nobodys, run_new, sim_items,
};
use crate::codegen::lowering::{expr_made, items_made, run_made, selected, CompiledView};
use crate::codegen::selecting::{run_parts, selectors_ok, sim_run};
use crate::codegen::machine::{
    array_in, placed, reg, runtime_call, slot, steps, zeros, Activation, Boxed, Call, Datum, Machine,
};
use crate::codegen::meeting::{
    cells_rep, cross_meets, dot_meets, numeric, pairs_meet, plain_operation, products_meet, side_rep,
    sign_change, signs_meet,
};
use crate::codegen::native::{element_of, kind_of, literal_dims, rank_of, tag_of, Native};
use crate::codegen::runtime::{takes, Kind, Rt};
use crate::codegen::scalars::{sc, sc_quiet};
use crate::codegen::simulation::{
    keeps_below, lemma_quiet_then, lemma_sees_before, lemma_sees_put, lemma_steps_add, meaning, quiet,
    run_value, running, sees, sound, stands, top, with,
};
use crate::codegen::standing::{
    attuned, lemma_attuned, lemma_found, lemma_known, lemma_natural, lemma_seen_value, lemma_still_mirrors,
    mirrored, nat_of, seen, Env, Framing,
};
use crate::codegen::steps::{
    array_made, array_side, arithmetic_tag, binary_made, element_loaded, element_stored, relation_of,
    relation_tag, spread, unary_tag, Side,
};
use crate::codegen::straight::{called_quiet, data, run_any};
use crate::codegen::whole::known;
use crate::codegen::work::{called, found, kinds, looked_up, made, put, Inst, Operand, Temp, WorkView};
use crate::codegen::workings::{
    alloc_busy, busy, lemma_busy_then, lemma_quiet_busy, lemma_sees_busy, lemma_worked_then, run_alloc,
    worked,
};
use crate::diagnostics::position::Span;
use crate::eval::arrays;
use crate::eval::arrays::array_operation;
use crate::eval::numeric::{whole, Numeric};
use crate::eval::ops::StopView;
use crate::eval::semantics;
use crate::eval::semantics::{bare, is_array_operator, operand, values_from, World};
use crate::eval::value::Val;
use crate::runtime::array::{extent_from, ArrayView, CellView};
use crate::runtime::exact::HaltView;
use crate::runtime::num;

verus! {

// ── the expressions ─────────────────────────────────────────────────────────

/// A name that stands for an array.
pub open spec fn array_name(env: Env, e: Expr, n: Native) -> bool
    decreases e,
{
    match e.kind {
        ExprKind::Math(inner) => array_name(env, *inner, n),
        ExprKind::Ref { name, selectors } => {
            &&& selectors@.len() == 0
            &&& n is Array
            &&& known(env.s, name@, env.s.len()) == Some(n)
        },
        _ => false,
    }
}

/// What an operator on whole arrays comes to.
pub open spec fn operator_rank(op: BinOp, l: Native, r: Native, want: Native) -> bool {
    let k = element_of(l);
    &&& l is Array && r is Array && holdable(l) && holdable(r)
    &&& element_of(r) == k
    &&& numeric(k)
    &&& match op {
        BinOp::Cross => want is Array && element_of(want) == k && rank_of(want) == 1,
        BinOp::Hadamard => want is Array && element_of(want) == k && rank_of(want) == rank_of(l),
        BinOp::Tensor => want is Array && element_of(want) == k && rank_of(want) == rank_of(l) + rank_of(r),
        BinOp::Dot => k is Int && if want is Array {
            element_of(want) is Int && rank_of(want) == 2 && !(rank_of(l) == 1 && rank_of(r) == 1)
        } else {
            want is Int && rank_of(l) == 1 && rank_of(r) == 1
        },
        _ => false,
    }
}

/// An expression that makes an array, or comes to a single value by way of one.
pub open spec fn ac(env: Env, e: Expr, want: Native, hint: Option<Numeric>) -> bool
    decreases e,
{
    match e.kind {
        ExprKind::Math(inner) => ac(env, *inner, want, hint),
        ExprKind::ArrayLit(items) => {
            &&& want is Array
            &&& holdable(want)
            &&& literal_ok(env, items, element_of(want), hint)
            &&& literal_dims(items).len() == rank_of(want)
        },
        ExprKind::Ref { name, selectors } => known(env.s, name@, env.s.len()) matches Some(n) && n is Array && (kept_whole(
            env,
            selectors,
            n,
            want,
        ) || (want is Int && one_asked(env, selectors, n))),
        ExprKind::Unary { op, operand } => {
            let held = nat_of(env, *operand);
            &&& sign_change(op)
            &&& !bare(*operand)
            &&& same_array(held, want)
            &&& numeric(element_of(want))
            &&& ac(env, *operand, held, hint)
        },
        ExprKind::Binary { op, lhs, rhs } => {
            let l = nat_of(env, *lhs);
            let r = nat_of(env, *rhs);
            if is_array_operator(op) {
                &&& operator_rank(op, l, r, want)
                &&& array_name(env, *lhs, l) || ac(env, *lhs, l, hint)
                &&& array_name(env, *rhs, r) || ac(env, *rhs, r, hint)
            } else {
                &&& each_fits(op, l, r, want)
                &&& !bare(*lhs)
                &&& !bare(*rhs)
                &&& if l is Array {
                    ac(env, *lhs, l, hint)
                } else {
                    sc(env, *lhs, element_of(r), hint)
                }
                &&& if r is Array {
                    ac(env, *rhs, r, hint)
                } else {
                    sc(env, *rhs, element_of(l), hint)
                }
            }
        },
        _ => false,
    }
}

/// Selectors that keep dimensions whole.
pub open spec fn kept_whole(env: Env, sels: Vec<Selector>, n: Native, want: Native) -> bool {
    &&& want is Array
    &&& 0 < sels@.len() <= rank_of(want)
    &&& selectors_ok(env, sels)
    &&& element_of(want) == element_of(n)
    &&& rank_of(want) == rank_of(n)
}

/// A selector that asks for the length of an array, or for an element of a vector of whole
/// numbers.
pub open spec fn one_asked(env: Env, sels: Vec<Selector>, n: Native) -> bool {
    &&& sels@.len() == 1
    &&& match sels@[0] {
        Selector::Length => true,
        Selector::Indices(ix) => ix@.len() == 1 && rank_of(n) == 1 && element_of(n) is Int && sc(env, ix@[0], Native::Int, whole()),
        _ => false,
    }
}

/// Arrays of one rank with elements of one representation.
pub open spec fn same_array(n: Native, want: Native) -> bool {
    n is Array && want is Array && holdable(want) && element_of(n) == element_of(want) && rank_of(n) == rank_of(want)
}

/// Whether an operator works position by position on vectors, a single value being spread.
pub open spec fn each_fits(op: BinOp, l: Native, r: Native, want: Native) -> bool {
    let k = if l is Array {
        element_of(l)
    } else {
        element_of(r)
    };
    &&& l is Array || r is Array
    &&& want is Array && holdable(want) && rank_of(want) == 1
    &&& l is Array ==> rank_of(l) == 1
    &&& r is Array ==> rank_of(r) == 1 && element_of(r) == k
    &&& !(l is Array) ==> array_side(op, l, want) == Side::Spread(k)
    &&& !(r is Array) ==> array_side(op, r, want) == Side::Spread(k)
    &&& if relation_of(op) is Some {
        (k is Int || k is Rat || k is Str) && element_of(want) is Bool
    } else {
        plain_operation(op) && numeric(k) && element_of(want) == k
    }
}

pub open spec fn operand_ok(env: Env, e: Expr, n: Native, hint: Option<Numeric>) -> bool {
    array_name(env, e, n) || ac(env, e, n, hint)
}

// ── their code ──────────────────────────────────────────────────────────────

#[verifier::spinoff_prover]
pub(crate) proof fn name_parts(w: WorkView, env: Env, e: Expr, n: Native)
    requires
        attuned(w, env),
        array_name(env, e, n),
    ensures
        ({
            let (wf, r) = expr_made(w, e, n);
            &&& quiet(w, wf)
            &&& r == (Operand { at: w.code.len() as usize, kind: Kind::Ptr })
            &&& exists|at: usize| wf == put(w, Inst::Load { kind: Kind::Ptr, from: at })
        }),
        holdable(n),
    decreases e,
{
    match e.kind {
        ExprKind::Math(inner) => {
            name_parts(w, env, *inner, n);
            crate::codegen::scalars::math_parts(w, e, n);
        },
        ExprKind::Ref { name, selectors } => {
            assert(looked_up(w, name@) == found(w.frames, name@, w.frames.len())) by {
                reveal(looked_up);
            }
            lemma_known(w, env.s, name@, env.s.len());
            let (at, held) = looked_up(w, name@)->0;
            let w1 = put(w, Inst::Load { kind: Kind::Ptr, from: at });
            assert(expr_made(w, e, n).0 == w1) by {
                reveal_with_fuel(expr_made, 4);
                reveal_with_fuel(selected, 3);
                reveal_with_fuel(crate::codegen::lowering::run_made, 2);
            }
            assert(expr_made(w, e, n).1 == (Operand { at: w.code.len() as usize, kind: Kind::Ptr })) by {
                reveal_with_fuel(expr_made, 4);
                reveal_with_fuel(selected, 3);
                reveal_with_fuel(crate::codegen::lowering::run_made, 2);
            }
        },
        _ => {},
    }
}

#[verifier::spinoff_prover]
pub(crate) proof fn literal_parts(w: WorkView, e: Expr, want: Native)
    requires
        e.kind is ArrayLit,
        want is Array,
    ensures
        ({
            let items = e.kind->ArrayLit_0;
            let elem = element_of(want);
            let (w1, array) = array_made_for(w, items, elem);
            expr_made(w, e, want) == (items_made(w1, items, 0, elem, array, 1).0, array)
        }),
{
    reveal(expr_made);
}

pub open spec fn array_made_for(w: WorkView, items: Vec<Expr>, elem: Native) -> (WorkView, Operand) {
    crate::codegen::steps::array_made(w, elem, literal_dims(items))
}

pub open spec fn array_call_of(op: BinOp) -> Rt {
    match op {
        BinOp::Dot => Rt::ArrayDot,
        BinOp::Cross => Rt::ArrayCross,
        BinOp::Hadamard => Rt::ArrayHadamard,
        _ => Rt::ArrayTensor,
    }
}

#[verifier::spinoff_prover]
pub(crate) proof fn operator_parts(w: WorkView, env: Env, e: Expr, want: Native)
    requires
        attuned(w, env),
        e.kind matches ExprKind::Binary { op, lhs, rhs } && is_array_operator(op) && nat_of(env, *lhs) is Array && nat_of(
            env,
            *rhs,
        ) is Array,
        busy(w, expr_made(w, *e.kind->Binary_lhs, nat_of(env, *e.kind->Binary_lhs)).0),
    ensures
        ({
            let op = e.kind->Binary_op;
            let lhs = *e.kind->Binary_lhs;
            let rhs = *e.kind->Binary_rhs;
            let (w1, a) = expr_made(w, lhs, nat_of(env, lhs));
            let (w2, b) = expr_made(w1, rhs, nat_of(env, rhs));
            let (w3, out) = called(w2, array_call_of(op), seq![a, b]);
            expr_made(w, e, want) == (if op == BinOp::Dot && !(want is Array) {
                let (w4, one) = made(w3, Inst::Word(1), Kind::Word);
                element_loaded(w4, out, one, want)
            } else {
                (w3, out)
            })
        }),
{
    lemma_natural(w, env, *e.kind->Binary_lhs);
    lemma_natural(w, env, *e.kind->Binary_rhs);
    reveal(expr_made);
    reveal(binary_made);
}

/// What lowering such an expression leaves alone.
#[verifier::spinoff_prover]
pub(crate) proof fn ac_busy(w: WorkView, env: Env, e: Expr, want: Native, hint: Option<Numeric>)
    requires
        attuned(w, env),
        ac(env, e, want, hint),
    ensures
        busy(w, expr_made(w, e, want).0),
        expr_made(w, e, want).1.kind == kind_of(want),
        want is Array ==> {
            let (wf, r) = expr_made(w, e, want);
            wf.temps.len() > w.temps.len() && wf.temps.last().value == r
        },
        temps_pointed(w.temps.len(), expr_made(w, e, want).0),
        holdable(want),
    decreases e, 1nat,
{
    match e.kind {
        ExprKind::Math(inner) => {
            ac_busy(w, env, *inner, want, hint);
            crate::codegen::scalars::math_parts(w, e, want);
        },
        ExprKind::ArrayLit(items) => {
            let elem = element_of(want);
            let dims = literal_dims(items);
            literal_parts(w, e, want);
            new_busy(w, elem, dims);
            let (w1, array) = array_made_for(w, items, elem);
            lemma_attuned(w, w1, env);
            items_quiet(w1, env, items, 0, dims, elem, hint, array, 1);
            let wf = items_made(w1, items, 0, elem, array, 1).0;
            lemma_quiet_busy(w1, wf);
            lemma_busy_then(w, w1, wf);
        },
        ExprKind::Ref { name, selectors } => if !(want is Array) {
            one_busy(w, env, e, want, hint);
            lemma_quiet_busy(w, expr_made(w, e, want).0);
        } else {
            select_parts(w, env, e, want, hint);
            let (at, held) = looked_up(w, name@)->0;
            let w1 = put(w, Inst::Load { kind: Kind::Ptr, from: at });
            let loaded = Operand { at: w.code.len() as usize, kind: Kind::Ptr };
            lemma_attuned(w, w1, env);
            run_parts(w1, env, selectors, loaded);
            let wf = expr_made(w, e, want).0;
            lemma_quiet_busy(w, w1);
            lemma_busy_then(w, w1, wf);
            assert forall|k: int| #![trigger wf.temps[k]] w.temps.len() <= k < wf.temps.len() implies (wf.temps[k].native is Array
                || wf.temps[k].native is Num) && wf.temps[k].value.kind == Kind::Ptr by {}
        },
        ExprKind::Unary { op, operand } => {
            let held = nat_of(env, *operand);
            ac_busy(w, env, *operand, held, hint);
            each_unary_parts(w, env, e, want, hint);
            let (w1, v) = expr_made(w, *operand, held);
            let (w2, tag) = made(w1, Inst::Small(unary_tag(op)), Kind::Small);
            let (w3, digits) = made(w2, Inst::Small(w1.digits), Kind::Small);
            let args = seq![tag, v, digits];
            assert(kinds(args) =~= takes(Rt::ArrayUnary));
            alloc_busy(w3, Rt::ArrayUnary, args);
            lemma_quiet_busy(w1, w3);
            let wf = expr_made(w, e, want).0;
            lemma_busy_then(w, w1, w3);
            lemma_busy_then(w, w3, wf);
            assert(wf.temps.drop_last() =~= w1.temps);
            lemma_pointed_more(w.temps.len(), w1, wf);
        },
        ExprKind::Binary { op, lhs, rhs } => if !is_array_operator(op) {
            each_busy(w, env, e, want, hint);
        } else {
            let l = nat_of(env, *lhs);
            let r = nat_of(env, *rhs);
            operand_busy(w, env, *lhs, l, hint);
            let (w1, a) = expr_made(w, *lhs, l);
            lemma_attuned(w, w1, env);
            operand_busy(w1, env, *rhs, r, hint);
            let (w2, b) = expr_made(w1, *rhs, r);
            operator_parts(w, env, e, want);
            let f = array_call_of(op);
            assert(kinds(seq![a, b]) =~= takes(f));
            alloc_busy(w2, f, seq![a, b]);
            let (w3, out) = called(w2, f, seq![a, b]);
            lemma_busy_then(w, w1, w2);
            lemma_busy_then(w, w2, w3);
            lemma_pointed_then(w.temps.len(), w1.temps.len(), w1, w2);
            assert(temps_pointed(w.temps.len(), w3)) by {
                assert forall|k: int| #![trigger w3.temps[k]] w.temps.len() <= k < w3.temps.len() implies (w3.temps[k].native is Array
                    || w3.temps[k].native is Num) && w3.temps[k].value.kind == Kind::Ptr by {
                    if k < w2.temps.len() {
                        assert(w3.temps[k] == w2.temps[k]);
                    }
                }
            }
            if op == BinOp::Dot && !(want is Array) {
                let (w4, one) = made(w3, Inst::Word(1), Kind::Word);
                reveal(element_loaded);
                assert(kinds(seq![out, one]) =~= takes(Rt::ArrayGetInt));
                called_quiet(w4, Rt::ArrayGetInt, seq![out, one]);
                let wf = expr_made(w, e, want).0;
                lemma_quiet_then(w3, w4, wf);
                lemma_quiet_busy(w3, wf);
                lemma_busy_then(w, w3, wf);
            }
        },
        _ => {},
    }
}

#[verifier::spinoff_prover]
proof fn select_parts(w: WorkView, env: Env, e: Expr, want: Native, hint: Option<Numeric>)
    requires
        attuned(w, env),
        e.kind is Ref,
        ac(env, e, want, hint),
        want is Array,
    ensures
        ({
            let sels = e.kind->Ref_selectors;
            let (at, held) = looked_up(w, e.kind->Ref_name@)->0;
            let w1 = put(w, Inst::Load { kind: Kind::Ptr, from: at });
            let loaded = Operand { at: w.code.len() as usize, kind: Kind::Ptr };
            &&& looked_up(w, e.kind->Ref_name@) is Some
            &&& known(env.s, e.kind->Ref_name@, env.s.len()) == Some(held)
            &&& expr_made(w, e, want) == run_made(w1, sels, 0, sels@.len(), loaded)
            &&& quiet(w, w1)
            &&& holdable(held)
        }),
{
    let name = e.kind->Ref_name@;
    let sels = e.kind->Ref_selectors;
    assert(looked_up(w, name) == found(w.frames, name, w.frames.len())) by {
        reveal(looked_up);
    }
    lemma_known(w, env.s, name, env.s.len());
    let (at, held) = looked_up(w, name)->0;
    let w1 = put(w, Inst::Load { kind: Kind::Ptr, from: at });
    let loaded = Operand { at: w.code.len() as usize, kind: Kind::Ptr };
    select_all_made(w1, sels, 0, loaded, rank_of(held), element_of(held), want);
    reveal_with_fuel(expr_made, 2);
}

#[verifier::spinoff_prover]
proof fn select_all_made(w: WorkView, sels: Vec<Selector>, i: nat, current: Operand, rank: u32, elem: Native, want: Native)
    requires
        i <= sels@.len(),
        want is Array,
        forall|k: int| 0 <= k < sels@.len() ==> #[trigger] sels@[k] is All,
    ensures
        selected(w, sels, 0, i, current, rank, elem, want) == run_made(w, sels, 0, sels@.len(), current),
    decreases sels@.len() - i,
{
    reveal_with_fuel(selected, 2);
    if i < sels@.len() {
        select_all_made(w, sels, i + 1, current, rank, elem, want);
    }
}

/// The array that a selector is asked of.
pub open spec fn array_loaded(w: WorkView, name: Seq<char>) -> (WorkView, Operand) {
    let (at, _) = looked_up(w, name)->0;
    (put(w, Inst::Load { kind: Kind::Ptr, from: at }), Operand { at: w.code.len() as usize, kind: Kind::Ptr })
}

#[verifier::spinoff_prover]
proof fn one_parts(w: WorkView, env: Env, e: Expr, want: Native, hint: Option<Numeric>)
    requires
        attuned(w, env),
        e.kind is Ref,
        ac(env, e, want, hint),
        !(want is Array),
    ensures
        ({
            let sels = e.kind->Ref_selectors;
            let (w1, loaded) = array_loaded(w, e.kind->Ref_name@);
            &&& looked_up(w, e.kind->Ref_name@) matches Some((_, held)) && known(env.s, e.kind->Ref_name@, env.s.len()) == Some(held)
            &&& quiet(w, w1)
            &&& sels@[0] is Length ==> expr_made(w, e, want) == called(w1, Rt::ArrayLen, seq![loaded])
            &&& sels@[0] matches Selector::Indices(ix) ==> {
                let (w2, index) = expr_made(w1, ix@[0], Native::Int);
                expr_made(w, e, want) == called(w2, Rt::ArrayGetInt, seq![loaded, index])
            }
        }),
{
    let name = e.kind->Ref_name@;
    let sels = e.kind->Ref_selectors;
    assert(looked_up(w, name) == found(w.frames, name, w.frames.len())) by {
        reveal(looked_up);
    }
    lemma_known(w, env.s, name, env.s.len());
    let (at, held) = looked_up(w, name)->0;
    let (w1, loaded) = array_loaded(w, name);
    assert(expr_made(w, e, want) == selected(w1, sels, 0, 0, loaded, rank_of(held), element_of(held), want)) by {
        reveal_with_fuel(expr_made, 2);
    }
    one_selected(w1, sels, loaded, rank_of(held), element_of(held));
}

#[verifier::spinoff_prover]
proof fn one_selected(w: WorkView, sels: Vec<Selector>, current: Operand, rank: u32, elem: Native)
    requires
        sels@.len() == 1,
    ensures
        sels@[0] is Length ==> selected(w, sels, 0, 0, current, rank, elem, Native::Int) == called(w, Rt::ArrayLen, seq![current]),
        sels@[0] matches Selector::Indices(ix) ==> (ix@.len() == 1 && rank == 1 && elem is Int ==> {
            let (w2, index) = expr_made(w, ix@[0], Native::Int);
            selected(w, sels, 0, 0, current, rank, elem, Native::Int) == called(w2, Rt::ArrayGetInt, seq![current, index])
        }),
{
    reveal_with_fuel(selected, 3);
    reveal_with_fuel(run_made, 2);
    reveal_with_fuel(crate::codegen::lowering::index_made, 2);
    reveal_with_fuel(crate::codegen::lowering::single_made, 2);
    reveal_with_fuel(crate::codegen::native::singles, 3);
    reveal(element_loaded);
    reveal(crate::codegen::steps::converted);
}

#[verifier::spinoff_prover]
proof fn one_busy(w: WorkView, env: Env, e: Expr, want: Native, hint: Option<Numeric>)
    requires
        attuned(w, env),
        e.kind is Ref,
        ac(env, e, want, hint),
        !(want is Array),
    ensures
        quiet(w, expr_made(w, e, want).0),
        expr_made(w, e, want).1.kind == Kind::Word,
{
    one_parts(w, env, e, want, hint);
    let sels = e.kind->Ref_selectors;
    let (w1, loaded) = array_loaded(w, e.kind->Ref_name@);
    let wf = expr_made(w, e, want).0;
    lemma_attuned(w, w1, env);
    if let Selector::Indices(ix) = sels@[0] {
        sc_quiet(w1, env, ix@[0], Native::Int, whole());
        let (w2, index) = expr_made(w1, ix@[0], Native::Int);
        assert(kinds(seq![loaded, index]) =~= takes(Rt::ArrayGetInt));
        called_quiet(w2, Rt::ArrayGetInt, seq![loaded, index]);
        lemma_quiet_then(w1, w2, wf);
    } else {
        assert(kinds(seq![loaded]) =~= takes(Rt::ArrayLen));
        called_quiet(w1, Rt::ArrayLen, seq![loaded]);
    }
    lemma_quiet_then(w, w1, wf);
}

#[verifier::spinoff_prover]
proof fn each_unary_parts(w: WorkView, env: Env, e: Expr, want: Native, hint: Option<Numeric>)
    requires
        attuned(w, env),
        e.kind is Unary,
        ac(env, e, want, hint),
    ensures
        ({
            let op = e.kind->Unary_op;
            let inner = *e.kind->Unary_operand;
            let (w1, v) = expr_made(w, inner, nat_of(env, inner));
            let (w2, tag) = made(w1, Inst::Small(unary_tag(op)), Kind::Small);
            let (w3, digits) = made(w2, Inst::Small(w1.digits), Kind::Small);
            expr_made(w, e, want) == called(w3, Rt::ArrayUnary, seq![tag, v, digits])
        }),
{
    lemma_natural(w, env, *e.kind->Unary_operand);
    reveal(expr_made);
    reveal(crate::codegen::steps::unary_made);
}

pub open spec fn each_call(op: BinOp) -> Rt {
    if relation_of(op) is Some {
        Rt::ArrayRelate
    } else {
        Rt::ArrayElementwise
    }
}

pub open spec fn each_tag(op: BinOp) -> u32 {
    if relation_of(op) is Some {
        relation_tag(relation_of(op)->0)
    } else {
        arithmetic_tag(op)->0
    }
}

/// One side of an operator that works position by position.
pub open spec fn each_side(w: WorkView, e: Expr, n: Native, k: Native) -> (WorkView, Operand) {
    if n is Array {
        expr_made(w, e, n)
    } else {
        let (w1, v) = expr_made(w, e, k);
        spread(w1, v, k)
    }
}

#[verifier::spinoff_prover]
proof fn each_parts(w: WorkView, env: Env, e: Expr, want: Native, hint: Option<Numeric>, k: Native)
    requires
        attuned(w, env),
        e.kind matches ExprKind::Binary { op, .. } && !is_array_operator(op),
        ac(env, e, want, hint),
        k == (if nat_of(env, *e.kind->Binary_lhs) is Array {
            element_of(nat_of(env, *e.kind->Binary_lhs))
        } else {
            element_of(nat_of(env, *e.kind->Binary_rhs))
        }),
        busy(w, each_side(w, *e.kind->Binary_lhs, nat_of(env, *e.kind->Binary_lhs), k).0),
    ensures
        ({
            let op = e.kind->Binary_op;
            let lhs = *e.kind->Binary_lhs;
            let rhs = *e.kind->Binary_rhs;
            let (w2, a) = each_side(w, lhs, nat_of(env, lhs), k);
            let (w4, b) = each_side(w2, rhs, nat_of(env, rhs), k);
            let (w5, tag) = made(w4, Inst::Small(each_tag(op)), Kind::Small);
            expr_made(w, e, want) == called(w5, each_call(op), seq![tag, a, b])
        }),
{
    lemma_natural(w, env, *e.kind->Binary_lhs);
    lemma_natural(w, env, *e.kind->Binary_rhs);
    reveal(expr_made);
    reveal(binary_made);
}

#[verifier::spinoff_prover]
proof fn spread_busy(w: WorkView, v: Operand, k: Native)
    requires
        single(k),
        v.kind == kind_of(k),
    ensures
        ({
            let (w1, array) = array_made(w, k, seq![1u64]);
            let (w2, one) = made(w1, Inst::Word(1), Kind::Word);
            let wf = element_stored(w2, array, one, v, k);
            &&& spread(w, v, k) == (wf, array)
            &&& busy(w, w1)
            &&& quiet(w1, w2)
            &&& quiet(w2, wf)
            &&& quiet(w1, wf)
            &&& busy(w, wf)
            &&& array.kind == Kind::Ptr
            &&& wf.temps == w.temps.push(Temp { value: array, native: Native::Array(0, 1) })
        }),
{
    reveal(spread);
    new_busy(w, k, seq![1u64]);
    let (w1, array) = array_made(w, k, seq![1u64]);
    let (w2, one) = made(w1, Inst::Word(1), Kind::Word);
    element_quiet(w2, array, one, v, k);
    let wf = element_stored(w2, array, one, v, k);
    lemma_quiet_then(w1, w2, wf);
    lemma_quiet_busy(w1, wf);
    lemma_busy_then(w, w1, wf);
}

#[verifier::spinoff_prover]
proof fn each_side_busy(w: WorkView, env: Env, e: Expr, n: Native, k: Native, hint: Option<Numeric>)
    requires
        attuned(w, env),
        single(k),
        n is Array ==> ac(env, e, n, hint),
        !(n is Array) ==> sc(env, e, k, hint),
    ensures
        busy(w, each_side(w, e, n, k).0),
        each_side(w, e, n, k).1.kind == Kind::Ptr,
        temps_pointed(w.temps.len(), each_side(w, e, n, k).0),
    decreases e, 2nat,
{
    if n is Array {
        ac_busy(w, env, e, n, hint);
    } else {
        sc_quiet(w, env, e, k, hint);
        let (w1, v) = expr_made(w, e, k);
        spread_busy(w1, v, k);
        let wf = spread(w1, v, k).0;
        lemma_quiet_busy(w, w1);
        lemma_busy_then(w, w1, wf);
        assert forall|q: int| #![trigger wf.temps[q]] w.temps.len() <= q < wf.temps.len() implies (wf.temps[q].native is Array
            || wf.temps[q].native is Num) && wf.temps[q].value.kind == Kind::Ptr by {}
    }
}

/// The temporaries from the `from`-th on are pointers to arrays or numbers.
pub open spec fn temps_pointed(from: nat, w: WorkView) -> bool {
    forall|k: int|
        #![trigger w.temps[k]]
        from <= k < w.temps.len() ==> (w.temps[k].native is Array || w.temps[k].native is Num) && w.temps[k].value.kind
            == Kind::Ptr
}

proof fn lemma_pointed_then(from: nat, from1: nat, w1: WorkView, w2: WorkView)
    requires
        from <= from1 == w1.temps.len(),
        temps_pointed(from, w1),
        temps_pointed(from1, w2),
        busy(w1, w2),
    ensures
        temps_pointed(from, w2),
{
    assert forall|k: int| #![trigger w2.temps[k]] from <= k < w2.temps.len() implies (w2.temps[k].native is Array
        || w2.temps[k].native is Num) && w2.temps[k].value.kind == Kind::Ptr by {
        if k < w1.temps.len() {
            assert(w2.temps[k] == w1.temps[k]);
        }
    }
}

proof fn lemma_pointed_more(from: nat, w: WorkView, wf: WorkView)
    requires
        temps_pointed(from, w),
        wf.temps.len() == w.temps.len() + 1,
        wf.temps.drop_last() == w.temps,
        wf.temps.last().native is Array,
        wf.temps.last().value.kind == Kind::Ptr,
    ensures
        temps_pointed(from, wf),
{
    assert forall|k: int| #![trigger wf.temps[k]] from <= k < wf.temps.len() implies (wf.temps[k].native is Array || wf.temps[k].native is Num)
        && wf.temps[k].value.kind == Kind::Ptr by {
        if k < w.temps.len() {
            assert(wf.temps[k] == wf.temps.drop_last()[k]);
            assert(w.temps[k] == wf.temps[k]);
        }
    }
}

#[verifier::spinoff_prover]
proof fn each_busy(w: WorkView, env: Env, e: Expr, want: Native, hint: Option<Numeric>)
    requires
        attuned(w, env),
        e.kind matches ExprKind::Binary { op, .. } && !is_array_operator(op),
        ac(env, e, want, hint),
    ensures
        busy(w, expr_made(w, e, want).0),
        expr_made(w, e, want).1.kind == kind_of(want),
        ({
            let (wf, r) = expr_made(w, e, want);
            wf.temps.len() > w.temps.len() && wf.temps.last().value == r
        }),
        temps_pointed(w.temps.len(), expr_made(w, e, want).0),
    decreases e, 0nat,
{
    let op = e.kind->Binary_op;
    let lhs = *e.kind->Binary_lhs;
    let rhs = *e.kind->Binary_rhs;
    let l = nat_of(env, lhs);
    let r = nat_of(env, rhs);
    let k = if l is Array {
        element_of(l)
    } else {
        element_of(r)
    };
    each_side_busy(w, env, lhs, l, k, hint);
    let (w2, a) = each_side(w, lhs, l, k);
    lemma_attuned(w, w2, env);
    each_side_busy(w2, env, rhs, r, k, hint);
    let (w4, b) = each_side(w2, rhs, r, k);
    each_parts(w, env, e, want, hint, k);
    let (w5, tag) = made(w4, Inst::Small(each_tag(op)), Kind::Small);
    let args = seq![tag, a, b];
    assert(kinds(args) =~= takes(each_call(op)));
    alloc_busy(w5, each_call(op), args);
    lemma_quiet_busy(w4, w5);
    let wf = expr_made(w, e, want).0;
    lemma_busy_then(w, w2, w4);
    lemma_busy_then(w, w4, w5);
    lemma_busy_then(w, w5, wf);
    lemma_pointed_then(w.temps.len(), w2.temps.len(), w2, w4);
    assert(wf.temps.drop_last() =~= w4.temps);
    lemma_pointed_more(w.temps.len(), w4, wf);
}

pub(crate) proof fn operand_busy(w: WorkView, env: Env, e: Expr, n: Native, hint: Option<Numeric>)
    requires
        attuned(w, env),
        operand_ok(env, e, n, hint),
        n is Array,
    ensures
        busy(w, expr_made(w, e, n).0),
        expr_made(w, e, n).1.kind == Kind::Ptr,
        temps_pointed(w.temps.len(), expr_made(w, e, n).0),
        holdable(n),
    decreases e, 2nat,
{
    if array_name(env, e, n) {
        name_parts(w, env, e, n);
        lemma_quiet_busy(w, expr_made(w, e, n).0);
    } else {
        ac_busy(w, env, e, n, hint);
    }
}

// ── running them ────────────────────────────────────────────────────────────

pub open spec fn yields(
    w: WorkView,
    w1: WorkView,
    r: Operand,
    world: World,
    world1: World,
    m: Machine,
    m1: Machine,
    want: Native,
    v: Val,
) -> bool {
    &&& worked(w, w1, m, m1)
    &&& r.kind == kind_of(want)
    &&& r.at < w1.code.len()
    &&& stands_for(m1.heap, reg(top(m1), r.at), v, want)
    &&& m1.lines == world1.lines
    &&& moved_on(world, world1)
}

pub(crate) proof fn lemma_abreast_worked(
    c: CompiledView,
    w: WorkView,
    w1: WorkView,
    env: Env,
    f: Framing,
    world: World,
    world1: World,
    m: Machine,
    m1: Machine,
)
    requires
        abreast(c, w, env, f, world, m),
        worked(w, w1, m, m1),
        moved_on(world, world1),
        m1.lines == world1.lines,
    ensures
        abreast(c, w1, env, f, world1, m1),
        m1.line == m.line,
{
    lemma_attuned(w, w1, env);
    lemma_still_mirrors(w, w1, seen(world.frames, f), m, m1);
}

/// A name of an array.
#[verifier::spinoff_prover]
pub(crate) proof fn sim_name(c: CompiledView, w: WorkView, env: Env, f: Framing, e: Expr, n: Native, hint: Option<Numeric>, d: nat, world: World, m: Machine)
    requires
        array_name(env, e, n),
        abreast(c, w, env, f, world, m),
        sees(c, expr_made(w, e, n).0),
    ensures
        ({
            let (wf, r) = expr_made(w, e, n);
            let out = meaning(d, world, e, hint);
            let m1 = steps(c, m, 1);
            &&& out.1 is Ok
            &&& out.0 == world
            &&& yields(w, wf, r, world, world, m, m1, n, out.1->Ok_0)
            &&& m1.lines == m.lines
            &&& m1.heap == m.heap
        }),
    decreases e,
{
    match e.kind {
        ExprKind::Math(inner) => {
            crate::codegen::scalars::math_parts(w, e, n);
            sim_name(c, w, env, f, *inner, n, hint, d, world, m);
            assert(meaning(d, world, e, hint) == meaning(d, world, *inner, hint)) by {
                reveal(meaning);
            }
        },
        ExprKind::Ref { name, selectors } => {
            name_parts(w, env, e, n);
            let frames = seen(world.frames, f);
            assert(looked_up(w, name@) == found(w.frames, name@, w.frames.len())) by {
                reveal(looked_up);
            }
            lemma_known(w, env.s, name@, env.s.len());
            lemma_found(w, frames, m, name@, w.frames.len());
            lemma_seen_value(world, f, name@);
            let (at, held) = looked_up(w, name@)->0;
            let load = Inst::Load { kind: Kind::Ptr, from: at };
            assert(expr_made(w, e, n).0 == put(w, load)) by {
                reveal_with_fuel(expr_made, 4);
                reveal_with_fuel(selected, 3);
                reveal_with_fuel(crate::codegen::lowering::run_made, 2);
            }
            run_value(c, w, m, load, slot(top(m).slots, at as int, 0));
            let m1 = steps(c, m, 1);
            let v = semantics::looked_up(world, name@)->0;
            assert(meaning(d, world, e, hint) == (world, Ok::<Val, StopView>(v))) by {
                reveal(meaning);
                assert(semantics::selectors_from(d, world, v, selectors, 0, 0, e.span) == semantics::run_result(
                    d,
                    world,
                    v,
                    selectors,
                    0,
                    0,
                    e.span,
                ));
            }
            lemma_quiet_busy(w, put(w, load));
            assert(m1.calls =~= seq![top(m1)]);
        },
        _ => {},
    }
}

/// An array literal.
#[verifier::spinoff_prover]
#[verifier::rlimit(60)]
proof fn sim_literal(c: CompiledView, w: WorkView, env: Env, f: Framing, e: Expr, want: Native, hint: Option<Numeric>, d: nat, world: World, m: Machine) -> (n: nat)
    requires
        e.kind is ArrayLit,
        ac(env, e, want, hint),
        abreast(c, w, env, f, world, m),
        m.line.len() == 0,
        sees(c, expr_made(w, e, want).0),
        meaning(d, world, e, hint).1 is Ok,
    ensures
        yields(
            w,
            expr_made(w, e, want).0,
            expr_made(w, e, want).1,
            world,
            meaning(d, world, e, hint).0,
            m,
            steps(c, m, n),
            want,
            meaning(d, world, e, hint).1->Ok_0,
        ),
    decreases d, e, 5nat,
{
    let items = e.kind->ArrayLit_0;
    let elem = element_of(want);
    let dims = literal_dims(items);
    literal_parts(w, e, want);
    let (w1, array) = array_made_for(w, items, elem);
    let wf = items_made(w1, items, 0, elem, array, 1).0;
    new_busy(w, elem, dims);
    lemma_attuned(w, w1, env);
    items_quiet(w1, env, items, 0, dims, elem, hint, array, 1);
    lemma_sees_before(c, w1, wf);
    let k = run_new(c, w, elem, dims, m);
    let m1 = steps(c, m, k);
    let h = m.heap.len();
    lemma_abreast_worked(c, w, w1, env, f, world, world, m, m1);
    assert(nobodys(w1, m1, h)) by {
        let frames = seen(world.frames, f);
        assert forall|i: int, j: int|
            #![trigger w1.frames[i][j]]
            0 <= i < w1.frames.len() && 0 <= j < w1.frames[i].len() && w1.frames[i][j].native is Array implies slot(
            top(m1).slots,
            w1.frames[i][j].slot as int,
            0,
        ) != Datum::Object(h) by {
            assert(w.frames[i][j] == w1.frames[i][j]);
            assert(mirrored(w, frames[i], m, w.frames[i][j]));
        }
    }
    let none = Seq::<Val>::empty();
    assert(filled(m1.heap, h, none, dims, elem));
    assert(crate::eval::select::flattened(none, 0) =~= none);
    assert(extent_from(dims, 0) == dims[0] as nat * extent_from(dims, 1));
    literal_meaning(d, world, e, hint);
    let j = sim_items(c, w1, env, f, items, 0, dims, elem, hint, array, h, dims, none, none, d, world, m1);
    let m2 = steps(c, m1, j);
    lemma_steps_add(c, m, k, j);
    let vs = values_from(d, world, items, hint, 0, none).1->Ok_0;
    assert(items@.len() == items.len());
    lemma_assembled(vs, dims);
    let all = crate::eval::select::flattened(vs, vs.len());
    assert(none + all.skip(0) =~= all);
    let a = m2.heap[h as int]->0.value->Array_0;
    let v = meaning(d, world, e, hint).1->Ok_0;
    assert(array_rep(a, v, elem));
    lemma_quiet_busy(w1, wf);
    lemma_busy_then(w, w1, wf);
    assert(reg(top(m2), array.at) == reg(top(m1), array.at));
    assert(worked(w, wf, m, m2)) by {
        crate::codegen::workings::lemma_below_then(w.code.len() as int, w1.code.len() as int, top(m), top(m1), top(m2));
        assert forall|o: int| 0 <= o < m.heap.len() implies #[trigger] m2.heap[o] == m.heap[o] by {
            assert(m1.heap[o] == m.heap[o]);
        }
        assert forall|q: int|
            #![trigger wf.temps[q]]
            w.temps.len() <= q < wf.temps.len() implies wf.temps[q] == (Temp { value: array, native: Native::Array(0, 1) }) by {
            assert(wf.temps[q] == w1.temps[q]);
        }
    }
    k + j
}

pub(crate) proof fn lemma_extent_sum(a: Seq<u64>, b: Seq<u64>, d: int)
    requires
        0 <= d <= a.len(),
    ensures
        extent_from(a + b, d) == extent_from(a, d) * extent_from(b, 0),
    decreases a.len() - d,
{
    if d < a.len() {
        lemma_extent_sum(a, b, d + 1);
        assert((a + b)[d] == a[d]);
        let x = a[d] as int;
        let y = extent_from(a, d + 1) as int;
        let z = extent_from(b, 0) as int;
        assert(x * (y * z) == (x * y) * z) by (nonlinear_arith);
    } else {
        lemma_extent_tail(a, b, 0);
        assert(extent_from(a, d) == 1);
    }
}

proof fn lemma_extent_tail(a: Seq<u64>, b: Seq<u64>, i: int)
    requires
        0 <= i <= b.len(),
    ensures
        extent_from(a + b, a.len() + i) == extent_from(b, i),
    decreases b.len() - i,
{
    if i < b.len() {
        lemma_extent_tail(a, b, i + 1);
        assert((a + b)[a.len() + i] == b[i]);
    }
}

/// A list under a product with itself pairwise is the products.
proof fn lemma_pairwise_products(x: Seq<CellView>, y: Seq<CellView>, n: nat)
    requires
        x.len() == y.len(),
        n <= x.len(),
    ensures
        num::pairwise(crate::runtime::exact::OP_MUL, false, x, y, n) == num::products(x, y, n),
    decreases n,
{
    if n > 0 {
        lemma_pairwise_products(x, y, (n - 1) as nat);
    }
}

#[verifier::spinoff_prover]
proof fn lemma_spread(xs: Seq<Val>, ys: Seq<Val>, x: Seq<CellView>, y: Seq<CellView>, k: Native)
    requires
        cells_rep(x, xs, k),
        cells_rep(y, ys, k),
    ensures
        cells_rep(num::spread_left(x, y.len()), arrays::spread_left(xs, ys.len()), k),
        cells_rep(num::spread_right(y, x.len()), arrays::spread_right(ys, xs.len()), k),
        x.len() * y.len() == xs.len() * ys.len(),
{
    let n = ys.len() as int;
    let m = xs.len() as int;
    assert forall|i: int| 0 <= i < m * n implies 0 <= #[trigger] (i / n) < m && 0 <= i % n < n by {
        assert(n > 0) by (nonlinear_arith)
            requires
                0 <= i < m * n,
                n >= 0,
        ;
        assert(0 <= i / n < m && 0 <= i % n < n) by (nonlinear_arith)
            requires
                0 <= i < m * n,
                n > 0,
        ;
    }
    let a = num::spread_left(x, y.len());
    let b = arrays::spread_left(xs, ys.len());
    assert forall|i: int| 0 <= i < b.len() implies cell_rep(#[trigger] a[i], b[i]) && cell_native(a[i]) == k by {
        assert(0 <= i / n < m);
        assert(a[i] == x[i / n] && b[i] == xs[i / n]);
    }
    let p = num::spread_right(y, x.len());
    let q = arrays::spread_right(ys, xs.len());
    assert forall|i: int| 0 <= i < q.len() implies cell_rep(#[trigger] p[i], q[i]) && cell_native(p[i]) == k by {
        assert(0 <= i / n < m && 0 <= i % n < n);
        assert(p[i] == y[i % n] && q[i] == ys[i % n]);
    }
}

#[verifier::spinoff_prover]
proof fn matrix_cells_meet(xs: Seq<Val>, ys: Seq<Val>, x: Seq<CellView>, y: Seq<CellView>, m: nat, k: nat, n: nat, count: nat, span: Span)
    requires
        cells_rep(x, xs, Native::Int),
        cells_rep(y, ys, Native::Int),
        count <= m * n,
        m * k <= xs.len(),
        k * n <= ys.len(),
        arrays::cells(xs, ys, k, n, count, span) is Ok,
    ensures
        num::product_cells(x, y, k, n, count) matches Ok(cs) && cells_rep(
            cs,
            arrays::cells(xs, ys, k, n, count, span)->Ok_0,
            Native::Int,
        ),
        arrays::cells(xs, ys, k, n, count, span)->Ok_0.len() == count,
    decreases count,
{
    if count > 0 {
        matrix_cells_meet(xs, ys, x, y, m, k, n, (count - 1) as nat, span);
        let i = (count - 1) as int;
        assert(n > 0 && 0 <= i / n as int && i / n as int + 1 <= m && 0 <= i % n as int && i % (n as int) < n) by (nonlinear_arith)
            requires
                0 <= i < m * n,
        ;
        let row = i / n as int;
        let col = i % n as int;
        let a = num::row_of(x, row, k);
        let b = arrays::row_of(xs, row, k);
        assert forall|j: int| 0 <= j < b.len() implies cell_rep(#[trigger] a[j], b[j]) && cell_native(a[j]) == Native::Int by {
            assert(0 <= row * k + j < m * k) by (nonlinear_arith)
                requires
                    0 <= row,
                    row + 1 <= m,
                    0 <= j < k,
            ;
            assert(a[j] == x[row * k + j] && b[j] == xs[row * k + j]);
        }
        let p = num::column_of(y, col, k, n);
        let q = arrays::column_of(ys, col, k, n);
        assert forall|j: int| 0 <= j < q.len() implies cell_rep(#[trigger] p[j], q[j]) && cell_native(p[j]) == Native::Int by {
            assert(0 <= j * n + col < k * n) by (nonlinear_arith)
                requires
                    0 <= j < k,
                    0 <= col < n,
            ;
            assert(p[j] == y[j * n + col] && q[j] == ys[j * n + col]);
        }
        dot_meets(b, q, a, p, k, span);
    }
}

pub open spec fn machine_operation(op: BinOp, x: ArrayView, y: ArrayView) -> Result<ArrayView, HaltView> {
    match op {
        BinOp::Hadamard => num::elementwise(crate::runtime::exact::OP_MUL, x, y),
        BinOp::Dot => num::dot_arrays(x, y),
        BinOp::Cross => num::cross_arrays(x.items, y.items),
        _ => match num::products(
            num::spread_left(x.items, y.items.len()),
            num::spread_right(y.items, x.items.len()),
            x.items.len() * y.items.len(),
        ) {
            Ok(items) => Ok(ArrayView { items, shape: x.shape + y.shape, kind: num::kind_among(items) }),
            Err(h) => Err(h),
        },
    }
}

/// An operator on whole arrays comes to the same on both sides.
#[verifier::spinoff_prover]
#[verifier::rlimit(60)]
proof fn operations_meet(op: BinOp, a: Val, b: Val, x: ArrayView, y: ArrayView, l: Native, r: Native, want: Native, span: Span)
    requires
        is_array_operator(op),
        operator_rank(op, l, r, want),
        array_rep(x, a, element_of(l)) && x.shape.len() == rank_of(l) && x.items.len() == extent_from(x.shape, 0),
        array_rep(y, b, element_of(r)) && y.shape.len() == rank_of(r) && y.items.len() == extent_from(y.shape, 0),
        array_operation(op, a, b, span) is Ok,
    ensures
        op == BinOp::Hadamard ==> x.shape == y.shape,
        machine_operation(op, x, y) matches Ok(z) && {
            let v = array_operation(op, a, b, span)->Ok_0;
            if want is Array {
                &&& array_rep(z, v, element_of(want))
                &&& z.shape.len() == rank_of(want)
                &&& z.items.len() == extent_from(z.shape, 0)
            } else {
                &&& z.items.len() == 1
                &&& z.items[0] == CellView::Int(v->Int_0)
                &&& v is Int
            }
        },
{
    let k = element_of(l);
    let xs = a->Array_items;
    let ys = b->Array_items;
    let sx = a->Array_shape;
    let sy = b->Array_shape;
    assert(cells_rep(x.items, xs, k));
    assert(cells_rep(y.items, ys, k));
    match op {
        BinOp::Hadamard => {
            assert(x.shape =~= y.shape) by {
                assert forall|i: int| 0 <= i < x.shape.len() implies x.shape[i] == y.shape[i] by {
                    assert(x.shape[i] == sx[i] && y.shape[i] == sy[i]);
                }
            }
            products_meet(xs, ys, x.items, y.items, xs.len(), k, span);
            lemma_pairwise_products(x.items, y.items, xs.len());
        },
        BinOp::Cross => {
            cross_meets(xs, ys, x.items, y.items, k, span);
            reveal_with_fuel(extent_from, 3);
        },
        BinOp::Tensor => {
            lemma_spread(xs, ys, x.items, y.items, k);
            products_meet(
                arrays::spread_left(xs, ys.len()),
                arrays::spread_right(ys, xs.len()),
                num::spread_left(x.items, y.items.len()),
                num::spread_right(y.items, x.items.len()),
                xs.len() * ys.len(),
                k,
                span,
            );
            lemma_extent_sum(x.shape, y.shape, 0);
            let z = machine_operation(op, x, y)->Ok_0;
            assert forall|i: int| 0 <= i < (sx + sy).len() implies #[trigger] z.shape[i] == (sx + sy)[i] by {
                if i < sx.len() {
                    assert(x.shape[i] == sx[i]);
                } else {
                    assert(y.shape[i - sx.len()] == sy[i - sx.len()]);
                }
            }
        },
        _ => {
            if sx.len() == 1 && sy.len() == 1 {
                dot_meets(xs, ys, x.items, y.items, xs.len(), span);
            } else {
                let m = arrays::dim_or_one(sx, 0);
                let kk = arrays::dim_or_one(sx, 1);
                let n = arrays::dim_or_one(sy, 1);
                assert(num::dim_or_one(x.shape, 0) == m && num::dim_or_one(x.shape, 1) == kk && num::dim_or_one(y.shape, 1) == n
                    && num::dim_or_one(y.shape, 0) == arrays::dim_or_one(sy, 0)) by {
                    if sx.len() > 0 {
                        assert(x.shape[0] == sx[0]);
                    }
                    if sx.len() > 1 {
                        assert(x.shape[1] == sx[1]);
                    }
                    if sy.len() > 0 {
                        assert(y.shape[0] == sy[0]);
                    }
                    if sy.len() > 1 {
                        assert(y.shape[1] == sy[1]);
                    }
                }
                if m > 0 && n > 0 {
                    matrix_cells_meet(xs, ys, x.items, y.items, m as nat, kk as nat, n as nat, (m * n) as nat, span);
                } else {
                    assert(m * n == 0) by (nonlinear_arith)
                        requires
                            m == 0 || n == 0,
                    ;
                }
                let z = machine_operation(op, x, y)->Ok_0;
                assert(z.shape == seq![num::dim_or_one(x.shape, 0), num::dim_or_one(y.shape, 1)]);
                reveal_with_fuel(extent_from, 4);
                assert(z.shape[1] as nat * 1 == n);
                assert(extent_from(z.shape, 2) == 1);
                assert(extent_from(z.shape, 1) == n);
                assert(extent_from(z.shape, 0) == m * n);
            }
        },
    }
}

#[verifier::spinoff_prover]
proof fn operator_meaning(d: nat, world: World, e: Expr, hint: Option<Numeric>)
    requires
        e.kind matches ExprKind::Binary { op, .. } && is_array_operator(op),
        meaning(d, world, e, hint).1 is Ok,
    ensures
        ({
            let op = e.kind->Binary_op;
            let r1 = meaning(d, world, *e.kind->Binary_lhs, hint);
            let r2 = meaning(d, r1.0, *e.kind->Binary_rhs, hint);
            let v = array_operation(op, r1.1->Ok_0, r2.1->Ok_0, e.span);
            &&& r1.1 is Ok
            &&& r2.1 is Ok
            &&& v is Ok
            &&& meaning(d, world, e, hint) == (r2.0, v)
        }),
{
    reveal(meaning);
}

/// An array that an operator takes.
#[verifier::spinoff_prover]
pub(crate) proof fn sim_operand(c: CompiledView, w: WorkView, env: Env, f: Framing, e: Expr, n: Native, hint: Option<Numeric>, d: nat, world: World, m: Machine) -> (k: nat)
    requires
        operand_ok(env, e, n, hint),
        n is Array,
        abreast(c, w, env, f, world, m),
        m.line.len() == 0,
        sees(c, expr_made(w, e, n).0),
        meaning(d, world, e, hint).1 is Ok,
    ensures
        yields(
            w,
            expr_made(w, e, n).0,
            expr_made(w, e, n).1,
            world,
            meaning(d, world, e, hint).0,
            m,
            steps(c, m, k),
            n,
            meaning(d, world, e, hint).1->Ok_0,
        ),
    decreases d, e, 7nat,
{
    if array_name(env, e, n) {
        sim_name(c, w, env, f, e, n, hint, d, world, m);
        1
    } else {
        sim_ac(c, w, env, f, e, n, hint, d, world, m)
    }
}

/// The code of an expression on arrays comes to what the expression means.
#[verifier::spinoff_prover]
#[verifier::rlimit(60)]
pub(crate) proof fn sim_ac(c: CompiledView, w: WorkView, env: Env, f: Framing, e: Expr, want: Native, hint: Option<Numeric>, d: nat, world: World, m: Machine) -> (n: nat)
    requires
        ac(env, e, want, hint),
        abreast(c, w, env, f, world, m),
        m.line.len() == 0,
        sees(c, expr_made(w, e, want).0),
        meaning(d, world, e, hint).1 is Ok,
    ensures
        yields(
            w,
            expr_made(w, e, want).0,
            expr_made(w, e, want).1,
            world,
            meaning(d, world, e, hint).0,
            m,
            steps(c, m, n),
            want,
            meaning(d, world, e, hint).1->Ok_0,
        ),
    decreases d, e, 6nat,
{
    match e.kind {
        ExprKind::Math(inner) => {
            crate::codegen::scalars::math_parts(w, e, want);
            assert(meaning(d, world, e, hint) == meaning(d, world, *inner, hint)) by {
                reveal(meaning);
            }
            sim_ac(c, w, env, f, *inner, want, hint, d, world, m)
        },
        ExprKind::ArrayLit(_) => sim_literal(c, w, env, f, e, want, hint, d, world, m),
        ExprKind::Ref { .. } => if want is Array {
            sim_select(c, w, env, f, e, want, hint, d, world, m)
        } else {
            sim_one(c, w, env, f, e, want, hint, d, world, m)
        },
        ExprKind::Unary { .. } => sim_each_unary(c, w, env, f, e, want, hint, d, world, m),
        ExprKind::Binary { op, .. } => if is_array_operator(op) {
            sim_operator(c, w, env, f, e, want, hint, d, world, m)
        } else {
            sim_each(c, w, env, f, e, want, hint, d, world, m)
        },
        _ => 0,
    }
}

/// An operator on whole arrays.
#[verifier::spinoff_prover]
#[verifier::rlimit(60)]
proof fn sim_operator(c: CompiledView, w: WorkView, env: Env, f: Framing, e: Expr, want: Native, hint: Option<Numeric>, d: nat, world: World, m: Machine) -> (n: nat)
    requires
        e.kind matches ExprKind::Binary { op, .. } && is_array_operator(op),
        ac(env, e, want, hint),
        abreast(c, w, env, f, world, m),
        m.line.len() == 0,
        sees(c, expr_made(w, e, want).0),
        meaning(d, world, e, hint).1 is Ok,
    ensures
        yields(
            w,
            expr_made(w, e, want).0,
            expr_made(w, e, want).1,
            world,
            meaning(d, world, e, hint).0,
            m,
            steps(c, m, n),
            want,
            meaning(d, world, e, hint).1->Ok_0,
        ),
    decreases d, e, 5nat,
{
    let op = e.kind->Binary_op;
    let lhs = *e.kind->Binary_lhs;
    let rhs = *e.kind->Binary_rhs;
    let l = nat_of(env, lhs);
    let r = nat_of(env, rhs);
    operand_busy(w, env, lhs, l, hint);
    let (w1, a) = expr_made(w, lhs, l);
    lemma_attuned(w, w1, env);
    operand_busy(w1, env, rhs, r, hint);
    let (w2, b) = expr_made(w1, rhs, r);
    operator_parts(w, env, e, want);
    let fun = array_call_of(op);
    let args = seq![a, b];
    assert(kinds(args) =~= takes(fun));
    alloc_busy(w2, fun, args);
    let (w3, out) = called(w2, fun, args);
    let (wf, res) = expr_made(w, e, want);
    let single_dot = op == BinOp::Dot && !(want is Array);
    let (w4, one) = made(w3, Inst::Word(1), Kind::Word);
    if single_dot {
        reveal(element_loaded);
        assert(kinds(seq![out, one]) =~= takes(Rt::ArrayGetInt));
        called_quiet(w4, Rt::ArrayGetInt, seq![out, one]);
        lemma_sees_before(c, w4, wf);
        lemma_sees_put(c, w3, Inst::Word(1));
    }
    lemma_sees_busy(c, w2, w3);
    lemma_sees_busy(c, w1, w2);
    operator_meaning(d, world, e, hint);
    let r1 = meaning(d, world, lhs, hint);
    let r2 = meaning(d, r1.0, rhs, hint);
    let k1 = sim_operand(c, w, env, f, lhs, l, hint, d, world, m);
    let m1 = steps(c, m, k1);
    lemma_abreast_worked(c, w, w1, env, f, world, r1.0, m, m1);
    let k2 = sim_operand(c, w1, env, f, rhs, r, hint, d, r1.0, m1);
    let m2 = steps(c, m1, k2);
    lemma_steps_add(c, m, k1, k2);
    lemma_worked_then(w, w1, w2, m, m1, m2);
    let x0 = reg(top(m1), a.at);
    assert(reg(top(m2), a.at) == x0);
    lemma_still_stands(m1.heap, m2.heap, x0, r1.1->Ok_0, l);
    let x = array_of(m2.heap, x0)->0;
    let y = array_of(m2.heap, reg(top(m2), b.at))->0;
    operations_meet(op, r1.1->Ok_0, r2.1->Ok_0, x, y, l, r, want, e.span);
    let z = machine_operation(op, x, y)->Ok_0;
    let given = data(top(m2), args);
    let act = Activation { pc: (w2.code.len() + args.len()) as int, args: given, ..top(m2) };
    assert(runtime_call(with(m2, act), top(m2).slots, fun, given) == Call::Gives(
        placed(with(m2, act), Boxed::Array(z)),
        top(m2).slots,
        Datum::Object(m2.heap.len()),
    )) by {
        reveal(runtime_call);
        assert(given[0] == x0 && given[1] == reg(top(m2), b.at));
        assert(array_in(with(m2, act), given[0]) == Some(x));
        assert(array_in(with(m2, act), given[1]) == Some(y));
    }
    run_alloc(c, w2, m2, fun, args, Boxed::Array(z));
    let m3 = steps(c, m2, 3);
    lemma_steps_add(c, m, k1 + k2, 3);
    lemma_worked_then(w, w2, w3, m, m2, m3);
    if single_dot {
        run_value(c, w3, m3, Inst::Word(1), Datum::Word(1));
        let m4 = steps(c, m3, 1);
        lemma_steps_add(c, m, k1 + k2 + 3, 1);
        let v = meaning(d, world, e, hint).1->Ok_0;
        run_got_int(c, w4, m4, out, one, m2.heap.len(), 1, z, v->Int_0);
        let m5 = steps(c, m4, 3);
        lemma_steps_add(c, m, k1 + k2 + 3 + 1, 3);
        lemma_quiet_then(w3, w4, wf);
        lemma_ran_worked(w3, wf, m3, m5);
        lemma_worked_then(w, w3, wf, m, m3, m5);
        k1 + k2 + 3 + 1 + 3
    } else {
        k1 + k2 + 3
    }
}

/// Code that made nothing.
pub(crate) proof fn lemma_ran_worked(w: WorkView, w1: WorkView, m: Machine, m1: Machine)
    requires
        quiet(w, w1),
        running(m1),
        top(m1).pc == w1.code.len(),
        top(m1).given == top(m).given,
        m1 == with(m, top(m1)),
        keeps_below(w.code.len() as int, top(m), top(m1)),
    ensures
        worked(w, w1, m, m1),
{
    lemma_quiet_busy(w, w1);
}

/// One whole number read out of an array.
#[verifier::spinoff_prover]
pub(crate) proof fn run_got_int(c: CompiledView, w: WorkView, m: Machine, array: Operand, index: Operand, h: nat, i: int, a: ArrayView, v: i128)
    requires
        sound(c),
        sees(c, called(w, Rt::ArrayGetInt, seq![array, index]).0),
        stands(w, m),
        array.kind == Kind::Ptr && array.at < w.code.len() && reg(top(m), array.at) == Datum::Object(h),
        index.kind == Kind::Word && index.at < w.code.len() && reg(top(m), index.at) == Datum::Word(i as i128),
        h < m.heap.len(),
        m.heap[h as int] matches Some(x) && x.value == Boxed::Array(a),
        1 <= i <= a.items.len(),
        i <= i128::MAX,
        a.items[i - 1] == CellView::Int(v),
    ensures
        ({
            let (w1, r) = called(w, Rt::ArrayGetInt, seq![array, index]);
            let m1 = steps(c, m, 3);
            &&& quiet(w, w1)
            &&& r.kind == Kind::Word
            &&& r.at < w1.code.len()
            &&& running(m1)
            &&& top(m1).pc == w1.code.len()
            &&& top(m1).given == top(m).given
            &&& m1 == with(m, top(m1))
            &&& keeps_below(w.code.len() as int, top(m), top(m1))
            &&& reg(top(m1), r.at) == Datum::Word(v)
        }),
{
    let args = seq![array, index];
    let given = data(top(m), args);
    let act = Activation { pc: (w.code.len() + args.len()) as int, args: given, ..top(m) };
    let before = with(m, act);
    assert(kinds(args) =~= takes(Rt::ArrayGetInt));
    assert(runtime_call(before, top(m).slots, Rt::ArrayGetInt, given) == Call::Gives(before, top(m).slots, Datum::Word(v))) by {
        reveal(runtime_call);
        assert(given[0] == Datum::Object(h) && given[1] == Datum::Word(i as i128));
    }
    run_any(c, w, m, Rt::ArrayGetInt, args, before, top(m).slots, Datum::Word(v));
    let m1 = steps(c, m, 3);
    assert(m1.calls =~= seq![top(m1)]);
}

// ── selecting, and position by position ─────────────────────────────────────

#[verifier::spinoff_prover]
proof fn run_whole(d: nat, world: World, v: Val, sels: Vec<Selector>, i: nat, span: Span)
    requires
        i <= sels@.len(),
        forall|k: int| 0 <= k < sels@.len() ==> #[trigger] sels@[k] is All,
    ensures
        semantics::selectors_from(d, world, v, sels, 0, i, span) == semantics::run_result(d, world, v, sels, 0, sels@.len(), span),
    decreases sels@.len() - i,
{
    reveal_with_fuel(semantics::selectors_from, 2);
    if i < sels@.len() {
        assert(sels@[i as int] is All);
        run_whole(d, world, v, sels, i + 1, span);
    }
}

#[verifier::spinoff_prover]
proof fn select_meaning(d: nat, world: World, e: Expr, hint: Option<Numeric>, v: Val)
    requires
        e.kind matches ExprKind::Ref { name, selectors } && semantics::looked_up(world, name@) == Some(v) && forall|k: int|
            0 <= k < selectors@.len() ==> #[trigger] selectors@[k] is All,
    ensures
        meaning(d, world, e, hint) == semantics::run_result(
            d,
            world,
            v,
            e.kind->Ref_selectors,
            0,
            e.kind->Ref_selectors@.len(),
            e.span,
        ),
{
    reveal(meaning);
    run_whole(d, world, v, e.kind->Ref_selectors, 0, e.span);
    reveal_with_fuel(semantics::expr_result, 2);
}

/// An array selected from.
#[verifier::spinoff_prover]
#[verifier::rlimit(40)]
proof fn sim_select(c: CompiledView, w: WorkView, env: Env, f: Framing, e: Expr, want: Native, hint: Option<Numeric>, d: nat, world: World, m: Machine) -> (n: nat)
    requires
        e.kind is Ref,
        want is Array,
        ac(env, e, want, hint),
        abreast(c, w, env, f, world, m),
        m.line.len() == 0,
        sees(c, expr_made(w, e, want).0),
        meaning(d, world, e, hint).1 is Ok,
    ensures
        yields(
            w,
            expr_made(w, e, want).0,
            expr_made(w, e, want).1,
            world,
            meaning(d, world, e, hint).0,
            m,
            steps(c, m, n),
            want,
            meaning(d, world, e, hint).1->Ok_0,
        ),
    decreases d, e, 5nat,
{
    let name = e.kind->Ref_name@;
    let sels = e.kind->Ref_selectors;
    select_parts(w, env, e, want, hint);
    let frames = seen(world.frames, f);
    assert(looked_up(w, name) == found(w.frames, name, w.frames.len())) by {
        reveal(looked_up);
    }
    lemma_found(w, frames, m, name, w.frames.len());
    lemma_seen_value(world, f, name);
    let (at, held) = looked_up(w, name)->0;
    let load = Inst::Load { kind: Kind::Ptr, from: at };
    let w1 = put(w, load);
    let loaded = Operand { at: w.code.len() as usize, kind: Kind::Ptr };
    lemma_attuned(w, w1, env);
    run_parts(w1, env, sels, loaded);
    let wf = expr_made(w, e, want).0;
    lemma_sees_busy(c, w1, wf);
    run_value(c, w, m, load, slot(top(m).slots, at as int, 0));
    let m1 = steps(c, m, 1);
    let v = semantics::looked_up(world, name)->0;
    select_meaning(d, world, e, hint, v);
    lemma_ran_worked(w, w1, m, m1);
    lemma_abreast_worked(c, w, w1, env, f, world, world, m, m1);
    let k = sim_run(c, w1, env, f, sels, loaded, v, held, e.span, d, world, m1);
    lemma_steps_add(c, m, 1, k);
    let m2 = steps(c, m1, k);
    lemma_worked_then(w, w1, wf, m, m1, m2);
    1 + k
}

#[verifier::spinoff_prover]
proof fn one_meaning(d: nat, world: World, e: Expr, hint: Option<Numeric>, items: Seq<Val>, shape: Seq<usize>)
    requires
        e.kind matches ExprKind::Ref { name, selectors } && selectors@.len() == 1 && semantics::looked_up(world, name@) == Some(
            Val::Array { items, shape },
        ),
        meaning(d, world, e, hint).1 is Ok,
    ensures
        ({
            let sels = e.kind->Ref_selectors;
            &&& sels@[0] is Length ==> meaning(d, world, e, hint) == (world, Ok::<Val, StopView>(Val::Int(items.len() as i128)))
            &&& sels@[0] matches Selector::Indices(ix) ==> (ix@.len() == 1 && shape.len() == 1 ==> {
                let r = meaning(d, world, ix@[0], whole());
                &&& r.1 is Ok
                &&& r.1->Ok_0 matches Val::Int(n) ==> 1 <= n <= items.len() && meaning(d, world, e, hint) == (
                    r.0,
                    Ok::<Val, StopView>(items[n - 1]),
                )
            })
        }),
{
    let sels = e.kind->Ref_selectors;
    let v = Val::Array { items, shape };
    assert(meaning(d, world, e, hint) == semantics::selectors_from(d, world, v, sels, 0, 0, e.span)) by {
        reveal(meaning);
        reveal_with_fuel(semantics::expr_result, 2);
    }
    assert(sels@[0] is Length ==> semantics::selectors_from(d, world, v, sels, 0, 0, e.span) == (
        world,
        Ok::<Val, StopView>(Val::Int(items.len() as i128)),
    )) by {
        reveal_with_fuel(semantics::selectors_from, 3);
        reveal_with_fuel(semantics::run_result, 3);
    }
    if let Selector::Indices(ix) = sels@[0] {
        assert(semantics::selectors_from(d, world, v, sels, 0, 0, e.span) == semantics::run_result(d, world, v, sels, 0, 1, e.span)) by {
            reveal_with_fuel(semantics::selectors_from, 3);
        }
        if ix@.len() == 1 && shape.len() == 1 {
            indexed(d, world, items, shape, sels, ix, e.span);
        }
    }
}

/// A vector indexed.
#[verifier::spinoff_prover]
proof fn indexed(d: nat, world: World, items: Seq<Val>, shape: Seq<usize>, sels: Vec<Selector>, ix: Vec<Expr>, span: Span)
    requires
        sels@.len() == 1,
        sels@[0] == Selector::Indices(ix),
        ix@.len() == 1,
        shape.len() == 1,
        semantics::run_result(d, world, Val::Array { items, shape }, sels, 0, 1, span).1 is Ok,
    ensures
        ({
            let r = meaning(d, world, ix@[0], whole());
            &&& r.1 is Ok
            &&& r.1->Ok_0 matches Val::Int(n) ==> 1 <= n <= items.len() && semantics::run_result(
                d,
                world,
                Val::Array { items, shape },
                sels,
                0,
                1,
                span,
            ) == (r.0, Ok::<Val, StopView>(items[n - 1]))
        }),
{
    let r = meaning(d, world, ix@[0], whole());
    reveal(meaning);
    let l = semantics::index_list_from(d, world, ix, 0, Seq::empty());
    let one = semantics::dimension_result(d, world, sels@[0], 0, shape[0], span);
    let ps = semantics::picks_from(d, world, shape, sels, 0, 0, 1, span, Seq::empty(), Seq::empty());
    assert(semantics::run_result(d, world, Val::Array { items, shape }, sels, 0, 1, span).1 is Ok ==> ps.1 is Ok) by {
        reveal_with_fuel(semantics::run_result, 2);
    }
    assert(one.1 is Ok && ps == (one.0, Ok::<(Seq<Seq<i128>>, Seq<bool>), StopView>((seq![one.1->Ok_0.0], seq![one.1->Ok_0.1])))) by {
        reveal_with_fuel(semantics::picks_from, 3);
        assert(Seq::empty().push(one.1->Ok_0.0) =~= seq![one.1->Ok_0.0]);
        assert(Seq::empty().push(one.1->Ok_0.1) =~= seq![one.1->Ok_0.1]);
    }
    assert(l.1 is Ok && one.0 == l.0 && one.1->Ok_0.0 == Seq::new(l.1->Ok_0.len(), |i: int| (l.1->Ok_0[i] - 1) as i128) && one.1->Ok_0.1
        == (l.1->Ok_0.len() == 1) && semantics::first_beyond(one.1->Ok_0.0, shape[0], 0) is None) by {
        reveal_with_fuel(semantics::dimension_result, 3);
        reveal_with_fuel(semantics::positions_result, 3);
    }
    assert(r.1 is Ok) by {
        reveal_with_fuel(semantics::index_list_from, 3);
    }
    if let Val::Int(n) = r.1->Ok_0 {
        assert(n >= 1 && l == (r.0, Ok::<Seq<i128>, StopView>(seq![n]))) by {
            reveal_with_fuel(semantics::index_list_from, 3);
            assert(Seq::empty().push(n) =~= seq![n]);
        }
        let chosen = one.1->Ok_0.0;
        assert(chosen =~= seq![(n - 1) as i128]);
        let picks = semantics::whole_picks(seq![chosen], shape);
        let single = semantics::whole_single(seq![true], shape);
        assert(picks =~= seq![chosen]);
        assert(single =~= seq![true]);
        picked_one(items, shape, picks, single, (n - 1) as i128);
        reveal_with_fuel(semantics::run_result, 2);
    }
}

#[verifier::spinoff_prover]
proof fn picked_one(items: Seq<Val>, shape: Seq<usize>, picks: Seq<Seq<i128>>, single: Seq<bool>, p: i128)
    requires
        shape.len() == 1,
        picks == seq![seq![p]],
        single == seq![true],
        p >= 0,
    ensures
        p < items.len() ==> crate::eval::select::selected(items, shape, picks, single) == Some(items[p as int]),
        p >= items.len() ==> crate::eval::select::selected(items, shape, picks, single) is None,
{
    reveal_with_fuel(crate::eval::select::gathered, 3);
    reveal_with_fuel(crate::eval::select::gathered_from, 3);
    reveal_with_fuel(crate::eval::select::kept_shape, 3);
    reveal_with_fuel(crate::eval::select::extent_from, 3);
    assert(crate::eval::select::stride(shape, 0) == 1);
    assert(0 + p * 1 == p);
    assert(picks[0] == seq![p]);
    assert(crate::eval::select::gathered(items, shape, picks, 1, p as int) == (if p < items.len() {
        Some(seq![items[p as int]])
    } else {
        None
    }));
    assert(crate::eval::select::gathered_from(items, shape, picks, 0, 0, 1) == Some(Seq::<Val>::empty()));
    assert(seq![items[p as int]] + Seq::<Val>::empty() =~= seq![items[p as int]]);
}

/// The length of an array, or an element of it.
#[verifier::spinoff_prover]
#[verifier::rlimit(40)]
proof fn sim_one(c: CompiledView, w: WorkView, env: Env, f: Framing, e: Expr, want: Native, hint: Option<Numeric>, d: nat, world: World, m: Machine) -> (n: nat)
    requires
        e.kind is Ref,
        !(want is Array),
        ac(env, e, want, hint),
        abreast(c, w, env, f, world, m),
        m.line.len() == 0,
        sees(c, expr_made(w, e, want).0),
        meaning(d, world, e, hint).1 is Ok,
    ensures
        yields(
            w,
            expr_made(w, e, want).0,
            expr_made(w, e, want).1,
            world,
            meaning(d, world, e, hint).0,
            m,
            steps(c, m, n),
            want,
            meaning(d, world, e, hint).1->Ok_0,
        ),
    decreases d, e, 5nat,
{
    let name = e.kind->Ref_name@;
    let sels = e.kind->Ref_selectors;
    one_parts(w, env, e, want, hint);
    one_busy(w, env, e, want, hint);
    let frames = seen(world.frames, f);
    assert(looked_up(w, name) == found(w.frames, name, w.frames.len())) by {
        reveal(looked_up);
    }
    lemma_found(w, frames, m, name, w.frames.len());
    lemma_seen_value(world, f, name);
    let (at, held) = looked_up(w, name)->0;
    let load = Inst::Load { kind: Kind::Ptr, from: at };
    let (w1, loaded) = array_loaded(w, name);
    lemma_attuned(w, w1, env);
    let wf = expr_made(w, e, want).0;
    let v = semantics::looked_up(world, name)->0;
    one_meaning(d, world, e, hint, v->Array_items, v->Array_shape);
    let x = slot(top(m).slots, at as int, 0);
    let a = array_of(m.heap, x)->0;
    if let Selector::Indices(ix) = sels@[0] {
        assert(decreases_to!(sels => sels@[0]));
        assert(decreases_to!(ix => ix@[0]));
        sc_quiet(w1, env, ix@[0], Native::Int, whole());
        let (w2, index) = expr_made(w1, ix@[0], Native::Int);
        assert(kinds(seq![loaded, index]) =~= takes(Rt::ArrayGetInt));
        called_quiet(w2, Rt::ArrayGetInt, seq![loaded, index]);
        lemma_sees_before(c, w2, wf);
        lemma_sees_before(c, w1, w2);
        run_value(c, w, m, load, x);
        let m1 = steps(c, m, 1);
        lemma_ran_worked(w, w1, m, m1);
        lemma_abreast_worked(c, w, w1, env, f, world, world, m, m1);
        let k = sim_sc(c, w1, env, f, ix@[0], Native::Int, whole(), d, world, m1);
        let m2 = steps(c, m1, k);
        lemma_steps_add(c, m, 1, k);
        let r = meaning(d, world, ix@[0], whole());
        let n = r.1->Ok_0->Int_0;
        lemma_passed_worked(w1, w2, m1, m2);
        lemma_worked_then(w, w1, w2, m, m1, m2);
        assert(reg(top(m2), loaded.at) == reg(top(m1), loaded.at));
        let h = x->Object_0;
        assert(m2.heap[h as int] == m1.heap[h as int]);
        assert(cell_rep(a.items[n - 1], v->Array_items[n - 1]));
        run_got_int(c, w2, m2, loaded, index, h, n as int, a, v->Array_items[n - 1]->Int_0);
        let m3 = steps(c, m2, 3);
        lemma_steps_add(c, m, 1 + k, 3);
        lemma_ran_worked(w2, wf, m2, m3);
        lemma_worked_then(w, w2, wf, m, m2, m3);
        1 + k + 3
    } else {
        let args = seq![loaded];
        assert(kinds(args) =~= takes(Rt::ArrayLen));
        called_quiet(w1, Rt::ArrayLen, args);
        lemma_sees_before(c, w1, wf);
        run_value(c, w, m, load, x);
        let m1 = steps(c, m, 1);
        lemma_ran_worked(w, w1, m, m1);
        let given = data(top(m1), args);
        let act = Activation { pc: (w1.code.len() + args.len()) as int, args: given, ..top(m1) };
        let before = with(m1, act);
        let n = a.items.len() as i128;
        assert(runtime_call(before, top(m1).slots, Rt::ArrayLen, given) == Call::Gives(before, top(m1).slots, Datum::Word(n))) by {
            reveal(runtime_call);
            assert(given[0] == x);
            assert(array_in(before, given[0]) == Some(a));
        }
        run_any(c, w1, m1, Rt::ArrayLen, args, before, top(m1).slots, Datum::Word(n));
        let m2 = steps(c, m1, 2);
        assert(m2.calls =~= seq![top(m2)]);
        lemma_steps_add(c, m, 1, 2);
        lemma_ran_worked(w1, wf, m1, m2);
        lemma_worked_then(w, w1, wf, m, m1, m2);
        1 + 2
    }
}

/// A sign changed, position by position.
#[verifier::spinoff_prover]
proof fn each_signs_meet(m: Machine, w: World, op: UnOp, items: Seq<Val>, cs: Seq<CellView>, acc: Seq<Val>, out: Seq<CellView>, k: Native, digits: u32, span: Span, hint: Option<Numeric>)
    requires
        sign_change(op),
        numeric(k),
        cells_rep(cs, items, k),
        cells_rep(out, acc, k),
        acc.len() <= items.len(),
        crate::codegen::machine::each_settled(m, unary_tag(op), cs, digits, acc.len()) == Ok::<
            (Machine, Seq<CellView>),
            crate::codegen::machine::Ending,
        >((m, out)),
        semantics::unary_from(w, op, items, acc, span, hint).1 is Ok,
    ensures
        ({
            let r = semantics::unary_from(w, op, items, acc, span, hint);
            &&& r.0 == w
            &&& r.1->Ok_0.len() == items.len()
            &&& crate::codegen::machine::each_settled(m, unary_tag(op), cs, digits, items.len()) matches Ok((m1, all)) && m1 == m
                && cells_rep(all, r.1->Ok_0, k)
        }),
    decreases items.len() - acc.len(),
{
    if acc.len() < items.len() {
        let i = acc.len() as int;
        assert(cell_rep(cs[i], items[i]));
        assert(!(crate::eval::ops::unary_val(op, items[i], span, hint) matches Err(StopView::Ask(_)))) by {
            reveal(crate::eval::ops::unary_val);
        }
        signs_meet(op, cs[i], items[i], k, digits, span, hint);
        let v = crate::eval::ops::unary_val(op, items[i], span, hint)->Ok_0;
        let c = num::cell_unary(unary_tag(op), cs[i], digits)->Ok_0;
        each_signs_meet(m, w, op, items, cs, acc.push(v), out.push(c), k, digits, span, hint);
    }
}

#[verifier::spinoff_prover]
proof fn each_unary_meaning(d: nat, world: World, e: Expr, hint: Option<Numeric>)
    requires
        e.kind matches ExprKind::Unary { op, operand } && sign_change(op) && !bare(*operand),
        meaning(d, world, e, hint).1 is Ok,
    ensures
        ({
            let op = e.kind->Unary_op;
            let r1 = meaning(d, world, *e.kind->Unary_operand, hint);
            &&& r1.1 is Ok
            &&& r1.1->Ok_0 matches Val::Array { items, shape } ==> {
                let r = semantics::unary_from(r1.0, op, items, Seq::empty(), e.span, hint);
                &&& r.1 is Ok
                &&& meaning(d, world, e, hint) == (r.0, Ok::<Val, StopView>(Val::Array { items: r.1->Ok_0, shape }))
            }
        }),
{
    reveal(meaning);
}

#[verifier::spinoff_prover]
#[verifier::rlimit(40)]
proof fn sim_each_unary(c: CompiledView, w: WorkView, env: Env, f: Framing, e: Expr, want: Native, hint: Option<Numeric>, d: nat, world: World, m: Machine) -> (n: nat)
    requires
        e.kind is Unary,
        ac(env, e, want, hint),
        abreast(c, w, env, f, world, m),
        m.line.len() == 0,
        sees(c, expr_made(w, e, want).0),
        meaning(d, world, e, hint).1 is Ok,
    ensures
        yields(
            w,
            expr_made(w, e, want).0,
            expr_made(w, e, want).1,
            world,
            meaning(d, world, e, hint).0,
            m,
            steps(c, m, n),
            want,
            meaning(d, world, e, hint).1->Ok_0,
        ),
    decreases d, e, 5nat,
{
    let op = e.kind->Unary_op;
    let inner = *e.kind->Unary_operand;
    let held = nat_of(env, inner);
    let k = element_of(want);
    ac_busy(w, env, inner, held, hint);
    each_unary_parts(w, env, e, want, hint);
    let (w1, v) = expr_made(w, inner, held);
    let i1 = Inst::Small(unary_tag(op));
    let (w2, tag) = made(w1, i1, Kind::Small);
    let i2 = Inst::Small(w1.digits);
    let (w3, digits) = made(w2, i2, Kind::Small);
    let args = seq![tag, v, digits];
    assert(kinds(args) =~= takes(Rt::ArrayUnary));
    alloc_busy(w3, Rt::ArrayUnary, args);
    let wf = expr_made(w, e, want).0;
    lemma_sees_busy(c, w3, wf);
    lemma_sees_put(c, w2, i2);
    lemma_sees_put(c, w1, i1);
    each_unary_meaning(d, world, e, hint);
    let r1 = meaning(d, world, inner, hint);
    let n1 = sim_ac(c, w, env, f, inner, held, hint, d, world, m);
    let m1 = steps(c, m, n1);
    run_value(c, w1, m1, i1, Datum::Small(unary_tag(op) as int));
    let m2 = steps(c, m1, 1);
    lemma_steps_add(c, m, n1, 1);
    run_value(c, w2, m2, i2, Datum::Small(w1.digits as int));
    let m3 = steps(c, m2, 1);
    lemma_steps_add(c, m, n1 + 1, 1);
    lemma_ran_worked(w1, w2, m1, m2);
    lemma_ran_worked(w2, w3, m2, m3);
    lemma_worked_then(w, w1, w2, m, m1, m2);
    lemma_worked_then(w, w2, w3, m, m2, m3);
    let x0 = reg(top(m1), v.at);
    assert(reg(top(m2), v.at) == x0);
    assert(reg(top(m3), v.at) == x0);
    assert(reg(top(m3), tag.at) == reg(top(m2), tag.at));
    let a = array_of(m3.heap, x0)->0;
    let items = r1.1->Ok_0->Array_items;
    assert(cells_rep(a.items, items, k));
    let given = data(top(m3), args);
    let act = Activation { pc: (w3.code.len() + args.len()) as int, args: given, ..top(m3) };
    each_signs_meet(with(m3, act), r1.0, op, items, a.items, Seq::empty(), Seq::empty(), k, w1.digits, e.span, hint);
    let out = crate::codegen::machine::each_settled(with(m3, act), unary_tag(op), a.items, w1.digits, a.items.len())->Ok_0.1;
    let b = ArrayView { items: out, shape: a.shape, kind: num::kind_among(out) };
    assert(runtime_call(with(m3, act), top(m3).slots, Rt::ArrayUnary, given) == Call::Gives(
        placed(with(m3, act), Boxed::Array(b)),
        top(m3).slots,
        Datum::Object(m3.heap.len()),
    )) by {
        reveal(runtime_call);
        assert(given[0] == Datum::Small(unary_tag(op) as int));
        assert(given[1] == x0);
        assert(given[2] == Datum::Small(w1.digits as int));
        assert(array_in(with(m3, act), given[1]) == Some(a));
    }
    run_alloc(c, w3, m3, Rt::ArrayUnary, args, Boxed::Array(b));
    let m4 = steps(c, m3, 4);
    lemma_steps_add(c, m, n1 + 2, 4);
    lemma_worked_then(w, w3, wf, m, m3, m4);
    n1 + 2 + 4
}

/// What a side of such an operator is once it is an array.
pub open spec fn side_made_so(m: Machine, x: Datum, v: Val, n: Native, k: Native) -> bool {
    if n is Array {
        stands_for(m.heap, x, v, n)
    } else {
        array_of(m.heap, x) matches Some(a) && a.items.len() == 1 && cell_rep(a.items[0], v) && cell_native(a.items[0]) == k && a.shape
            == seq![1u64] && !(v is Array)
    }
}

#[verifier::spinoff_prover]
#[verifier::rlimit(40)]
proof fn sim_side(c: CompiledView, w: WorkView, env: Env, f: Framing, e: Expr, n: Native, k: Native, hint: Option<Numeric>, d: nat, world: World, m: Machine) -> (j: nat)
    requires
        single(k),
        n is Array ==> ac(env, e, n, hint),
        !(n is Array) ==> sc(env, e, k, hint),
        abreast(c, w, env, f, world, m),
        m.line.len() == 0,
        sees(c, each_side(w, e, n, k).0),
        meaning(d, world, e, hint).1 is Ok,
    ensures
        ({
            let (wf, r) = each_side(w, e, n, k);
            let m1 = steps(c, m, j);
            let out = meaning(d, world, e, hint);
            &&& worked(w, wf, m, m1)
            &&& r.kind == Kind::Ptr
            &&& r.at < wf.code.len()
            &&& side_made_so(m1, reg(top(m1), r.at), out.1->Ok_0, n, k)
            &&& m1.lines == out.0.lines
            &&& moved_on(world, out.0)
        }),
    decreases d, e, 7nat,
{
    let out = meaning(d, world, e, hint);
    let x = out.1->Ok_0;
    if n is Array {
        sim_ac(c, w, env, f, e, n, hint, d, world, m)
    } else {
        sc_quiet(w, env, e, k, hint);
        let (w1, v) = expr_made(w, e, k);
        spread_busy(w1, v, k);
        let (w2, array) = array_made(w1, k, seq![1u64]);
        let word = Inst::Word(1);
        let (w3, one) = made(w2, word, Kind::Word);
        let wf = element_stored(w3, array, one, v, k);
        lemma_sees_before(c, w3, wf);
        lemma_sees_put(c, w2, word);
        lemma_sees_busy(c, w1, w2);
        let n1 = sim_sc(c, w, env, f, e, k, hint, d, world, m);
        let m1 = steps(c, m, n1);
        crate::codegen::correct::lemma_rep_single(reg(top(m1), v.at), x, k);
        let n2 = run_new(c, w1, k, seq![1u64], m1);
        let m2 = steps(c, m1, n2);
        lemma_steps_add(c, m, n1, n2);
        run_value(c, w2, m2, word, Datum::Word(1));
        let m3 = steps(c, m2, 1);
        lemma_steps_add(c, m, n1 + n2, 1);
        let h = m1.heap.len();
        let a0 = zeros(tag_of(k), seq![1u64]);
        assert(a0.items.len() == 1) by {
            reveal_with_fuel(extent_from, 3);
            assert(extent_from(seq![1u64], 1) == 1);
            assert(extent_from(seq![1u64], 0) == 1 * 1);
        }
        assert(reg(top(m2), v.at) == reg(top(m1), v.at));
        assert(reg(top(m3), v.at) == reg(top(m2), v.at));
        assert(reg(top(m3), array.at) == reg(top(m2), array.at));
        let n3 = run_element(c, w3, m3, array, one, v, k, h, 1, x, a0, 1);
        let m4 = steps(c, m3, n3);
        lemma_steps_add(c, m, n1 + n2 + 1, n3);
        lemma_passed_worked(w, w1, m, m1);
        lemma_worked_then(w, w1, w2, m, m1, m2);
        assert(reg(top(m4), array.at) == reg(top(m3), array.at));
        assert(worked(w, wf, m, m4)) by {
            lemma_quiet_busy(w2, wf);
            lemma_busy_then(w, w2, wf);
            crate::codegen::workings::lemma_below_then(w2.code.len() as int, w3.code.len() as int, top(m2), top(m3), top(m4));
            crate::codegen::workings::lemma_below_then(w.code.len() as int, w2.code.len() as int, top(m), top(m2), top(m4));
            assert forall|o: int| 0 <= o < m.heap.len() implies #[trigger] m4.heap[o] == m.heap[o] by {
                assert(m1.heap[o] == m.heap[o]);
                assert(m2.heap[o] == m1.heap[o]);
            }
            assert forall|q: int|
                #![trigger wf.temps[q]]
                w.temps.len() <= q < wf.temps.len() implies wf.temps[q] == (Temp { value: array, native: Native::Array(0, 1) }) by {}
        }
        n1 + n2 + 1 + n3
    }
}

pub(crate) proof fn lemma_passed_worked(w: WorkView, w1: WorkView, m: Machine, m1: Machine)
    requires
        crate::codegen::correct::passed_on(w, w1, m, m1),
    ensures
        worked(w, w1, m, m1),
{
    lemma_quiet_busy(w, w1);
}

proof fn lemma_side_stays(m: Machine, m1: Machine, x: Datum, v: Val, n: Native, k: Native)
    requires
        side_made_so(m, x, v, n, k),
        heap_grown(m.heap, m1.heap),
    ensures
        side_made_so(m1, x, v, n, k),
{
    if let Datum::Object(o) = x {
        if o < m.heap.len() {
            assert(m1.heap[o as int] == m.heap[o as int]);
        }
    }
}

#[verifier::spinoff_prover]
proof fn each_meaning(d: nat, world: World, e: Expr, hint: Option<Numeric>)
    requires
        e.kind matches ExprKind::Binary { op, lhs, rhs } && !is_array_operator(op) && !bare(*lhs) && !bare(*rhs) && (relation_of(op) is Some
            || plain_operation(op)),
        meaning(d, world, e, hint).1 is Ok,
    ensures
        ({
            let r1 = meaning(d, world, *e.kind->Binary_lhs, hint);
            let r2 = meaning(d, r1.0, *e.kind->Binary_rhs, hint);
            &&& r1.1 is Ok
            &&& r2.1 is Ok
            &&& r1.1->Ok_0 is Array || r2.1->Ok_0 is Array ==> meaning(d, world, e, hint) == semantics::elementwise(
                r2.0,
                e.kind->Binary_op,
                r1.1->Ok_0,
                r2.1->Ok_0,
                e.span,
                hint,
            )
        }),
{
    reveal(meaning);
}

/// Two sides combined position by position come to the same.
#[verifier::spinoff_prover]
#[verifier::rlimit(40)]
proof fn each_meets(w: World, op: BinOp, a: Val, b: Val, x: ArrayView, y: ArrayView, l: Native, r: Native, want: Native, k: Native, span: Span, hint: Option<Numeric>)
    requires
        each_fits(op, l, r, want),
        k == (if l is Array { element_of(l) } else { element_of(r) }),
        l is Array ==> array_rep(x, a, k) && x.shape.len() == 1 && x.items.len() == extent_from(x.shape, 0),
        r is Array ==> array_rep(y, b, k) && y.shape.len() == 1 && y.items.len() == extent_from(y.shape, 0),
        !(l is Array) ==> x.items.len() == 1 && cell_rep(x.items[0], a) && cell_native(x.items[0]) == k && x.shape == seq![1u64] && !(a is Array),
        !(r is Array) ==> y.items.len() == 1 && cell_rep(y.items[0], b) && cell_native(y.items[0]) == k && y.shape == seq![1u64] && !(b is Array),
        semantics::elementwise(w, op, a, b, span, hint).1 is Ok,
    ensures
        ({
            let out = semantics::elementwise(w, op, a, b, span, hint);
            let z = if relation_of(op) is Some {
                num::compared_arrays(each_tag(op), x, y)
            } else {
                num::elementwise(each_tag(op), x, y)
            };
            &&& out.0 == w
            &&& z matches Ok(q) && {
                &&& array_rep(q, out.1->Ok_0, element_of(want))
                &&& q.shape.len() == rank_of(want)
                &&& q.items.len() == extent_from(q.shape, 0)
            }
        }),
{
    let n = if l is Array {
        a->Array_items.len()
    } else {
        b->Array_items.len()
    };
    assert(side_rep(x.items, a, n, k));
    assert(side_rep(y.items, b, n, k));
    reveal_with_fuel(extent_from, 3);
    if l is Array {
        assert(extent_from(x.shape, 1) == 1);
        assert(extent_from(x.shape, 0) == x.shape[0] as nat * 1);
        assert(x.shape[0] == a->Array_shape[0]);
    }
    if r is Array {
        assert(extent_from(y.shape, 1) == 1);
        assert(extent_from(y.shape, 0) == y.shape[0] as nat * 1);
        assert(y.shape[0] == b->Array_shape[0]);
    }
    pairs_meet(w, op, a, b, x.items, y.items, n, Seq::empty(), Seq::empty(), k, span, hint);
    let compares = relation_of(op) is Some;
    let all = num::pairwise(each_tag(op), compares, x.items, y.items, n)->Ok_0;
    assert(num::pairs(x.items.len(), y.items.len()) == Some(n));
    let shape = num::broadcast_shape(x, y);
    assert(shape.len() == 1);
    assert(extent_from(shape, 1) == 1);
    assert(extent_from(shape, 0) == shape[0] as nat * 1);
    assert(shape[0] == n);
}

#[verifier::spinoff_prover]
#[verifier::rlimit(40)]
proof fn sim_each(c: CompiledView, w: WorkView, env: Env, f: Framing, e: Expr, want: Native, hint: Option<Numeric>, d: nat, world: World, m: Machine) -> (n: nat)
    requires
        e.kind matches ExprKind::Binary { op, .. } && !is_array_operator(op),
        ac(env, e, want, hint),
        abreast(c, w, env, f, world, m),
        m.line.len() == 0,
        sees(c, expr_made(w, e, want).0),
        meaning(d, world, e, hint).1 is Ok,
    ensures
        yields(
            w,
            expr_made(w, e, want).0,
            expr_made(w, e, want).1,
            world,
            meaning(d, world, e, hint).0,
            m,
            steps(c, m, n),
            want,
            meaning(d, world, e, hint).1->Ok_0,
        ),
    decreases d, e, 5nat,
{
    let op = e.kind->Binary_op;
    let lhs = *e.kind->Binary_lhs;
    let rhs = *e.kind->Binary_rhs;
    let l = nat_of(env, lhs);
    let r = nat_of(env, rhs);
    let k = if l is Array {
        element_of(l)
    } else {
        element_of(r)
    };
    each_side_busy(w, env, lhs, l, k, hint);
    let (w2, a) = each_side(w, lhs, l, k);
    lemma_attuned(w, w2, env);
    each_side_busy(w2, env, rhs, r, k, hint);
    let (w4, b) = each_side(w2, rhs, r, k);
    each_parts(w, env, e, want, hint, k);
    let it = Inst::Small(each_tag(op));
    let (w5, tag) = made(w4, it, Kind::Small);
    let fun = each_call(op);
    let args = seq![tag, a, b];
    assert(kinds(args) =~= takes(fun));
    alloc_busy(w5, fun, args);
    let wf = expr_made(w, e, want).0;
    lemma_sees_busy(c, w5, wf);
    lemma_sees_put(c, w4, it);
    lemma_sees_busy(c, w2, w4);
    each_meaning(d, world, e, hint);
    let r1 = meaning(d, world, lhs, hint);
    let r2 = meaning(d, r1.0, rhs, hint);
    let n1 = sim_side(c, w, env, f, lhs, l, k, hint, d, world, m);
    let m2 = steps(c, m, n1);
    lemma_abreast_worked(c, w, w2, env, f, world, r1.0, m, m2);
    let n2 = sim_side(c, w2, env, f, rhs, r, k, hint, d, r1.0, m2);
    let m4 = steps(c, m2, n2);
    lemma_steps_add(c, m, n1, n2);
    lemma_worked_then(w, w2, w4, m, m2, m4);
    run_value(c, w4, m4, it, Datum::Small(each_tag(op) as int));
    let m5 = steps(c, m4, 1);
    lemma_steps_add(c, m, n1 + n2, 1);
    lemma_ran_worked(w4, w5, m4, m5);
    lemma_worked_then(w, w4, w5, m, m4, m5);
    let x0 = reg(top(m2), a.at);
    let y0 = reg(top(m4), b.at);
    assert(reg(top(m4), a.at) == x0);
    assert(reg(top(m5), a.at) == reg(top(m4), a.at));
    assert(reg(top(m5), b.at) == y0);
    lemma_side_stays(m2, m5, x0, r1.1->Ok_0, l, k);
    lemma_side_stays(m4, m5, y0, r2.1->Ok_0, r, k);
    let x = array_of(m5.heap, x0)->0;
    let y = array_of(m5.heap, y0)->0;
    each_meets(r2.0, op, r1.1->Ok_0, r2.1->Ok_0, x, y, l, r, want, k, e.span, hint);
    let z = if relation_of(op) is Some {
        num::compared_arrays(each_tag(op), x, y)->Ok_0
    } else {
        num::elementwise(each_tag(op), x, y)->Ok_0
    };
    let given = data(top(m5), args);
    let act = Activation { pc: (w5.code.len() + args.len()) as int, args: given, ..top(m5) };
    assert(runtime_call(with(m5, act), top(m5).slots, fun, given) == Call::Gives(
        placed(with(m5, act), Boxed::Array(z)),
        top(m5).slots,
        Datum::Object(m5.heap.len()),
    )) by {
        reveal(runtime_call);
        assert(given[0] == Datum::Small(each_tag(op) as int));
        assert(given[1] == x0 && given[2] == y0);
        assert(array_in(with(m5, act), given[1]) == Some(x));
        assert(array_in(with(m5, act), given[2]) == Some(y));
    }
    run_alloc(c, w5, m5, fun, args, Boxed::Array(z));
    let m6 = steps(c, m5, 4);
    lemma_steps_add(c, m, n1 + n2 + 1, 4);
    lemma_worked_then(w, w5, wf, m, m5, m6);
    n1 + n2 + 1 + 4
}

} // verus!
