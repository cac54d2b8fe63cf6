//! Powers and absolute values of machine words.

use vstd::arithmetic::power::{lemma0_pow, lemma1_pow, lemma_pow0, lemma_pow1, lemma_pow_adds, pow};
use vstd::prelude::*;

use crate::ast::UnOp;
use crate::codegen::agreement::{at, holding, run_at, run_one, run_to};
use crate::codegen::laws::extended;
use crate::text::fits;
use crate::codegen::lowering::CompiledView;
use crate::codegen::machine::{reg, slot, steps, Activation, Datum, Machine};
use crate::codegen::runtime::Kind;
use crate::codegen::simulation::{
    keeps_below, lemma_does, lemma_extended_then, lemma_failing, lemma_quiet_then, lemma_sees_before,
    lemma_sees_put, lemma_steps_add, quiet, ran, run_checked, running, sees, sound, stands, top, with,
};
use crate::codegen::steps::{exponent_checked, power_made, word_unary};
use crate::codegen::whole::lemma_checked_quiet;
use crate::codegen::work::{
    checked_made, failing, forked, put, related, stored, CheckedOp, Inst, Operand, Relation, WorkView,
};

verus! {

#[verifier::spinoff_prover]
pub(crate) proof fn exponent_quiet(w: WorkView, exp: Operand)
    requires
        exp.kind == Kind::Word,
    ensures
        quiet(w, exponent_checked(w, exp)),
        exponent_checked(w, exp).open,
{
    reveal(exponent_checked);
    reveal(related);
    reveal(forked);
    let w5 = exponent_asked(w, exp);
    let bad = w5.code.len() as usize;
    let w7 = put(put(w5, Inst::Block), Inst::Block);
    let fork = Inst::Fork { test: (w5.code.len() - 1) as usize, yes: bad, no: (w5.code.len() + 1) as usize };
    let w8 = put(put(w7, fork), Inst::At(bad));
    let f = failing(w8, "AHPCL-PREC-0004"@, "this exponent is out of range"@);
    lemma_failing(w8, "AHPCL-PREC-0004"@, "this exponent is out of range"@);
    let wf = exponent_checked(w, exp);
    assert(extended(w.code, w8.code));
    lemma_extended_then(w.code, w8.code, f.code);
    lemma_extended_then(w.code, f.code, wf.code);
}

/// The code that asks whether an exponent is in range.
pub open spec fn exponent_asked(w: WorkView, exp: Operand) -> WorkView {
    let p = w.code.len() as int;
    let w2 = put(put(w, Inst::Word(0)), Inst::Word(0xffff_ffff));
    let w3 = put(
        w2,
        Inst::Relate { relation: Relation::Less, kind: Kind::Word, lhs: exp.at, rhs: p as usize },
    );
    let w4 = put(
        w3,
        Inst::Relate { relation: Relation::Greater, kind: Kind::Word, lhs: exp.at, rhs: (p + 1) as usize },
    );
    put(w4, Inst::Or((p + 2) as usize, (p + 3) as usize))
}

#[verifier::spinoff_prover]
pub(crate) proof fn power_quiet(w: WorkView, base: Operand, exp: Operand)
    requires
        base.kind == Kind::Word,
        exp.kind == Kind::Word,
    ensures
        quiet(w, power_made(w, base, exp).0),
        power_made(w, base, exp).1.kind == Kind::Word,
{
    exponent_quiet(w, exp);
    reveal(stored);
    reveal(forked);
    reveal(related);
    let we = exponent_checked(w, exp);
    let w12 = power_entered(we, exp);
    let w13 = put(w12, Inst::Load { kind: Kind::Word, from: we.code.len() as usize });
    let cur = Operand { at: w12.code.len() as usize, kind: Kind::Word };
    let w14 = checked_made(w13, CheckedOp::Mul, cur, base).0;
    lemma_checked_quiet(w13, CheckedOp::Mul, cur, base);
    let wf = power_made(w, base, exp).0;
    assert(extended(we.code, w13.code));
    assert(extended(w14.code, wf.code));
    lemma_extended_then(w.code, we.code, w13.code);
    lemma_extended_then(w.code, w13.code, w14.code);
    lemma_extended_then(w.code, w14.code, wf.code);
    lemma_extended_then(w.texts, we.texts, w14.texts);
}

/// The code of a power up to its body.
pub open spec fn power_entered(w: WorkView, exp: Operand) -> WorkView {
    let q = w.code.len() as int;
    let w4 = put(put(put(put(w, Inst::Slot(Kind::Word)), Inst::Slot(Kind::Word)), Inst::Word(1)), Inst::Word(0));
    let w5 = put(
        put(w4, Inst::Store { into: q as usize, value: (q + 2) as usize }),
        Inst::Store { into: (q + 1) as usize, value: (q + 3) as usize },
    );
    let w8 = put(put(put(w5, Inst::Block), Inst::Block), Inst::Block);
    let w9 = put(put(w8, Inst::Jump((q + 6) as usize)), Inst::At((q + 6) as usize));
    let w10 = put(w9, Inst::Load { kind: Kind::Word, from: (q + 1) as usize });
    let w11 = put(
        w10,
        Inst::Relate { relation: Relation::Less, kind: Kind::Word, lhs: (q + 11) as usize, rhs: exp.at },
    );
    put(
        put(w11, Inst::Fork { test: (q + 12) as usize, yes: (q + 7) as usize, no: (q + 8) as usize }),
        Inst::At((q + 7) as usize),
    )
}

#[verifier::spinoff_prover]
pub(crate) proof fn word_unary_quiet(w: WorkView, op: UnOp, v: Operand)
    requires
        op == UnOp::Neg || op == UnOp::Abs,
        v.kind == Kind::Word,
    ensures
        quiet(w, word_unary(w, op, v).0),
        word_unary(w, op, v).1.kind == Kind::Word,
{
    reveal(related);
    reveal(stored);
    reveal(forked);
    let zero = Operand { at: w.code.len() as usize, kind: Kind::Word };
    let w1 = put(w, Inst::Word(0));
    let wf = word_unary(w, op, v).0;
    if op == UnOp::Neg {
        lemma_checked_quiet(w1, CheckedOp::Sub, zero, v);
        lemma_quiet_then(w, w1, wf);
    } else {
        let w6 = abs_entered(w, v);
        lemma_checked_quiet(w6, CheckedOp::Sub, zero, v);
        let w7 = checked_made(w6, CheckedOp::Sub, zero, v).0;
        assert(extended(w.code, w6.code));
        lemma_extended_then(w.code, w6.code, w7.code);
        assert(extended(w7.code, wf.code));
        lemma_extended_then(w.code, w7.code, wf.code);
    }
}

/// The code of an absolute value up to where it turns its operand.
pub open spec fn abs_entered(w: WorkView, v: Operand) -> WorkView {
    let p = w.code.len() as int;
    let w2 = put(
        put(w, Inst::Word(0)),
        Inst::Relate { relation: Relation::Less, kind: Kind::Word, lhs: v.at, rhs: p as usize },
    );
    let w5 = put(put(put(w2, Inst::Block), Inst::Block), Inst::Slot(Kind::Word));
    let w6 = put(w5, Inst::Store { into: (p + 4) as usize, value: v.at });
    put(
        put(w6, Inst::Fork { test: (p + 1) as usize, yes: (p + 2) as usize, no: (p + 3) as usize }),
        Inst::At((p + 2) as usize),
    )
}

// ── run ─────────────────────────────────────────────────────────────────────

/// What a stretch of code that keeps to itself leaves alone.
pub open spec fn moved(n: int, m: Machine, m1: Machine, pc: int) -> bool {
    &&& m1 == with(m, top(m1))
    &&& running(m1)
    &&& top(m1).given == top(m).given
    &&& top(m1).pc == pc
    &&& keeps_below(n, top(m), top(m1))
}

proof fn moved_then(n: int, n1: int, m: Machine, m1: Machine, m2: Machine, pc: int, pc1: int)
    requires
        moved(n, m, m1, pc),
        moved(n1, m1, m2, pc1),
        n <= n1,
    ensures
        moved(n, m, m2, pc1),
{
}

proof fn moved_at(n: int, m: Machine, j: int)
    requires
        running(m),
    ensures
        moved(n, m, at(m, j), j),
{
}

proof fn moved_holding(n: int, m: Machine, v: Datum)
    requires
        running(m),
        0 <= n <= top(m).pc,
        top(m).pc <= usize::MAX,
    ensures
        moved(n, m, holding(m, v), top(m).pc + 1),
        reg(top(holding(m, v)), top(m).pc as usize) == v,
        top(holding(m, v)).slots == top(m).slots,
        forall|i: usize| i != top(m).pc ==> #[trigger] reg(top(holding(m, v)), i) == reg(top(m), i),
{
}

/// A store, run.
proof fn run_store(c: CompiledView, m: Machine, into: usize, value: usize, n: int)
    requires
        running(m),
        0 <= top(m).pc < c.main.code.len(),
        c.main.code[top(m).pc] == (Inst::Store { into, value }),
        n <= into,
    ensures
        ({
            let m1 = steps(c, m, 1);
            &&& moved(n, m, m1, top(m).pc + 1)
            &&& top(m1).regs == top(m).regs
            &&& top(m1).slots == top(m).slots.insert((into as int, 0), reg(top(m), value))
        }),
{
    let a = Activation { pc: top(m).pc + 1, slots: top(m).slots.insert((into as int, 0), reg(top(m), value)), ..top(m) };
    lemma_does(c, m, c.main.code[top(m).pc], a);
    let m1 = with(m, a);
    assert(m1.calls =~= seq![top(m1)]);
}

#[verifier::spinoff_prover]
#[verifier::rlimit(30)]
pub(crate) proof fn run_abs(c: CompiledView, w: WorkView, m: Machine, v: Operand, x: i128) -> (n: nat)
    requires
        sound(c),
        sees(c, word_unary(w, UnOp::Abs, v).0),
        stands(w, m),
        w.open,
        v.kind == Kind::Word,
        v.at < w.code.len(),
        reg(top(m), v.at) == Datum::Word(x),
        x < 0 ==> fits(-x),
    ensures
        ({
            let (w1, r) = word_unary(w, UnOp::Abs, v);
            let m1 = steps(c, m, n);
            &&& ran(w, w1, m, m1)
            &&& r.kind == Kind::Word
            &&& r.at < w1.code.len()
            &&& reg(top(m1), r.at) == Datum::Word(if x < 0 { (-x) as i128 } else { x })
        }),
{
    word_unary_quiet(w, UnOp::Abs, v);
    let (wf, r) = word_unary(w, UnOp::Abs, v);
    let p = w.code.len() as int;
    let zero = Operand { at: p as usize, kind: Kind::Word };
    let w6 = abs_entered(w, v);
    let (w7, opposite) = checked_made(w6, CheckedOp::Sub, zero, v);
    lemma_checked_quiet(w6, CheckedOp::Sub, zero, v);
    let l = w7.code.len() as int;
    let store = Inst::Store { into: (p + 4) as usize, value: opposite.at };
    let load = Inst::Load { kind: Kind::Word, from: (p + 4) as usize };
    let w8 = put(put(put(w7, store), Inst::Jump((p + 3) as usize)), Inst::At((p + 3) as usize));
    assert(wf == put(w8, load)) by {
        reveal(related);
        reveal(stored);
        reveal(forked);
    }
    assert(extended(w7.code, wf.code));
    lemma_extended_then(w7.code, wf.code, c.main.code);
    assert(sees(c, w7));
    lemma_sees_before(c, w6, w7);
    let code = c.main.code;
    assert forall|k: int| p <= k < p + 8 implies #[trigger] code[k] == w6.code[k] by {}
    assert forall|k: int| l <= k < l + 4 implies #[trigger] code[k] == wf.code[k] by {}
    assert(code[p] == Inst::Word(0) && code[p + 2] == Inst::Block && code[p + 3] == Inst::Block && code[p + 4]
        == Inst::Slot(Kind::Word));
    assert(code[p + 1] == (Inst::Relate { relation: Relation::Less, kind: Kind::Word, lhs: v.at, rhs: p as usize }));
    assert(code[p + 5] == (Inst::Store { into: (p + 4) as usize, value: v.at }));
    assert(code[p + 6] == (Inst::Fork { test: (p + 1) as usize, yes: (p + 2) as usize, no: (p + 3) as usize }));
    assert(code[p + 7] == Inst::At((p + 2) as usize));
    assert(code[l] == store && code[l + 1] == Inst::Jump((p + 3) as usize) && code[l + 2] == Inst::At((p + 3) as usize)
        && code[l + 3] == load);
    run_one(c, m, Datum::Word(0));
    moved_holding(p, m, Datum::Word(0));
    let m1 = holding(m, Datum::Word(0));
    run_one(c, m1, Datum::Bit(x < 0));
    moved_holding(p, m1, Datum::Bit(x < 0));
    lemma_steps_add(c, m, 1, 1);
    let m2 = holding(m1, Datum::Bit(x < 0));
    run_at(c, m2);
    lemma_steps_add(c, m, 2, 1);
    let m3 = at(m2, p + 3);
    run_at(c, m3);
    lemma_steps_add(c, m, 3, 1);
    let m4 = at(m3, p + 4);
    run_one(c, m4, Datum::Slot(p + 4));
    moved_holding(p, m4, Datum::Slot(p + 4));
    lemma_steps_add(c, m, 4, 1);
    let m5 = holding(m4, Datum::Slot(p + 4));
    run_store(c, m5, (p + 4) as usize, v.at, p);
    lemma_steps_add(c, m, 5, 1);
    let m6 = steps(c, m, 6);
    moved_then(p, p, m, m1, m2, p + 1, p + 2);
    moved_at(p, m2, p + 3);
    moved_then(p, p, m, m2, m3, p + 2, p + 3);
    moved_at(p, m3, p + 4);
    moved_then(p, p, m, m3, m4, p + 3, p + 4);
    moved_then(p, p, m, m4, m5, p + 4, p + 5);
    moved_then(p, p, m, m5, m6, p + 5, p + 6);
    assert(reg(top(m6), v.at) == Datum::Word(x));
    assert(reg(top(m6), p as usize) == Datum::Word(0));
    assert(reg(top(m6), (p + 1) as usize) == Datum::Bit(x < 0));
    assert(slot(top(m6).slots, p + 4, 0) == Datum::Word(x));
    let (k, m8) = if x < 0 {
        run_to(c, m6, (p + 2) as usize, p + 7);
        lemma_steps_add(c, m, 6, 1);
        let a = at(m6, p + 7);
        run_at(c, a);
        lemma_steps_add(c, m, 7, 1);
        let b = at(a, p + 8);
        moved_at(p, m6, p + 7);
        moved_at(p, a, p + 8);
        moved_then(p, p, m, m6, a, p + 6, p + 7);
        moved_then(p, p, m, a, b, p + 7, p + 8);
        let j = run_checked(c, w6, b, CheckedOp::Sub, zero, v, 0, x);
        lemma_steps_add(c, m, 8, j);
        let d = steps(c, b, j);
        assert(moved(p + 8, b, d, l));
        moved_then(p, p + 8, m, b, d, p + 8, l);
        run_store(c, d, (p + 4) as usize, opposite.at, p);
        lemma_steps_add(c, m, 8 + j, 1);
        let e = steps(c, d, 1);
        moved_then(p, p, m, d, e, l, l + 1);
        run_to(c, e, (p + 3) as usize, l + 2);
        lemma_steps_add(c, m, 9 + j, 1);
        let g = at(e, l + 2);
        moved_at(p, e, l + 2);
        moved_then(p, p, m, e, g, l + 1, l + 2);
        assert(slot(top(g).slots, p + 4, 0) == Datum::Word((-x) as i128));
        (10 + j, g)
    } else {
        run_to(c, m6, (p + 3) as usize, l + 2);
        lemma_steps_add(c, m, 6, 1);
        let g = at(m6, l + 2);
        moved_at(p, m6, l + 2);
        moved_then(p, p, m, m6, g, p + 6, l + 2);
        (7nat, g)
    };
    assert(steps(c, m, k) == m8);
    run_at(c, m8);
    lemma_steps_add(c, m, k, 1);
    let m9 = at(m8, l + 3);
    moved_at(p, m8, l + 3);
    moved_then(p, p, m, m8, m9, l + 2, l + 3);
    let out = slot(top(m9).slots, p + 4, 0);
    run_one(c, m9, out);
    moved_holding(p, m9, out);
    lemma_steps_add(c, m, k + 1, 1);
    let m10 = holding(m9, out);
    moved_then(p, p, m, m9, m10, l + 3, l + 4);
    k + 2
}

/// A power that fits has all its smaller ones fit.
pub(crate) proof fn lemma_powers_fit(x: int, k: nat, n: nat)
    requires
        k <= n,
        fits(x),
        fits(pow(x, n)),
    ensures
        fits(pow(x, k)),
{
    if x == 0 {
        if k > 0 {
            lemma0_pow(k);
        } else {
            lemma_pow0(0);
        }
    } else if x == 1 {
        lemma1_pow(k);
    } else if x == -1 {
        crate::eval::numeric::lemma_minus_one(k);
    } else if !fits(pow(x, k)) {
        crate::eval::numeric::lemma_pow_outgrows(x, k, n);
    }
}

/// The code of a power, from its test on.
pub open spec fn power_code(code: Seq<Inst>, q: int, l: int, base: usize, exp: usize, next: usize) -> bool {
    &&& 0 <= q && q + 16 <= l && l + 7 <= code.len() <= usize::MAX
    &&& code[q + 6] == Inst::Block
    &&& code[q + 7] == Inst::Block
    &&& code[q + 8] == Inst::Block
    &&& code[q + 10] == Inst::At((q + 6) as usize)
    &&& code[q + 11] == (Inst::Load { kind: Kind::Word, from: (q + 1) as usize })
    &&& code[q + 12] == (Inst::Relate { relation: Relation::Less, kind: Kind::Word, lhs: (q + 11) as usize, rhs: exp })
    &&& code[q + 13] == (Inst::Fork { test: (q + 12) as usize, yes: (q + 7) as usize, no: (q + 8) as usize })
    &&& code[q + 14] == Inst::At((q + 7) as usize)
    &&& code[q + 15] == (Inst::Load { kind: Kind::Word, from: q as usize })
    &&& code[l] == (Inst::Store { into: q as usize, value: next })
    &&& code[l + 1] == (Inst::Load { kind: Kind::Word, from: (q + 1) as usize })
    &&& code[l + 2] == Inst::Plus((l + 1) as usize, (q + 2) as usize)
    &&& code[l + 3] == (Inst::Store { into: (q + 1) as usize, value: (l + 2) as usize })
    &&& code[l + 4] == Inst::Jump((q + 6) as usize)
    &&& code[l + 5] == Inst::At((q + 8) as usize)
    &&& code[l + 6] == (Inst::Load { kind: Kind::Word, from: q as usize })
}

/// The times a power still goes round.
#[verifier::spinoff_prover]
#[verifier::rlimit(40)]
proof fn run_rounds(
    c: CompiledView,
    w13: WorkView,
    m: Machine,
    q: int,
    l: int,
    base: Operand,
    exp: Operand,
    x: i128,
    y: i128,
    k: nat,
) -> (n: nat)
    requires
        sound(c),
        w13.open,
        w13.code.len() == q + 16,
        ({
            let cur = Operand { at: (q + 15) as usize, kind: Kind::Word };
            let (w14, next) = checked_made(w13, CheckedOp::Mul, cur, base);
            &&& sees(c, w14)
            &&& w14.code.len() == l
            &&& power_code(c.main.code, q, l, base.at, exp.at, next.at)
        }),
        base.kind == Kind::Word,
        base.at < q,
        exp.at < q,
        running(m),
        top(m).pc == q + 10,
        reg(top(m), base.at) == Datum::Word(x),
        reg(top(m), exp.at) == Datum::Word(y),
        reg(top(m), (q + 2) as usize) == Datum::Word(1),
        k <= y,
        y <= u32::MAX,
        fits(pow(x as int, y as nat)),
        slot(top(m).slots, q, 0) == Datum::Word(pow(x as int, k) as i128),
        slot(top(m).slots, q + 1, 0) == Datum::Word(k as i128),
    ensures
        ({
            let m1 = steps(c, m, n);
            &&& moved(q, m, m1, l + 7)
            &&& reg(top(m1), (l + 6) as usize) == Datum::Word(pow(x as int, y as nat) as i128)
        }),
    decreases y - k,
{
    let cur = Operand { at: (q + 15) as usize, kind: Kind::Word };
    let (w14, next) = checked_made(w13, CheckedOp::Mul, cur, base);
    lemma_checked_quiet(w13, CheckedOp::Mul, cur, base);
    let done = (q + 8) as usize;
    run_at(c, m);
    let m1 = at(m, q + 11);
    moved_at(q, m, q + 11);
    let kk = Datum::Word(k as i128);
    run_one(c, m1, kk);
    moved_holding(q, m1, kk);
    lemma_steps_add(c, m, 1, 1);
    let m2 = holding(m1, kk);
    let more = Datum::Bit(k < y);
    run_one(c, m2, more);
    moved_holding(q, m2, more);
    lemma_steps_add(c, m, 2, 1);
    let m3 = holding(m2, more);
    moved_then(q, q, m, m1, m2, q + 11, q + 12);
    moved_then(q, q, m, m2, m3, q + 12, q + 13);
    lemma_powers_fit(x as int, k, y as nat);
    let acc = pow(x as int, k);
    if k < y {
        run_to(c, m3, (q + 7) as usize, q + 14);
        lemma_steps_add(c, m, 3, 1);
        let m4 = at(m3, q + 14);
        moved_at(q, m3, q + 14);
        run_at(c, m4);
        lemma_steps_add(c, m, 4, 1);
        let m5 = at(m4, q + 15);
        moved_at(q, m4, q + 15);
        moved_then(q, q, m, m3, m4, q + 13, q + 14);
        moved_then(q, q, m, m4, m5, q + 14, q + 15);
        let av = Datum::Word(acc as i128);
        run_one(c, m5, av);
        moved_holding(q, m5, av);
        lemma_steps_add(c, m, 5, 1);
        let m6 = holding(m5, av);
        moved_then(q, q, m, m5, m6, q + 15, q + 16);
        assert(reg(top(m6), base.at) == Datum::Word(x));
        lemma_powers_fit(x as int, k + 1, y as nat);
        lemma_pow_adds(x as int, k, 1);
        lemma_pow1(x as int);
        assert(acc * x == pow(x as int, k + 1));
        let j = run_checked(c, w13, m6, CheckedOp::Mul, cur, base, acc as i128, x);
        let m7 = steps(c, m6, j);
        lemma_steps_add(c, m, 6, j);
        assert(moved(q + 16, m6, m7, l));
        moved_then(q, q + 16, m, m6, m7, q + 16, l);
        assert(reg(top(m7), (q + 2) as usize) == reg(top(m6), (q + 2) as usize));
        assert(slot(top(m7).slots, q + 1, 0) == slot(top(m6).slots, q + 1, 0));
        run_store(c, m7, q as usize, next.at, q);
        lemma_steps_add(c, m, 6 + j, 1);
        let m8 = steps(c, m7, 1);
        moved_then(q, q, m, m7, m8, l, l + 1);
        assert(slot(top(m8).slots, q + 1, 0) == kk);
        run_one(c, m8, kk);
        moved_holding(q, m8, kk);
        lemma_steps_add(c, m, 7 + j, 1);
        let m9 = holding(m8, kk);
        moved_then(q, q, m, m8, m9, l + 1, l + 2);
        let up = Datum::Word((k + 1) as i128);
        assert(reg(top(m9), (q + 2) as usize) == Datum::Word(1));
        run_one(c, m9, up);
        moved_holding(q, m9, up);
        lemma_steps_add(c, m, 8 + j, 1);
        let m10 = holding(m9, up);
        moved_then(q, q, m, m9, m10, l + 2, l + 3);
        run_store(c, m10, (q + 1) as usize, (l + 2) as usize, q);
        lemma_steps_add(c, m, 9 + j, 1);
        let m11 = steps(c, m10, 1);
        moved_then(q, q, m, m10, m11, l + 3, l + 4);
        run_to(c, m11, (q + 6) as usize, q + 10);
        lemma_steps_add(c, m, 10 + j, 1);
        let m12 = at(m11, q + 10);
        moved_at(q, m11, q + 10);
        moved_then(q, q, m, m11, m12, l + 4, q + 10);
        assert(slot(top(m12).slots, q, 0) == Datum::Word(pow(x as int, k + 1) as i128));
        let r = run_rounds(c, w13, m12, q, l, base, exp, x, y, k + 1);
        lemma_steps_add(c, m, 11 + j, r);
        moved_then(q, q, m, m12, steps(c, m12, r), q + 10, l + 7);
        11 + j + r
    } else {
        run_to(c, m3, done, l + 5);
        lemma_steps_add(c, m, 3, 1);
        let m4 = at(m3, l + 5);
        moved_at(q, m3, l + 5);
        run_at(c, m4);
        lemma_steps_add(c, m, 4, 1);
        let m5 = at(m4, l + 6);
        moved_at(q, m4, l + 6);
        moved_then(q, q, m, m3, m4, q + 13, l + 5);
        moved_then(q, q, m, m4, m5, l + 5, l + 6);
        let av = Datum::Word(acc as i128);
        run_one(c, m5, av);
        moved_holding(q, m5, av);
        lemma_steps_add(c, m, 5, 1);
        moved_then(q, q, m, m5, holding(m5, av), l + 6, l + 7);
        6
    }
}

/// An exponent in range passes.
#[verifier::spinoff_prover]
#[verifier::rlimit(30)]
proof fn run_exponent(c: CompiledView, w: WorkView, m: Machine, exp: Operand, y: i128) -> (n: nat)
    requires
        sound(c),
        sees(c, exponent_checked(w, exp)),
        stands(w, m),
        exp.kind == Kind::Word,
        exp.at < w.code.len(),
        reg(top(m), exp.at) == Datum::Word(y),
        0 <= y <= u32::MAX,
    ensures
        ran(w, exponent_checked(w, exp), m, steps(c, m, n)),
{
    exponent_quiet(w, exp);
    let wf = exponent_checked(w, exp);
    let w5 = exponent_asked(w, exp);
    let p = w.code.len() as int;
    let bad = (p + 5) as usize;
    let ok = (p + 6) as usize;
    let w7 = put(put(w5, Inst::Block), Inst::Block);
    let fork = Inst::Fork { test: (p + 4) as usize, yes: bad, no: ok };
    let w8 = put(put(w7, fork), Inst::At(bad));
    let f = failing(w8, "AHPCL-PREC-0004"@, "this exponent is out of range"@);
    lemma_failing(w8, "AHPCL-PREC-0004"@, "this exponent is out of range"@);
    assert(wf == put(f, Inst::At(ok))) by {
        reveal(exponent_checked);
        reveal(related);
        reveal(forked);
    }
    let j = f.code.len() as int;
    let code = c.main.code;
    lemma_sees_put(c, f, Inst::At(ok));
    assert(wf.code[j] == Inst::At(ok));
    assert(code[j] == Inst::At(ok));
    lemma_extended_then(w8.code, f.code, code);
    assert forall|k: int| p <= k < p + 9 implies #[trigger] code[k] == w8.code[k] by {}
    assert(code[p] == Inst::Word(0) && code[p + 1] == Inst::Word(0xffff_ffff) && code[p + 4] == Inst::Or(
        (p + 2) as usize,
        (p + 3) as usize,
    ) && code[p + 5] == Inst::Block && code[p + 6] == Inst::Block && code[p + 7] == fork);
    assert(code[p + 2] == (Inst::Relate { relation: Relation::Less, kind: Kind::Word, lhs: exp.at, rhs: p as usize }));
    assert(code[p + 3] == (Inst::Relate {
        relation: Relation::Greater,
        kind: Kind::Word,
        lhs: exp.at,
        rhs: (p + 1) as usize,
    }));
    let no = Datum::Bit(false);
    run_one(c, m, Datum::Word(0));
    moved_holding(p, m, Datum::Word(0));
    let m1 = holding(m, Datum::Word(0));
    let most = Datum::Word(0xffff_ffff);
    run_one(c, m1, most);
    moved_holding(p, m1, most);
    lemma_steps_add(c, m, 1, 1);
    let m2 = holding(m1, most);
    run_one(c, m2, no);
    moved_holding(p, m2, no);
    lemma_steps_add(c, m, 2, 1);
    let m3 = holding(m2, no);
    run_one(c, m3, no);
    moved_holding(p, m3, no);
    lemma_steps_add(c, m, 3, 1);
    let m4 = holding(m3, no);
    run_one(c, m4, no);
    moved_holding(p, m4, no);
    lemma_steps_add(c, m, 4, 1);
    let m5 = holding(m4, no);
    run_at(c, m5);
    lemma_steps_add(c, m, 5, 1);
    let m6 = at(m5, p + 6);
    run_at(c, m6);
    lemma_steps_add(c, m, 6, 1);
    let m7 = at(m6, p + 7);
    run_to(c, m7, ok, j);
    lemma_steps_add(c, m, 7, 1);
    let m8 = at(m7, j);
    run_at(c, m8);
    lemma_steps_add(c, m, 8, 1);
    let m9 = at(m8, j + 1);
    moved_then(p, p, m, m1, m2, p + 1, p + 2);
    moved_then(p, p, m, m2, m3, p + 2, p + 3);
    moved_then(p, p, m, m3, m4, p + 3, p + 4);
    moved_then(p, p, m, m4, m5, p + 4, p + 5);
    assert(moved(p, m5, m9, j + 1));
    moved_then(p, p, m, m5, m9, p + 5, j + 1);
    9
}

#[verifier::spinoff_prover]
#[verifier::rlimit(30)]
pub(crate) proof fn run_power(c: CompiledView, w: WorkView, m: Machine, base: Operand, exp: Operand, x: i128, y: i128) -> (n: nat)
    requires
        sound(c),
        sees(c, power_made(w, base, exp).0),
        stands(w, m),
        base.kind == Kind::Word,
        exp.kind == Kind::Word,
        base.at < w.code.len(),
        exp.at < w.code.len(),
        reg(top(m), base.at) == Datum::Word(x),
        reg(top(m), exp.at) == Datum::Word(y),
        0 <= y <= u32::MAX,
        fits(pow(x as int, y as nat)),
    ensures
        ({
            let (w1, r) = power_made(w, base, exp);
            let m1 = steps(c, m, n);
            &&& ran(w, w1, m, m1)
            &&& r.kind == Kind::Word
            &&& r.at < w1.code.len()
            &&& reg(top(m1), r.at) == Datum::Word(pow(x as int, y as nat) as i128)
        }),
{
    power_quiet(w, base, exp);
    exponent_quiet(w, exp);
    let (wf, r) = power_made(w, base, exp);
    let we = exponent_checked(w, exp);
    let q = we.code.len() as int;
    let w12 = power_entered(we, exp);
    let w13 = put(w12, Inst::Load { kind: Kind::Word, from: q as usize });
    let cur = Operand { at: (q + 15) as usize, kind: Kind::Word };
    let (w14, next) = checked_made(w13, CheckedOp::Mul, cur, base);
    lemma_checked_quiet(w13, CheckedOp::Mul, cur, base);
    let l = w14.code.len() as int;
    let w15 = put(w14, Inst::Store { into: q as usize, value: next.at });
    let w16 = put(w15, Inst::Load { kind: Kind::Word, from: (q + 1) as usize });
    let w17 = put(w16, Inst::Plus((l + 1) as usize, (q + 2) as usize));
    let w18 = put(w17, Inst::Store { into: (q + 1) as usize, value: (l + 2) as usize });
    let w19 = put(put(w18, Inst::Jump((q + 6) as usize)), Inst::At((q + 8) as usize));
    assert(wf == put(w19, Inst::Load { kind: Kind::Word, from: q as usize })) by {
        reveal(stored);
        reveal(forked);
        reveal(related);
    }
    assert(extended(w14.code, wf.code) && w14.texts == wf.texts);
    lemma_extended_then(w14.code, wf.code, c.main.code);
    assert(sees(c, w14));
    lemma_sees_before(c, w13, w14);
    lemma_extended_then(we.code, w13.code, c.main.code);
    assert(sees(c, we));
    let code = c.main.code;
    assert forall|k: int| q <= k < q + 16 implies #[trigger] code[k] == w13.code[k] by {}
    assert forall|k: int| l <= k < l + 7 implies #[trigger] code[k] == wf.code[k] by {}
    assert(power_code(code, q, l, base.at, exp.at, next.at));
    assert(code[q] == Inst::Slot(Kind::Word) && code[q + 1] == Inst::Slot(Kind::Word) && code[q + 2] == Inst::Word(1)
        && code[q + 3] == Inst::Word(0));
    assert(code[q + 4] == (Inst::Store { into: q as usize, value: (q + 2) as usize }));
    assert(code[q + 5] == (Inst::Store { into: (q + 1) as usize, value: (q + 3) as usize }));
    assert(code[q + 9] == Inst::Jump((q + 6) as usize));
    let n0 = run_exponent(c, w, m, exp, y);
    let m0 = steps(c, m, n0);
    let p = w.code.len() as int;
    run_one(c, m0, Datum::Slot(q));
    moved_holding(q, m0, Datum::Slot(q));
    let m1 = holding(m0, Datum::Slot(q));
    run_one(c, m1, Datum::Slot(q + 1));
    moved_holding(q, m1, Datum::Slot(q + 1));
    lemma_steps_add(c, m0, 1, 1);
    let m2 = holding(m1, Datum::Slot(q + 1));
    run_one(c, m2, Datum::Word(1));
    moved_holding(q, m2, Datum::Word(1));
    lemma_steps_add(c, m0, 2, 1);
    let m3 = holding(m2, Datum::Word(1));
    run_one(c, m3, Datum::Word(0));
    moved_holding(q, m3, Datum::Word(0));
    lemma_steps_add(c, m0, 3, 1);
    let m4 = holding(m3, Datum::Word(0));
    run_store(c, m4, q as usize, (q + 2) as usize, q);
    lemma_steps_add(c, m0, 4, 1);
    let m5 = steps(c, m4, 1);
    run_store(c, m5, (q + 1) as usize, (q + 3) as usize, q);
    lemma_steps_add(c, m0, 5, 1);
    let m6 = steps(c, m5, 1);
    run_at(c, m6);
    lemma_steps_add(c, m0, 6, 1);
    let m7 = at(m6, q + 7);
    run_at(c, m7);
    lemma_steps_add(c, m0, 7, 1);
    let m8 = at(m7, q + 8);
    run_at(c, m8);
    lemma_steps_add(c, m0, 8, 1);
    let m9 = at(m8, q + 9);
    run_to(c, m9, (q + 6) as usize, q + 10);
    lemma_steps_add(c, m0, 9, 1);
    let m10 = at(m9, q + 10);
    moved_then(q, q, m0, m1, m2, q + 1, q + 2);
    moved_then(q, q, m0, m2, m3, q + 2, q + 3);
    moved_then(q, q, m0, m3, m4, q + 3, q + 4);
    moved_then(q, q, m0, m4, m5, q + 4, q + 5);
    moved_then(q, q, m0, m5, m6, q + 5, q + 6);
    assert(moved(q, m6, m10, q + 10));
    moved_then(q, q, m0, m6, m10, q + 6, q + 10);
    lemma_pow0(x as int);
    assert(reg(top(m10), base.at) == reg(top(m0), base.at));
    assert(reg(top(m10), exp.at) == reg(top(m0), exp.at));
    assert(slot(top(m10).slots, q, 0) == Datum::Word(1));
    assert(slot(top(m10).slots, q + 1, 0) == Datum::Word(0));
    let n1 = run_rounds(c, w13, m10, q, l, base, exp, x, y, 0);
    lemma_steps_add(c, m0, 10, n1);
    let m11 = steps(c, m0, 10 + n1);
    moved_then(q, q, m0, m10, m11, q + 10, l + 7);
    lemma_steps_add(c, m, n0, 10 + n1);
    moved_then(p, q, m, m0, m11, q, l + 7);
    n0 + (10 + n1)
}

} // verus!
