//! What lowered code does when it runs.
//!
//! A machine executes one operation at a time. Its runtime is the library's, and every heap
//! value is counted: one that nobody holds is gone, and code that reads it cannot go on.

use vstd::prelude::*;

use crate::codegen::lowering::{CompiledView, FunctionView};
use crate::codegen::runtime::{Kind, Rt};
use crate::codegen::work::{CheckedOp, Inst, Relation};
use crate::eval::numeric::constant_decimal;
use crate::eval::ops::{text_order, AnswerView, RequestView};
use crate::eval::semantics::OutputView;
use crate::eval::value::comma_separated;
use crate::runtime::access::{bool_of, deci_element, rat_element, read_as, row_pushed, sign_of_cell, with_cell};
use crate::runtime::array::{
    cell_text, cell_texts, extent_from, offset_of, out_of_range, run_from, run_selected, unfilled, vector_of,
    vector_outcome, zero_of, too_many, ArrayView, CellView, PickView, KIND_INT,
};
use crate::runtime::exact::{
    constant_tagged, deci_result, decimal_sign, euclidean, failure, fraction_held, held, holding, rat_result,
    rational_sign, stopped, zero_division, AhpclDecimal, AhpclRational, FailureView, HaltView, OP_ADD, OP_DIV,
    OP_MUL, OP_SUB,
};
use crate::runtime::num::{
    bit, cell_arith, cell_unary, compared_arrays, cross_arrays, deci_of, dot_arrays, elementwise, int_of,
    kind_among, num_int, products, rat_of, shape_text, spread_left, spread_right, total_of,
};
use crate::runtime::parse::{deci_read, int_read, rat_read};
use crate::eval::decimal::{decimal_difference, decimal_product, decimal_quotient, decimal_sum, decimal_text};
use crate::eval::rational::rational_text;
use crate::text::{fits, int_text, nat_text};

verus! {

// ── the state ───────────────────────────────────────────────────────────────

/// What a register or a slot holds.
pub enum Datum {
    Nothing,
    Bit(bool),
    Byte(u8),
    Small(int),
    Long(u64),
    Word(i128),
    Deci(AhpclDecimal),
    Rat(AhpclRational),
    /// Text, and the heap value that owns it where one does.
    Text(Seq<char>, Option<nat>),
    Null,
    /// The address of the slots that an operation made.
    Slot(int),
    Chars(Seq<char>),
    Object(nat),
    /// A result, and whether it overflowed.
    Pair(i128, bool),
}

pub enum Boxed {
    Array(ArrayView),
    Num(CellView),
    Text,
}

/// A heap value, and how many hold it.
pub struct Held {
    pub count: int,
    pub value: Boxed,
}

/// How a run ended.
pub enum Ending {
    Finished,
    Failed(FailureView),
    /// It waits for an answer.
    Waiting(RequestView),
    /// The code cannot go on.
    Stuck,
}

pub type Slots = Map<(int, int), Datum>;

/// One call of a function.
pub struct Activation {
    /// Which function; none for the top level.
    pub function: Option<nat>,
    pub pc: int,
    pub regs: Map<int, Datum>,
    pub slots: Slots,
    /// The arguments handed over for the call that follows.
    pub args: Seq<Datum>,
    /// What the function itself was given.
    pub given: Seq<Datum>,
}

pub struct Machine {
    pub calls: Seq<Activation>,
    pub heap: Seq<Option<Held>>,
    pub lines: Seq<Seq<char>>,
    /// What has been printed of the line in hand.
    pub line: Seq<char>,
    pub answers: Seq<AnswerView>,
    pub asked: nat,
    pub end: Option<Ending>,
}

pub open spec fn reg(a: Activation, i: usize) -> Datum {
    if a.regs.dom().contains(i as int) {
        a.regs[i as int]
    } else {
        Datum::Nothing
    }
}

pub open spec fn slot(s: Slots, at: int, index: int) -> Datum {
    if s.dom().contains((at, index)) {
        s[(at, index)]
    } else {
        Datum::Nothing
    }
}

// ── single operations ───────────────────────────────────────────────────────

/// The operation done, with its value.
pub open spec fn gave(a: Activation, v: Datum) -> Option<Activation> {
    Some(Activation { pc: a.pc + 1, regs: a.regs.insert(a.pc, v), ..a })
}

/// The operation done, without one.
pub open spec fn passed(a: Activation) -> Option<Activation> {
    Some(Activation { pc: a.pc + 1, ..a })
}

/// Where a block stands in the code.
pub open spec fn place(code: Seq<Inst>, block: usize) -> int {
    choose|j: int| 0 <= j < code.len() && code[j] == Inst::At(block)
}

pub open spec fn jumped(a: Activation, code: Seq<Inst>, block: usize) -> Option<Activation> {
    Some(Activation { pc: place(code, block), ..a })
}

pub open spec fn as_number(d: Datum) -> Option<int> {
    match d {
        Datum::Word(v) => Some(v as int),
        Datum::Small(v) => Some(v),
        Datum::Byte(v) => Some(v as int),
        _ => None,
    }
}

pub open spec fn holds(relation: Relation, a: int, b: int) -> bool {
    match relation {
        Relation::Equal => a == b,
        Relation::NotEqual => a != b,
        Relation::Less => a < b,
        Relation::Greater => a > b,
        Relation::LessEqual => a <= b,
        Relation::GreaterEqual => a >= b,
    }
}

/// What a checked operation comes to. What it holds where it overflowed is never read.
pub open spec fn checked(op: CheckedOp, a: i128, b: i128) -> Datum {
    let v = match op {
        CheckedOp::Add => a + b,
        CheckedOp::Sub => a - b,
        CheckedOp::Mul => a * b,
    };
    if fits(v) {
        Datum::Pair(v as i128, false)
    } else {
        Datum::Pair(0, true)
    }
}

/// An operation that neither calls nor returns.
pub open spec fn done(a: Activation, code: Seq<Inst>, texts: Seq<Seq<char>>, i: Inst) -> Option<Activation> {
    match i {
        Inst::Param { index, .. } => if index < a.given.len() {
            gave(a, a.given[index as int])
        } else {
            None
        },
        Inst::Bool(b) => gave(a, Datum::Bit(b)),
        Inst::Byte(b) => gave(a, Datum::Byte(b)),
        Inst::Word(v) => gave(a, Datum::Word(v)),
        Inst::Small(v) => gave(a, Datum::Small(v as int)),
        Inst::Long(v) => gave(a, Datum::Long(v)),
        Inst::Deci { mantissa, scale } => gave(a, Datum::Deci(AhpclDecimal { mantissa, scale, failed: 0 })),
        Inst::Rat { num, den } => gave(a, Datum::Rat(AhpclRational { num, den, failed: 0 })),
        Inst::Null => gave(a, Datum::Null),
        Inst::Chars(t) => if t < texts.len() {
            gave(a, Datum::Chars(texts[t as int]))
        } else {
            None
        },
        Inst::Text(t) => if t < texts.len() {
            gave(a, Datum::Text(texts[t as int], None))
        } else {
            None
        },
        Inst::Slot(_) | Inst::Slots { .. } => gave(a, Datum::Slot(a.pc)),
        Inst::Load { from, .. } => gave(a, slot(a.slots, from as int, 0)),
        Inst::Store { into, value } => Some(
            Activation { pc: a.pc + 1, slots: a.slots.insert((into as int, 0), reg(a, value)), ..a },
        ),
        Inst::StoreAt { into, index, value, .. } => Some(
            Activation { pc: a.pc + 1, slots: a.slots.insert((into as int, index as int), reg(a, value)), ..a },
        ),
        Inst::Owner(v) => match reg(a, v) {
            Datum::Text(_, Some(o)) => gave(a, Datum::Object(o)),
            Datum::Text(_, None) => gave(a, Datum::Null),
            _ => None,
        },
        Inst::Not(v) => match reg(a, v) {
            Datum::Bit(x) => gave(a, Datum::Bit(!x)),
            _ => None,
        },
        Inst::And(v, u) => match (reg(a, v), reg(a, u)) {
            (Datum::Bit(x), Datum::Bit(y)) => gave(a, Datum::Bit(x && y)),
            _ => None,
        },
        Inst::Or(v, u) => match (reg(a, v), reg(a, u)) {
            (Datum::Bit(x), Datum::Bit(y)) => gave(a, Datum::Bit(x || y)),
            _ => None,
        },
        Inst::Neg(v) => match reg(a, v) {
            Datum::Word(x) => gave(a, Datum::Word((-x) as i128)),
            _ => None,
        },
        Inst::Plus(v, u) => match (reg(a, v), reg(a, u)) {
            (Datum::Word(x), Datum::Word(y)) => gave(a, Datum::Word((x + y) as i128)),
            _ => None,
        },
        Inst::Select { test, yes, no, .. } => match reg(a, test) {
            Datum::Bit(b) => gave(
                a,
                if b {
                    reg(a, yes)
                } else {
                    reg(a, no)
                },
            ),
            _ => None,
        },
        Inst::Relate { relation, lhs, rhs, .. } => match (as_number(reg(a, lhs)), as_number(reg(a, rhs))) {
            (Some(x), Some(y)) => gave(a, Datum::Bit(holds(relation, x, y))),
            _ => None,
        },
        Inst::Checked { op, lhs, rhs } => match (reg(a, lhs), reg(a, rhs)) {
            (Datum::Word(x), Datum::Word(y)) => gave(a, checked(op, x, y)),
            _ => None,
        },
        Inst::CheckedValue(p) => match reg(a, p) {
            Datum::Pair(v, _) => gave(a, Datum::Word(v)),
            _ => None,
        },
        Inst::Overflowed(p) => match reg(a, p) {
            Datum::Pair(_, o) => gave(a, Datum::Bit(o)),
            _ => None,
        },
        Inst::Widen { kind, value } => match reg(a, value) {
            Datum::Bit(b) => gave(
                a,
                if kind == Kind::Byte {
                    Datum::Byte(if b { 1 } else { 0 })
                } else {
                    Datum::Word(bit(b))
                },
            ),
            _ => None,
        },
        Inst::Arg(v) => Some(Activation { pc: a.pc + 1, args: a.args.push(reg(a, v)), ..a }),
        Inst::Block | Inst::At(_) => passed(a),
        Inst::Jump(b) => jumped(a, code, b),
        Inst::Fork { test, yes, no } => match reg(a, test) {
            Datum::Bit(b) => jumped(
                a,
                code,
                if b {
                    yes
                } else {
                    no
                },
            ),
            _ => None,
        },
        _ => None,
    }
}

// ── the runtime ─────────────────────────────────────────────────────────────

/// What a call into the runtime comes to: the machine and the slots after it, and what it
/// returns; or the end of the run.
pub enum Call {
    Gives(Machine, Slots, Datum),
    Ends(Ending),
}

pub open spec fn word(d: Datum) -> i128 {
    match d {
        Datum::Word(v) => v,
        _ => 0,
    }
}

pub open spec fn small(d: Datum) -> u32 {
    match d {
        Datum::Small(v) => v as u32,
        _ => 0,
    }
}

pub open spec fn long(d: Datum) -> u64 {
    match d {
        Datum::Long(v) => v,
        _ => 0,
    }
}

pub open spec fn truth(d: Datum) -> bool {
    d matches Datum::Byte(v) && v != 0
}

/// What an address leads to.
pub open spec fn at(s: Slots, d: Datum, index: int) -> Datum {
    match d {
        Datum::Slot(i) => slot(s, i, index),
        _ => Datum::Nothing,
    }
}

pub open spec fn deci_at(s: Slots, d: Datum) -> AhpclDecimal {
    match at(s, d, 0) {
        Datum::Deci(v) => v,
        _ => AhpclDecimal { mantissa: 0, scale: 0, failed: 1 },
    }
}

pub open spec fn rat_at(s: Slots, d: Datum) -> AhpclRational {
    match at(s, d, 0) {
        Datum::Rat(v) => v,
        _ => AhpclRational { num: 0, den: 1, failed: 1 },
    }
}

pub open spec fn text_at(s: Slots, d: Datum) -> Seq<char> {
    match at(s, d, 0) {
        Datum::Text(t, _) => t,
        _ => Seq::empty(),
    }
}

/// What is written through the address given first.
pub open spec fn written(m: Machine, s: Slots, d: Datum, v: Datum) -> Call {
    match d {
        Datum::Slot(i) => Call::Gives(m, s.insert((i, 0), v), Datum::Nothing),
        _ => Call::Ends(Ending::Stuck),
    }
}

/// A heap value that somebody holds.
pub open spec fn boxed(m: Machine, d: Datum) -> Option<Boxed> {
    match d {
        Datum::Object(i) => if i < m.heap.len() && m.heap[i as int] is Some {
            Some(m.heap[i as int]->0.value)
        } else {
            None
        },
        _ => None,
    }
}

pub open spec fn array_in(m: Machine, d: Datum) -> Option<ArrayView> {
    match boxed(m, d) {
        Some(Boxed::Array(a)) => Some(a),
        _ => None,
    }
}

pub open spec fn num_in(m: Machine, d: Datum) -> Option<CellView> {
    match boxed(m, d) {
        Some(Boxed::Num(c)) => Some(c),
        _ => None,
    }
}

/// A new heap value, held once.
pub open spec fn placed(m: Machine, b: Boxed) -> Machine {
    Machine { heap: m.heap.push(Some(Held { count: 1, value: b })), ..m }
}

pub open spec fn given_object(m: Machine, s: Slots, b: Boxed) -> Call {
    Call::Gives(placed(m, b), s, Datum::Object(m.heap.len()))
}

/// A heap value replaced by another, held as before.
pub open spec fn replaced(m: Machine, s: Slots, d: Datum, b: Boxed) -> Call {
    match d {
        Datum::Object(i) => if i < m.heap.len() && m.heap[i as int] is Some {
            Call::Gives(
                Machine { heap: m.heap.update(i as int, Some(Held { value: b, ..m.heap[i as int]->0 })), ..m },
                s,
                Datum::Nothing,
            )
        } else {
            Call::Ends(Ending::Stuck)
        },
        _ => Call::Ends(Ending::Stuck),
    }
}

/// A heap value held once more or once less; what nobody holds is gone. A literal text has
/// no owner to count.
pub open spec fn counted_by(m: Machine, s: Slots, d: Datum, by: int) -> Call {
    match d {
        Datum::Null => Call::Gives(m, s, Datum::Nothing),
        Datum::Object(i) => if i < m.heap.len() && m.heap[i as int] is Some {
            let n = m.heap[i as int]->0.count + by;
            Call::Gives(
                Machine {
                    heap: m.heap.update(
                        i as int,
                        if n <= 0 {
                            None
                        } else {
                            Some(Held { count: n, value: m.heap[i as int]->0.value })
                        },
                    ),
                    ..m
                },
                s,
                Datum::Nothing,
            )
        } else {
            Call::Ends(Ending::Stuck)
        },
        _ => Call::Ends(Ending::Stuck),
    }
}

pub open spec fn told(m: Machine, s: Slots, t: Seq<char>) -> Call {
    Call::Gives(Machine { line: m.line + t, ..m }, s, Datum::Nothing)
}

pub open spec fn failed(f: FailureView) -> Call {
    Call::Ends(Ending::Failed(f))
}

/// The next answer, as a decimal.
pub open spec fn answered(m: Machine) -> Option<AhpclDecimal> {
    if m.asked < m.answers.len() {
        match m.answers[m.asked as int] {
            AnswerView::Number(Some(d)) => Some(holding(d)),
            _ => None,
        }
    } else {
        None
    }
}

pub open spec fn after_answer(m: Machine) -> Machine {
    Machine { asked: m.asked + 1, ..m }
}

/// What a computation on tagged values comes to, answered where it asks.
pub open spec fn settled_cell(m: Machine, r: Result<CellView, HaltView>) -> Result<(Machine, CellView), Ending> {
    match r {
        Ok(c) => Ok((m, c)),
        Err(HaltView::Fail(f)) => Err(Ending::Failed(f)),
        Err(HaltView::Ask(q)) => if m.asked >= m.answers.len() {
            Err(Ending::Waiting(q))
        } else {
            match answered(m) {
                Some(d) => Ok((after_answer(m), CellView::Deci(d))),
                None => Err(
                    Ending::Failed(failure("AHPCL-RUN-0001"@, "this result is not a finite number"@)),
                ),
            }
        },
    }
}

pub open spec fn new_num(m: Machine, s: Slots, r: Result<CellView, HaltView>) -> Call {
    match settled_cell(m, r) {
        Ok((m1, c)) => given_object(m1, s, Boxed::Num(c)),
        Err(e) => Call::Ends(e),
    }
}

pub open spec fn new_array(m: Machine, s: Slots, r: Result<ArrayView, HaltView>) -> Call {
    match r {
        Ok(a) => given_object(m, s, Boxed::Array(a)),
        Err(HaltView::Fail(f)) => failed(f),
        Err(HaltView::Ask(q)) => Call::Ends(Ending::Waiting(q)),
    }
}

pub open spec fn new_array_or(m: Machine, s: Slots, r: Result<ArrayView, FailureView>) -> Call {
    match r {
        Ok(a) => given_object(m, s, Boxed::Array(a)),
        Err(f) => failed(f),
    }
}

pub open spec fn deci_written(m: Machine, s: Slots, d: Datum, r: Result<AhpclDecimal, FailureView>) -> Call {
    match r {
        Ok(v) => written(m, s, d, Datum::Deci(v)),
        Err(f) => failed(f),
    }
}

pub open spec fn rat_written(m: Machine, s: Slots, d: Datum, r: Result<AhpclRational, FailureView>) -> Call {
    match r {
        Ok(v) => written(m, s, d, Datum::Rat(v)),
        Err(f) => failed(f),
    }
}

pub open spec fn word_or(m: Machine, s: Slots, r: Result<i128, FailureView>) -> Call {
    match r {
        Ok(v) => Call::Gives(m, s, Datum::Word(v)),
        Err(f) => failed(f),
    }
}

/// The Euclidean quotient of whole numbers.
pub open spec fn whole_division(a: i128, b: i128) -> Result<i128, FailureView> {
    if b == 0 {
        Err(failure("AHPCL-RUN-0002"@, "division by zero."@))
    } else if fits(a as int / b as int) {
        Ok((a as int / b as int) as i128)
    } else {
        Err(failure("AHPCL-PREC-0004"@, "this division overflowed."@))
    }
}

pub open spec fn whole_remainder(a: i128, b: i128) -> Result<i128, FailureView> {
    if b == 0 {
        Err(failure("AHPCL-RUN-0002"@, "remainder by zero."@))
    } else {
        Ok((a as int % b as int) as i128)
    }
}

/// The runtime on decimals, rationals, whole numbers and texts.
pub open spec fn exact_call(m: Machine, s: Slots, f: Rt, a: Seq<Datum>) -> Call {
    match f {
        Rt::DeciAdd => deci_written(m, s, a[0], stopped(decimal_sum(held(deci_at(s, a[1])), held(deci_at(s, a[2]))))),
        Rt::DeciSub => deci_written(
            m,
            s,
            a[0],
            stopped(decimal_difference(held(deci_at(s, a[1])), held(deci_at(s, a[2])))),
        ),
        Rt::DeciMul => deci_written(
            m,
            s,
            a[0],
            stopped(decimal_product(held(deci_at(s, a[1])), held(deci_at(s, a[2])))),
        ),
        Rt::DeciDiv => deci_written(
            m,
            s,
            a[0],
            if deci_at(s, a[2]).mantissa == 0 {
                Err(zero_division())
            } else {
                stopped(decimal_quotient(held(deci_at(s, a[1])), held(deci_at(s, a[2])), small(a[3]) as nat))
            },
        ),
        Rt::DeciBinary => match settled_cell(
            m,
            match deci_result(small(a[1]), held(deci_at(s, a[2])), held(deci_at(s, a[3]))) {
                Ok(d) => Ok(CellView::Deci(d)),
                Err(h) => Err(h),
            },
        ) {
            Ok((m1, c)) => written(m1, s, a[0], Datum::Deci(deci_of(c))),
            Err(e) => Call::Ends(e),
        },
        Rt::DeciIntDiv => match euclidean(held(deci_at(s, a[0])), held(deci_at(s, a[1])), false) {
            Ok(q) => Call::Gives(m, s, Datum::Word(q.mantissa)),
            Err(HaltView::Fail(x)) => failed(x),
            Err(HaltView::Ask(q)) => Call::Ends(Ending::Waiting(q)),
        },
        Rt::DeciUnary => match settled_cell(
            m,
            cell_unary(small(a[1]), CellView::Deci(deci_at(s, a[2])), small(a[3])),
        ) {
            Ok((m1, c)) => written(m1, s, a[0], Datum::Deci(deci_of(c))),
            Err(e) => Call::Ends(e),
        },
        Rt::RatUnary => match settled_cell(
            m,
            cell_unary(small(a[1]), CellView::Rat(rat_at(s, a[2])), small(a[3])),
        ) {
            Ok((m1, c)) => written(m1, s, a[0], Datum::Rat(rat_of(c))),
            Err(e) => Call::Ends(e),
        },
        Rt::RatBinary => rat_written(
            m,
            s,
            a[0],
            rat_result(small(a[1]), fraction_held(rat_at(s, a[2])), fraction_held(rat_at(s, a[3]))),
        ),
        Rt::RatAdd | Rt::RatSub | Rt::RatMul | Rt::RatDiv => rat_written(
            m,
            s,
            a[0],
            rat_result(
                match f {
                    Rt::RatAdd => OP_ADD,
                    Rt::RatSub => OP_SUB,
                    Rt::RatMul => OP_MUL,
                    _ => OP_DIV,
                },
                fraction_held(rat_at(s, a[1])),
                fraction_held(rat_at(s, a[2])),
            ),
        ),
        Rt::Constant => deci_written(
            m,
            s,
            a[0],
            if small(a[2]) > 36 {
                Err(
                    failure(
                        "AHPCL-PREC-0004"@,
                        "AHPCL knows this constant to 36 decimal places; "@ + nat_text(small(a[2]) as nat)
                            + " were asked for"@,
                    ),
                )
            } else {
                let d = constant_decimal(constant_tagged(small(a[1])), small(a[2]));
                Ok(AhpclDecimal { mantissa: d.mantissa, scale: d.scale, failed: 0 })
            },
        ),
        Rt::DeciFromInt => written(
            m,
            s,
            a[0],
            Datum::Deci(AhpclDecimal { mantissa: word(a[1]), scale: 0, failed: 0 }),
        ),
        Rt::RatFromInt => written(m, s, a[0], Datum::Rat(AhpclRational { num: word(a[1]), den: 1, failed: 0 })),
        Rt::DeciOrder => Call::Gives(
            m,
            s,
            Datum::Small(decimal_sign(held(deci_at(s, a[0])), held(deci_at(s, a[1])))),
        ),
        Rt::RatOrder => Call::Gives(
            m,
            s,
            Datum::Small(rational_sign(fraction_held(rat_at(s, a[0])), fraction_held(rat_at(s, a[1])))),
        ),
        Rt::StrOrder => Call::Gives(m, s, Datum::Small(text_order(text_at(s, a[0]), text_at(s, a[1])))),
        Rt::IntDiv => word_or(m, s, whole_division(word(a[0]), word(a[1]))),
        Rt::IntMod => word_or(m, s, whole_remainder(word(a[0]), word(a[1]))),
        Rt::ParseInt => word_or(m, s, int_read(text_at(s, a[0]), long(a[1]), text_at(s, a[2]), text_at(s, a[3]))),
        Rt::ParseDeci => deci_written(
            m,
            s,
            a[0],
            deci_read(text_at(s, a[1]), long(a[2]), text_at(s, a[3]), text_at(s, a[4])),
        ),
        Rt::ParseRat => rat_written(
            m,
            s,
            a[0],
            rat_read(text_at(s, a[1]), long(a[2]), text_at(s, a[3]), text_at(s, a[4])),
        ),
        _ => Call::Ends(Ending::Stuck),
    }
}

/// The runtime's dealings with the world outside: printing, reading, the clock, stopping.
pub open spec fn outside_call(m: Machine, s: Slots, f: Rt, a: Seq<Datum>) -> Call {
    match f {
        Rt::PrintRat => told(m, s, rational_text(fraction_held(rat_at(s, a[0])))),
        Rt::PrintText => told(m, s, text_at(s, a[0])),
        Rt::PrintDeci => told(m, s, decimal_text(held(deci_at(s, a[0])))),
        Rt::PrintInt => told(m, s, int_text(word(a[0]) as int)),
        Rt::PrintBool => told(
            m,
            s,
            if truth(a[0]) {
                "true"@
            } else {
                "false"@
            },
        ),
        Rt::PrintStr => match a[0] {
            Datum::Chars(t) => told(m, s, t),
            _ => Call::Ends(Ending::Stuck),
        },
        Rt::PrintNum => match num_in(m, a[0]) {
            Some(c) => told(m, s, cell_text(c)),
            None => Call::Ends(Ending::Stuck),
        },
        Rt::PrintArray => match array_in(m, a[0]) {
            Some(x) => told(m, s, "{"@ + comma_separated(cell_texts(x.items)) + "}"@),
            None => Call::Ends(Ending::Stuck),
        },
        Rt::PrintNewline => Call::Gives(
            Machine { lines: m.lines.push(m.line), line: Seq::empty(), ..m },
            s,
            Datum::Nothing,
        ),
        Rt::Clock => if m.asked >= m.answers.len() {
            Call::Ends(Ending::Waiting(RequestView::Clock))
        } else {
            match answered(m) {
                Some(d) => written(after_answer(m), s, a[0], Datum::Deci(d)),
                None => written(
                    after_answer(m),
                    s,
                    a[0],
                    Datum::Deci(AhpclDecimal { mantissa: 0, scale: 0, failed: 0 }),
                ),
            }
        },
        Rt::ReadFile => if m.asked >= m.answers.len() {
            Call::Ends(Ending::Waiting(RequestView::Read { path: text_at(s, a[1]) }))
        } else {
            match m.answers[m.asked as int] {
                AnswerView::Text(t) => {
                    let m1 = after_answer(m);
                    written(placed(m1, Boxed::Text), s, a[0], Datum::Text(t, Some(m1.heap.len())))
                },
                AnswerView::Unreadable(why) => failed(
                    failure("AHPCL-RUN-0001"@, text_at(s, a[1]) + " could not be read — "@ + why),
                ),
                AnswerView::Number(_) => Call::Ends(Ending::Stuck),
            }
        },
        Rt::Fail => match (a[0], a[1]) {
            (Datum::Chars(code), Datum::Chars(message)) => failed(failure(code, message)),
            _ => Call::Ends(Ending::Stuck),
        },
        _ => Call::Ends(Ending::Stuck),
    }
}

/// The runtime on tagged values.
pub open spec fn num_call(m: Machine, s: Slots, f: Rt, a: Seq<Datum>) -> Call {
    match f {
        Rt::NumFromInt => given_object(m, s, Boxed::Num(CellView::Int(word(a[0])))),
        Rt::NumFromBool => given_object(m, s, Boxed::Num(CellView::Bool(truth(a[0])))),
        Rt::NumFromDeci => given_object(m, s, Boxed::Num(CellView::Deci(deci_at(s, a[0])))),
        Rt::NumFromRat => given_object(m, s, Boxed::Num(CellView::Rat(rat_at(s, a[0])))),
        Rt::NumBinary => match (num_in(m, a[1]), num_in(m, a[2])) {
            (Some(x), Some(y)) => new_num(m, s, cell_arith(small(a[0]), x, y)),
            _ => Call::Ends(Ending::Stuck),
        },
        Rt::NumUnary => match num_in(m, a[1]) {
            Some(x) => new_num(m, s, cell_unary(small(a[0]), x, small(a[2]))),
            None => Call::Ends(Ending::Stuck),
        },
        Rt::NumOrder => match (num_in(m, a[0]), num_in(m, a[1])) {
            (Some(x), Some(y)) => match cell_arith(OP_SUB, x, y) {
                Ok(c) => Call::Gives(m, s, Datum::Small(sign_of_cell(c))),
                Err(HaltView::Fail(e)) => failed(e),
                Err(HaltView::Ask(q)) => Call::Ends(Ending::Waiting(q)),
            },
            _ => Call::Ends(Ending::Stuck),
        },
        Rt::NumToInt => match num_in(m, a[0]) {
            Some(c) => Call::Gives(m, s, Datum::Word(num_int(c) as i128)),
            None => Call::Ends(Ending::Stuck),
        },
        Rt::NumToDeci => match num_in(m, a[1]) {
            Some(c) => written(m, s, a[0], Datum::Deci(deci_of(c))),
            None => Call::Ends(Ending::Stuck),
        },
        Rt::NumToRat => match num_in(m, a[1]) {
            Some(c) => written(m, s, a[0], Datum::Rat(rat_of(c))),
            None => Call::Ends(Ending::Stuck),
        },
        Rt::ArrayRetain | Rt::NumRetain | Rt::StrRetain => counted_by(m, s, a[0], 1),
        Rt::ArrayRelease | Rt::NumRelease | Rt::StrRelease => counted_by(m, s, a[0], -1),
        _ => Call::Ends(Ending::Stuck),
    }
}

/// The elements of an array under a unary operator, the first `n` of them, each answered
/// where it asks.
pub open spec fn each_settled(m: Machine, op: u32, items: Seq<CellView>, digits: u32, n: nat) -> Result<
    (Machine, Seq<CellView>),
    Ending,
>
    decreases n,
{
    if n == 0 {
        Ok((m, Seq::empty()))
    } else {
        match each_settled(m, op, items, digits, (n - 1) as nat) {
            Err(e) => Err(e),
            Ok((m1, done)) => match settled_cell(m1, cell_unary(op, items[n - 1], digits)) {
                Ok((m2, c)) => Ok((m2, done.push(c))),
                Err(e) => Err(e),
            },
        }
    }
}

/// The dimensions of a new array, as they lie behind an address.
pub open spec fn dims_at(s: Slots, d: Datum, n: nat) -> Seq<u64> {
    Seq::new(n, |i: int| long(at(s, d, i)))
}

pub open spec fn words_at(s: Slots, d: Datum, n: nat) -> Seq<i128> {
    Seq::new(n, |i: int| word(at(s, d, i)))
}

pub open spec fn zeros(kind: u32, dims: Seq<u64>) -> ArrayView {
    if dims.len() == 0 {
        vector_of(Seq::empty(), kind)
    } else {
        ArrayView { items: Seq::new(extent_from(dims, 0), |i: int| zero_of(kind)), shape: dims, kind }
    }
}

/// The selector that the lists describe at a position.
pub open spec fn described_pick(s: Slots, a: Seq<Datum>, k: int) -> PickView {
    let tag = small(at(s, a[1], k));
    if tag == 1 {
        PickView::Indices(words_at(s, at(s, a[3], k), long(at(s, a[4], k)) as nat))
    } else if tag == 2 {
        PickView::Range {
            from: word(at(s, a[2], k * 3)),
            to: word(at(s, a[2], k * 3 + 1)),
            by: word(at(s, a[2], k * 3 + 2)),
        }
    } else {
        PickView::All
    }
}

/// The run of selectors that the lists describe.
pub open spec fn run_at(s: Slots, a: Seq<Datum>) -> Seq<PickView> {
    Seq::new(word(a[5]) as nat, |k: int| described_pick(s, a, k))
}

pub open spec fn element_set(m: Machine, s: Slots, d: Datum, index: Datum, c: CellView) -> Call {
    match array_in(m, d) {
        Some(x) => if 1 <= word(index) <= x.items.len() {
            replaced(m, s, d, Boxed::Array(with_cell(x, word(index) as int, c)))
        } else {
            failed(out_of_range(word(index) as int, x.items.len()))
        },
        None => Call::Ends(Ending::Stuck),
    }
}

pub open spec fn element_got(m: Machine, s: Slots, d: Datum, index: Datum) -> Result<CellView, Ending> {
    match array_in(m, d) {
        Some(x) => match read_as(x, word(index) as int, |c: CellView| c) {
            Ok(c) => Ok(c),
            Err(f) => Err(Ending::Failed(f)),
        },
        None => Err(Ending::Stuck),
    }
}

pub open spec fn pushed(m: Machine, s: Slots, d: Datum, c: CellView) -> Call {
    match array_in(m, d) {
        Some(x) => replaced(m, s, d, Boxed::Array(vector_of(x.items.push(c), x.kind))),
        None => Call::Ends(Ending::Stuck),
    }
}

/// The runtime on the elements of arrays.
pub open spec fn element_call(m: Machine, s: Slots, f: Rt, a: Seq<Datum>) -> Call {
    match f {
        Rt::ArrayPushInt => pushed(m, s, a[0], CellView::Int(word(a[1]))),
        Rt::ArrayPushBool => pushed(m, s, a[0], CellView::Bool(truth(a[1]))),
        Rt::ArrayPushDeci => pushed(m, s, a[0], CellView::Deci(deci_at(s, a[1]))),
        Rt::ArrayPushRat => pushed(m, s, a[0], CellView::Rat(rat_at(s, a[1]))),
        Rt::ArrayPushStr => pushed(m, s, a[0], CellView::Str(text_at(s, a[1]))),
        Rt::ArrayPushNum => match num_in(m, a[1]) {
            Some(c) => pushed(m, s, a[0], c),
            None => Call::Ends(Ending::Stuck),
        },
        Rt::ArrayPushArray => match (array_in(m, a[0]), array_in(m, a[1])) {
            (Some(x), Some(row)) => replaced(m, s, a[0], Boxed::Array(row_pushed(x, row))),
            _ => Call::Ends(Ending::Stuck),
        },
        Rt::ArraySetInt => element_set(m, s, a[0], a[1], CellView::Int(word(a[2]))),
        Rt::ArraySetBool => element_set(m, s, a[0], a[1], CellView::Bool(truth(a[2]))),
        Rt::ArraySetDeci => element_set(m, s, a[0], a[1], CellView::Deci(deci_at(s, a[2]))),
        Rt::ArraySetRat => element_set(m, s, a[0], a[1], CellView::Rat(rat_at(s, a[2]))),
        Rt::ArraySetStr => element_set(m, s, a[0], a[1], CellView::Str(text_at(s, a[2]))),
        Rt::ArraySetNum => match num_in(m, a[2]) {
            Some(c) => element_set(m, s, a[0], a[1], c),
            None => Call::Ends(Ending::Stuck),
        },
        Rt::ArrayGetInt => match element_got(m, s, a[0], a[1]) {
            Ok(c) => Call::Gives(m, s, Datum::Word(int_of(c))),
            Err(e) => Call::Ends(e),
        },
        Rt::ArrayGetBool => match element_got(m, s, a[0], a[1]) {
            Ok(c) => Call::Gives(m, s, Datum::Byte(if bool_of(c) { 1 } else { 0 })),
            Err(e) => Call::Ends(e),
        },
        Rt::ArrayGetNum => match element_got(m, s, a[0], a[1]) {
            Ok(c) => given_object(m, s, Boxed::Num(c)),
            Err(e) => Call::Ends(e),
        },
        Rt::ArrayGetDeci => match element_got(m, s, a[1], a[2]) {
            Ok(c) => written(m, s, a[0], Datum::Deci(deci_element(c))),
            Err(e) => Call::Ends(e),
        },
        Rt::ArrayGetRat => match element_got(m, s, a[1], a[2]) {
            Ok(c) => written(m, s, a[0], Datum::Rat(rat_element(c))),
            Err(e) => Call::Ends(e),
        },
        Rt::ArrayGetStr => match element_got(m, s, a[1], a[2]) {
            Ok(c) => written(placed(m, Boxed::Text), s, a[0], Datum::Text(cell_text(c), Some(m.heap.len()))),
            Err(e) => Call::Ends(e),
        },
        _ => Call::Ends(Ending::Stuck),
    }
}

/// The runtime on whole arrays.
pub open spec fn array_call(m: Machine, s: Slots, f: Rt, a: Seq<Datum>) -> Call {
    match f {
        Rt::ArrayNew => given_object(
            m,
            s,
            Boxed::Array(zeros(small(a[0]), dims_at(s, a[2], small(a[1]) as nat))),
        ),
        Rt::ArrayEmpty => given_object(m, s, Boxed::Array(vector_of(Seq::empty(), small(a[0])))),
        Rt::ArrayElementwise | Rt::ArrayRelate => match (array_in(m, a[1]), array_in(m, a[2])) {
            (Some(x), Some(y)) => new_array(
                m,
                s,
                if f == Rt::ArrayElementwise {
                    elementwise(small(a[0]), x, y)
                } else {
                    compared_arrays(small(a[0]), x, y)
                },
            ),
            _ => Call::Ends(Ending::Stuck),
        },
        Rt::ArrayHadamard | Rt::ArrayDot | Rt::ArrayCross | Rt::ArrayTensor => match (
            array_in(m, a[0]),
            array_in(m, a[1]),
        ) {
            (Some(x), Some(y)) => new_array(
                m,
                s,
                match f {
                    Rt::ArrayHadamard => if x.shape != y.shape {
                        Err(
                            HaltView::Fail(
                                failure(
                                    "AHPCL-RUN-0002"@,
                                    "elementwise operations need matching shapes, but these are "@ + shape_text(
                                        x.shape,
                                    ) + " and "@ + shape_text(y.shape),
                                ),
                            ),
                        )
                    } else {
                        elementwise(OP_MUL, x, y)
                    },
                    Rt::ArrayDot => dot_arrays(x, y),
                    Rt::ArrayCross => cross_arrays(x.items, y.items),
                    _ => match products(
                        spread_left(x.items, y.items.len()),
                        spread_right(y.items, x.items.len()),
                        x.items.len() * y.items.len(),
                    ) {
                        Ok(items) => Ok(ArrayView { items, shape: x.shape + y.shape, kind: kind_among(items) }),
                        Err(h) => Err(h),
                    },
                },
            ),
            _ => Call::Ends(Ending::Stuck),
        },
        Rt::ArrayUnary => match array_in(m, a[1]) {
            Some(x) => match each_settled(m, small(a[0]), x.items, small(a[2]), x.items.len()) {
                Ok((m1, items)) => given_object(
                    m1,
                    s,
                    Boxed::Array(ArrayView { items, shape: x.shape, kind: kind_among(items) }),
                ),
                Err(e) => Call::Ends(e),
            },
            None => Call::Ends(Ending::Stuck),
        },
        Rt::ArrayLen | Rt::ArrayKind | Rt::ArrayIsScalar | Rt::ArrayShape | Rt::ArraySum | Rt::ArrayOffset
        | Rt::ArraySelectRun | Rt::ArrayRange => match array_in(m, a[0]) {
            None => Call::Ends(Ending::Stuck),
            Some(x) => match f {
                Rt::ArrayLen => Call::Gives(m, s, Datum::Word(x.items.len() as i128)),
                Rt::ArrayKind => Call::Gives(m, s, Datum::Small(x.kind as int)),
                Rt::ArrayIsScalar => Call::Gives(
                    m,
                    s,
                    Datum::Small(
                        if x.shape.len() == 0 {
                            1
                        } else {
                            0
                        },
                    ),
                ),
                Rt::ArrayShape => given_object(
                    m,
                    s,
                    Boxed::Array(
                        vector_of(
                            Seq::new(x.shape.len(), |i: int| CellView::Int(x.shape[i] as i128)),
                            KIND_INT,
                        ),
                    ),
                ),
                Rt::ArraySum => new_num(m, s, total_of(x.items, x.items.len())),
                Rt::ArrayOffset => word_or(m, s, element_offset(x, words_at(s, a[1], word(a[2]) as nat))),
                Rt::ArraySelectRun => new_array_or(m, s, run_selected(x, run_at(s, a))),
                _ => new_array_or(
                    m,
                    s,
                    if word(a[3]) == 0 {
                        Err(failure("AHPCL-RUN-0001"@, "a selector step of 0 would never advance"@))
                    } else {
                        vector_outcome(
                            run_from(x.items, word(a[1]) as int, word(a[2]) as int, word(a[3]) as int, Seq::empty()),
                            x.kind,
                        )
                    },
                ),
            },
        },
        _ => Call::Ends(Ending::Stuck),
    }
}

pub open spec fn element_offset(x: ArrayView, indices: Seq<i128>) -> Result<i128, FailureView> {
    if indices.len() > x.shape.len() {
        Err(too_many(indices.len(), x.shape.len()))
    } else {
        match offset_of(x.shape, indices, indices.len()) {
            Ok(o) => if o < x.items.len() || o == 0 {
                Ok((o + 1) as i128)
            } else {
                Err(unfilled())
            },
            Err(f) => Err(f),
        }
    }
}

/// A call into the runtime. Well-formed code hands over what the callee takes.
#[verifier::opaque]
pub open spec fn runtime_call(m: Machine, s: Slots, f: Rt, a: Seq<Datum>) -> Call {
    match f {
        Rt::DeciAdd | Rt::DeciSub | Rt::DeciMul | Rt::DeciDiv | Rt::DeciBinary | Rt::DeciIntDiv | Rt::DeciUnary
        | Rt::RatUnary | Rt::RatBinary | Rt::RatAdd | Rt::RatSub | Rt::RatMul | Rt::RatDiv | Rt::Constant
        | Rt::DeciFromInt | Rt::RatFromInt | Rt::DeciOrder | Rt::RatOrder | Rt::StrOrder | Rt::IntDiv | Rt::IntMod
        | Rt::ParseInt | Rt::ParseDeci | Rt::ParseRat => exact_call(m, s, f, a),
        Rt::PrintRat | Rt::PrintText | Rt::PrintDeci | Rt::PrintInt | Rt::PrintBool | Rt::PrintStr | Rt::PrintNum
        | Rt::PrintArray | Rt::PrintNewline | Rt::Clock | Rt::ReadFile | Rt::Fail => outside_call(m, s, f, a),
        Rt::NumFromInt | Rt::NumFromBool | Rt::NumFromDeci | Rt::NumFromRat | Rt::NumBinary | Rt::NumUnary
        | Rt::NumOrder | Rt::NumToInt | Rt::NumToDeci | Rt::NumToRat | Rt::ArrayRetain | Rt::NumRetain
        | Rt::StrRetain | Rt::ArrayRelease | Rt::NumRelease | Rt::StrRelease => num_call(m, s, f, a),
        Rt::ArrayPushInt | Rt::ArrayPushBool | Rt::ArrayPushDeci | Rt::ArrayPushRat | Rt::ArrayPushStr
        | Rt::ArrayPushNum | Rt::ArrayPushArray | Rt::ArraySetInt | Rt::ArraySetBool | Rt::ArraySetDeci
        | Rt::ArraySetRat | Rt::ArraySetStr | Rt::ArraySetNum | Rt::ArrayGetInt | Rt::ArrayGetBool
        | Rt::ArrayGetNum | Rt::ArrayGetDeci | Rt::ArrayGetRat | Rt::ArrayGetStr => element_call(m, s, f, a),
        _ => array_call(m, s, f, a),
    }
}

// ── running ─────────────────────────────────────────────────────────────────

pub open spec fn function_of(c: CompiledView, f: Option<nat>) -> FunctionView {
    match f {
        Some(i) => c.functions[i as int],
        None => c.main,
    }
}

pub open spec fn ended(m: Machine, e: Ending) -> Machine {
    Machine { end: Some(e), ..m }
}

pub open spec fn with_top(m: Machine, a: Activation) -> Machine {
    Machine { calls: m.calls.drop_last().push(a), ..m }
}

/// Back from a call, with what it returned.
pub open spec fn returned(m: Machine, v: Datum) -> Machine {
    let back = Machine { calls: m.calls.drop_last(), ..m };
    if back.calls.len() == 0 {
        ended(back, Ending::Finished)
    } else {
        with_top(back, gave(back.calls.last(), v)->0)
    }
}

/// One operation.
#[verifier::opaque]
pub open spec fn stepped(c: CompiledView, m: Machine) -> Machine {
    if m.end is Some || m.calls.len() == 0 {
        m
    } else {
        let a = m.calls.last();
        let f = function_of(c, a.function);
        if a.pc < 0 || a.pc >= f.code.len() {
            ended(m, Ending::Stuck)
        } else {
            match f.code[a.pc] {
                Inst::CallRt(rt) => match runtime_call(m, a.slots, rt, a.args) {
                    Call::Gives(m1, slots, v) => with_top(
                        m1,
                        gave(Activation { slots, args: Seq::empty(), ..a }, v)->0,
                    ),
                    Call::Ends(e) => ended(m, e),
                },
                Inst::CallFn { index, .. } => if index < c.functions.len() {
                    let caller = Activation { args: Seq::empty(), ..a };
                    let callee = Activation {
                        function: Some(index as nat),
                        pc: 0,
                        regs: Map::empty(),
                        slots: Map::empty(),
                        args: Seq::empty(),
                        given: a.args,
                    };
                    Machine { calls: m.calls.drop_last().push(caller).push(callee), ..m }
                } else {
                    ended(m, Ending::Stuck)
                },
                Inst::Return(v) => returned(m, reg(a, v)),
                Inst::ReturnNothing => returned(m, Datum::Nothing),
                Inst::Unreachable => ended(m, Ending::Stuck),
                i => match done(a, f.code, f.texts, i) {
                    Some(a1) => with_top(m, a1),
                    None => ended(m, Ending::Stuck),
                },
            }
        }
    }
}

pub open spec fn steps(c: CompiledView, m: Machine, n: nat) -> Machine
    decreases n,
{
    if n == 0 {
        m
    } else {
        steps(c, stepped(c, m), (n - 1) as nat)
    }
}

/// A machine about to run a program.
pub open spec fn machine_for(answers: Seq<AnswerView>) -> Machine {
    Machine {
        calls: seq![
            Activation {
                function: None,
                pc: 0,
                regs: Map::empty(),
                slots: Map::empty(),
                args: Seq::empty(),
                given: Seq::empty(),
            },
        ],
        heap: Seq::empty(),
        lines: Seq::empty(),
        line: Seq::empty(),
        answers,
        asked: 0,
        end: None,
    }
}

/// What a lowered program prints, where so many steps bring it to its end.
pub open spec fn machine_run(c: CompiledView, answers: Seq<AnswerView>, fuel: nat) -> Option<OutputView> {
    let m = steps(c, machine_for(answers), fuel);
    match m.end {
        Some(Ending::Finished) => Some(OutputView { lines: m.lines, error: None, request: None }),
        _ => None,
    }
}

} // verus!
