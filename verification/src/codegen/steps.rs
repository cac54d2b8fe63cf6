//! The steps that expressions are lowered to, once their operands are values.

use vstd::prelude::*;
use vstd::slice::slice_subrange;
use vstd::string::*;

use crate::ast::{BinOp, Constant, Expr, ExprKind, UnOp};
use crate::codegen::native::{
    array_like, element_of, native_text, operator_name, operator_text, tag_of, Native,
};
use crate::codegen::runtime::{Kind, Rt};
use crate::codegen::work::{
    called, called_into, checked_made, expecting, failing, forked, implies_all, made, number_native, opened,
    put, recorded, refused, related, spilled, stored, stored_at, text_made, CheckedOp, Inst, Operand,
    Relation, Work, WorkView,
};
use crate::eval::decimal::{parsed_decimal, Decimal};
use crate::eval::rational::{rational_of_decimal, Rational};
use crate::eval::parse::{find_char, parsed_int, read_int};
use crate::eval::semantics::is_array_operator;
use crate::text::{cat2, cat3, cat4, chars_of, nat_text, same_text, text_of, u128_text};

verus! {

/// What stands for the value of something that was refused.
pub open spec fn no_value() -> Operand {
    Operand { at: 0, kind: Kind::Word }
}

fn nothing() -> (r: Operand)
    ensures
        r == no_value(),
{
    Operand { at: 0, kind: Kind::Word }
}

/// A refusal in place of a value.
pub open spec fn declined(w: WorkView, what: Seq<char>) -> (WorkView, Operand) {
    (refused(w, what), no_value())
}

// ── operators ───────────────────────────────────────────────────────────────

pub open spec fn relation_of(op: BinOp) -> Option<Relation> {
    match op {
        BinOp::Eq => Some(Relation::Equal),
        BinOp::NotEq => Some(Relation::NotEqual),
        BinOp::Less => Some(Relation::Less),
        BinOp::Greater => Some(Relation::Greater),
        BinOp::LessEq => Some(Relation::LessEqual),
        BinOp::GreaterEq => Some(Relation::GreaterEqual),
        _ => None,
    }
}

/// The runtime's tag for an arithmetic operator.
pub open spec fn arithmetic_tag(op: BinOp) -> Option<u32> {
    match op {
        BinOp::Add => Some(0),
        BinOp::Sub => Some(1),
        BinOp::Mul => Some(2),
        BinOp::Div => Some(3),
        BinOp::Pow => Some(4),
        BinOp::IntDiv => Some(5),
        BinOp::Mod => Some(6),
        _ => None,
    }
}

/// The runtime's tag for a comparison.
pub open spec fn relation_tag(r: Relation) -> u32 {
    match r {
        Relation::Equal => 10,
        Relation::NotEqual => 11,
        Relation::Less => 12,
        Relation::Greater => 13,
        Relation::LessEqual => 14,
        Relation::GreaterEqual => 15,
    }
}

/// The runtime's tag for a unary operator.
pub open spec fn unary_tag(op: UnOp) -> u32 {
    match op {
        UnOp::Neg => 0,
        UnOp::Abs => 1,
        UnOp::Sqrt => 2,
        UnOp::Floor => 3,
        UnOp::Ceil => 4,
        UnOp::Sin => 5,
        UnOp::Cos => 6,
        UnOp::Tan => 7,
        UnOp::Log => 8,
        UnOp::Ln => 9,
        UnOp::Not => 10,
    }
}

pub fn relation_for(op: BinOp) -> (r: Option<Relation>)
    ensures
        r == relation_of(op),
{
    match op {
        BinOp::Eq => Some(Relation::Equal),
        BinOp::NotEq => Some(Relation::NotEqual),
        BinOp::Less => Some(Relation::Less),
        BinOp::Greater => Some(Relation::Greater),
        BinOp::LessEq => Some(Relation::LessEqual),
        BinOp::GreaterEq => Some(Relation::GreaterEqual),
        _ => None,
    }
}

fn tag_for(op: BinOp) -> (r: Option<u32>)
    ensures
        r == arithmetic_tag(op),
{
    match op {
        BinOp::Add => Some(0),
        BinOp::Sub => Some(1),
        BinOp::Mul => Some(2),
        BinOp::Div => Some(3),
        BinOp::Pow => Some(4),
        BinOp::IntDiv => Some(5),
        BinOp::Mod => Some(6),
        _ => None,
    }
}

fn tag_for_relation(x: Relation) -> (r: u32)
    ensures
        r == relation_tag(x),
{
    match x {
        Relation::Equal => 10,
        Relation::NotEqual => 11,
        Relation::Less => 12,
        Relation::Greater => 13,
        Relation::LessEqual => 14,
        Relation::GreaterEqual => 15,
    }
}

fn tag_for_unary(op: UnOp) -> (r: u32)
    ensures
        r == unary_tag(op),
{
    match op {
        UnOp::Neg => 0,
        UnOp::Abs => 1,
        UnOp::Sqrt => 2,
        UnOp::Floor => 3,
        UnOp::Ceil => 4,
        UnOp::Sin => 5,
        UnOp::Cos => 6,
        UnOp::Tan => 7,
        UnOp::Log => 8,
        UnOp::Ln => 9,
        UnOp::Not => 10,
    }
}

// ── conversions ─────────────────────────────────────────────────────────────

/// A truth value as a byte.
pub open spec fn as_byte(w: WorkView, v: Operand) -> (WorkView, Operand) {
    made(expecting(w, v, Kind::Bit), Inst::Widen { kind: Kind::Byte, value: v.at }, Kind::Byte)
}

/// A call on a value that crosses by pointer.
pub open spec fn called_on_spilled(w: WorkView, f: Rt, v: Operand, kind: Kind) -> (WorkView, Operand) {
    let (w1, p) = spilled(w, v, kind);
    called(w1, f, seq![p])
}

/// A value moved between representations, through the runtime so that the result is exactly
/// what the interpreter would have produced.
#[verifier::opaque]
pub open spec fn converted(w: WorkView, v: Operand, from: Native, to: Native) -> (WorkView, Operand) {
    if from == to {
        (w, v)
    } else {
        match (from, to) {
            (Native::Int, Native::Num) => called(w, Rt::NumFromInt, seq![v]),
            (Native::Bool, Native::Num) => {
                let (w1, b) = as_byte(w, v);
                called(w1, Rt::NumFromBool, seq![b])
            },
            (Native::Deci, Native::Num) => called_on_spilled(w, Rt::NumFromDeci, v, Kind::Deci),
            (Native::Rat, Native::Num) => called_on_spilled(w, Rt::NumFromRat, v, Kind::Rat),
            (Native::Num, Native::Deci) => called_into(w, Rt::NumToDeci, seq![v], Kind::Deci),
            (Native::Num, Native::Rat) => called_into(w, Rt::NumToRat, seq![v], Kind::Rat),
            (Native::Num, Native::Int) => called(w, Rt::NumToInt, seq![v]),
            (Native::Int, Native::Deci) => called_into(w, Rt::DeciFromInt, seq![v], Kind::Deci),
            (Native::Int, Native::Rat) => called_into(w, Rt::RatFromInt, seq![v], Kind::Rat),
            (Native::Bool, Native::Int) => made(
                expecting(w, v, Kind::Bit),
                Inst::Widen { kind: Kind::Word, value: v.at },
                Kind::Word,
            ),
            _ => declined(w, "converting "@ + native_text(from) + " to "@ + native_text(to)),
        }
    }
}

// ── literals and constants ──────────────────────────────────────────────────

pub open spec fn unknown_literal(t: Seq<char>) -> Seq<char> {
    "the literal '"@ + t + "'"@
}

/// A number as it is written, for a representation that is not `num`.
pub open spec fn number_made(w: WorkView, t: Seq<char>, want: Native) -> (WorkView, Operand) {
    if want is Rat {
        match parsed_decimal(t) {
            None => declined(w, unknown_literal(t)),
            Some(d) => match rational_of_decimal(d) {
                None => declined(w, "a rational literal that large"@),
                Some(q) => made(w, Inst::Rat { num: q.num, den: q.den }, Kind::Rat),
            },
        }
    } else if number_native(t) is Deci || want is Deci {
        match parsed_decimal(t) {
            None => declined(w, unknown_literal(t)),
            Some(d) => made(w, Inst::Deci { mantissa: d.mantissa, scale: d.scale }, Kind::Deci),
        }
    } else {
        match parsed_int(t, 10) {
            None => declined(w, unknown_literal(t)),
            Some(n) => made(w, Inst::Word(n as i128), Kind::Word),
        }
    }
}

/// A literal. A `num` holds a tagged value, so there it is boxed as whichever exact kind it
/// is written as.
#[verifier::opaque]
pub open spec fn literal_made(w: WorkView, t: Seq<char>, want: Native) -> (WorkView, Operand) {
    if t == "true"@ {
        made(w, Inst::Bool(true), Kind::Bit)
    } else if t == "false"@ {
        made(w, Inst::Bool(false), Kind::Bit)
    } else if want is Num {
        let (w1, v) = number_made(w, t, number_native(t));
        converted(w1, v, number_native(t), Native::Num)
    } else {
        number_made(w, t, want)
    }
}

pub open spec fn constant_tag(c: Constant) -> u32 {
    match c {
        Constant::Pi => 0,
        Constant::E => 1,
        Constant::Tau => 2,
    }
}

/// A constant to the declared precision. Asking for more places than are known is caught
/// here rather than at run time.
#[verifier::opaque]
pub open spec fn constant_made(w: WorkView, c: Constant, want: Native) -> (WorkView, Operand) {
    if w.digits > 36 {
        declined(
            w,
            "a constant to "@ + nat_text(w.digits as nat) + " places, which is more than the 36 AHPCL knows"@,
        )
    } else {
        let (w1, which) = made(w, Inst::Small(constant_tag(c)), Kind::Small);
        let (w2, digits) = made(w1, Inst::Small(w.digits), Kind::Small);
        let (w3, v) = called_into(w2, Rt::Constant, seq![which, digits], Kind::Deci);
        converted(w3, v, Native::Deci, want)
    }
}

// ── arrays ──────────────────────────────────────────────────────────────────

pub open spec fn dims_stored(w: WorkView, slots: usize, dims: Seq<u64>, i: nat) -> WorkView
    decreases dims.len() - i,
{
    if i >= dims.len() {
        w
    } else {
        let (w1, d) = made(w, Inst::Long(dims[i as int]), Kind::Long);
        dims_stored(stored_at(w1, slots, Kind::Long, i as u128, d), slots, dims, i + 1)
    }
}

/// A runtime array of a shape, for elements of a representation.
#[verifier::opaque]
pub open spec fn array_made(w: WorkView, elem: Native, dims: Seq<u64>) -> (WorkView, Operand) {
    let (w1, shape) = made(
        w,
        Inst::Slots { kind: Kind::Long, count: if dims.len() == 0 { 1 } else { dims.len() as u128 } },
        Kind::Ptr,
    );
    let w2 = dims_stored(w1, shape.at, dims, 0);
    let (w3, kind) = made(w2, Inst::Small(tag_of(elem)), Kind::Small);
    let (w4, rank) = made(w3, Inst::Small(dims.len() as u32), Kind::Small);
    called(w4, Rt::ArrayNew, seq![kind, rank, shape])
}

/// One element written, by the setter that matches its representation.
#[verifier::opaque]
pub open spec fn element_stored(w: WorkView, array: Operand, index: Operand, v: Operand, elem: Native) -> WorkView {
    match elem {
        Native::Deci => {
            let (w1, p) = spilled(w, v, Kind::Deci);
            called(w1, Rt::ArraySetDeci, seq![array, index, p]).0
        },
        Native::Rat => {
            let (w1, p) = spilled(w, v, Kind::Rat);
            called(w1, Rt::ArraySetRat, seq![array, index, p]).0
        },
        Native::Str => {
            let (w1, p) = spilled(w, v, Kind::Text);
            called(w1, Rt::ArraySetStr, seq![array, index, p]).0
        },
        Native::Num => called(w, Rt::ArraySetNum, seq![array, index, v]).0,
        Native::Bool => {
            let (w1, b) = as_byte(w, v);
            called(w1, Rt::ArraySetBool, seq![array, index, b]).0
        },
        _ => called(w, Rt::ArraySetInt, seq![array, index, v]).0,
    }
}

/// One element read back out.
#[verifier::opaque]
pub open spec fn element_loaded(w: WorkView, array: Operand, index: Operand, elem: Native) -> (WorkView, Operand) {
    match elem {
        Native::Deci => called_into(w, Rt::ArrayGetDeci, seq![array, index], Kind::Deci),
        Native::Rat => called_into(w, Rt::ArrayGetRat, seq![array, index], Kind::Rat),
        Native::Str => {
            let (w1, v) = called_into(w, Rt::ArrayGetStr, seq![array, index], Kind::Text);
            (recorded(w1, v, Native::Str), v)
        },
        Native::Num => called(w, Rt::ArrayGetNum, seq![array, index]),
        Native::Bool => {
            let (w1, b) = called(w, Rt::ArrayGetBool, seq![array, index]);
            let (w2, zero) = made(w1, Inst::Byte(0), Kind::Byte);
            related(w2, Relation::NotEqual, b, zero)
        },
        _ => called(w, Rt::ArrayGetInt, seq![array, index]),
    }
}

/// One value appended to the array that collects a loop's handbacks.
#[verifier::opaque]
pub open spec fn element_pushed(w: WorkView, array: Operand, v: Operand, elem: Native) -> WorkView {
    match elem {
        Native::Array(_, _) => called(w, Rt::ArrayPushArray, seq![array, v]).0,
        Native::Deci => {
            let (w1, p) = spilled(w, v, Kind::Deci);
            called(w1, Rt::ArrayPushDeci, seq![array, p]).0
        },
        Native::Rat => {
            let (w1, p) = spilled(w, v, Kind::Rat);
            called(w1, Rt::ArrayPushRat, seq![array, p]).0
        },
        Native::Str => {
            let (w1, p) = spilled(w, v, Kind::Text);
            called(w1, Rt::ArrayPushStr, seq![array, p]).0
        },
        Native::Num => called(w, Rt::ArrayPushNum, seq![array, v]).0,
        Native::Bool => {
            let (w1, b) = as_byte(w, v);
            called(w1, Rt::ArrayPushBool, seq![array, b]).0
        },
        _ => called(w, Rt::ArrayPushInt, seq![array, v]).0,
    }
}

/// A scalar beside an array is broadcast, so it becomes a one-element array.
#[verifier::opaque]
pub open spec fn spread(w: WorkView, v: Operand, elem: Native) -> (WorkView, Operand) {
    let (w1, array) = array_made(w, elem, seq![1u64]);
    let (w2, one) = made(w1, Inst::Word(1), Kind::Word);
    (element_stored(w2, array, one, v, elem), array)
}

// ── printing ────────────────────────────────────────────────────────────────

/// A value printed, through the runtime so that a decimal keeps its exact digits.
#[verifier::opaque]
pub open spec fn printed(w: WorkView, v: Operand, n: Native) -> WorkView {
    match n {
        Native::Num => called(w, Rt::PrintNum, seq![v]).0,
        Native::Array(_, _) => called(w, Rt::PrintArray, seq![v]).0,
        Native::Str => called_on_spilled(w, Rt::PrintText, v, Kind::Text).0,
        Native::Deci => called_on_spilled(w, Rt::PrintDeci, v, Kind::Deci).0,
        Native::Rat => called_on_spilled(w, Rt::PrintRat, v, Kind::Rat).0,
        Native::Bool => {
            let (w1, b) = as_byte(w, v);
            called(w1, Rt::PrintBool, seq![b]).0
        },
        _ => called(w, Rt::PrintInt, seq![v]).0,
    }
}

// ── unary operators ─────────────────────────────────────────────────────────

/// How a unary operator is carried out.
#[derive(Debug, Clone, Copy, PartialEq, Eq, Structural)]
pub enum UnaryWay {
    /// On each element of an array.
    Each,
    /// By machine instructions.
    Word,
    Rat,
    Deci,
    /// On a tagged value, which can be of any kind.
    Num,
}

pub open spec fn unary_way(op: UnOp, held: Native, is_bare: bool) -> UnaryWay {
    if array_like(held) && !is_bare {
        UnaryWay::Each
    } else if held is Int && (op is Neg || op is Abs) {
        UnaryWay::Word
    } else if held is Rat && (op is Neg || op is Abs) {
        UnaryWay::Rat
    } else if held is Deci && (op is Neg || op is Abs || op is Sqrt) {
        UnaryWay::Deci
    } else {
        UnaryWay::Num
    }
}

/// The representation the operand is wanted in.
pub open spec fn unary_wants(way: UnaryWay, held: Native) -> Native {
    match way {
        UnaryWay::Each => held,
        UnaryWay::Word => Native::Int,
        UnaryWay::Rat => Native::Rat,
        UnaryWay::Deci => Native::Deci,
        UnaryWay::Num => Native::Num,
    }
}

/// More places of a square root than AHPCL computes is an error, as in the interpreter.
pub open spec fn root_checked(w: WorkView, op: UnOp) -> WorkView {
    if op is Sqrt && w.digits > 18 {
        refused(
            w,
            "a square root to "@ + nat_text(w.digits as nat) + " places, which is more than the 18 AHPCL computes"@,
        )
    } else {
        w
    }
}

/// `-x` or `|x|` of a machine word. The one number whose opposite is out of range stops
/// the program, as any overflow does.
pub open spec fn word_unary(w: WorkView, op: UnOp, v: Operand) -> (WorkView, Operand) {
    let (w1, zero) = made(w, Inst::Word(0), Kind::Word);
    if op is Neg {
        checked_made(w1, CheckedOp::Sub, zero, v)
    } else {
        let (w2, below) = related(w1, Relation::Less, v, zero);
        let (w3, flip) = opened(w2);
        let (w4, done) = opened(w3);
        let (w5, slot) = made(w4, Inst::Slot(Kind::Word), Kind::Ptr);
        let w6 = forked(stored(w5, slot.at, v, Kind::Word), below, flip, done);
        let (w7, opposite) = checked_made(put(w6, Inst::At(flip)), CheckedOp::Sub, zero, v);
        let w8 = put(stored(w7, slot.at, opposite, Kind::Word), Inst::Jump(done));
        made(put(w8, Inst::At(done)), Inst::Load { kind: Kind::Word, from: slot.at }, Kind::Word)
    }
}

/// A unary operator on an operand that is a value already.
#[verifier::opaque]
pub open spec fn unary_made(w: WorkView, op: UnOp, way: UnaryWay, v: Operand, want: Native) -> (WorkView, Operand) {
    if way is Word {
        let (w1, out) = word_unary(w, op, v);
        converted(w1, out, Native::Int, want)
    } else {
        let (w1, tag) = made(w, Inst::Small(unary_tag(op)), Kind::Small);
        let (w2, digits) = made(w1, Inst::Small(w.digits), Kind::Small);
        match way {
            UnaryWay::Each => called(w2, Rt::ArrayUnary, seq![tag, v, digits]),
            UnaryWay::Rat => {
                let (w3, p) = spilled(w2, v, Kind::Rat);
                let (w4, out) = called_into(w3, Rt::RatUnary, seq![tag, p, digits], Kind::Rat);
                converted(w4, out, Native::Rat, want)
            },
            UnaryWay::Deci => {
                let (w3, p) = spilled(w2, v, Kind::Deci);
                let (w4, out) = called_into(w3, Rt::DeciUnary, seq![tag, p, digits], Kind::Deci);
                converted(w4, out, Native::Deci, want)
            },
            _ => {
                let (w3, out) = called(w2, Rt::NumUnary, seq![tag, v, digits]);
                converted(w3, out, Native::Num, want)
            },
        }
    }
}

// ── binary operators ────────────────────────────────────────────────────────

/// How a binary operator is carried out.
#[derive(Debug, Clone, Copy, PartialEq, Eq, Structural)]
pub enum BinaryWay {
    Logic,
    /// On tagged values, a side that is a bare array reference being summed first.
    Reduced { lhs: bool, rhs: bool },
    Arrays,
    Texts,
    Nums,
    Rats,
    Decis,
    Words,
}

pub open spec fn is_logic(op: BinOp) -> bool {
    op is And || op is Or
}

pub open spec fn is_arithmetic(op: BinOp) -> bool {
    relation_of(op) is None && !is_logic(op)
}

/// A bare array reference sums its elements, while one carrying a selector stays an array.
/// The wanted type counts too: `1 / 3` looks like integers but is exact when the context
/// asks for a rational.
pub open spec fn binary_way(
    op: BinOp,
    l: Native,
    r: Native,
    bare_l: bool,
    bare_r: bool,
    want: Native,
) -> BinaryWay {
    let sum_l = bare_l && array_like(l);
    let sum_r = bare_r && array_like(r);
    if is_logic(op) {
        BinaryWay::Logic
    } else if !is_array_operator(op) && (sum_l || sum_r) {
        BinaryWay::Reduced { lhs: sum_l, rhs: sum_r }
    } else if is_array_operator(op) || array_like(l) || array_like(r) {
        BinaryWay::Arrays
    } else if l is Str || r is Str {
        BinaryWay::Texts
    } else if l is Num || r is Num || (is_arithmetic(op) && want is Num) {
        BinaryWay::Nums
    } else if l is Rat || r is Rat || (is_arithmetic(op) && want is Rat) {
        BinaryWay::Rats
    } else if l is Deci || r is Deci || (is_arithmetic(op) && want is Deci) {
        BinaryWay::Decis
    } else {
        BinaryWay::Words
    }
}

/// How one side of an operator is evaluated.
#[derive(Debug, Clone, Copy, PartialEq, Eq, Structural)]
pub enum Side {
    As(Native),
    /// As an array, then summed.
    Sum(Native),
    /// As an element, then made an array of one.
    Spread(Native),
}

/// A comparison's result is `bool`, but its operands are not: each side keeps its own kind,
/// and the runtime promotes across kinds when it compares.
pub open spec fn array_side(op: BinOp, repr: Native, want: Native) -> Side {
    if array_like(repr) {
        Side::As(repr)
    } else if repr is Int && relation_of(op) is None && array_like(want) {
        Side::Spread(element_of(want))
    } else {
        Side::Spread(repr)
    }
}

pub open spec fn side_of(op: BinOp, way: BinaryWay, left: bool, repr: Native, want: Native) -> Side {
    match way {
        BinaryWay::Logic => Side::As(Native::Bool),
        BinaryWay::Reduced { lhs, rhs } => if if left { lhs } else { rhs } {
            Side::Sum(repr)
        } else {
            Side::As(Native::Num)
        },
        BinaryWay::Arrays => array_side(op, repr, want),
        BinaryWay::Texts => Side::As(Native::Str),
        BinaryWay::Nums => Side::As(Native::Num),
        BinaryWay::Rats => Side::As(Native::Rat),
        BinaryWay::Decis => Side::As(Native::Deci),
        BinaryWay::Words => Side::As(Native::Int),
    }
}

pub open spec fn side_native(s: Side) -> Native {
    match s {
        Side::As(n) => n,
        Side::Sum(n) => n,
        Side::Spread(n) => n,
    }
}

/// What is done with a side once it is a value.
pub open spec fn side_made(w: WorkView, s: Side, v: Operand) -> (WorkView, Operand) {
    match s {
        Side::As(_) => (w, v),
        Side::Sum(_) => called(w, Rt::ArraySum, seq![v]),
        Side::Spread(n) => spread(w, v, n),
    }
}

/// The outcome of an ordering, which is below, at or above zero, held to a relation.
pub open spec fn ordering_related(w: WorkView, relation: Relation, c: Operand) -> (WorkView, Operand) {
    let (w1, zero) = made(w, Inst::Small(0), Kind::Small);
    related(w1, relation, c, zero)
}

pub open spec fn nums_made(w: WorkView, op: BinOp, a: Operand, b: Operand) -> (WorkView, Operand) {
    match relation_of(op) {
        Some(relation) => {
            let (w1, c) = called(w, Rt::NumOrder, seq![a, b]);
            ordering_related(w1, relation, c)
        },
        None => match arithmetic_tag(op) {
            None => declined(w, operator_text(op) + " on num"@),
            Some(t) => {
                let (w1, tag) = made(w, Inst::Small(t), Kind::Small);
                called(w1, Rt::NumBinary, seq![tag, a, b])
            },
        },
    }
}

/// A comparison is already a machine bool; arithmetic hands back a boxed `num`, which the
/// surrounding context may have pinned to a narrower type.
pub open spec fn nums_pinned(w: WorkView, op: BinOp, v: Operand, want: Native) -> (WorkView, Operand) {
    if is_arithmetic(op) && !(want is Num) {
        converted(w, v, Native::Num, want)
    } else {
        (w, v)
    }
}

pub open spec fn arrays_made(w: WorkView, op: BinOp, a: Operand, b: Operand, want: Native) -> (WorkView, Operand) {
    match op {
        BinOp::Dot => {
            let (w1, out) = called(w, Rt::ArrayDot, seq![a, b]);
            if array_like(want) {
                (w1, out)
            } else {
                // A dot product of two vectors is a single value, handed back as a
                // one-element array.
                let (w2, one) = made(w1, Inst::Word(1), Kind::Word);
                element_loaded(w2, out, one, want)
            }
        },
        BinOp::Cross => called(w, Rt::ArrayCross, seq![a, b]),
        BinOp::Hadamard => called(w, Rt::ArrayHadamard, seq![a, b]),
        BinOp::Tensor => called(w, Rt::ArrayTensor, seq![a, b]),
        _ => match relation_of(op) {
            Some(relation) => {
                let (w1, tag) = made(w, Inst::Small(relation_tag(relation)), Kind::Small);
                called(w1, Rt::ArrayRelate, seq![tag, a, b])
            },
            None => match arithmetic_tag(op) {
                Some(t) => if t < 4 {
                    let (w1, tag) = made(w, Inst::Small(t), Kind::Small);
                    called(w1, Rt::ArrayElementwise, seq![tag, a, b])
                } else {
                    declined(w, operator_text(op) + " on arrays"@)
                },
                None => declined(w, operator_text(op) + " on arrays"@),
            },
        },
    }
}

pub open spec fn decis_made(w: WorkView, op: BinOp, a: Operand, b: Operand) -> (WorkView, Operand) {
    let (w1, pa) = spilled(w, a, Kind::Deci);
    let (w2, pb) = spilled(w1, b, Kind::Deci);
    match relation_of(op) {
        Some(relation) => {
            let (w3, c) = called(w2, Rt::DeciOrder, seq![pa, pb]);
            ordering_related(w3, relation, c)
        },
        None => match op {
            BinOp::Add => called_into(w2, Rt::DeciAdd, seq![pa, pb], Kind::Deci),
            BinOp::Sub => called_into(w2, Rt::DeciSub, seq![pa, pb], Kind::Deci),
            BinOp::Mul => called_into(w2, Rt::DeciMul, seq![pa, pb], Kind::Deci),
            BinOp::Div => {
                let (w3, digits) = made(w2, Inst::Small(w2.digits), Kind::Small);
                called_into(w3, Rt::DeciDiv, seq![pa, pb, digits], Kind::Deci)
            },
            BinOp::IntDiv => called(w2, Rt::DeciIntDiv, seq![pa, pb]),
            BinOp::Pow => {
                let (w3, tag) = made(w2, Inst::Small(4), Kind::Small);
                called_into(w3, Rt::DeciBinary, seq![tag, pa, pb], Kind::Deci)
            },
            BinOp::Mod => {
                let (w3, tag) = made(w2, Inst::Small(6), Kind::Small);
                called_into(w3, Rt::DeciBinary, seq![tag, pa, pb], Kind::Deci)
            },
            _ => declined(w2, operator_text(op) + " on decimals"@),
        },
    }
}

pub open spec fn rats_made(w: WorkView, op: BinOp, a: Operand, b: Operand) -> (WorkView, Operand) {
    let (w1, pa) = spilled(w, a, Kind::Rat);
    let (w2, pb) = spilled(w1, b, Kind::Rat);
    match relation_of(op) {
        Some(relation) => {
            let (w3, c) = called(w2, Rt::RatOrder, seq![pa, pb]);
            ordering_related(w3, relation, c)
        },
        None => match op {
            BinOp::Add => called_into(w2, Rt::RatAdd, seq![pa, pb], Kind::Rat),
            BinOp::Sub => called_into(w2, Rt::RatSub, seq![pa, pb], Kind::Rat),
            BinOp::Mul => called_into(w2, Rt::RatMul, seq![pa, pb], Kind::Rat),
            BinOp::Div => called_into(w2, Rt::RatDiv, seq![pa, pb], Kind::Rat),
            _ => match arithmetic_tag(op) {
                Some(t) => {
                    let (w3, tag) = made(w2, Inst::Small(t), Kind::Small);
                    called_into(w3, Rt::RatBinary, seq![tag, pa, pb], Kind::Rat)
                },
                None => declined(w2, operator_text(op) + " on rationals"@),
            },
        },
    }
}

/// Text supports ordering only; the runtime does the comparison.
pub open spec fn texts_made(w: WorkView, op: BinOp, a: Operand, b: Operand) -> (WorkView, Operand) {
    let (w1, pa) = spilled(w, a, Kind::Text);
    let (w2, pb) = spilled(w1, b, Kind::Text);
    let (w3, c) = called(w2, Rt::StrOrder, seq![pa, pb]);
    match relation_of(op) {
        Some(relation) => ordering_related(w3, relation, c),
        None => (w3, c),
    }
}

/// An exponent held to what the interpreter takes: no less than zero, no more than 32 bits.
#[verifier::opaque]
pub open spec fn exponent_checked(w: WorkView, exp: Operand) -> WorkView {
    let (w1, least) = made(w, Inst::Word(0), Kind::Word);
    let (w2, most) = made(w1, Inst::Word(0xffff_ffff), Kind::Word);
    let (w3, below) = related(w2, Relation::Less, exp, least);
    let (w4, above) = related(w3, Relation::Greater, exp, most);
    let (w5, out) = made(w4, Inst::Or(below.at, above.at), Kind::Bit);
    let (w6, bad) = opened(w5);
    let (w7, ok) = opened(w6);
    let w8 = put(forked(w7, out, bad, ok), Inst::At(bad));
    put(failing(w8, "AHPCL-PREC-0004"@, "this exponent is out of range"@), Inst::At(ok))
}

/// Integer exponentiation by a loop, since there is no machine instruction for it. The
/// multiplication is checked like any other.
pub open spec fn power_made(w: WorkView, base: Operand, exp: Operand) -> (WorkView, Operand) {
    let (w1, acc) = made(exponent_checked(w, exp), Inst::Slot(Kind::Word), Kind::Ptr);
    let (w2, counter) = made(w1, Inst::Slot(Kind::Word), Kind::Ptr);
    let (w3, one) = made(w2, Inst::Word(1), Kind::Word);
    let (w4, zero) = made(w3, Inst::Word(0), Kind::Word);
    let w5 = stored(stored(w4, acc.at, one, Kind::Word), counter.at, zero, Kind::Word);
    let (w6, cond) = opened(w5);
    let (w7, body) = opened(w6);
    let (w8, done) = opened(w7);
    let w9 = put(put(w8, Inst::Jump(cond)), Inst::At(cond));
    let (w10, i) = made(w9, Inst::Load { kind: Kind::Word, from: counter.at }, Kind::Word);
    let (w11, more) = related(w10, Relation::Less, i, exp);
    let w12 = put(forked(w11, more, body, done), Inst::At(body));
    let (w13, cur) = made(w12, Inst::Load { kind: Kind::Word, from: acc.at }, Kind::Word);
    let (w14, next) = checked_made(w13, CheckedOp::Mul, cur, base);
    let w15 = stored(w14, acc.at, next, Kind::Word);
    let (w16, again) = made(w15, Inst::Load { kind: Kind::Word, from: counter.at }, Kind::Word);
    let (w17, up) = made(w16, Inst::Plus(again.at, one.at), Kind::Word);
    let w18 = put(stored(w17, counter.at, up, Kind::Word), Inst::Jump(cond));
    made(put(w18, Inst::At(done)), Inst::Load { kind: Kind::Word, from: acc.at }, Kind::Word)
}

pub open spec fn words_made(w: WorkView, op: BinOp, a: Operand, b: Operand) -> (WorkView, Operand) {
    let w0 = expecting(w, a, Kind::Word);
    match relation_of(op) {
        Some(relation) => related(w0, relation, a, b),
        None => match op {
            BinOp::Add => checked_made(w0, CheckedOp::Add, a, b),
            BinOp::Sub => checked_made(w0, CheckedOp::Sub, a, b),
            BinOp::Mul => checked_made(w0, CheckedOp::Mul, a, b),
            BinOp::IntDiv => called(w0, Rt::IntDiv, seq![a, b]),
            BinOp::Mod => called(w0, Rt::IntMod, seq![a, b]),
            BinOp::Pow => power_made(w0, a, b),
            BinOp::Div => declined(w0, "division between integers, whose result is a decimal or rational"@),
            _ => declined(w0, "the operator "@ + operator_text(op)),
        },
    }
}

pub open spec fn logic_made(w: WorkView, op: BinOp, a: Operand, b: Operand) -> (WorkView, Operand) {
    made(
        expecting(expecting(w, a, Kind::Bit), b, Kind::Bit),
        if op is And {
            Inst::And(a.at, b.at)
        } else {
            Inst::Or(a.at, b.at)
        },
        Kind::Bit,
    )
}

/// A binary operator on sides that are values already.
#[verifier::opaque]
pub open spec fn binary_made(
    w: WorkView,
    op: BinOp,
    way: BinaryWay,
    a: Operand,
    b: Operand,
    want: Native,
) -> (WorkView, Operand) {
    match way {
        BinaryWay::Logic => logic_made(w, op, a, b),
        BinaryWay::Reduced { .. } => {
            let (w1, v) = nums_made(w, op, a, b);
            nums_pinned(w1, op, v, want)
        },
        BinaryWay::Arrays => arrays_made(w, op, a, b, want),
        BinaryWay::Texts => texts_made(w, op, a, b),
        BinaryWay::Nums => {
            let (w1, v) = nums_made(w, op, a, b);
            nums_pinned(w1, op, v, want)
        },
        BinaryWay::Rats => rats_made(w, op, a, b),
        BinaryWay::Decis => decis_made(w, op, a, b),
        BinaryWay::Words => words_made(w, op, a, b),
    }
}

/// Whether text is asked for something other than an ordering.
pub open spec fn texts_checked(w: WorkView, op: BinOp, way: BinaryWay) -> WorkView {
    if way is Texts && relation_of(op) is None {
        refused(w, operator_text(op) + " on text"@)
    } else {
        w
    }
}

// ── parse ───────────────────────────────────────────────────────────────────

/// The options of a `parse`, as far as they have been read.
#[derive(Debug, Clone, Copy, PartialEq, Eq, Structural)]
pub struct Reading {
    pub flags: u64,
    pub group: Option<Operand>,
    pub decimal: Option<Operand>,
}

pub open spec fn flag_bit(name: Seq<char>) -> Option<u64> {
    if name == "trim"@ {
        Some(1)
    } else if name == "scientific"@ {
        Some(2)
    } else if name == "hex"@ {
        Some(4)
    } else if name == "unicode-digits"@ {
        Some(8)
    } else if name == "fraction"@ {
        Some(16)
    } else {
        None
    }
}

/// The text of a separator, which has to be written out.
pub open spec fn separator(value: Option<Box<Expr>>) -> Option<Seq<char>> {
    match value {
        None => None,
        Some(v) => match v.kind {
            ExprKind::Str(t) => Some(t@),
            ExprKind::Literal(t) => Some(t@),
            _ => None,
        },
    }
}

/// A separator is one character, the first that is written.
pub open spec fn first_of(t: Seq<char>) -> Seq<char> {
    if t.len() > 0 {
        t.take(1)
    } else {
        t
    }
}

pub open spec fn option_read(
    w: WorkView,
    r: Reading,
    name: Seq<char>,
    value: Option<Box<Expr>>,
) -> (WorkView, Reading) {
    match flag_bit(name) {
        Some(bit) => (w, Reading { flags: r.flags | bit, ..r }),
        None => if name == "group"@ || name == "decimal"@ {
            match separator(value) {
                None => (
                    refused(
                        w,
                        if value is None {
                            "'"@ + name + "' without a value"@
                        } else {
                            "a non-literal separator"@
                        },
                    ),
                    r,
                ),
                Some(t) => {
                    let (w1, held) = text_made(w, first_of(t));
                    let (w2, slot) = spilled(w1, held, Kind::Text);
                    (
                        w2,
                        if name == "group"@ {
                            Reading { group: Some(slot), ..r }
                        } else {
                            Reading { decimal: Some(slot), ..r }
                        },
                    )
                },
            }
        } else {
            (refused(w, "the parse option '"@ + name + "'"@), r)
        },
    }
}

/// The options of a `parse` from the `i`-th argument on.
pub open spec fn options_read(w: WorkView, r: Reading, args: Seq<Expr>, i: nat) -> (WorkView, Reading)
    decreases args.len() - i,
{
    if i >= args.len() {
        (w, r)
    } else {
        match args[i as int].kind {
            ExprKind::Option { name, value } => {
                let (w1, r1) = option_read(w, r, name@, value);
                options_read(w1, r1, args, i + 1)
            },
            _ => options_read(refused(w, "a parse argument that is not an option"@), r, args, i + 1),
        }
    }
}

pub open spec fn or_null(w: WorkView, v: Option<Operand>) -> (WorkView, Operand) {
    match v {
        Some(o) => (w, o),
        None => made(w, Inst::Null, Kind::Ptr),
    }
}

/// `parse`, for a text that is a value already.
#[verifier::opaque]
pub open spec fn parse_made(w: WorkView, text: Operand, args: Seq<Expr>, want: Native) -> (WorkView, Operand) {
    let (w1, p) = spilled(w, text, Kind::Text);
    let (w2, r) = options_read(w1, Reading { flags: 0, group: None, decimal: None }, args, 1);
    let (w3, g) = or_null(w2, r.group);
    let (w4, d) = or_null(w3, r.decimal);
    let (w5, flags) = made(w4, Inst::Long(r.flags), Kind::Long);
    match want {
        Native::Rat => called_into(w5, Rt::ParseRat, seq![p, flags, g, d], Kind::Rat),
        Native::Deci => called_into(w5, Rt::ParseDeci, seq![p, flags, g, d], Kind::Deci),
        _ => called(w5, Rt::ParseInt, seq![p, flags, g, d]),
    }
}

/// `read["path"]` reads that whole file as text.
#[verifier::opaque]
pub open spec fn read_made(w: WorkView, path: Operand) -> (WorkView, Operand) {
    let (w1, p) = spilled(w, path, Kind::Text);
    let (w2, v) = called_into(w1, Rt::ReadFile, seq![p], Kind::Text);
    (recorded(w2, v, Native::Str), v)
}

// ── the steps, carried out ──────────────────────────────────────────────────

impl<'a> Work<'a> {
    pub fn decline(&mut self, what: String) -> (r: Operand)
        ensures
            (final(self)@, r) == declined(old(self)@, what@),
    {
        self.refuse(what);
        nothing()
    }

    pub fn decline_text(&mut self, what: &str) -> (r: Operand)
        ensures
            (final(self)@, r) == declined(old(self)@, what@),
    {
        self.refuse_text(what);
        nothing()
    }

    fn byte(&mut self, v: Operand) -> (r: Operand)
        ensures
            (final(self)@, r) == as_byte(old(self)@, v),
    {
        self.expect(v, Kind::Bit);
        self.make(Inst::Widen { kind: Kind::Byte, value: v.at }, Kind::Byte)
    }

    fn call_on_spilled(&mut self, f: Rt, v: Operand, kind: Kind) -> (r: Operand)
        ensures
            (final(self)@, r) == called_on_spilled(old(self)@, f, v, kind),
    {
        let p: Operand = self.spill(v, kind);
        self.call1(f, p)
    }

    pub fn call_into1(&mut self, f: Rt, a: Operand, kind: Kind) -> (r: Operand)
        ensures
            (final(self)@, r) == called_into(old(self)@, f, seq![a], kind),
    {
        let args: Vec<Operand> = vec![a];
        assert(args@ =~= seq![a]);
        self.call_into(f, args, kind)
    }

    fn call_into2(&mut self, f: Rt, a: Operand, b: Operand, kind: Kind) -> (r: Operand)
        ensures
            (final(self)@, r) == called_into(old(self)@, f, seq![a, b], kind),
    {
        let args: Vec<Operand> = vec![a, b];
        assert(args@ =~= seq![a, b]);
        self.call_into(f, args, kind)
    }

    fn call_into3(&mut self, f: Rt, a: Operand, b: Operand, c: Operand, kind: Kind) -> (r: Operand)
        ensures
            (final(self)@, r) == called_into(old(self)@, f, seq![a, b, c], kind),
    {
        let args: Vec<Operand> = vec![a, b, c];
        assert(args@ =~= seq![a, b, c]);
        self.call_into(f, args, kind)
    }

    /// Move a value between representations.
    pub fn convert(&mut self, v: Operand, from: Native, to: Native) -> (r: Operand)
        ensures
            (final(self)@, r) == converted(old(self)@, v, from, to),
    {
        proof {
            reveal(converted);
        }
        if from == to {
            return v;
        }
        match (from, to) {
            (Native::Int, Native::Num) => self.call1(Rt::NumFromInt, v),
            (Native::Bool, Native::Num) => {
                let b: Operand = self.byte(v);
                self.call1(Rt::NumFromBool, b)
            },
            (Native::Deci, Native::Num) => self.call_on_spilled(Rt::NumFromDeci, v, Kind::Deci),
            (Native::Rat, Native::Num) => self.call_on_spilled(Rt::NumFromRat, v, Kind::Rat),
            (Native::Num, Native::Deci) => self.call_into1(Rt::NumToDeci, v, Kind::Deci),
            (Native::Num, Native::Rat) => self.call_into1(Rt::NumToRat, v, Kind::Rat),
            (Native::Num, Native::Int) => self.call1(Rt::NumToInt, v),
            (Native::Int, Native::Deci) => self.call_into1(Rt::DeciFromInt, v, Kind::Deci),
            (Native::Int, Native::Rat) => self.call_into1(Rt::RatFromInt, v, Kind::Rat),
            (Native::Bool, Native::Int) => {
                self.expect(v, Kind::Bit);
                self.make(Inst::Widen { kind: Kind::Word, value: v.at }, Kind::Word)
            },
            _ => {
                let a: String = from.text();
                let b: String = to.text();
                self.decline(cat4("converting ", a.as_str(), " to ", b.as_str()))
            },
        }
    }

    fn unknown_literal(&mut self, t: &str) -> (r: Operand)
        ensures
            (final(self)@, r) == declined(old(self)@, unknown_literal(t@)),
    {
        self.decline(cat3("the literal '", t, "'"))
    }

    fn number(&mut self, t: &str, want: Native) -> (r: Operand)
        ensures
            (final(self)@, r) == number_made(old(self)@, t@, want),
    {
        if want == Native::Rat {
            return match Decimal::parse(t) {
                None => self.unknown_literal(t),
                Some(d) => match Rational::from_decimal(d) {
                    None => self.decline_text("a rational literal that large"),
                    Some(q) => self.make(Inst::Rat { num: q.num, den: q.den }, Kind::Rat),
                },
            };
        }
        let chars: Vec<char> = chars_of(t);
        if find_char(chars.as_slice(), '.') < chars.len() || want == Native::Deci {
            return match Decimal::parse(t) {
                None => self.unknown_literal(t),
                Some(d) => self.make(Inst::Deci { mantissa: d.mantissa, scale: d.scale }, Kind::Deci),
            };
        }
        match read_int(chars.as_slice(), 10) {
            None => self.unknown_literal(t),
            Some(n) => self.make(Inst::Word(n), Kind::Word),
        }
    }

    pub fn literal(&mut self, t: &str, want: Native) -> (r: Operand)
        ensures
            (final(self)@, r) == literal_made(old(self)@, t@, want),
    {
        proof {
            reveal(literal_made);
        }
        if same_text(t, "true") {
            return self.make(Inst::Bool(true), Kind::Bit);
        }
        if same_text(t, "false") {
            return self.make(Inst::Bool(false), Kind::Bit);
        }
        if want == Native::Num {
            let chars: Vec<char> = chars_of(t);
            let held: Native = if find_char(chars.as_slice(), '.') < chars.len() {
                Native::Deci
            } else {
                Native::Int
            };
            let v: Operand = self.number(t, held);
            return self.convert(v, held, Native::Num);
        }
        self.number(t, want)
    }

    pub fn constant(&mut self, c: Constant, want: Native) -> (r: Operand)
        ensures
            (final(self)@, r) == constant_made(old(self)@, c, want),
    {
        proof {
            reveal(constant_made);
        }
        let digits: u32 = self.digits;
        if digits > 36 {
            let n: String = u128_text(digits as u128);
            return self.decline(
                cat3("a constant to ", n.as_str(), " places, which is more than the 36 AHPCL knows"),
            );
        }
        let tag: u32 = match c {
            Constant::Pi => 0,
            Constant::E => 1,
            Constant::Tau => 2,
        };
        let which: Operand = self.make(Inst::Small(tag), Kind::Small);
        let places: Operand = self.make(Inst::Small(digits), Kind::Small);
        let v: Operand = self.call_into2(Rt::Constant, which, places, Kind::Deci);
        self.convert(v, Native::Deci, want)
    }

    fn dims(&mut self, slots: usize, dims: &Vec<u64>)
        ensures
            final(self)@ == dims_stored(old(self)@, slots, dims@, 0),
    {
        let mut i: usize = 0;
        while i < dims.len()
            invariant
                i <= dims@.len(),
                dims_stored(old(self)@, slots, dims@, 0) == dims_stored(self@, slots, dims@, i as nat),
            decreases dims@.len() - i,
        {
            let d: Operand = self.make(Inst::Long(dims[i]), Kind::Long);
            self.store_at(slots, Kind::Long, i as u128, d);
            i = i + 1;
        }
    }

    /// A runtime array of a shape.
    #[verifier::truncate]
    pub fn array_new(&mut self, elem: Native, dims: &Vec<u64>) -> (r: Operand)
        ensures
            (final(self)@, r) == array_made(old(self)@, elem, dims@),
    {
        proof {
            reveal(array_made);
        }
        let count: u128 = if dims.len() == 0 {
            1
        } else {
            dims.len() as u128
        };
        let shape: Operand = self.make(Inst::Slots { kind: Kind::Long, count }, Kind::Ptr);
        self.dims(shape.at, dims);
        let kind: Operand = self.make(Inst::Small(elem.kind_tag()), Kind::Small);
        let rank: Operand = self.make(Inst::Small(dims.len() as u32), Kind::Small);
        self.call3(Rt::ArrayNew, kind, rank, shape)
    }

    fn spill_and_call3(&mut self, f: Rt, a: Operand, b: Operand, v: Operand, kind: Kind)
        ensures
            final(self)@ == ({
                let (w1, p) = spilled(old(self)@, v, kind);
                called(w1, f, seq![a, b, p]).0
            }),
    {
        let p: Operand = self.spill(v, kind);
        let _ = self.call3(f, a, b, p);
    }

    /// Write one element, choosing the setter that matches its representation.
    pub fn array_store(&mut self, array: Operand, index: Operand, v: Operand, elem: Native)
        ensures
            final(self)@ == element_stored(old(self)@, array, index, v, elem),
    {
        proof {
            reveal(element_stored);
        }
        match elem {
            Native::Deci => self.spill_and_call3(Rt::ArraySetDeci, array, index, v, Kind::Deci),
            Native::Rat => self.spill_and_call3(Rt::ArraySetRat, array, index, v, Kind::Rat),
            Native::Str => self.spill_and_call3(Rt::ArraySetStr, array, index, v, Kind::Text),
            Native::Num => {
                let _ = self.call3(Rt::ArraySetNum, array, index, v);
            },
            Native::Bool => {
                let b: Operand = self.byte(v);
                let _ = self.call3(Rt::ArraySetBool, array, index, b);
            },
            _ => {
                let _ = self.call3(Rt::ArraySetInt, array, index, v);
            },
        }
    }

    /// Read one element back out.
    pub fn array_load(&mut self, array: Operand, index: Operand, elem: Native) -> (r: Operand)
        ensures
            (final(self)@, r) == element_loaded(old(self)@, array, index, elem),
    {
        proof {
            reveal(element_loaded);
        }
        match elem {
            Native::Deci => self.call_into2(Rt::ArrayGetDeci, array, index, Kind::Deci),
            Native::Rat => self.call_into2(Rt::ArrayGetRat, array, index, Kind::Rat),
            Native::Str => {
                let v: Operand = self.call_into2(Rt::ArrayGetStr, array, index, Kind::Text);
                self.record(v, Native::Str);
                v
            },
            Native::Num => self.call2(Rt::ArrayGetNum, array, index),
            Native::Bool => {
                let b: Operand = self.call2(Rt::ArrayGetBool, array, index);
                let zero: Operand = self.make(Inst::Byte(0), Kind::Byte);
                self.relate(Relation::NotEqual, b, zero)
            },
            _ => self.call2(Rt::ArrayGetInt, array, index),
        }
    }

    fn spill_and_call2(&mut self, f: Rt, a: Operand, v: Operand, kind: Kind)
        ensures
            final(self)@ == ({
                let (w1, p) = spilled(old(self)@, v, kind);
                called(w1, f, seq![a, p]).0
            }),
    {
        let p: Operand = self.spill(v, kind);
        let _ = self.call2(f, a, p);
    }

    /// Append one value to the array that collects a loop's handbacks.
    pub fn array_push(&mut self, array: Operand, v: Operand, elem: Native)
        ensures
            final(self)@ == element_pushed(old(self)@, array, v, elem),
    {
        proof {
            reveal(element_pushed);
        }
        match elem {
            Native::Array(_, _) => {
                let _ = self.call2(Rt::ArrayPushArray, array, v);
            },
            Native::Deci => self.spill_and_call2(Rt::ArrayPushDeci, array, v, Kind::Deci),
            Native::Rat => self.spill_and_call2(Rt::ArrayPushRat, array, v, Kind::Rat),
            Native::Str => self.spill_and_call2(Rt::ArrayPushStr, array, v, Kind::Text),
            Native::Num => {
                let _ = self.call2(Rt::ArrayPushNum, array, v);
            },
            Native::Bool => {
                let b: Operand = self.byte(v);
                let _ = self.call2(Rt::ArrayPushBool, array, b);
            },
            _ => {
                let _ = self.call2(Rt::ArrayPushInt, array, v);
            },
        }
    }

    fn spread(&mut self, v: Operand, elem: Native) -> (r: Operand)
        ensures
            (final(self)@, r) == spread(old(self)@, v, elem),
    {
        proof {
            reveal(spread);
        }
        let dims: Vec<u64> = vec![1u64];
        assert(dims@ =~= seq![1u64]);
        let array: Operand = self.array_new(elem, &dims);
        let one: Operand = self.make(Inst::Word(1), Kind::Word);
        self.array_store(array, one, v, elem);
        array
    }

    /// Print a value that an expression of the given representation produced.
    pub fn print_value(&mut self, v: Operand, n: Native)
        ensures
            final(self)@ == printed(old(self)@, v, n),
    {
        proof {
            reveal(printed);
        }
        let _ = match n {
            Native::Num => self.call1(Rt::PrintNum, v),
            Native::Array(_, _) => self.call1(Rt::PrintArray, v),
            Native::Str => self.call_on_spilled(Rt::PrintText, v, Kind::Text),
            Native::Deci => self.call_on_spilled(Rt::PrintDeci, v, Kind::Deci),
            Native::Rat => self.call_on_spilled(Rt::PrintRat, v, Kind::Rat),
            Native::Bool => {
                let b: Operand = self.byte(v);
                self.call1(Rt::PrintBool, b)
            },
            _ => self.call1(Rt::PrintInt, v),
        };
    }

    pub fn check_root(&mut self, op: UnOp)
        ensures
            final(self)@ == root_checked(old(self)@, op),
    {
        if op == UnOp::Sqrt && self.digits > 18 {
            let n: String = u128_text(self.digits as u128);
            self.refuse(
                cat3("a square root to ", n.as_str(), " places, which is more than the 18 AHPCL computes"),
            );
        }
    }

    fn unary_word(&mut self, op: UnOp, v: Operand) -> (r: Operand)
        ensures
            (final(self)@, r) == word_unary(old(self)@, op, v),
    {
        let zero: Operand = self.make(Inst::Word(0), Kind::Word);
        if op == UnOp::Neg {
            return self.checked(CheckedOp::Sub, zero, v);
        }
        let below: Operand = self.relate(Relation::Less, v, zero);
        let flip: usize = self.block();
        let done: usize = self.block();
        let slot: Operand = self.make(Inst::Slot(Kind::Word), Kind::Ptr);
        self.store(slot.at, v, Kind::Word);
        self.fork(below, flip, done);
        let _ = self.put(Inst::At(flip));
        let opposite: Operand = self.checked(CheckedOp::Sub, zero, v);
        self.store(slot.at, opposite, Kind::Word);
        let _ = self.put(Inst::Jump(done));
        let _ = self.put(Inst::At(done));
        self.make(Inst::Load { kind: Kind::Word, from: slot.at }, Kind::Word)
    }

    /// `-x`, `|x|`, `sqrt x`, `floor` and the rest, on whichever representation the operand
    /// has.
    pub fn unary_exact(&mut self, op: UnOp, way: UnaryWay, v: Operand, want: Native) -> (r: Operand)
        ensures
            (final(self)@, r) == unary_made(old(self)@, op, way, v, want),
    {
        proof {
            reveal(unary_made);
        }
        if way == UnaryWay::Word {
            let out: Operand = self.unary_word(op, v);
            return self.convert(out, Native::Int, want);
        }
        let places: u32 = self.digits;
        let tag: Operand = self.make(Inst::Small(tag_for_unary(op)), Kind::Small);
        let digits: Operand = self.make(Inst::Small(places), Kind::Small);
        match way {
            UnaryWay::Each => self.call3(Rt::ArrayUnary, tag, v, digits),
            UnaryWay::Rat => {
                let p: Operand = self.spill(v, Kind::Rat);
                let out: Operand = self.call_into3(Rt::RatUnary, tag, p, digits, Kind::Rat);
                self.convert(out, Native::Rat, want)
            },
            UnaryWay::Deci => {
                let p: Operand = self.spill(v, Kind::Deci);
                let out: Operand = self.call_into3(Rt::DeciUnary, tag, p, digits, Kind::Deci);
                self.convert(out, Native::Deci, want)
            },
            _ => {
                let out: Operand = self.call3(Rt::NumUnary, tag, v, digits);
                self.convert(out, Native::Num, want)
            },
        }
    }

    pub fn side(&mut self, s: Side, v: Operand) -> (r: Operand)
        ensures
            (final(self)@, r) == side_made(old(self)@, s, v),
    {
        match s {
            Side::As(_) => v,
            Side::Sum(_) => self.call1(Rt::ArraySum, v),
            Side::Spread(n) => self.spread(v, n),
        }
    }

    fn relate_ordering(&mut self, relation: Relation, c: Operand) -> (r: Operand)
        ensures
            (final(self)@, r) == ordering_related(old(self)@, relation, c),
    {
        let zero: Operand = self.make(Inst::Small(0), Kind::Small);
        self.relate(relation, c, zero)
    }

    /// Arithmetic and comparison on `num`, dispatched by the runtime on the tag each side
    /// actually carries.
    fn num_binary(&mut self, op: BinOp, a: Operand, b: Operand) -> (r: Operand)
        ensures
            (final(self)@, r) == nums_made(old(self)@, op, a, b),
    {
        match relation_for(op) {
            Some(relation) => {
                let c: Operand = self.call2(Rt::NumOrder, a, b);
                self.relate_ordering(relation, c)
            },
            None => match tag_for(op) {
                None => self.decline(cat2(operator_name(op), " on num")),
                Some(t) => {
                    let tag: Operand = self.make(Inst::Small(t), Kind::Small);
                    self.call3(Rt::NumBinary, tag, a, b)
                },
            },
        }
    }

    fn num_pinned(&mut self, op: BinOp, v: Operand, want: Native) -> (r: Operand)
        ensures
            (final(self)@, r) == nums_pinned(old(self)@, op, v, want),
    {
        if arithmetic(op) && want != Native::Num {
            self.convert(v, Native::Num, want)
        } else {
            v
        }
    }

    /// The four array operators, plus elementwise arithmetic and comparison.
    fn array_binary(&mut self, op: BinOp, a: Operand, b: Operand, want: Native) -> (r: Operand)
        ensures
            (final(self)@, r) == arrays_made(old(self)@, op, a, b, want),
    {
        match op {
            BinOp::Dot => {
                let out: Operand = self.call2(Rt::ArrayDot, a, b);
                if want.is_array() {
                    out
                } else {
                    let one: Operand = self.make(Inst::Word(1), Kind::Word);
                    self.array_load(out, one, want)
                }
            },
            BinOp::Cross => self.call2(Rt::ArrayCross, a, b),
            BinOp::Hadamard => self.call2(Rt::ArrayHadamard, a, b),
            BinOp::Tensor => self.call2(Rt::ArrayTensor, a, b),
            _ => match relation_for(op) {
                Some(relation) => {
                    let tag: Operand = self.make(Inst::Small(tag_for_relation(relation)), Kind::Small);
                    self.call3(Rt::ArrayRelate, tag, a, b)
                },
                None => match tag_for(op) {
                    Some(t) => if t < 4 {
                        let tag: Operand = self.make(Inst::Small(t), Kind::Small);
                        self.call3(Rt::ArrayElementwise, tag, a, b)
                    } else {
                        self.decline(cat2(operator_name(op), " on arrays"))
                    },
                    None => self.decline(cat2(operator_name(op), " on arrays")),
                },
            },
        }
    }

    fn decimal_binary(&mut self, op: BinOp, a: Operand, b: Operand) -> (r: Operand)
        ensures
            (final(self)@, r) == decis_made(old(self)@, op, a, b),
    {
        let pa: Operand = self.spill(a, Kind::Deci);
        let pb: Operand = self.spill(b, Kind::Deci);
        match relation_for(op) {
            Some(relation) => {
                let c: Operand = self.call2(Rt::DeciOrder, pa, pb);
                return self.relate_ordering(relation, c);
            },
            None => {},
        }
        match op {
            BinOp::Add => self.call_into2(Rt::DeciAdd, pa, pb, Kind::Deci),
            BinOp::Sub => self.call_into2(Rt::DeciSub, pa, pb, Kind::Deci),
            BinOp::Mul => self.call_into2(Rt::DeciMul, pa, pb, Kind::Deci),
            BinOp::Div => {
                let places: u32 = self.digits;
                let digits: Operand = self.make(Inst::Small(places), Kind::Small);
                self.call_into3(Rt::DeciDiv, pa, pb, digits, Kind::Deci)
            },
            BinOp::IntDiv => self.call2(Rt::DeciIntDiv, pa, pb),
            BinOp::Pow => {
                let tag: Operand = self.make(Inst::Small(4), Kind::Small);
                self.call_into3(Rt::DeciBinary, tag, pa, pb, Kind::Deci)
            },
            BinOp::Mod => {
                let tag: Operand = self.make(Inst::Small(6), Kind::Small);
                self.call_into3(Rt::DeciBinary, tag, pa, pb, Kind::Deci)
            },
            _ => self.decline(cat2(operator_name(op), " on decimals")),
        }
    }

    fn rational_binary(&mut self, op: BinOp, a: Operand, b: Operand) -> (r: Operand)
        ensures
            (final(self)@, r) == rats_made(old(self)@, op, a, b),
    {
        let pa: Operand = self.spill(a, Kind::Rat);
        let pb: Operand = self.spill(b, Kind::Rat);
        match relation_for(op) {
            Some(relation) => {
                let c: Operand = self.call2(Rt::RatOrder, pa, pb);
                return self.relate_ordering(relation, c);
            },
            None => {},
        }
        match op {
            BinOp::Add => self.call_into2(Rt::RatAdd, pa, pb, Kind::Rat),
            BinOp::Sub => self.call_into2(Rt::RatSub, pa, pb, Kind::Rat),
            BinOp::Mul => self.call_into2(Rt::RatMul, pa, pb, Kind::Rat),
            BinOp::Div => self.call_into2(Rt::RatDiv, pa, pb, Kind::Rat),
            _ => match tag_for(op) {
                Some(t) => {
                    let tag: Operand = self.make(Inst::Small(t), Kind::Small);
                    self.call_into3(Rt::RatBinary, tag, pa, pb, Kind::Rat)
                },
                None => self.decline(cat2(operator_name(op), " on rationals")),
            },
        }
    }

    fn text_binary(&mut self, op: BinOp, a: Operand, b: Operand) -> (r: Operand)
        ensures
            (final(self)@, r) == texts_made(old(self)@, op, a, b),
    {
        let pa: Operand = self.spill(a, Kind::Text);
        let pb: Operand = self.spill(b, Kind::Text);
        let c: Operand = self.call2(Rt::StrOrder, pa, pb);
        match relation_for(op) {
            Some(relation) => self.relate_ordering(relation, c),
            None => c,
        }
    }

    fn check_exponent(&mut self, exp: Operand)
        ensures
            final(self)@ == exponent_checked(old(self)@, exp),
    {
        proof {
            reveal(exponent_checked);
        }
        let least: Operand = self.make(Inst::Word(0), Kind::Word);
        let most: Operand = self.make(Inst::Word(0xffff_ffff), Kind::Word);
        let below: Operand = self.relate(Relation::Less, exp, least);
        let above: Operand = self.relate(Relation::Greater, exp, most);
        let out: Operand = self.make(Inst::Or(below.at, above.at), Kind::Bit);
        let bad: usize = self.block();
        let ok: usize = self.block();
        self.fork(out, bad, ok);
        let _ = self.put(Inst::At(bad));
        self.fail("AHPCL-PREC-0004", "this exponent is out of range");
        let _ = self.put(Inst::At(ok));
    }

    fn int_pow(&mut self, base: Operand, exp: Operand) -> (r: Operand)
        ensures
            (final(self)@, r) == power_made(old(self)@, base, exp),
    {
        self.check_exponent(exp);
        let acc: Operand = self.make(Inst::Slot(Kind::Word), Kind::Ptr);
        let counter: Operand = self.make(Inst::Slot(Kind::Word), Kind::Ptr);
        let one: Operand = self.make(Inst::Word(1), Kind::Word);
        let zero: Operand = self.make(Inst::Word(0), Kind::Word);
        self.store(acc.at, one, Kind::Word);
        self.store(counter.at, zero, Kind::Word);
        let cond: usize = self.block();
        let body: usize = self.block();
        let done: usize = self.block();
        let _ = self.put(Inst::Jump(cond));
        let _ = self.put(Inst::At(cond));
        let i: Operand = self.make(Inst::Load { kind: Kind::Word, from: counter.at }, Kind::Word);
        let more: Operand = self.relate(Relation::Less, i, exp);
        self.fork(more, body, done);
        let _ = self.put(Inst::At(body));
        let cur: Operand = self.make(Inst::Load { kind: Kind::Word, from: acc.at }, Kind::Word);
        let next: Operand = self.checked(CheckedOp::Mul, cur, base);
        self.store(acc.at, next, Kind::Word);
        let again: Operand = self.make(Inst::Load { kind: Kind::Word, from: counter.at }, Kind::Word);
        let up: Operand = self.make(Inst::Plus(again.at, one.at), Kind::Word);
        self.store(counter.at, up, Kind::Word);
        let _ = self.put(Inst::Jump(cond));
        let _ = self.put(Inst::At(done));
        self.make(Inst::Load { kind: Kind::Word, from: acc.at }, Kind::Word)
    }

    fn word_binary(&mut self, op: BinOp, a: Operand, b: Operand) -> (r: Operand)
        ensures
            (final(self)@, r) == words_made(old(self)@, op, a, b),
    {
        self.expect(a, Kind::Word);
        match relation_for(op) {
            Some(relation) => {
                return self.relate(relation, a, b);
            },
            None => {},
        }
        match op {
            BinOp::Add => self.checked(CheckedOp::Add, a, b),
            BinOp::Sub => self.checked(CheckedOp::Sub, a, b),
            BinOp::Mul => self.checked(CheckedOp::Mul, a, b),
            BinOp::IntDiv => self.call2(Rt::IntDiv, a, b),
            BinOp::Mod => self.call2(Rt::IntMod, a, b),
            BinOp::Pow => self.int_pow(a, b),
            BinOp::Div => self.decline_text("division between integers, whose result is a decimal or rational"),
            _ => self.decline(cat2("the operator ", operator_name(op))),
        }
    }

    fn logic_binary(&mut self, op: BinOp, a: Operand, b: Operand) -> (r: Operand)
        ensures
            (final(self)@, r) == logic_made(old(self)@, op, a, b),
    {
        self.expect(a, Kind::Bit);
        self.expect(b, Kind::Bit);
        if op == BinOp::And {
            self.make(Inst::And(a.at, b.at), Kind::Bit)
        } else {
            self.make(Inst::Or(a.at, b.at), Kind::Bit)
        }
    }

    pub fn check_texts(&mut self, op: BinOp, way: BinaryWay)
        ensures
            final(self)@ == texts_checked(old(self)@, op, way),
    {
        if way == BinaryWay::Texts && relation_for(op).is_none() {
            self.refuse(cat2(operator_name(op), " on text"));
        }
    }

    /// A binary operator on sides that are values already.
    pub fn binary(&mut self, op: BinOp, way: BinaryWay, a: Operand, b: Operand, want: Native) -> (r: Operand)
        ensures
            (final(self)@, r) == binary_made(old(self)@, op, way, a, b, want),
    {
        proof {
            reveal(binary_made);
        }
        match way {
            BinaryWay::Logic => self.logic_binary(op, a, b),
            BinaryWay::Reduced { .. } | BinaryWay::Nums => {
                let v: Operand = self.num_binary(op, a, b);
                self.num_pinned(op, v, want)
            },
            BinaryWay::Arrays => self.array_binary(op, a, b, want),
            BinaryWay::Texts => self.text_binary(op, a, b),
            BinaryWay::Rats => self.rational_binary(op, a, b),
            BinaryWay::Decis => self.decimal_binary(op, a, b),
            BinaryWay::Words => self.word_binary(op, a, b),
        }
    }

    fn parse_option(&mut self, r: Reading, name: &str, value: &Option<Box<Expr>>) -> (out: Reading)
        ensures
            (final(self)@, out) == option_read(old(self)@, r, name@, *value),
    {
        match flag_for(name) {
            Some(bit) => {
                return Reading { flags: r.flags | bit, group: r.group, decimal: r.decimal };
            },
            None => {},
        }
        if !(same_text(name, "group") || same_text(name, "decimal")) {
            self.refuse(cat3("the parse option '", name, "'"));
            return r;
        }
        let text: &str = match value {
            None => {
                self.refuse(cat3("'", name, "' without a value"));
                return r;
            },
            Some(v) => match &v.kind {
                ExprKind::Str(t) => t.as_str(),
                ExprKind::Literal(t) => t.as_str(),
                _ => {
                    self.refuse_text("a non-literal separator");
                    return r;
                },
            },
        };
        let all: Vec<char> = chars_of(text);
        let n: usize = if all.len() > 0 {
            1
        } else {
            0
        };
        let first: String = text_of(slice_subrange(all.as_slice(), 0, n));
        assert(first@ =~= first_of(text@));
        let held: Operand = self.text(first.as_str());
        let slot: Operand = self.spill(held, Kind::Text);
        if same_text(name, "group") {
            Reading { flags: r.flags, group: Some(slot), decimal: r.decimal }
        } else {
            Reading { flags: r.flags, group: r.group, decimal: Some(slot) }
        }
    }

    fn parse_options(&mut self, args: &Vec<Expr>) -> (out: Reading)
        ensures
            (final(self)@, out) == options_read(
                old(self)@,
                Reading { flags: 0, group: None, decimal: None },
                args@,
                1,
            ),
    {
        let mut r: Reading = Reading { flags: 0, group: None, decimal: None };
        let mut i: usize = 1;
        while i < args.len()
            invariant
                1 <= i,
                options_read(old(self)@, Reading { flags: 0, group: None, decimal: None }, args@, 1)
                    == options_read(self@, r, args@, i as nat),
            decreases args@.len() - i,
        {
            match &args[i].kind {
                ExprKind::Option { name, value } => {
                    r = self.parse_option(r, name.as_str(), value);
                },
                _ => {
                    self.refuse_text("a parse argument that is not an option");
                },
            }
            i = i + 1;
        }
        r
    }

    fn or_null(&mut self, v: Option<Operand>) -> (r: Operand)
        ensures
            (final(self)@, r) == or_null(old(self)@, v),
    {
        match v {
            Some(o) => o,
            None => self.make(Inst::Null, Kind::Ptr),
        }
    }

    /// `parse`, for a text that is a value already.
    pub fn parse(&mut self, text: Operand, args: &Vec<Expr>, want: Native) -> (r: Operand)
        ensures
            (final(self)@, r) == parse_made(old(self)@, text, args@, want),
    {
        proof {
            reveal(parse_made);
        }
        let p: Operand = self.spill(text, Kind::Text);
        let r: Reading = self.parse_options(args);
        let g: Operand = self.or_null(r.group);
        let d: Operand = self.or_null(r.decimal);
        let flags: Operand = self.make(Inst::Long(r.flags), Kind::Long);
        let all: Vec<Operand> = vec![p, flags, g, d];
        assert(all@ =~= seq![p, flags, g, d]);
        match want {
            Native::Rat => self.call_into(Rt::ParseRat, all, Kind::Rat),
            Native::Deci => self.call_into(Rt::ParseDeci, all, Kind::Deci),
            _ => self.call(Rt::ParseInt, all),
        }
    }

    /// `read`, for a path that is a value already.
    pub fn read(&mut self, path: Operand) -> (r: Operand)
        ensures
            (final(self)@, r) == read_made(old(self)@, path),
    {
        proof {
            reveal(read_made);
        }
        let p: Operand = self.spill(path, Kind::Text);
        let v: Operand = self.call_into1(Rt::ReadFile, p, Kind::Text);
        self.record(v, Native::Str);
        v
    }
}

fn flag_for(name: &str) -> (r: Option<u64>)
    ensures
        r == flag_bit(name@),
{
    if same_text(name, "trim") {
        Some(1)
    } else if same_text(name, "scientific") {
        Some(2)
    } else if same_text(name, "hex") {
        Some(4)
    } else if same_text(name, "unicode-digits") {
        Some(8)
    } else if same_text(name, "fraction") {
        Some(16)
    } else {
        None
    }
}

fn arithmetic(op: BinOp) -> (r: bool)
    ensures
        r == is_arithmetic(op),
{
    relation_for(op).is_none() && op != BinOp::And && op != BinOp::Or
}

/// How a unary operator is carried out.
pub fn way_of_unary(op: UnOp, held: Native, bare: bool) -> (r: UnaryWay)
    ensures
        r == unary_way(op, held, bare),
{
    let sign: bool = op == UnOp::Neg || op == UnOp::Abs;
    if held.is_array() && !bare {
        UnaryWay::Each
    } else if held == Native::Int && sign {
        UnaryWay::Word
    } else if held == Native::Rat && sign {
        UnaryWay::Rat
    } else if held == Native::Deci && (sign || op == UnOp::Sqrt) {
        UnaryWay::Deci
    } else {
        UnaryWay::Num
    }
}

pub fn wants_of_unary(way: UnaryWay, held: Native) -> (r: Native)
    ensures
        r == unary_wants(way, held),
{
    match way {
        UnaryWay::Each => held,
        UnaryWay::Word => Native::Int,
        UnaryWay::Rat => Native::Rat,
        UnaryWay::Deci => Native::Deci,
        UnaryWay::Num => Native::Num,
    }
}

/// How a binary operator is carried out.
pub fn way_of_binary(op: BinOp, l: Native, r: Native, bare_l: bool, bare_r: bool, want: Native) -> (out: BinaryWay)
    ensures
        out == binary_way(op, l, r, bare_l, bare_r, want),
{
    let sum_l: bool = bare_l && l.is_array();
    let sum_r: bool = bare_r && r.is_array();
    if op == BinOp::And || op == BinOp::Or {
        BinaryWay::Logic
    } else if !implies_all(op) && (sum_l || sum_r) {
        BinaryWay::Reduced { lhs: sum_l, rhs: sum_r }
    } else if implies_all(op) || l.is_array() || r.is_array() {
        BinaryWay::Arrays
    } else if l == Native::Str || r == Native::Str {
        BinaryWay::Texts
    } else if l == Native::Num || r == Native::Num || (arithmetic(op) && want == Native::Num) {
        BinaryWay::Nums
    } else if l == Native::Rat || r == Native::Rat || (arithmetic(op) && want == Native::Rat) {
        BinaryWay::Rats
    } else if l == Native::Deci || r == Native::Deci || (arithmetic(op) && want == Native::Deci) {
        BinaryWay::Decis
    } else {
        BinaryWay::Words
    }
}

/// How one side of an operator is evaluated.
pub fn way_of_side(op: BinOp, way: BinaryWay, left: bool, repr: Native, want: Native) -> (r: Side)
    ensures
        r == side_of(op, way, left, repr, want),
{
    match way {
        BinaryWay::Logic => Side::As(Native::Bool),
        BinaryWay::Reduced { lhs, rhs } => {
            let sum: bool = if left {
                lhs
            } else {
                rhs
            };
            if sum {
                Side::Sum(repr)
            } else {
                Side::As(Native::Num)
            }
        },
        BinaryWay::Arrays => if repr.is_array() {
            Side::As(repr)
        } else if repr == Native::Int && relation_for(op).is_none() && want.is_array() {
            Side::Spread(want.element())
        } else {
            Side::Spread(repr)
        },
        BinaryWay::Texts => Side::As(Native::Str),
        BinaryWay::Nums => Side::As(Native::Num),
        BinaryWay::Rats => Side::As(Native::Rat),
        BinaryWay::Decis => Side::As(Native::Deci),
        BinaryWay::Words => Side::As(Native::Int),
    }
}

pub fn native_of_side(s: Side) -> (r: Native)
    ensures
        r == side_native(s),
{
    match s {
        Side::As(n) => n,
        Side::Sum(n) => n,
        Side::Spread(n) => n,
    }
}

} // verus!
