//! What each part of a program is lowered to.

use vstd::prelude::*;

use crate::ast::{
    Binding, ChangeStmt, ChangeTarget, Expr, ExprKind, FuncDecl, IfChain, LoopKind, LoopStmt, Param,
    Precision, Program, Selector, Stmt, VarDecl,
};
use crate::codegen::native::{
    array_like, counted, element_of, kind_of, literal_dims, mangled, native_of, peeled, rank_of, singles,
    tag_of, Native, DEFAULT_DIGITS,
};
use crate::codegen::runtime::{Kind, Rt};
use crate::codegen::steps::{
    array_made, binary_made, binary_way, constant_made, converted, declined, element_loaded, element_pushed,
    element_stored, literal_made, no_value, parse_made, printed, read_made, root_checked, side_made,
    side_native, side_of, texts_checked, unary_made, unary_way, unary_wants,
};
use crate::codegen::work::{
    called, called_into, chars_made, declared, expecting, expecting_all, failing, forked, function_named,
    kept, let_go, looked_up, made, natural, opened, put, refused, related, scope_released, scopes_released,
    stored, stored_at, temps_released, text_made, with_args, with_frame, without_frame, wrong_kind, CheckedOp,
    Handback, Inst, Operand, Relation, SigView, WorkView,
};
use crate::codegen::wellformed::{surroundings, well_formed};
use crate::eval::semantics::bare;

verus! {

// ── places ──────────────────────────────────────────────────────────────────

pub open spec fn with_handback(w: WorkView, h: Handback) -> WorkView {
    WorkView { handbacks: w.handbacks.push(h), ..w }
}

pub open spec fn without_handback(w: WorkView) -> WorkView {
    WorkView { handbacks: if w.handbacks.len() > 0 { w.handbacks.drop_last() } else { w.handbacks }, ..w }
}

pub open spec fn with_continue(w: WorkView, block: usize) -> WorkView {
    WorkView { continues: w.continues.push(block), ..w }
}

pub open spec fn without_continue(w: WorkView) -> WorkView {
    WorkView { continues: if w.continues.len() > 0 { w.continues.drop_last() } else { w.continues }, ..w }
}

pub open spec fn with_digits(w: WorkView, digits: u32) -> WorkView {
    WorkView { digits, ..w }
}

/// The temporaries recorded since `mark` forgotten: the statement branched away, so there
/// is no block left to release them in.
pub open spec fn temps_forgotten(w: WorkView, mark: nat) -> WorkView {
    WorkView { temps: if mark < w.temps.len() { w.temps.take(mark as int) } else { w.temps }, ..w }
}

/// On to a block, unless the code before it has left already.
pub open spec fn joined(w: WorkView, left: bool, block: usize) -> WorkView {
    if left {
        w
    } else {
        put(w, Inst::Jump(block))
    }
}

// ── expressions ─────────────────────────────────────────────────────────────

/// The value of an expression, in the representation its context wants where the
/// expression can be had in it.
#[verifier::opaque]
pub open spec fn expr_made(w: WorkView, e: Expr, want: Native) -> (WorkView, Operand)
    decreases e, 1nat,
{
    match e.kind {
        ExprKind::Math(inner) => expr_made(w, *inner, want),
        ExprKind::Number(t) => literal_made(w, t@, want),
        ExprKind::Literal(t) => literal_made(w, t@, want),
        ExprKind::Ref { name, selectors } => match looked_up(w, name@) {
            None => declined(w, "the variable '"@ + name@ + "'"@),
            Some((slot, held)) => {
                let (w1, loaded) = made(w, Inst::Load { kind: kind_of(held), from: slot }, kind_of(held));
                if array_like(held) {
                    let (w2, out) = selected(
                        w1,
                        selectors,
                        0,
                        0,
                        loaded,
                        rank_of(held),
                        element_of(held),
                        want,
                    );
                    // A bare reference reduces to the sum of its elements wherever a
                    // single value is wanted.
                    if selectors@.len() == 0 && !array_like(want) && !(want is Nothing) {
                        let (w3, total) = called(w2, Rt::ArraySum, seq![out]);
                        converted(w3, total, Native::Num, want)
                    } else {
                        (w2, out)
                    }
                } else if selectors@.len() > 0 {
                    declined(w1, "selectors on a value that is not an array"@)
                } else {
                    converted(w1, loaded, held, want)
                }
            },
        },
        ExprKind::Unary { op, operand } => if op is Not {
            let (w1, v) = expr_made(w, *operand, Native::Bool);
            made(expecting(w1, v, Kind::Bit), Inst::Not(v.at), Kind::Bit)
        } else {
            let held = natural(w, *operand);
            let way = unary_way(op, held, bare(*operand));
            let (w1, v) = expr_made(root_checked(w, op), *operand, unary_wants(way, held));
            unary_made(w1, op, way, v, want)
        },
        ExprKind::Binary { op, lhs, rhs } => {
            let l = natural(w, *lhs);
            let r = natural(w, *rhs);
            let way = binary_way(op, l, r, bare(*lhs), bare(*rhs), want);
            let left = side_of(op, way, true, l, want);
            let right = side_of(op, way, false, r, want);
            let (w1, x) = expr_made(texts_checked(w, op, way), *lhs, side_native(left));
            let (w2, a) = side_made(w1, left, x);
            let (w3, y) = expr_made(w2, *rhs, side_native(right));
            let (w4, b) = side_made(w3, right, y);
            binary_made(w4, op, way, a, b, want)
        },
        ExprKind::Call { name, args } => {
            let (w1, v, ret) = call_made(w, name@, args, true);
            if ret is Nothing {
                declined(w1, "using a none-producing call as a value"@)
            } else {
                converted(w1, v, ret, want)
            }
        },
        ExprKind::Builtin { name, args } => builtin_made(w, name@, args, want),
        ExprKind::ArrayLit(items) => {
            let elem = if array_like(want) {
                element_of(want)
            } else {
                want
            };
            let (w1, array) = array_made(w, elem, literal_dims(items));
            (items_made(w1, items, 0, elem, array, 1).0, array)
        },
        ExprKind::If(chain) => if_value(w, chain, want),
        ExprKind::Loop(l) => loop_value(w, *l, want),
        ExprKind::Constant(c) => constant_made(w, c, want),
        ExprKind::Str(t) => text_made(w, t@),
        ExprKind::Range { .. } => declined(w, "a range outside a loop"@),
        ExprKind::Option { .. } => declined(w, "builtin options"@),
    }
}

pub open spec fn param_kinds(params: Seq<Native>) -> Seq<Kind> {
    Seq::new(params.len(), |i: int| kind_of(params[i]))
}

pub open spec fn ret_kind(n: Native) -> Option<Kind> {
    if n is Nothing {
        None
    } else {
        Some(kind_of(n))
    }
}

/// The arguments of a call from the `i`-th on, behind those in `acc`.
#[verifier::opaque]
pub open spec fn args_made(
    w: WorkView,
    args: Vec<Expr>,
    i: nat,
    params: Seq<Native>,
    strict: bool,
    acc: Seq<Operand>,
) -> (WorkView, Seq<Operand>)
    decreases args, args@.len() - i,
{
    if i >= args@.len() {
        (w, acc)
    } else {
        let w0 = if strict && i >= params.len() {
            refused(w, "too many arguments"@)
        } else {
            w
        };
        let want = if i < params.len() {
            params[i as int]
        } else {
            Native::Int
        };
        let (w1, v) = expr_made(w0, args@[i as int], want);
        args_made(w1, args, i + 1, params, strict, acc.push(v))
    }
}

/// A call of a function of the program, and what it hands back.
#[verifier::opaque]
pub open spec fn call_made(w: WorkView, name: Seq<char>, args: Vec<Expr>, strict: bool) -> (
    WorkView,
    Operand,
    Native,
)
    decreases args, args@.len() + 1,
{
    match function_named(w.fns, name, w.fns.len()) {
        None => (refused(w, "the function '"@ + name + "'"@), no_value(), Native::Int),
        Some(i) => {
            let sig = w.fns[i as int];
            let (w1, vs) = args_made(w, args, 0, sig.params, strict, Seq::empty());
            let ready = with_args(expecting_all(w1, vs, param_kinds(sig.params)), vs, 0);
            let (w2, v) = made(ready, Inst::CallFn { index: i, gives: ret_kind(sig.ret) }, kind_of(sig.ret));
            (w2, v, sig.ret)
        },
    }
}

/// `read`, `parse` and `clock`.
#[verifier::opaque]
pub open spec fn builtin_made(w: WorkView, name: Seq<char>, args: Vec<Expr>, want: Native) -> (WorkView, Operand)
    decreases args, args@.len() + 1,
{
    if name == "read"@ {
        let (w1, path) = if args@.len() > 0 {
            expr_made(w, args@[0], Native::Str)
        } else {
            text_made(w, ""@)
        };
        read_made(w1, path)
    } else if name == "parse"@ {
        if args@.len() == 0 {
            declined(w, "parse without a value"@)
        } else {
            let (w1, text) = expr_made(w, args@[0], Native::Str);
            parse_made(w1, text, args@, want)
        }
    } else if name == "clock"@ {
        called_into(w, Rt::Clock, Seq::empty(), Kind::Deci)
    } else {
        declined(w, "the builtin '"@ + name + "'"@)
    }
}

pub open spec fn next_index(n: u64) -> u64 {
    if n == u64::MAX {
        0
    } else {
        (n + 1) as u64
    }
}

/// The leaves of a nested literal, left to right, stored from index `next` on.
#[verifier::opaque]
pub open spec fn items_made(
    w: WorkView,
    items: Vec<Expr>,
    i: nat,
    elem: Native,
    array: Operand,
    next: u64,
) -> (WorkView, u64)
    decreases items, items@.len() - i,
{
    if i >= items@.len() {
        (w, next)
    } else {
        let (w1, n) = item_made(w, items@[i as int], elem, array, next);
        items_made(w1, items, i + 1, elem, array, n)
    }
}

#[verifier::opaque]
pub open spec fn item_made(w: WorkView, item: Expr, elem: Native, array: Operand, next: u64) -> (WorkView, u64)
    decreases item, 2nat,
{
    match item.kind {
        ExprKind::ArrayLit(inner) => items_made(w, inner, 0, elem, array, next),
        _ => {
            let (w1, v) = expr_made(w, item, elem);
            let (w2, index) = made(w1, Inst::Word(next as i128), Kind::Word);
            (element_stored(w2, array, index, v, elem), next_index(next))
        },
    }
}

// ── selectors ───────────────────────────────────────────────────────────────

/// A selector chain applied to an array, from the `i`-th selector on, those from `from` to
/// `i` being the run in hand.
///
/// `:length;` and `:shape;` answer a question about the whole array and end a run, while
/// everything else addresses one dimension of it, in order.
#[verifier::opaque]
pub open spec fn selected(
    w: WorkView,
    sels: Vec<Selector>,
    from: nat,
    i: nat,
    current: Operand,
    rank: u32,
    elem: Native,
    want: Native,
) -> (WorkView, Operand)
    decreases sels, sels@.len() + 2 + (if i < sels@.len() { sels@.len() - i } else { 0 }),
{
    if i >= sels@.len() {
        if from < sels@.len() && singles(sels@, from, sels@.len()) == sels@.len() - from && sels@.len() - from
            == rank && !array_like(want) {
            let (w1, index) = index_made(w, sels, from, current);
            let (w2, v) = element_loaded(w1, current, index, elem);
            converted(w2, v, elem, want)
        } else {
            run_made(w, sels, from, sels@.len(), current)
        }
    } else {
        match sels@[i as int] {
            Selector::Length => {
                let (w1, array) = run_made(w, sels, from, i, current);
                let (w2, n) = called(w1, Rt::ArrayLen, seq![array]);
                converted(w2, n, Native::Int, want)
            },
            Selector::Shape => {
                let (w1, array) = run_made(w, sels, from, i, current);
                let (w2, shape) = called(w1, Rt::ArrayShape, seq![array]);
                selected(w2, sels, i + 1, i + 1, shape, 1, elem, want)
            },
            _ => selected(w, sels, from, i + 1, current, rank, elem, want),
        }
    }
}

/// The one index that a selector names.
#[verifier::opaque]
pub open spec fn single_made(w: WorkView, sel: Selector) -> (WorkView, Operand)
    decreases sel, 0nat,
{
    match sel {
        Selector::Indices(ix) => if ix@.len() > 0 {
            expr_made(w, ix@[0], Native::Int)
        } else {
            (w, no_value())
        },
        _ => (w, no_value()),
    }
}

/// The element that one index per dimension addresses. The runtime knows the shape, so it
/// does the row-major arithmetic.
#[verifier::opaque]
pub open spec fn index_made(w: WorkView, sels: Vec<Selector>, from: nat, array: Operand) -> (WorkView, Operand)
    decreases sels, sels@.len() + 1,
{
    if sels@.len() == from + 1 {
        single_made(w, sels@[from as int])
    } else {
        let n = (sels@.len() - from) as u128;
        let (w1, buffer) = made(w, Inst::Slots { kind: Kind::Word, count: n }, Kind::Ptr);
        let w2 = picks_made(w1, sels, from, from, buffer.at);
        let (w3, count) = made(w2, Inst::Word(n as i128), Kind::Word);
        called(w3, Rt::ArrayOffset, seq![array, buffer, count])
    }
}

#[verifier::opaque]
pub open spec fn picks_made(w: WorkView, sels: Vec<Selector>, from: nat, k: nat, buffer: usize) -> WorkView
    decreases sels, (if k < sels@.len() { sels@.len() - k } else { 0 }),
{
    if k >= sels@.len() {
        w
    } else {
        let (w1, v) = single_made(w, sels@[k as int]);
        picks_made(stored_at(w1, buffer, Kind::Word, (k - from) as u128, v), sels, from, k + 1, buffer)
    }
}

/// One selector of a run, as the runtime is told about it.
#[derive(Debug, Clone, Copy, PartialEq, Eq, Structural)]
pub struct Described {
    pub tag: u32,
    pub from: Option<Operand>,
    pub to: Option<Operand>,
    pub by: Option<Operand>,
    pub buffer: Option<Operand>,
    pub count: u64,
}

/// The four lists that describe a run. They are parallel lists of one primitive each,
/// because two sides may disagree about the layout of a struct.
#[derive(Debug, Clone, Copy, PartialEq, Eq, Structural)]
pub struct RunLists {
    pub kinds: usize,
    pub bounds: usize,
    pub buffers: usize,
    pub counts: usize,
}

pub open spec fn word_or_zero(w: WorkView, v: Option<Operand>) -> (WorkView, Operand) {
    match v {
        Some(o) => (w, o),
        None => made(w, Inst::Word(0), Kind::Word),
    }
}

pub open spec fn bound_stored(w: WorkView, bounds: usize, index: u128, v: Option<Operand>) -> WorkView {
    let (w1, o) = word_or_zero(w, v);
    stored_at(w1, bounds, Kind::Word, index, o)
}

pub open spec fn ptr_or_null(w: WorkView, v: Option<Operand>) -> (WorkView, Operand) {
    match v {
        Some(o) => (w, o),
        None => made(w, Inst::Null, Kind::Ptr),
    }
}

/// One selector written into the lists at position `k`.
#[verifier::opaque]
pub open spec fn described(w: WorkView, d: Described, k: u128, lists: RunLists) -> WorkView {
    let (w1, tag) = made(w, Inst::Small(d.tag), Kind::Small);
    let w2 = stored_at(w1, lists.kinds, Kind::Small, k, tag);
    let w3 = bound_stored(w2, lists.bounds, (k * 3) as u128, d.from);
    let w4 = bound_stored(w3, lists.bounds, (k * 3 + 1) as u128, d.to);
    let w5 = bound_stored(w4, lists.bounds, (k * 3 + 2) as u128, d.by);
    let (w6, buffer) = ptr_or_null(w5, d.buffer);
    let w7 = stored_at(w6, lists.buffers, Kind::Ptr, k, buffer);
    let (w8, count) = made(w7, Inst::Long(d.count), Kind::Long);
    stored_at(w8, lists.counts, Kind::Long, k, count)
}

#[verifier::opaque]
pub open spec fn indices_made(w: WorkView, ix: Vec<Expr>, j: nat, list: usize) -> WorkView
    decreases ix, ix@.len() - j,
{
    if j >= ix@.len() {
        w
    } else {
        let (w1, v) = expr_made(w, ix@[j as int], Native::Int);
        indices_made(stored_at(w1, list, Kind::Word, j as u128, v), ix, j + 1, list)
    }
}

/// The step of a range: 1 where none is written.
#[verifier::opaque]
pub open spec fn step_made(w: WorkView, by: Option<Box<Expr>>) -> (WorkView, Operand)
    decreases by, 0nat,
{
    match by {
        Some(e) => expr_made(w, *e, Native::Int),
        None => made(w, Inst::Word(1), Kind::Word),
    }
}

#[verifier::opaque]
pub open spec fn selector_made(w: WorkView, sel: Selector) -> (WorkView, Described)
    decreases sel, 0nat,
{
    match sel {
        Selector::Indices(ix) => {
            let (w1, list) = made(w, Inst::Slots { kind: Kind::Word, count: ix@.len() as u128 }, Kind::Ptr);
            let w2 = indices_made(w1, ix, 0, list.at);
            (
                w2,
                Described {
                    tag: 1,
                    from: None,
                    to: None,
                    by: None,
                    buffer: Some(list),
                    count: ix@.len() as u64,
                },
            )
        },
        Selector::Range { from, to, by } => {
            let (w1, f) = expr_made(w, *from, Native::Int);
            let (w2, t) = expr_made(w1, *to, Native::Int);
            let (w3, b) = step_made(w2, by);
            (w3, Described { tag: 2, from: Some(f), to: Some(t), by: Some(b), buffer: None, count: 0 })
        },
        _ => (w, Described { tag: 0, from: None, to: None, by: None, buffer: None, count: 0 }),
    }
}

#[verifier::opaque]
pub open spec fn run_described(w: WorkView, sels: Vec<Selector>, from: nat, k: nat, to: nat, lists: RunLists) -> WorkView
    decreases sels, (if k < to && k < sels@.len() { sels@.len() - k } else { 0 }),
{
    if k >= to || k >= sels@.len() {
        w
    } else {
        let (w1, d) = selector_made(w, sels@[k as int]);
        run_described(described(w1, d, (k - from) as u128, lists), sels, from, k + 1, to, lists)
    }
}

/// One run of dimension selectors applied.
#[verifier::opaque]
pub open spec fn run_made(w: WorkView, sels: Vec<Selector>, from: nat, to: nat, current: Operand) -> (
    WorkView,
    Operand,
)
    decreases sels, sels@.len() + 1,
{
    if from >= to {
        (w, current)
    } else {
        let n = (to - from) as u128;
        let (w1, kinds) = made(w, Inst::Slots { kind: Kind::Small, count: n }, Kind::Ptr);
        let (w2, bounds) = made(w1, Inst::Slots { kind: Kind::Word, count: (n * 3) as u128 }, Kind::Ptr);
        let (w3, buffers) = made(w2, Inst::Slots { kind: Kind::Ptr, count: n }, Kind::Ptr);
        let (w4, counts) = made(w3, Inst::Slots { kind: Kind::Long, count: n }, Kind::Ptr);
        let lists = RunLists { kinds: kinds.at, bounds: bounds.at, buffers: buffers.at, counts: counts.at };
        let w5 = run_described(w4, sels, from, from, to, lists);
        let (w6, count) = made(w5, Inst::Word(n as i128), Kind::Word);
        called(w6, Rt::ArraySelectRun, seq![current, kinds, bounds, buffers, counts, count])
    }
}

// ── conditionals ────────────────────────────────────────────────────────────

/// The arms of a conditional from the `i`-th on, and whether every arm so far leaves.
#[verifier::opaque]
pub open spec fn arms_made(w: WorkView, chain: IfChain, i: nat, merge: usize, all: bool) -> (WorkView, bool)
    decreases chain, chain.arms@.len() - i,
{
    if i >= chain.arms@.len() {
        (w, all)
    } else {
        match chain.arms@[i as int].condition {
            Some(c) => {
                let (w1, test) = expr_made(w, c, Native::Bool);
                let (w2, yes) = opened(w1);
                let (w3, no) = opened(w2);
                let w4 = put(forked(w3, test, yes, no), Inst::At(yes));
                let (w5, left) = scoped_made(w4, chain.arms@[i as int].body);
                arms_made(put(joined(w5, left, merge), Inst::At(no)), chain, i + 1, merge, all && left)
            },
            None => {
                let (w1, left) = scoped_made(w, chain.arms@[i as int].body);
                arms_made(joined(w1, left, merge), chain, i + 1, merge, all && left)
            },
        }
    }
}

/// A conditional as a statement, and whether every path leaves.
#[verifier::opaque]
pub open spec fn if_made(w: WorkView, chain: IfChain) -> (WorkView, bool)
    decreases chain, chain.arms@.len() + 1,
{
    let (w1, merge) = opened(w);
    let (w2, all) = arms_made(w1, chain, 0, merge, true);
    let w3 = put(joined(w2, !w2.open, merge), Inst::At(merge));
    if all && !w2.open {
        (put(w3, Inst::Unreachable), true)
    } else {
        (w3, false)
    }
}

/// The arms of a conditional used for its value: each hands back into one slot, and every
/// path meets at a single merge point.
#[verifier::opaque]
pub open spec fn value_arms(w: WorkView, chain: IfChain, i: nat, slot: usize, want: Native, merge: usize) -> WorkView
    decreases chain, chain.arms@.len() - i,
{
    if i >= chain.arms@.len() {
        w
    } else {
        let (w1, body) = opened(w);
        let (w2, next) = opened(w1);
        let w3 = match chain.arms@[i as int].condition {
            Some(c) => {
                let (x, test) = expr_made(w2, c, Native::Bool);
                forked(x, test, body, next)
            },
            None => put(w2, Inst::Jump(body)),
        };
        let w4 = with_handback(put(w3, Inst::At(body)), Handback::Store { slot, native: want, merge });
        let (w5, left) = scoped_made(w4, chain.arms@[i as int].body);
        let w6 = joined(without_handback(w5), left, merge);
        value_arms(put(w6, Inst::At(next)), chain, i + 1, slot, want, merge)
    }
}

/// A conditional used for its value.
#[verifier::opaque]
pub open spec fn if_value(w: WorkView, chain: IfChain, want: Native) -> (WorkView, Operand)
    decreases chain, chain.arms@.len() + 1,
{
    let (w1, slot) = made(w, Inst::Slot(kind_of(want)), Kind::Ptr);
    let (w2, merge) = opened(w1);
    let w3 = value_arms(w2, chain, 0, slot.at, want, merge);
    let w4 = put(put(w3, Inst::Jump(merge)), Inst::At(merge));
    made(w4, Inst::Load { kind: kind_of(want), from: slot.at }, kind_of(want))
}

// ── loops ───────────────────────────────────────────────────────────────────

#[derive(Debug, Clone, Copy, PartialEq, Eq, Structural)]
pub struct Bounds {
    pub start: Operand,
    pub end: Operand,
    pub step: Operand,
}

/// A bound must be a whole number.
pub open spec fn whole_bound(w: WorkView, v: Operand) -> WorkView {
    if v.kind == Kind::Word {
        w
    } else {
        refused(w, "a loop bound that is not a whole number"@)
    }
}

#[verifier::opaque]
pub open spec fn range_made(w: WorkView, e: Expr) -> (WorkView, Bounds)
    decreases e, 1nat,
{
    match e.kind {
        ExprKind::Range { from, to, by } => {
            let (w1, start) = expr_made(w, *from, Native::Int);
            let (w2, end) = expr_made(whole_bound(w1, start), *to, Native::Int);
            let (w3, step) = step_made(whole_bound(w2, end), by);
            (whole_bound(w3, step), Bounds { start, end, step })
        },
        _ => (
            refused(w, "a counted loop without a range"@),
            Bounds { start: no_value(), end: no_value(), step: no_value() },
        ),
    }
}

#[verifier::opaque]
pub open spec fn bounds_made(w: WorkView, range: Expr) -> (WorkView, Bounds)
    decreases range, 2nat,
{
    match range.kind {
        ExprKind::Math(inner) => range_made(w, *inner),
        _ => range_made(w, range),
    }
}

/// The blocks of a loop.
#[derive(Debug, Clone, Copy, PartialEq, Eq, Structural)]
pub struct LoopBlocks {
    pub cond: usize,
    pub body: usize,
    pub done: usize,
    /// Where the counter advances, and where a `handback` ends an iteration.
    pub step: usize,
    pub slot: usize,
}

/// What comes before a counted loop's body: a step of 0, which would never finish, is
/// refused, and the counter runs up to the end, or down where the step is negative.
#[verifier::opaque]
pub open spec fn loop_entered(w: WorkView, b: Bounds) -> (WorkView, LoopBlocks) {
    let (w1, zero) = made(w, Inst::Word(0), Kind::Word);
    let (w2, still) = related(w1, Relation::Equal, b.step, zero);
    let (w3, bad) = opened(w2);
    let (w4, ok) = opened(w3);
    let w5 = put(forked(w4, still, bad, ok), Inst::At(bad));
    let w6 = put(failing(w5, "AHPCL-RUN-0001"@, "a loop step of 0 would never finish"@), Inst::At(ok));
    let (w7, slot) = made(w6, Inst::Slot(Kind::Word), Kind::Ptr);
    let w8 = stored(w7, slot.at, b.start, Kind::Word);
    let (w9, cond) = opened(w8);
    let (w10, body) = opened(w9);
    let (w11, done) = opened(w10);
    let w12 = put(put(w11, Inst::Jump(cond)), Inst::At(cond));
    let (w13, i) = made(w12, Inst::Load { kind: Kind::Word, from: slot.at }, Kind::Word);
    let (w14, up) = related(w13, Relation::Greater, b.step, zero);
    let (w15, le) = related(w14, Relation::LessEqual, i, b.end);
    let (w16, ge) = related(w15, Relation::GreaterEqual, i, b.end);
    let (w17, more) = made(
        w16,
        Inst::Select { kind: Kind::Bit, test: up.at, yes: le.at, no: ge.at },
        Kind::Bit,
    );
    let w18 = forked(w17, more, body, done);
    let (w19, step) = opened(w18);
    (put(w19, Inst::At(body)), LoopBlocks { cond, body, done, step, slot: slot.at })
}

/// What comes behind a counted loop's body. A counter that cannot be advanced has run
/// past its end.
#[verifier::opaque]
pub open spec fn loop_left(w: WorkView, b: Bounds, l: LoopBlocks) -> WorkView {
    let w1 = put(w, Inst::At(l.step));
    let (w2, cur) = made(w1, Inst::Load { kind: Kind::Word, from: l.slot }, Kind::Word);
    let (w3, pair) = made(
        expecting(w2, b.step, Kind::Word),
        Inst::Checked { op: CheckedOp::Add, lhs: cur.at, rhs: b.step.at },
        Kind::Word,
    );
    let (w4, next) = made(w3, Inst::CheckedValue(pair.at), Kind::Word);
    let (w5, over) = made(w4, Inst::Overflowed(pair.at), Kind::Bit);
    let (w6, again) = opened(w5);
    let w7 = put(forked(w6, over, l.done, again), Inst::At(again));
    let w8 = put(stored(w7, l.slot, next, Kind::Word), Inst::Jump(l.cond));
    put(w8, Inst::At(l.done))
}

#[verifier::opaque]
pub open spec fn counted_made(w: WorkView, var: Seq<char>, b: Bounds, body: Vec<Stmt>) -> WorkView
    decreases body, body@.len() + 2,
{
    let (w1, l) = loop_entered(w, b);
    let w2 = with_continue(declared(with_frame(w1), var, l.slot, Native::Int), l.step);
    let (w3, left) = block_made(w2, body, 0);
    // The body is a scope, and it runs again and again: what is declared inside it is
    // released at the end of each iteration.
    let w4 = without_frame(scope_released(without_continue(w3)));
    loop_left(joined(w4, left, l.step), b, l)
}

/// A loop as a statement.
#[verifier::opaque]
pub open spec fn loop_made(w: WorkView, l: LoopStmt) -> WorkView
    decreases l, 0nat,
{
    match l.kind {
        LoopKind::Counted { var, range, .. } => {
            let (w1, b) = bounds_made(w, range);
            counted_made(w1, var@, b, l.body)
        },
        LoopKind::While { condition } => {
            let (w1, cond) = opened(w);
            let (w2, body) = opened(w1);
            let (w3, done) = opened(w2);
            let w4 = put(put(w3, Inst::Jump(cond)), Inst::At(cond));
            // The condition is evaluated every iteration, so whatever it builds is
            // released every iteration too.
            let (w5, test) = expr_made(w4, condition, Native::Bool);
            let w6 = forked(temps_released(w5, w4.temps.len()), test, body, done);
            let w7 = with_continue(put(w6, Inst::At(body)), cond);
            let (w8, left) = scoped_made(w7, l.body);
            put(joined(without_continue(w8), left, cond), Inst::At(done))
        },
    }
}

/// A loop used for its value: each `handback` contributes one element, and a nested
/// comprehension's outer loop hands back rows.
#[verifier::opaque]
pub open spec fn loop_value(w: WorkView, l: LoopStmt, want: Native) -> (WorkView, Operand)
    decreases l, 1nat,
{
    let elem = if array_like(want) {
        peeled(want)
    } else {
        Native::Num
    };
    let (w1, kind) = made(w, Inst::Small(tag_of(elem)), Kind::Small);
    let (w2, array) = called(w1, Rt::ArrayEmpty, seq![kind]);
    let w3 = loop_made(with_handback(w2, Handback::Push { array, elem }), l);
    (without_handback(w3), array)
}

// ── statements ──────────────────────────────────────────────────────────────

/// The statements of a block from the `i`-th on, and whether the block was left. Each
/// statement releases what it made and nobody kept.
#[verifier::opaque]
pub open spec fn block_made(w: WorkView, stmts: Vec<Stmt>, i: nat) -> (WorkView, bool)
    decreases stmts, stmts@.len() - i,
{
    if i >= stmts@.len() {
        (w, false)
    } else {
        let (w1, left) = stmt_made(w, stmts@[i as int]);
        if left {
            (temps_forgotten(w1, w.temps.len()), true)
        } else {
            block_made(temps_released(w1, w.temps.len()), stmts, i + 1)
        }
    }
}

/// A block in a scope of its own.
#[verifier::opaque]
pub open spec fn scoped_made(w: WorkView, stmts: Vec<Stmt>) -> (WorkView, bool)
    decreases stmts, stmts@.len() + 1,
{
    let (w1, left) = block_made(with_frame(w), stmts, 0);
    (without_frame(scope_released(w1)), left)
}

#[verifier::opaque]
pub open spec fn stmt_made(w: WorkView, stmt: Stmt) -> (WorkView, bool)
    decreases stmt, 0nat,
{
    match stmt {
        Stmt::Func(_) => (w, false),
        Stmt::Var(v) => (bindings_made(w, v, 0), false),
        Stmt::Change(c) => (targets_made(w, c, 0), false),
        Stmt::Print { args, .. } => (called(prints_made(w, args, 0), Rt::PrintNewline, Seq::empty()).0, false),
        Stmt::If(chain) => if_made(w, chain),
        Stmt::Loop(l) => (loop_made(w, l), false),
        Stmt::Handback { value, .. } => handback_made(w, value),
        Stmt::Expr(e) => (effect_made(w, e), false),
    }
}

/// An expression performed for its effect. A call that hands nothing back does not go
/// through the value path.
#[verifier::opaque]
pub open spec fn effect_made(w: WorkView, e: Expr) -> WorkView
    decreases e, 2nat,
{
    match e.kind {
        ExprKind::Call { name, args } => match function_named(w.fns, name@, w.fns.len()) {
            Some(i) => if w.fns[i as int].ret is Nothing {
                call_made(w, name@, args, false).0
            } else {
                expr_made(w, e, Native::Int).0
            },
            None => expr_made(w, e, Native::Int).0,
        },
        _ => expr_made(w, e, Native::Int).0,
    }
}

/// The precision that a declaration asks for.
pub open spec fn places_wanted(binding: Option<Precision>, ty: Option<Precision>) -> u32 {
    match if binding is Some {
        binding
    } else {
        ty
    } {
        Some(Precision::Digits(n)) => n,
        _ => DEFAULT_DIGITS,
    }
}

/// The bindings of a declaration from the `i`-th on: `,` extends, and each binding carries
/// its own shape.
#[verifier::opaque]
pub open spec fn bindings_made(w: WorkView, v: VarDecl, i: nat) -> WorkView
    decreases v, v.bindings@.len() - i,
{
    if i >= v.bindings@.len() {
        w
    } else {
        let b = v.bindings@[i as int];
        match native_of(v.ty, b.shape) {
            Err(what) => bindings_made(refused(w, what), v, i + 1),
            Ok(native) => bindings_made(
                binding_made(w, b, native, places_wanted(b.precision, v.ty.precision)),
                v,
                i + 1,
            ),
        }
    }
}

/// A variable holds its value in the representation it is declared with.
#[verifier::opaque]
pub open spec fn binding_made(w: WorkView, b: Binding, native: Native, digits: u32) -> WorkView
    decreases b, 0nat,
{
    match b.value {
        None => refused(w, "a declaration with no value"@),
        Some(value) => {
            let (w1, v) = expr_made(with_digits(w, digits), value, native);
            let (w2, slot) = made(w1, Inst::Slot(kind_of(native)), Kind::Ptr);
            let w3 = stored(kept(w2, v, native), slot.at, v, kind_of(native));
            with_digits(declared(w3, b.name@, slot.at, native), DEFAULT_DIGITS)
        },
    }
}

/// The targets of a change from the `i`-th on.
#[verifier::opaque]
pub open spec fn targets_made(w: WorkView, c: ChangeStmt, i: nat) -> WorkView
    decreases c, c.targets@.len() - i,
{
    match native_of(c.ty, None) {
        Err(what) => refused(w, what),
        Ok(_) => if i >= c.targets@.len() {
            w
        } else {
            targets_made(target_made(w, c.targets@[i as int]), c, i + 1)
        },
    }
}

/// What stands in the way of writing to one element: each dimension takes one index.
pub open spec fn write_checked(w: WorkView, sels: Seq<Selector>, i: nat) -> WorkView
    decreases sels.len() - i,
{
    if i >= sels.len() {
        w
    } else {
        match sels[i as int] {
            Selector::Indices(ix) => if ix@.len() == 1 {
                write_checked(w, sels, i + 1)
            } else {
                refused(w, "writing to several elements at once"@)
            },
            _ => refused(w, "this form of element assignment"@),
        }
    }
}

#[verifier::opaque]
pub open spec fn target_made(w: WorkView, t: ChangeTarget) -> WorkView
    decreases t, 0nat,
{
    match looked_up(w, t.name@) {
        None => refused(w, "changing unknown '"@ + t.name@ + "'"@),
        Some((slot, held)) => if t.selectors@.len() > 0 {
            // A selector on the left writes into the array rather than replacing it.
            if !array_like(held) {
                refused(w, "a selector on a value that is not an array"@)
            } else {
                let w1 = write_checked(w, t.selectors@, 0);
                let (w2, array) = made(w1, Inst::Load { kind: Kind::Ptr, from: slot }, Kind::Ptr);
                let (w3, index) = index_made(w2, t.selectors, 0, array);
                let (w4, v) = expr_made(w3, t.value, element_of(held));
                element_stored(w4, array, index, v, element_of(held))
            }
        } else {
            let (w1, v) = expr_made(w, t.value, held);
            if counted(held) {
                // The new value is retained before the old one is released, for they may
                // be the same.
                let (w2, before) = made(w1, Inst::Load { kind: kind_of(held), from: slot }, kind_of(held));
                let w3 = stored(kept(w2, v, held), slot, v, kind_of(held));
                let_go(w3, before, held)
            } else {
                stored(w1, slot, v, kind_of(held))
            }
        },
    }
}

#[verifier::opaque]
pub open spec fn prints_made(w: WorkView, args: Vec<Expr>, i: nat) -> WorkView
    decreases args, args@.len() - i,
{
    if i >= args@.len() {
        w
    } else {
        let e = args@[i as int];
        let next = match e.kind {
            ExprKind::Str(t) => {
                let (w1, text) = chars_made(w, t@);
                called(w1, Rt::PrintStr, seq![text]).0
            },
            _ => {
                let (w1, v) = expr_made(w, e, natural(w, e));
                printed(w1, v, natural(w, e))
            },
        };
        prints_made(next, args, i + 1)
    }
}

/// A value handed back into the slot of a conditional, which outlives the statement.
#[verifier::opaque]
pub open spec fn store_made(w: WorkView, value: Expr, slot: usize, native: Native, merge: usize) -> WorkView
    decreases value, 2nat,
{
    let (w1, v) = expr_made(w, value, native);
    let w2 = stored(kept(w1, v, native), slot, v, kind_of(native));
    put(scope_released(temps_released(w2, w.temps.len())), Inst::Jump(merge))
}

/// A value handed to the array that a loop collects, which ends the iteration. Pushing
/// copies, so nothing escapes.
#[verifier::opaque]
pub open spec fn push_made(w: WorkView, value: Expr, array: Operand, elem: Native) -> (WorkView, bool)
    decreases value, 2nat,
{
    let (w1, v) = expr_made(w, value, elem);
    let w2 = scope_released(temps_released(element_pushed(w1, array, v, elem), w.temps.len()));
    if w2.continues.len() > 0 {
        (put(w2, Inst::Jump(w2.continues.last())), true)
    } else {
        (w2, false)
    }
}

/// A function left with nothing to hand back.
#[verifier::opaque]
pub open spec fn left_empty(w: WorkView) -> WorkView {
    let w1 = temps_released(w, w.temps.len());
    put(scopes_released(w1, w1.frames.len()), Inst::ReturnNothing)
}

/// A function left with a value, which the caller owns and which outlives the frames.
#[verifier::opaque]
pub open spec fn return_made(w: WorkView, value: Expr, ret: Native) -> WorkView
    decreases value, 2nat,
{
    let (w1, v) = expr_made(w, value, ret);
    let w2 = temps_released(kept(w1, v, ret), w.temps.len());
    let w3 = expecting(scopes_released(w2, w2.frames.len()), v, kind_of(ret));
    put(w3, Inst::Return(v.at))
}

/// A `handback`. Inside a conditional or a loop used as a value it contributes to that
/// value; elsewhere it leaves the function, releasing all that the call holds.
#[verifier::opaque]
pub open spec fn handback_made(w: WorkView, value: Expr) -> (WorkView, bool)
    decreases value, 3nat,
{
    if w.handbacks.len() > 0 {
        match w.handbacks.last() {
            Handback::Store { slot, native, merge } => (store_made(w, value, slot, native, merge), true),
            Handback::Push { array, elem } => push_made(w, value, array, elem),
        }
    } else if w.top {
        (refused(w, wrong_kind()), true)
    } else if w.ret is Nothing {
        (left_empty(w), true)
    } else {
        (return_made(w, value, w.ret), true)
    }
}

// ── functions ───────────────────────────────────────────────────────────────

/// What a caller needs to know of a function's parameters, from the `i`-th on.
pub open spec fn params_native(params: Seq<Param>, i: nat) -> Result<Seq<Native>, Seq<char>>
    decreases params.len() - i,
{
    if i >= params.len() {
        Ok(Seq::empty())
    } else {
        match native_of(params[i as int].ty, params[i as int].shape) {
            Err(what) => Err(what),
            Ok(Native::Nothing) => Err("a parameter of type none"@),
            Ok(n) => match params_native(params, i + 1) {
                Err(what) => Err(what),
                Ok(rest) => Ok(seq![n] + rest),
            },
        }
    }
}

pub open spec fn signature(f: FuncDecl) -> Result<SigView, Seq<char>> {
    match native_of(f.returns, None) {
        Err(what) => Err(what),
        Ok(ret) => match params_native(f.params@, 0) {
            Err(what) => Err(what),
            Ok(params) => Ok(SigView { name: f.name@, params, ret }),
        },
    }
}

/// The functions declared by the first `n` statements.
pub open spec fn signatures(stmts: Seq<Stmt>, n: nat) -> Result<Seq<SigView>, Seq<char>>
    decreases n,
{
    if n == 0 {
        Ok(Seq::empty())
    } else {
        match signatures(stmts, (n - 1) as nat) {
            Err(what) => Err(what),
            Ok(before) => match stmts[n - 1] {
                Stmt::Func(f) => match signature(f) {
                    Err(what) => Err(what),
                    Ok(s) => Ok(before.push(s)),
                },
                _ => Ok(before),
            },
        }
    }
}

pub open spec fn fresh(fns: Seq<SigView>, ret: Native, top: bool) -> WorkView {
    WorkView {
        code: Seq::empty(),
        texts: Seq::empty(),
        frames: Seq::empty(),
        handbacks: Seq::empty(),
        continues: Seq::empty(),
        temps: Seq::empty(),
        digits: DEFAULT_DIGITS,
        owned_from: 0,
        ret,
        top,
        open: true,
        refusal: None,
        fns,
    }
}

/// The parameters from the `i`-th on, each in a slot of its own.
pub open spec fn params_made(w: WorkView, params: Seq<Param>, natives: Seq<Native>, i: nat) -> WorkView
    decreases params.len() - i,
{
    if i >= params.len() || i >= natives.len() {
        w
    } else {
        let kind = kind_of(natives[i as int]);
        let (w1, v) = made(w, Inst::Param { index: i as usize, kind }, kind);
        let (w2, slot) = made(w1, Inst::Slot(kind), Kind::Ptr);
        let w3 = stored(w2, slot.at, v, kind);
        params_made(declared(w3, params[i as int].name@, slot.at, natives[i as int]), params, natives, i + 1)
    }
}

/// What a function hands back where its body ends without saying.
pub open spec fn default_made(w: WorkView, ret: Native) -> WorkView {
    match ret {
        Native::Nothing => put(w, Inst::ReturnNothing),
        _ => {
            let (w1, v) = match ret {
                Native::Int => made(w, Inst::Word(0), Kind::Word),
                Native::Bool => made(w, Inst::Bool(false), Kind::Bit),
                Native::Deci => made(w, Inst::Deci { mantissa: 0, scale: 0 }, Kind::Deci),
                Native::Rat => made(w, Inst::Rat { num: 0, den: 1 }, Kind::Rat),
                Native::Str => text_made(w, ""@),
                _ => made(w, Inst::Null, Kind::Ptr),
            };
            put(w1, Inst::Return(v.at))
        },
    }
}

pub open spec fn with_owned(w: WorkView, owned_from: nat) -> WorkView {
    WorkView { owned_from, ..w }
}

/// The body of a function. Parameters live in a frame of their own, which is not this
/// function's to release.
#[verifier::opaque]
pub open spec fn function_made(fns: Seq<SigView>, f: FuncDecl, sig: SigView) -> WorkView {
    let w1 = params_made(with_frame(fresh(fns, sig.ret, false)), f.params@, sig.params, 0);
    let (w2, left) = block_made(with_owned(with_frame(w1), 1), f.body, 0);
    if left {
        w2
    } else {
        default_made(scope_released(w2), sig.ret)
    }
}

/// The statements of the program itself.
#[verifier::opaque]
pub open spec fn main_made(fns: Seq<SigView>, program: Program) -> WorkView {
    let (w1, left) = block_made(with_frame(fresh(fns, Native::Nothing, true)), program.statements, 0);
    if left {
        w1
    } else {
        let (w2, zero) = made(scope_released(w1), Inst::Small(0), Kind::Small);
        put(w2, Inst::Return(zero.at))
    }
}

#[verifier::ext_equal]
pub struct FunctionView {
    pub symbol: Seq<char>,
    pub params: Seq<Native>,
    pub ret: Native,
    pub code: Seq<Inst>,
    pub texts: Seq<Seq<char>>,
}

pub open spec fn function_view(w: WorkView, symbol: Seq<char>, params: Seq<Native>, ret: Native) -> FunctionView {
    FunctionView { symbol, params, ret, code: w.code, texts: w.texts }
}

/// A function that was not refused and whose code is well formed.
pub open spec fn checked_function(
    fns: Seq<SigView>,
    w: WorkView,
    f: FunctionView,
    returned: Option<Kind>,
) -> Result<FunctionView, Seq<char>> {
    match w.refusal {
        Some(what) => Err(what),
        None => if well_formed(f.code, surroundings(f, returned, fns)) {
            Ok(f)
        } else {
            Err(wrong_kind())
        },
    }
}

/// The functions declared from the `i`-th statement on, `k` of them having come before.
pub open spec fn functions_made(fns: Seq<SigView>, stmts: Seq<Stmt>, i: nat, k: nat) -> Result<
    Seq<FunctionView>,
    Seq<char>,
>
    decreases stmts.len() - i,
{
    if i >= stmts.len() {
        Ok(Seq::empty())
    } else {
        match stmts[i as int] {
            Stmt::Func(f) => {
                let sig = fns[k as int];
                let w = function_made(fns, f, sig);
                match checked_function(
                    fns,
                    w,
                    function_view(w, mangled(f.name@), sig.params, sig.ret),
                    ret_kind(sig.ret),
                ) {
                    Err(what) => Err(what),
                    Ok(done) => match functions_made(fns, stmts, i + 1, k + 1) {
                        Err(what) => Err(what),
                        Ok(rest) => Ok(seq![done] + rest),
                    },
                }
            },
            _ => functions_made(fns, stmts, i + 1, k),
        }
    }
}

#[verifier::ext_equal]
pub struct CompiledView {
    pub functions: Seq<FunctionView>,
    pub main: FunctionView,
}

/// A whole program lowered, or the first thing in it that cannot be.
pub open spec fn lowered(program: Program) -> Result<CompiledView, Seq<char>> {
    let stmts = program.statements@;
    match signatures(stmts, stmts.len()) {
        Err(what) => Err(what),
        Ok(fns) => match functions_made(fns, stmts, 0, 0) {
            Err(what) => Err(what),
            Ok(functions) => {
                let w = main_made(fns, program);
                match checked_function(
                    fns,
                    w,
                    function_view(w, "main"@, Seq::empty(), Native::Nothing),
                    Some(Kind::Small),
                ) {
                    Err(what) => Err(what),
                    Ok(main) => Ok(CompiledView { functions, main }),
                }
            },
        },
    }
}

// ── laws ────────────────────────────────────────────────────────────────────

proof fn lemma_functions_well_formed(fns: Seq<SigView>, stmts: Seq<Stmt>, i: nat, k: nat)
    requires
        functions_made(fns, stmts, i, k) is Ok,
    ensures
        forall|j: int|
            0 <= j < functions_made(fns, stmts, i, k)->Ok_0.len() ==> function_fine(
                #[trigger] functions_made(fns, stmts, i, k)->Ok_0[j],
                fns,
            ),
    decreases stmts.len() - i,
{
    if i < stmts.len() {
        match stmts[i as int] {
            Stmt::Func(f) => {
                lemma_functions_well_formed(fns, stmts, i + 1, k + 1);
                let all = functions_made(fns, stmts, i, k)->Ok_0;
                let rest = functions_made(fns, stmts, i + 1, k + 1)->Ok_0;
                assert forall|j: int| 0 <= j < all.len() implies function_fine(#[trigger] all[j], fns) by {
                    if j > 0 {
                        assert(all[j] == rest[j - 1]);
                    }
                }
            },
            _ => {
                lemma_functions_well_formed(fns, stmts, i + 1, k);
            },
        }
    }
}

/// Whether a function's code is well formed among the functions of its program.
pub open spec fn function_fine(f: FunctionView, fns: Seq<SigView>) -> bool {
    well_formed(f.code, surroundings(f, ret_kind(f.ret), fns))
}

/// Whatever program is compiled, the code is well formed: every operand is an earlier value
/// of the kind that its place asks for, every call is handed what its callee takes, and
/// every block has one place, is entered only there and is left at its end.
pub proof fn compiled_code_is_well_formed(program: Program)
    requires
        lowered(program) is Ok,
    ensures
        ({
            let fns = signatures(program.statements@, program.statements@.len())->Ok_0;
            let c = lowered(program)->Ok_0;
            &&& forall|j: int| 0 <= j < c.functions.len() ==> function_fine(#[trigger] c.functions[j], fns)
            &&& well_formed(c.main.code, surroundings(c.main, Some(Kind::Small), fns))
        }),
{
    let fns = signatures(program.statements@, program.statements@.len())->Ok_0;
    lemma_functions_well_formed(fns, program.statements@, 0, 0);
}

} // verus!
