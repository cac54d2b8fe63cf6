//! What a program means: the state it runs in, and what each construct does to it.

use vstd::prelude::*;

use crate::ast::{
    BinOp, Binding, ChangeStmt, ChangeTarget, Expr, ExprKind, FuncDecl, IfChain, LoopKind, LoopStmt,
    Precision, Program, Selector, Sign, Stmt, TypeRef, UnOp, VarDecl,
};
use crate::diagnostics::error::{fault_view, Category, ErrorView};
use crate::diagnostics::position::Span;
use crate::eval::arrays::{array_operation, dims_text, mismatched, unfilled};
use crate::eval::numeric::{
    binding_context, bool_from, constant_decimal, context_of, digits_wanted, index_from, int_from,
    invalid_index, literal_meaning, sign_of, whole, width_bounds, Numeric, CONSTANT_DIGITS,
};
use crate::eval::ops::{
    arith, compared, fail, is_comparison, settled, sum_overflow, summed, unary_val, AnswerView, RequestView,
    StopView,
};
use crate::eval::parse::{strict, value_in, with_option, ParseOptions};
use crate::eval::select::{
    all_positions, assembled, element_at, in_range, odd_shape, positions_from, range_left, selected,
};
use crate::eval::value::{kind_text, val_text, Val};
use crate::text::{int_text, nat_text, quoted_text};

verus! {

// ── the state ───────────────────────────────────────────────────────────────

/// The state a program runs in.
pub struct World {
    /// The open scopes, the innermost last: what each name holds.
    pub frames: Seq<Map<Seq<char>, Val>>,
    /// The functions, in the order of their declarations.
    pub functions: Seq<FuncDecl>,
    /// What has been printed.
    pub lines: Seq<Seq<char>>,
    /// How many times a loop has gone round.
    pub steps: nat,
    /// How many times loops may go round in all.
    pub limit: Option<u64>,
    /// What the world outside has answered, and how many of the answers have been used.
    pub answers: Seq<AnswerView>,
    pub asked: nat,
}

/// How a block finished.
pub enum FlowView {
    Normal,
    /// A `handback` produced a value.
    Handback(Val),
}

/// The state before anything has run.
pub open spec fn fresh_world(functions: Seq<FuncDecl>, answers: Seq<AnswerView>) -> World {
    World {
        frames: seq![Map::empty()],
        functions,
        lines: Seq::empty(),
        steps: 0,
        limit: None,
        answers,
        asked: 0,
    }
}

/// The index of the innermost of the first `n` scopes that has a name.
pub open spec fn holder(frames: Seq<Map<Seq<char>, Val>>, name: Seq<char>, n: nat) -> Option<int>
    decreases n,
{
    if n == 0 {
        None
    } else if frames[n - 1].dom().contains(name) {
        Some(n - 1)
    } else {
        holder(frames, name, (n - 1) as nat)
    }
}

/// What a name holds, looked up from the innermost scope outwards.
pub open spec fn looked_up(w: World, name: Seq<char>) -> Option<Val> {
    match holder(w.frames, name, w.frames.len()) {
        Some(i) => Some(w.frames[i][name]),
        None => None,
    }
}

/// A name declared in the innermost scope.
pub open spec fn defined(w: World, name: Seq<char>, v: Val) -> World {
    let top = w.frames.len() - 1;
    World { frames: w.frames.update(top, w.frames[top].insert(name, v)), ..w }
}

/// A name changed in the innermost scope that has it; declared where none has.
pub open spec fn assigned(w: World, name: Seq<char>, v: Val) -> World {
    match holder(w.frames, name, w.frames.len()) {
        Some(i) => World { frames: w.frames.update(i, w.frames[i].insert(name, v)), ..w },
        None => defined(w, name, v),
    }
}

pub open spec fn opened(w: World) -> World {
    World { frames: w.frames.push(Map::empty()), ..w }
}

pub open spec fn closed_scope(w: World) -> World {
    World { frames: w.frames.drop_last(), ..w }
}

pub open spec fn printed(w: World, line: Seq<char>) -> World {
    World { lines: w.lines.push(line), ..w }
}

/// The function of a name: the last one declared under it.
pub open spec fn function_named(functions: Seq<FuncDecl>, name: Seq<char>, n: nat) -> Option<int>
    decreases n,
{
    if n == 0 {
        None
    } else if functions[n - 1].name@ == name {
        Some(n - 1)
    } else {
        function_named(functions, name, (n - 1) as nat)
    }
}

/// The functions among the first `n` statements.
pub open spec fn functions_in(stmts: Seq<Stmt>, n: nat) -> Seq<FuncDecl>
    decreases n,
{
    if n == 0 {
        Seq::empty()
    } else {
        match stmts[n - 1] {
            Stmt::Func(f) => functions_in(stmts, (n - 1) as nat).push(f),
            _ => functions_in(stmts, (n - 1) as nat),
        }
    }
}

// ── asking and counting ─────────────────────────────────────────────────────

/// An operation carried out; where it asks, with the next answer, if there is one.
pub open spec fn attempted(w: World, r: Result<Val, StopView>, span: Span) -> (World, Result<Val, StopView>) {
    match r {
        Err(StopView::Ask(req)) => if w.asked < w.answers.len() {
            (
                World { asked: w.asked + 1, ..w },
                match settled(req, w.answers[w.asked as int], span) {
                    Ok(v) => Ok(v),
                    Err(e) => fail(e),
                },
            )
        } else {
            (w, r)
        },
        _ => (w, r),
    }
}

pub open spec fn step_limit_passed(span: Span) -> ErrorView {
    fault_view(
        Category::Run,
        1,
        span,
        "compile-time evaluation exceeded its step limit."@,
        "this loop may not terminate; run with flag:loop-evaluation = limit."@,
    )
}

/// One more time round a loop.
pub open spec fn ticked(w: World, span: Span) -> (World, Result<(), StopView>) {
    if w.steps >= u64::MAX {
        (w, fail(step_limit_passed(span)))
    } else {
        let w1 = World { steps: w.steps + 1, ..w };
        match w.limit {
            Some(l) => if w1.steps > l {
                (w1, fail(step_limit_passed(span)))
            } else {
                (w1, Ok(()))
            },
            None => (w1, Ok(())),
        }
    }
}

pub open spec fn ticks_left(w: World) -> nat {
    if w.steps >= u64::MAX {
        0
    } else {
        (u64::MAX - w.steps) as nat
    }
}

// ── what is checked while running ───────────────────────────────────────────

pub open spec fn sign_words(s: Sign) -> Seq<char> {
    match s {
        Sign::Positive => "strictly positive"@,
        Sign::Negative => "strictly negative"@,
    }
}

/// A sign prefix is a promise, and is held to while running.
pub open spec fn refinement_kept(ty: TypeRef, name: Seq<char>, v: Val, span: Span) -> Result<(), ErrorView> {
    match (ty.sign, sign_of(v)) {
        (Some(sign), Some(n)) => if (sign == Sign::Positive && n > 0) || (sign == Sign::Negative && n < 0) {
            Ok(())
        } else {
            Err(
                fault_view(
                    Category::Sign,
                    4,
                    span,
                    "'"@ + name + "' is "@ + val_text(v) + ", but its type promises it is "@ + sign_words(sign)
                        + "."@,
                    "declare it :"@ + ty.base@ + " instead, or keep the value "@ + sign_words(sign) + "."@,
                ),
            )
        },
        _ => Ok(()),
    }
}

/// A stated width is a promise about range, and is held to while running.
pub open spec fn width_kept(ty: TypeRef, precision: Option<Precision>, name: Seq<char>, v: Val, span: Span) -> Result<
    (),
    ErrorView,
> {
    match (precision, v) {
        (Some(Precision::Bits(bits)), Val::Int(n)) => {
            let (lo, hi) = width_bounds(bits, ty.sign);
            if ty.base@ == "int"@ && (n < lo || n > hi) {
                Err(
                    fault_view(
                        Category::Prec,
                        4,
                        span,
                        "'"@ + name + "' is "@ + int_text(n as int) + ", which does not fit in ["@ + nat_text(
                            bits as nat,
                        ) + " bit] — that holds "@ + int_text(lo) + " to "@ + int_text(hi) + "."@,
                        "widen the type, or use infnum."@,
                    ),
                )
            } else {
                Ok(())
            }
        },
        _ => Ok(()),
    }
}

// ── operators ───────────────────────────────────────────────────────────────

/// Whether an expression is a bare array reference: one with no selector.
pub open spec fn bare(e: Expr) -> bool
    decreases e,
{
    match e.kind {
        ExprKind::Ref { selectors, .. } => selectors@.len() == 0,
        ExprKind::Math(inner) => bare(*inner),
        _ => false,
    }
}

/// Whether an operator implies `:all;`, having no meaning on single values.
pub open spec fn is_array_operator(op: BinOp) -> bool {
    op == BinOp::Dot || op == BinOp::Cross || op == BinOp::Hadamard || op == BinOp::Tensor
}

/// The value of an operand: the sum of its elements where it is to be summed.
pub open spec fn operand(v: Val, sums: bool, span: Span) -> Result<Val, StopView> {
    if sums {
        match summed(v) {
            Some(t) => Ok(t),
            None => fail(sum_overflow(span)),
        }
    } else {
        Ok(v)
    }
}

/// One operator on two single values.
pub open spec fn pair_result(w: World, op: BinOp, a: Val, b: Val, span: Span, hint: Option<Numeric>) -> (
    World,
    Result<Val, StopView>,
) {
    attempted(
        w,
        if is_comparison(op) {
            compared(op, a, b, span)
        } else {
            arith(op, a, b, span, hint)
        },
        span,
    )
}

/// The element of an array at a position; a single value stands at every position.
pub open spec fn broadcast_item(v: Val, i: int) -> Val {
    match v {
        Val::Array { items, .. } => items[i],
        _ => v,
    }
}

/// One operator position by position, from position `acc.len()` on.
pub open spec fn pairs_from(
    w: World,
    op: BinOp,
    a: Val,
    b: Val,
    n: nat,
    acc: Seq<Val>,
    span: Span,
    hint: Option<Numeric>,
) -> (World, Result<Seq<Val>, StopView>)
    decreases n - acc.len(),
{
    if acc.len() >= n {
        (w, Ok(acc))
    } else {
        let i = acc.len() as int;
        match pair_result(w, op, broadcast_item(a, i), broadcast_item(b, i), span, hint) {
            (w1, Ok(v)) => pairs_from(w1, op, a, b, n, acc.push(v), span, hint),
            (w1, Err(s)) => (w1, Err(s)),
        }
    }
}

/// An operator position by position; a single value is spread across the array.
pub open spec fn elementwise(w: World, op: BinOp, a: Val, b: Val, span: Span, hint: Option<Numeric>) -> (
    World,
    Result<Val, StopView>,
) {
    match (a, b) {
        (Val::Array { items: x, shape: xs }, Val::Array { items: y, shape: ys }) => if x.len() != y.len() {
            (w, fail(mismatched(xs, ys, span)))
        } else {
            with_shape(pairs_from(w, op, a, b, x.len(), Seq::empty(), span, hint), xs)
        },
        (Val::Array { items: x, shape: xs }, _) => with_shape(
            pairs_from(w, op, a, b, x.len(), Seq::empty(), span, hint),
            xs,
        ),
        (_, Val::Array { items: y, shape: ys }) => with_shape(
            pairs_from(w, op, a, b, y.len(), Seq::empty(), span, hint),
            ys,
        ),
        _ => (w, Ok(Val::Nothing)),
    }
}

pub open spec fn with_shape(r: (World, Result<Seq<Val>, StopView>), shape: Seq<usize>) -> (World, Result<Val, StopView>) {
    match r {
        (w, Ok(items)) => (w, Ok(Val::Array { items, shape })),
        (w, Err(s)) => (w, Err(s)),
    }
}

/// What an operator makes of two values.
pub open spec fn binary_result(w: World, op: BinOp, a: Val, b: Val, span: Span, hint: Option<Numeric>) -> (
    World,
    Result<Val, StopView>,
) {
    if op == BinOp::And || op == BinOp::Or {
        match (bool_from(a, span), bool_from(b, span)) {
            (Err(e), _) => (w, fail(e)),
            (_, Err(e)) => (w, fail(e)),
            (Ok(x), Ok(y)) => (
                w,
                Ok(
                    Val::Bool(
                        if op == BinOp::And {
                            x && y
                        } else {
                            x || y
                        },
                    ),
                ),
            ),
        }
    } else if is_array_operator(op) {
        (w, array_operation(op, a, b, span))
    } else if a is Array || b is Array {
        elementwise(w, op, a, b, span, hint)
    } else {
        pair_result(w, op, a, b, span, hint)
    }
}

/// An operator on each of an array's elements, from position `acc.len()` on.
pub open spec fn unary_from(
    w: World,
    op: UnOp,
    items: Seq<Val>,
    acc: Seq<Val>,
    span: Span,
    hint: Option<Numeric>,
) -> (World, Result<Seq<Val>, StopView>)
    decreases items.len() - acc.len(),
{
    if acc.len() >= items.len() {
        (w, Ok(acc))
    } else {
        match attempted(w, unary_val(op, items[acc.len() as int], span, hint), span) {
            (w1, Ok(v)) => unary_from(w1, op, items, acc.push(v), span, hint),
            (w1, Err(s)) => (w1, Err(s)),
        }
    }
}

/// What an operator makes of one value: of an array, element by element.
pub open spec fn unary_result(w: World, op: UnOp, v: Val, span: Span, hint: Option<Numeric>) -> (
    World,
    Result<Val, StopView>,
) {
    match v {
        Val::Array { items, shape } => if op == UnOp::Not {
            attempted(w, unary_val(op, v, span, hint), span)
        } else {
            with_shape(unary_from(w, op, items, Seq::empty(), span, hint), shape)
        },
        _ => attempted(w, unary_val(op, v, span, hint), span),
    }
}

// ── selecting ───────────────────────────────────────────────────────────────

/// `:length;` and `:shape;`.
pub open spec fn queried(v: Val, sel: Selector, span: Span) -> Result<Val, StopView> {
    match (v, sel) {
        (Val::Array { items, .. }, Selector::Length) => Ok(Val::Int(items.len() as i128)),
        (Val::Array { shape, .. }, _) => Ok(
            Val::Array {
                items: Seq::new(shape.len(), |i: int| Val::Int(shape[i] as i128)),
                shape: seq![shape.len() as usize],
            },
        ),
        (_, Selector::Length) => Ok(Val::Int(1)),
        _ => fail(
            fault_view(
                Category::Run,
                1,
                span,
                kind_text(v) + " is not an array, so it has no shape."@,
                "selectors apply to vectors, matrices and tensors."@,
            ),
        ),
    }
}

/// The first of the chosen positions, from the `k`-th on, that lies beyond a dimension.
pub open spec fn first_beyond(chosen: Seq<i128>, extent: usize, k: int) -> Option<i128>
    decreases chosen.len() - k,
{
    if k < 0 || k >= chosen.len() {
        None
    } else if chosen[k] >= extent {
        Some(chosen[k])
    } else {
        first_beyond(chosen, extent, k + 1)
    }
}

pub open spec fn beyond(p: i128, dim: int, extent: usize, span: Span) -> ErrorView {
    fault_view(
        Category::Run,
        3,
        span,
        "index "@ + int_text(p + 1) + " is out of range for dimension "@ + int_text(dim + 1) + " of length "@
            + nat_text(extent as nat) + "."@,
        "indices start at 1."@,
    )
}

pub open spec fn too_many_selectors(given: int, dims: int, span: Span) -> ErrorView {
    fault_view(
        Category::Run,
        1,
        span,
        int_text(given) + " selectors were given, but this array has "@ + int_text(dims) + " dimension"@ + (if dims
            == 1 {
            ""@
        } else {
            "s"@
        }) + "."@,
        "one selector addresses one dimension."@,
    )
}

pub open spec fn not_selectable(span: Span) -> ErrorView {
    fault_view(
        Category::Run,
        1,
        span,
        "this is not an array, so it cannot be selected from."@,
        "selectors apply to vectors, matrices and tensors."@,
    )
}

/// The chosen positions with every dimension that has no selector kept whole.
pub open spec fn whole_picks(picks: Seq<Seq<i128>>, shape: Seq<usize>) -> Seq<Seq<i128>> {
    Seq::new(
        shape.len(),
        |i: int|
            if i < picks.len() {
                picks[i]
            } else {
                all_positions(shape[i])
            },
    )
}

pub open spec fn whole_single(single: Seq<bool>, shape: Seq<usize>) -> Seq<bool> {
    Seq::new(shape.len(), |i: int| i < single.len() && single[i])
}

/// What selecting gives once the positions are known.
pub open spec fn selection(items: Seq<Val>, shape: Seq<usize>, picks: Seq<Seq<i128>>, single: Seq<bool>, span: Span) -> Result<
    Val,
    StopView,
> {
    match selected(items, shape, whole_picks(picks, shape), whole_single(single, shape)) {
        Some(v) => Ok(v),
        None => fail(unfilled(span)),
    }
}

// ── options of builtins ─────────────────────────────────────────────────────

/// The text that an option is given, where it is given one outright.
pub open spec fn option_text(value: Option<Box<Expr>>) -> Option<Seq<char>> {
    match value {
        Some(v) => match v.kind {
            ExprKind::Str(s) => Some(s@),
            ExprKind::Literal(s) => Some(s@),
            _ => None,
        },
        None => None,
    }
}

/// The options that the arguments of `parse`, from the second up to the `n`-th, set.
pub open spec fn options_in(args: Seq<Expr>, n: nat) -> ParseOptions
    decreases n,
{
    if n <= 1 {
        strict()
    } else {
        let before = options_in(args, (n - 1) as nat);
        match args[n - 1].kind {
            ExprKind::Option { name, value } => with_option(before, name@, option_text(value)),
            _ => before,
        }
    }
}

pub open spec fn parse_result(text: Seq<char>, args: Seq<Expr>, span: Span, hint: Option<Numeric>) -> Result<
    Val,
    StopView,
> {
    match value_in(options_in(args, args.len()), text, hint) {
        Some(v) => Ok(v),
        None => fail(
            fault_view(
                Category::Run,
                4,
                span,
                quoted_text(text) + " is not a number AHPCL can read."@,
                "parse is strict by default; add trim, scientific, hex, unicode-digits, or group:\",\" decimal:\".\" as needed."@,
            ),
        ),
    }
}

// ── statements ──────────────────────────────────────────────────────────────

/// The statements of a block from the `i`-th on. The first handback ends it.
pub open spec fn block_from(d: nat, w: World, stmts: Vec<Stmt>, i: nat) -> (World, Result<FlowView, StopView>)
    decreases d, stmts, stmts@.len() - i,
{
    if i >= stmts@.len() {
        (w, Ok(FlowView::Normal))
    } else {
        match statement_result(d, w, stmts@[i as int]) {
            (w1, Ok(FlowView::Normal)) => block_from(d, w1, stmts, i + 1),
            (w1, r) => (w1, r),
        }
    }
}

/// A block in a scope of its own.
pub open spec fn scoped(d: nat, w: World, stmts: Vec<Stmt>) -> (World, Result<FlowView, StopView>)
    decreases d, stmts, stmts@.len() + 1,
{
    let (w1, r) = block_from(d, opened(w), stmts, 0);
    (closed_scope(w1), r)
}

pub open spec fn statement_result(d: nat, w: World, s: Stmt) -> (World, Result<FlowView, StopView>)
    decreases d, s, 0nat,
{
    match s {
        Stmt::Var(v) => bindings_from(d, w, v, 0),
        Stmt::Change(c) => targets_from(d, w, c, 0),
        Stmt::Func(_) => (w, Ok(FlowView::Normal)),
        Stmt::If(chain) => chain_from(d, w, chain, 0),
        Stmt::Loop(l) => match loop_result(d, w, l) {
            (w1, Ok(_)) => (w1, Ok(FlowView::Normal)),
            (w1, Err(s)) => (w1, Err(s)),
        },
        Stmt::Print { args, .. } => match texts_from(d, w, args, 0, Seq::empty()) {
            (w1, Ok(line)) => (printed(w1, line), Ok(FlowView::Normal)),
            (w1, Err(s)) => (w1, Err(s)),
        },
        Stmt::Handback { value, .. } => match expr_result(d, w, value, None) {
            (w1, Ok(v)) => (w1, Ok(FlowView::Handback(v))),
            (w1, Err(s)) => (w1, Err(s)),
        },
        Stmt::Expr(e) => match expr_result(d, w, e, None) {
            (w1, Ok(_)) => (w1, Ok(FlowView::Normal)),
            (w1, Err(s)) => (w1, Err(s)),
        },
    }
}

/// A value that is to be held under a name: summed where the target is a single value,
/// and checked against what the type promises.
pub open spec fn admitted(v: Val, ty: TypeRef, b: Binding, span: Span) -> Result<Val, StopView> {
    match operand(v, ty.rank is None && ty.base@ != "nna"@, span) {
        Err(s) => Err(s),
        Ok(t) => match refinement_kept(ty, b.name@, t, b.name_span) {
            Err(e) => fail(e),
            Ok(_) => match width_kept(ty, b.precision, b.name@, t, b.name_span) {
                Err(e) => fail(e),
                Ok(_) => Ok(t),
            },
        },
    }
}

/// The declarations of a `var` from the `i`-th on.
pub open spec fn bindings_from(d: nat, w: World, v: VarDecl, i: nat) -> (World, Result<FlowView, StopView>)
    decreases d, v, v.bindings@.len() - i,
{
    if i >= v.bindings@.len() {
        (w, Ok(FlowView::Normal))
    } else {
        let b = v.bindings@[i as int];
        match b.value {
            None => bindings_from(d, defined(w, b.name@, Val::Nothing), v, i + 1),
            Some(value) => match expr_result(d, w, value, binding_context(v.ty, b.precision)) {
                (w1, Err(s)) => (w1, Err(s)),
                (w1, Ok(x)) => match admitted(x, v.ty, b, value.span) {
                    Ok(t) => bindings_from(d, defined(w1, b.name@, t), v, i + 1),
                    Err(s) => (w1, Err(s)),
                },
            },
        }
    }
}

/// The targets of a `change` from the `i`-th on.
pub open spec fn targets_from(d: nat, w: World, c: ChangeStmt, i: nat) -> (World, Result<FlowView, StopView>)
    decreases d, c, c.targets@.len() - i,
{
    if i >= c.targets@.len() {
        (w, Ok(FlowView::Normal))
    } else {
        let t = c.targets@[i as int];
        match expr_result(d, w, t.value, context_of(c.ty.base@, c.ty.precision)) {
            (w1, Err(s)) => (w1, Err(s)),
            (w1, Ok(v)) => if t.selectors@.len() == 0 {
                match refinement_kept(c.ty, t.name@, v, t.name_span) {
                    Ok(_) => targets_from(d, assigned(w1, t.name@, v), c, i + 1),
                    Err(e) => (w1, fail(e)),
                }
            } else {
                match element_change(d, w1, t, v) {
                    (w2, Ok(_)) => targets_from(d, w2, c, i + 1),
                    (w2, Err(s)) => (w2, Err(s)),
                }
            },
        }
    }
}

pub open spec fn no_elements(t: ChangeTarget) -> ErrorView {
    fault_view(
        Category::Run,
        1,
        t.name_span,
        "'"@ + t.name@ + "' is not an array, so it has no elements to change."@,
        "selectors apply to vectors, matrices and tensors."@,
    )
}

pub open spec fn element_out_of_range(t: ChangeTarget, shape: Seq<usize>) -> ErrorView {
    fault_view(
        Category::Run,
        3,
        t.name_span,
        "index out of range for '"@ + t.name@ + "', which is "@ + dims_text(shape) + "."@,
        "indices start at 1."@,
    )
}

/// One element of an array changed, the rest left alone.
pub open spec fn with_element(w: World, t: ChangeTarget, indices: Seq<i128>, v: Val) -> (World, Result<(), StopView>) {
    match looked_up(w, t.name@) {
        Some(Val::Array { items, shape }) => match element_at(items.len(), shape, indices) {
            Some(o) => (assigned(w, t.name@, Val::Array { items: items.update(o, v), shape }), Ok(())),
            None => (w, fail(element_out_of_range(t, shape))),
        },
        _ => (w, fail(no_elements(t))),
    }
}

pub open spec fn element_change(d: nat, w: World, t: ChangeTarget, v: Val) -> (World, Result<(), StopView>)
    decreases d, t, 0nat,
{
    match indices_from(d, w, t.selectors, 0, Seq::empty()) {
        (w1, Ok(indices)) => with_element(w1, t, indices, v),
        (w1, Err(s)) => (w1, Err(s)),
    }
}

/// The indices that the selectors from the `i`-th on give, added to those in `acc`.
pub open spec fn indices_from(d: nat, w: World, sels: Vec<Selector>, i: nat, acc: Seq<i128>) -> (
    World,
    Result<Seq<i128>, StopView>,
)
    decreases d, sels, sels@.len() - i,
{
    if i >= sels@.len() {
        (w, Ok(acc))
    } else {
        match sels@[i as int] {
            Selector::Indices(items) => match index_list_from(d, w, items, 0, acc) {
                (w1, Ok(more)) => indices_from(d, w1, sels, i + 1, more),
                (w1, Err(s)) => (w1, Err(s)),
            },
            _ => indices_from(d, w, sels, i + 1, acc),
        }
    }
}

/// The indices that expressions from the `i`-th on give, added to those in `acc`.
pub open spec fn index_list_from(d: nat, w: World, items: Vec<Expr>, i: nat, acc: Seq<i128>) -> (
    World,
    Result<Seq<i128>, StopView>,
)
    decreases d, items, items@.len() - i,
{
    if i >= items@.len() {
        (w, Ok(acc))
    } else {
        match expr_result(d, w, items@[i as int], whole()) {
            (w1, Err(s)) => (w1, Err(s)),
            (w1, Ok(v)) => match index_from(v, items@[i as int].span) {
                Ok(n) => index_list_from(d, w1, items, i + 1, acc.push(n)),
                Err(e) => (w1, fail(e)),
            },
        }
    }
}

pub open spec fn not_a_condition(v: Val, span: Span) -> ErrorView {
    fault_view(
        Category::Run,
        1,
        span,
        "a condition must be a bool, but this is "@ + kind_text(v) + "."@,
        "compare something, as in math { ('x') > 5 }."@,
    )
}

/// A conditional from its `i`-th arm on: the first arm whose condition holds is taken.
pub open spec fn chain_from(d: nat, w: World, chain: IfChain, i: nat) -> (World, Result<FlowView, StopView>)
    decreases d, chain, chain.arms@.len() - i,
{
    if i >= chain.arms@.len() {
        (w, Ok(FlowView::Normal))
    } else {
        let arm = chain.arms@[i as int];
        match arm.condition {
            None => scoped(d, w, arm.body),
            Some(cond) => match expr_result(d, w, cond, None) {
                (w1, Ok(Val::Bool(true))) => scoped(d, w1, arm.body),
                (w1, Ok(Val::Bool(false))) => chain_from(d, w1, chain, i + 1),
                (w1, Ok(v)) => (w1, fail(not_a_condition(v, cond.span))),
                (w1, Err(s)) => (w1, Err(s)),
            },
        }
    }
}

// ── loops ───────────────────────────────────────────────────────────────────

pub open spec fn zero_step(span: Span) -> ErrorView {
    fault_view(Category::Run, 1, span, "a loop step of 0 would never finish."@, "use a non-zero step."@)
}

pub open spec fn no_range(span: Span) -> ErrorView {
    fault_view(
        Category::Run,
        1,
        span,
        "a counted loop needs a range."@,
        "write loop:var:int 'i' = math { 1 to 10 } { … }."@,
    )
}

/// The range inside an expression: a `math { }` around it does not count.
pub open spec fn range_inside(range: Expr) -> Expr {
    match range.kind {
        ExprKind::Math(e) => *e,
        _ => range,
    }
}

/// Where a counted loop starts, where it ends, and its step.
pub open spec fn bounds_result(d: nat, w: World, range: Expr) -> (World, Result<(i128, i128, i128), StopView>)
    decreases d, range, 0nat,
{
    match range_inside(range).kind {
        ExprKind::Range { from, to, by } => match expr_result(d, w, *from, whole()) {
            (w1, Err(s)) => (w1, Err(s)),
            (w1, Ok(f)) => match expr_result(d, w1, *to, whole()) {
                (w2, Err(s)) => (w2, Err(s)),
                (w2, Ok(t)) => match step_result(d, w2, by) {
                    (w3, Err(s)) => (w3, Err(s)),
                    (w3, Ok(step)) => if step == 0 {
                        (w3, fail(zero_step(range.span)))
                    } else {
                        match (int_from(f, from.span), int_from(t, to.span)) {
                            (Err(e), _) => (w3, fail(e)),
                            (_, Err(e)) => (w3, fail(e)),
                            (Ok(a), Ok(b)) => (w3, Ok((a, b, step))),
                        }
                    },
                },
            },
        },
        _ => (w, fail(no_range(range.span))),
    }
}

/// The step of a range: 1 where none is written.
pub open spec fn step_result(d: nat, w: World, by: Option<Box<Expr>>) -> (World, Result<i128, StopView>)
    decreases d, by, 0nat,
{
    match by {
        None => (w, Ok(1)),
        Some(b) => match expr_result(d, w, *b, whole()) {
            (w1, Err(s)) => (w1, Err(s)),
            (w1, Ok(v)) => match int_from(v, b.span) {
                Ok(n) => (w1, Ok(n)),
                Err(e) => (w1, fail(e)),
            },
        },
    }
}

/// What a loop collects: each handback is one element.
pub open spec fn loop_result(d: nat, w: World, l: LoopStmt) -> (World, Result<Seq<Val>, StopView>)
    decreases d, l, u64::MAX + 1,
{
    match l.kind {
        LoopKind::Counted { var, range, .. } => match bounds_result(d, w, range) {
            (w1, Err(s)) => (w1, Err(s)),
            (w1, Ok((from, to, by))) => counted_from(
                d,
                w1,
                l.body,
                var@,
                l.span,
                from as int,
                to as int,
                by as int,
                Seq::empty(),
            ),
        },
        LoopKind::While { .. } => while_from(d, w, l, Seq::empty()),
    }
}

pub open spec fn collected(acc: Seq<Val>, flow: FlowView) -> Seq<Val> {
    match flow {
        FlowView::Normal => acc,
        FlowView::Handback(v) => acc.push(v),
    }
}

/// A counted loop from counter `i` on.
pub open spec fn counted_from(
    d: nat,
    w: World,
    body: Vec<Stmt>,
    var: Seq<char>,
    span: Span,
    i: int,
    to: int,
    by: int,
    acc: Seq<Val>,
) -> (World, Result<Seq<Val>, StopView>)
    decreases d, body, body@.len() + 2 + range_left(i, to, by),
{
    if !in_range(i, to, by) {
        (w, Ok(acc))
    } else {
        match ticked(w, span) {
            (w1, Err(s)) => (w1, Err(s)),
            (w1, Ok(_)) => {
                let (w2, r) = block_from(d, defined(opened(w1), var, Val::Int(i as i128)), body, 0);
                match r {
                    Err(s) => (closed_scope(w2), Err(s)),
                    Ok(flow) => counted_from(
                        d,
                        closed_scope(w2),
                        body,
                        var,
                        span,
                        i + by,
                        to,
                        by,
                        collected(acc, flow),
                    ),
                }
            },
        }
    }
}

pub open spec fn not_a_loop_condition(v: Val, span: Span) -> ErrorView {
    fault_view(
        Category::Run,
        1,
        span,
        "a loop condition must be a bool, but this is "@ + kind_text(v) + "."@,
        "compare something, as in math { ('n') > 1 }."@,
    )
}

/// A condition loop, from its next time round on. Every time round counts as a step, so
/// the count of steps never goes back.
pub open spec fn while_from(d: nat, w: World, l: LoopStmt, acc: Seq<Val>) -> (World, Result<Seq<Val>, StopView>)
    decreases d, l, ticks_left(w),
{
    match l.kind {
        LoopKind::Counted { .. } => (w, Ok(acc)),
        LoopKind::While { condition } => match ticked(w, l.span) {
            (w1, Err(s)) => (w1, Err(s)),
            (w1, Ok(_)) => match expr_result(d, w1, condition, None) {
                (w2, Err(s)) => (w2, Err(s)),
                (w2, Ok(Val::Bool(false))) => (w2, Ok(acc)),
                (w2, Ok(Val::Bool(true))) => match scoped(d, w2, l.body) {
                    (w3, Err(s)) => (w3, Err(s)),
                    (w3, Ok(flow)) => if w3.steps <= w.steps {
                        (w3, Ok(acc))
                    } else {
                        while_from(d, w3, l, collected(acc, flow))
                    },
                },
                (w2, Ok(v)) => (w2, fail(not_a_loop_condition(v, condition.span))),
            },
        },
    }
}

// ── expressions ─────────────────────────────────────────────────────────────

pub open spec fn too_many_places(want: u32, span: Span) -> ErrorView {
    fault_view(
        Category::Prec,
        4,
        span,
        "AHPCL knows this constant to 36 decimal places; "@ + nat_text(want as nat) + " were asked for."@,
        "ask for at most 36 digits."@,
    )
}

pub open spec fn no_variable(name: Seq<char>, span: Span) -> ErrorView {
    fault_view(
        Category::Run,
        1,
        span,
        "there is no variable called '"@ + name + "' here."@,
        "check the spelling and that it is declared before this point."@,
    )
}

pub open spec fn stray_range(span: Span) -> ErrorView {
    fault_view(
        Category::Run,
        1,
        span,
        "a range is only meaningful in a loop or a selector."@,
        "write it as loop:var:int 'i' = math { 1 to 10 } { … }."@,
    )
}

pub open spec fn ragged(first: Seq<usize>, other: Seq<usize>, span: Span) -> ErrorView {
    fault_view(
        Category::Run,
        1,
        span,
        "every iteration must hand back the same shape, but one gave "@ + dims_text(first) + " and another "@
            + dims_text(other) + "."@,
        "arrays are rectangular; make each iteration produce the same shape."@,
    )
}

/// The array that a loop makes of what it collected.
pub open spec fn loop_array(vs: Seq<Val>, span: Span) -> Result<Val, StopView> {
    match odd_shape(vs, vs.len()) {
        Some((first, other)) => fail(ragged(first, other, span)),
        None => Ok(assembled(vs)),
    }
}

/// What an expression comes to in a context.
pub open spec fn expr_result(d: nat, w: World, e: Expr, hint: Option<Numeric>) -> (World, Result<Val, StopView>)
    decreases d, e, 1nat,
{
    match e.kind {
        ExprKind::Literal(text) => (w, Ok(literal_meaning(text@, hint))),
        ExprKind::Number(text) => (w, Ok(literal_meaning(text@, hint))),
        ExprKind::Str(s) => (w, Ok(Val::Str(s@))),
        ExprKind::Constant(c) => if digits_wanted(hint) > CONSTANT_DIGITS {
            (w, fail(too_many_places(digits_wanted(hint), e.span)))
        } else {
            (w, Ok(Val::Deci(constant_decimal(c, digits_wanted(hint)))))
        },
        ExprKind::Math(inner) => expr_result(d, w, *inner, hint),
        ExprKind::Ref { name, selectors } => match looked_up(w, name@) {
            None => (w, fail(no_variable(name@, e.span))),
            Some(v) => selectors_from(d, w, v, selectors, 0, 0, e.span),
        },
        ExprKind::Binary { op, lhs, rhs } => match expr_result(d, w, *lhs, hint) {
            (w1, Err(s)) => (w1, Err(s)),
            (w1, Ok(a)) => match expr_result(d, w1, *rhs, hint) {
                (w2, Err(s)) => (w2, Err(s)),
                (w2, Ok(b)) => match (
                    operand(a, !is_array_operator(op) && bare(*lhs), lhs.span),
                    operand(b, !is_array_operator(op) && bare(*rhs), rhs.span),
                ) {
                    (Err(s), _) => (w2, Err(s)),
                    (_, Err(s)) => (w2, Err(s)),
                    (Ok(x), Ok(y)) => binary_result(w2, op, x, y, e.span, hint),
                },
            },
        },
        ExprKind::Unary { op, operand: inner } => match expr_result(d, w, *inner, hint) {
            (w1, Err(s)) => (w1, Err(s)),
            (w1, Ok(v)) => match operand(v, op != UnOp::Not && bare(*inner), e.span) {
                Err(s) => (w1, Err(s)),
                Ok(x) => unary_result(w1, op, x, e.span, hint),
            },
        },
        ExprKind::ArrayLit(items) => match values_from(d, w, items, hint, 0, Seq::empty()) {
            (w1, Ok(vs)) => (w1, Ok(assembled(vs))),
            (w1, Err(s)) => (w1, Err(s)),
        },
        ExprKind::If(chain) => match chain_from(d, w, chain, 0) {
            (w1, Ok(FlowView::Handback(v))) => (w1, Ok(v)),
            (w1, Ok(FlowView::Normal)) => (w1, Ok(Val::Nothing)),
            (w1, Err(s)) => (w1, Err(s)),
        },
        ExprKind::Loop(l) => match loop_result(d, w, *l) {
            (w1, Ok(vs)) => (w1, loop_array(vs, l.span)),
            (w1, Err(s)) => (w1, Err(s)),
        },
        ExprKind::Option { .. } => (w, Ok(Val::Nothing)),
        ExprKind::Range { .. } => (w, fail(stray_range(e.span))),
        ExprKind::Call { name, args } => call_result(d, w, name@, args, e.span),
        ExprKind::Builtin { name, args } => builtin_result(d, w, name@, args, e.span, hint),
    }
}

/// What expressions from the `i`-th on come to, added to what is in `acc`.
pub open spec fn values_from(
    d: nat,
    w: World,
    items: Vec<Expr>,
    hint: Option<Numeric>,
    i: nat,
    acc: Seq<Val>,
) -> (World, Result<Seq<Val>, StopView>)
    decreases d, items, items@.len() - i,
{
    if i >= items@.len() {
        (w, Ok(acc))
    } else {
        match expr_result(d, w, items@[i as int], hint) {
            (w1, Ok(v)) => values_from(d, w1, items, hint, i + 1, acc.push(v)),
            (w1, Err(s)) => (w1, Err(s)),
        }
    }
}

/// What expressions from the `i`-th on print as, one after the other, behind `acc`.
pub open spec fn texts_from(d: nat, w: World, items: Vec<Expr>, i: nat, acc: Seq<char>) -> (
    World,
    Result<Seq<char>, StopView>,
)
    decreases d, items, items@.len() - i,
{
    if i >= items@.len() {
        (w, Ok(acc))
    } else {
        match expr_result(d, w, items@[i as int], None) {
            (w1, Ok(v)) => texts_from(d, w1, items, i + 1, acc + val_text(v)),
            (w1, Err(s)) => (w1, Err(s)),
        }
    }
}

// ── calls ───────────────────────────────────────────────────────────────────

pub open spec fn no_function(name: Seq<char>, span: Span) -> ErrorView {
    fault_view(
        Category::Run,
        1,
        span,
        "there is no function called '"@ + name + "'."@,
        "check the name, and that the function is declared."@,
    )
}

pub open spec fn too_deep(name: Seq<char>, span: Span) -> ErrorView {
    fault_view(
        Category::Run,
        1,
        span,
        "calls of '"@ + name + "' are nested too deeply."@,
        "make sure the function stops calling itself."@,
    )
}

/// The context that a function's parameter gives its argument.
pub open spec fn parameter_context(f: FuncDecl, i: nat) -> Option<Numeric> {
    if i < f.params@.len() {
        context_of(f.params@[i as int].ty.base@, f.params@[i as int].ty.precision)
    } else {
        None
    }
}

/// What the arguments of a call from the `i`-th on come to, added to what is in `acc`.
pub open spec fn arguments_from(d: nat, w: World, f: FuncDecl, args: Vec<Expr>, i: nat, acc: Seq<Val>) -> (
    World,
    Result<Seq<Val>, StopView>,
)
    decreases d, args, args@.len() - i,
{
    if i >= args@.len() {
        (w, Ok(acc))
    } else {
        match expr_result(d, w, args@[i as int], parameter_context(f, i)) {
            (w1, Ok(v)) => arguments_from(d, w1, f, args, i + 1, acc.push(v)),
            (w1, Err(s)) => (w1, Err(s)),
        }
    }
}

/// The parameters of a function, the first `n` of them declared with their arguments.
pub open spec fn with_parameters(w: World, f: FuncDecl, vs: Seq<Val>, n: nat) -> World
    decreases n,
{
    if n == 0 {
        w
    } else {
        defined(with_parameters(w, f, vs, (n - 1) as nat), f.params@[n - 1].name@, vs[n - 1])
    }
}

pub open spec fn parameters_given(f: FuncDecl, vs: Seq<Val>) -> nat {
    if f.params@.len() <= vs.len() {
        f.params@.len()
    } else {
        vs.len()
    }
}

pub open spec fn call_result(d: nat, w: World, name: Seq<char>, args: Vec<Expr>, span: Span) -> (
    World,
    Result<Val, StopView>,
)
    decreases d, args, args@.len() + 1,
{
    match function_named(w.functions, name, w.functions.len()) {
        None => (w, fail(no_function(name, span))),
        Some(k) => {
            let f = w.functions[k];
            match arguments_from(d, w, f, args, 0, Seq::empty()) {
                (w1, Err(s)) => (w1, Err(s)),
                (w1, Ok(vs)) => if d == 0 {
                    (w1, fail(too_deep(name, span)))
                } else {
                    let (w2, r) = block_from(
                        (d - 1) as nat,
                        with_parameters(opened(w1), f, vs, parameters_given(f, vs)),
                        f.body,
                        0,
                    );
                    (
                        closed_scope(w2),
                        match r {
                            Ok(FlowView::Handback(v)) => Ok(v),
                            Ok(FlowView::Normal) => Ok(Val::Nothing),
                            Err(s) => Err(s),
                        },
                    )
                },
            }
        },
    }
}

/// The text of a builtin's first argument; nothing where there is none.
pub open spec fn first_text(d: nat, w: World, args: Vec<Expr>) -> (World, Result<Seq<char>, StopView>)
    decreases d, args, args@.len() + 1,
{
    if args@.len() == 0 {
        (w, Ok(Seq::empty()))
    } else {
        match expr_result(d, w, args@[0], None) {
            (w1, Ok(v)) => (w1, Ok(val_text(v))),
            (w1, Err(s)) => (w1, Err(s)),
        }
    }
}

pub open spec fn no_builtin(name: Seq<char>, span: Span) -> ErrorView {
    fault_view(
        Category::Run,
        1,
        span,
        "'"@ + name + "' is not a builtin AHPCL knows."@,
        "the builtins are print, read, parse and clock."@,
    )
}

pub open spec fn builtin_result(
    d: nat,
    w: World,
    name: Seq<char>,
    args: Vec<Expr>,
    span: Span,
    hint: Option<Numeric>,
) -> (World, Result<Val, StopView>)
    decreases d, args, args@.len() + 2,
{
    if name == "print"@ {
        match texts_from(d, w, args, 0, Seq::empty()) {
            (w1, Ok(line)) => (printed(w1, line), Ok(Val::Nothing)),
            (w1, Err(s)) => (w1, Err(s)),
        }
    } else if name == "read"@ {
        match first_text(d, w, args) {
            (w1, Ok(path)) => attempted(w1, Err(StopView::Ask(RequestView::Read { path })), span),
            (w1, Err(s)) => (w1, Err(s)),
        }
    } else if name == "parse"@ {
        match first_text(d, w, args) {
            (w1, Ok(text)) => (w1, parse_result(text, args@, span, hint)),
            (w1, Err(s)) => (w1, Err(s)),
        }
    } else if name == "clock"@ {
        attempted(w, Err(StopView::Ask(RequestView::Clock)), span)
    } else {
        (w, fail(no_builtin(name, span)))
    }
}

// ── selectors ───────────────────────────────────────────────────────────────

/// A chain of selectors from the `i`-th on, those from the `start`-th not yet applied.
///
/// Consecutive index selectors address **successive dimensions**: the first picks rows,
/// the second columns, and so on. `:length;` and `:shape;` are questions about the array
/// rather than dimension selectors, so they consume whatever has been narrowed so far and
/// the chain continues on their result.
pub open spec fn selectors_from(
    d: nat,
    w: World,
    v: Val,
    sels: Vec<Selector>,
    start: nat,
    i: nat,
    span: Span,
) -> (World, Result<Val, StopView>)
    decreases d, sels, sels@.len() + 2 + (if i < sels@.len() { sels@.len() - i } else { 0 }),
{
    if i >= sels@.len() {
        run_result(d, w, v, sels, start, sels@.len(), span)
    } else {
        match sels@[i as int] {
            Selector::Length | Selector::Shape => match run_result(d, w, v, sels, start, i, span) {
                (w1, Err(s)) => (w1, Err(s)),
                (w1, Ok(x)) => match queried(x, sels@[i as int], span) {
                    Ok(y) => selectors_from(d, w1, y, sels, i + 1, i + 1, span),
                    Err(s) => (w1, Err(s)),
                },
            },
            _ => selectors_from(d, w, v, sels, start, i + 1, span),
        }
    }
}

/// One run of dimension selectors, one per dimension in order.
pub open spec fn run_result(
    d: nat,
    w: World,
    v: Val,
    sels: Vec<Selector>,
    start: nat,
    end: nat,
    span: Span,
) -> (World, Result<Val, StopView>)
    decreases d, sels, sels@.len() + 1,
{
    if start >= end {
        (w, Ok(v))
    } else {
        match v {
            Val::Array { items, shape } => if end - start > shape.len() {
                (w, fail(too_many_selectors(end - start, shape.len() as int, span)))
            } else {
                match picks_from(d, w, shape, sels, start, start, end, span, Seq::empty(), Seq::empty()) {
                    (w1, Ok((picks, single))) => (w1, selection(items, shape, picks, single, span)),
                    (w1, Err(s)) => (w1, Err(s)),
                }
            },
            _ => (w, fail(not_selectable(span))),
        }
    }
}

/// The positions that the selectors from the `k`-th up to the `end`-th pick, each in its
/// own dimension, and whether each picks a single one.
pub open spec fn picks_from(
    d: nat,
    w: World,
    shape: Seq<usize>,
    sels: Vec<Selector>,
    start: nat,
    k: nat,
    end: nat,
    span: Span,
    picks: Seq<Seq<i128>>,
    single: Seq<bool>,
) -> (World, Result<(Seq<Seq<i128>>, Seq<bool>), StopView>)
    decreases d, sels, (if k < sels@.len() { sels@.len() - k } else { 0 }),
{
    if k >= end || k >= sels@.len() {
        (w, Ok((picks, single)))
    } else {
        let dim = k - start;
        match dimension_result(d, w, sels@[k as int], dim, shape[dim], span) {
            (w1, Err(s)) => (w1, Err(s)),
            (w1, Ok((chosen, one))) => picks_from(
                d,
                w1,
                shape,
                sels,
                start,
                k + 1,
                end,
                span,
                picks.push(chosen),
                single.push(one),
            ),
        }
    }
}

/// The positions that a selector picks in a dimension, all of which must lie in it.
pub open spec fn dimension_result(d: nat, w: World, sel: Selector, dim: int, extent: usize, span: Span) -> (
    World,
    Result<(Seq<i128>, bool), StopView>,
)
    decreases d, sel, 1nat,
{
    match positions_result(d, w, sel, extent, span) {
        (w1, Err(s)) => (w1, Err(s)),
        (w1, Ok((chosen, one))) => match first_beyond(chosen, extent, 0) {
            Some(p) => (w1, fail(beyond(p, dim, extent, span))),
            None => (w1, Ok((chosen, one))),
        },
    }
}

pub open spec fn zero_selector_step(span: Span) -> ErrorView {
    fault_view(Category::Run, 1, span, "a selector step of 0 would never finish."@, "use a non-zero step."@)
}

/// The zero-based positions that a range of indices picks.
pub open spec fn picked_range(f: i128, t: i128, step: i128, span: Span) -> Result<(Seq<i128>, bool), StopView> {
    if step == 0 {
        fail(zero_selector_step(span))
    } else {
        match positions_from(Seq::empty(), f as int, t as int, step as int) {
            Ok(ps) => Ok((ps, false)),
            Err(i) => fail(invalid_index(i, span)),
        }
    }
}

/// An expression that must come to a whole number.
pub open spec fn int_result_of(d: nat, w: World, e: Expr) -> (World, Result<i128, StopView>)
    decreases d, e, 2nat,
{
    match expr_result(d, w, e, whole()) {
        (w1, Err(s)) => (w1, Err(s)),
        (w1, Ok(v)) => match int_from(v, e.span) {
            Ok(n) => (w1, Ok(n)),
            Err(e) => (w1, fail(e)),
        },
    }
}

/// Zero-based positions a selector picks along one dimension, and whether it was a single
/// index, which collapses the dimension.
pub open spec fn positions_result(d: nat, w: World, sel: Selector, extent: usize, span: Span) -> (
    World,
    Result<(Seq<i128>, bool), StopView>,
)
    decreases d, sel, 0nat,
{
    match sel {
        Selector::Indices(items) => match index_list_from(d, w, items, 0, Seq::empty()) {
            (w1, Ok(ns)) => (w1, Ok((Seq::new(ns.len(), |i: int| (ns[i] - 1) as i128), ns.len() == 1))),
            (w1, Err(s)) => (w1, Err(s)),
        },
        Selector::Range { from, to, by } => match int_result_of(d, w, *from) {
            (w1, Err(s)) => (w1, Err(s)),
            (w1, Ok(f)) => match int_result_of(d, w1, *to) {
                (w2, Err(s)) => (w2, Err(s)),
                (w2, Ok(t)) => match step_result(d, w2, by) {
                    (w3, Err(s)) => (w3, Err(s)),
                    (w3, Ok(step)) => (w3, picked_range(f, t, step, span)),
                },
            },
        },
        _ => (w, Ok((all_positions(extent), false))),
    }
}

// ── programs ────────────────────────────────────────────────────────────────

/// What running a program came to: what was printed, and how it ended.
pub struct OutputView {
    pub lines: Seq<Seq<char>>,
    pub error: Option<ErrorView>,
    /// What the program waits for, where it does.
    pub request: Option<RequestView>,
}

/// What a program prints and how it ends, given what the world outside has answered.
pub open spec fn run_meaning(p: Program, answers: Seq<AnswerView>) -> OutputView {
    let w = fresh_world(functions_in(p.statements@, p.statements@.len()), answers);
    let (w1, r) = block_from(u64::MAX as nat, w, p.statements, 0);
    match r {
        Ok(_) => OutputView { lines: w1.lines, error: None, request: None },
        Err(StopView::Fail(e)) => OutputView { lines: w1.lines, error: Some(e), request: None },
        Err(StopView::Ask(q)) => OutputView { lines: w1.lines, error: None, request: Some(q) },
    }
}

} // verus!
