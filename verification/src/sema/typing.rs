//! What type each construct has, and what is reported when it has none.
//!
//! Checking is bidirectional: an expression is checked *against* an expected type where
//! one is known, and inferred otherwise. That is what makes "polymorphic until pinned by
//! context" work for numeric literals and for division, and what makes the absence of a
//! pin an error rather than a silent default.

use vstd::prelude::*;

use crate::ast::{
    rank_dimensions, rank_name, BinOp, Binding, ChangeStmt, ChangeTarget, Dim, Expr, ExprKind, FuncDecl,
    IfChain, LoopKind, LoopStmt, Param, Precision, Program, Selector, Sign, Stmt, TypeRef, UnOp, VarDecl,
};
use crate::diagnostics::error::{fault_view, labelled, Category, ErrorView};
use crate::diagnostics::informer::{told, InformerView};
use crate::diagnostics::position::{BytePos, Span};
use crate::eval::numeric::{width_bounds, CONSTANT_DIGITS, SQRT_MAX_DIGITS};
use crate::eval::ops::is_comparison;
use crate::eval::parse::parsed_int;
use crate::eval::semantics::{bare, is_array_operator, range_inside};
use crate::sema::scope::{
    found, hidden, is_visible, popped, pushed, suggestion, with_variable, FunctionView, ScopesView,
    VariableView,
};
use crate::sema::types::{
    added_sign, base_fits, base_text, dims_view, element_type, joined_base, multiplied_sign, negated_sign,
    raised_sign, rank_agrees, rung, scalar_type, shape_words, shapes_agree, type_fits, type_text, type_widens,
    written_type, Base, TypeView,
};
use crate::text::{int_text, is_digit, nat_text};

verus! {

/// What a check knows and has found so far.
#[verifier::ext_equal]
pub struct Findings {
    pub scopes: ScopesView,
    pub errors: Seq<ErrorView>,
    pub informer: InformerView,
}

// ── reporting ───────────────────────────────────────────────────────────────

pub open spec fn reported(s: Findings, e: ErrorView) -> Findings {
    Findings { errors: s.errors.push(e), ..s }
}

pub open spec fn erred(s: Findings, category: Category, number: u16, span: Span, what: Seq<char>, fix: Seq<char>) -> Findings {
    reported(s, fault_view(category, number, span, what, fix))
}

pub open spec fn noted(s: Findings, at: BytePos, message: Seq<char>) -> Findings {
    Findings { informer: told(s.informer, Some(at), message), ..s }
}

pub open spec fn scope_opened(s: Findings) -> Findings {
    Findings { scopes: pushed(s.scopes), ..s }
}

pub open spec fn scope_closed(s: Findings) -> Findings {
    Findings { scopes: popped(s.scopes), ..s }
}

pub open spec fn plural(n: int) -> Seq<char> {
    if n == 1 {
        ""@
    } else {
        "s"@
    }
}

/// A name declared in the innermost scope; what it hides is reported.
pub open spec fn declared(s: Findings, name: Seq<char>, ty: TypeView, span: Span, read_only: bool) -> Findings {
    let t = Findings {
        scopes: with_variable(s.scopes, name, VariableView { ty, declared_at: span, read_only }),
        ..s
    };
    match hidden(s.scopes, name) {
        Some(_) => noted(t, span.start, "'"@ + name + "' here shadows '"@ + name + "' declared earlier"@),
        None => t,
    }
}

pub open spec fn unknown_variable(s: Findings, name: Seq<char>, span: Span) -> Findings {
    erred(
        s,
        Category::Name,
        1,
        span,
        "there is no variable called '"@ + name + "' in scope."@,
        match suggestion(name, |n: Seq<char>| is_visible(s.scopes, n)) {
            Some(n) => "did you mean '"@ + n + "'?"@,
            None => "check the spelling, and that it is declared before this point."@,
        },
    )
}

pub open spec fn unknown_function(s: Findings, name: Seq<char>, span: Span) -> Findings {
    erred(
        s,
        Category::Name,
        2,
        span,
        "there is no function called '"@ + name + "'."@,
        match suggestion(name, |n: Seq<char>| s.scopes.functions.dom().contains(n)) {
            Some(n) => "did you mean '"@ + n + "'?"@,
            None => "check the name, and that the function is declared."@,
        },
    )
}

// ── fitting ─────────────────────────────────────────────────────────────────

pub open spec fn type_shapes_agree(a: TypeView, b: TypeView) -> bool {
    match (a.shape, b.shape) {
        (None, None) => true,
        (Some(x), Some(y)) => shapes_agree(x, y),
        _ => false,
    }
}

/// "an int", "a deci".
pub open spec fn with_article(b: Base) -> Seq<char> {
    if b == Base::Int || b == Base::InfNum {
        "an "@ + base_text(b)
    } else {
        "a "@ + base_text(b)
    }
}

/// What to do about a type that does not fit.
pub open spec fn fitting_hint(got: TypeView, want: TypeView) -> Seq<char> {
    match (got.shape, want.shape) {
        (Some(a), Some(b)) => if !shapes_agree(a, b) {
            "the shapes "@ + shape_words(a) + " and "@ + shape_words(b) + " do not agree."@
        } else {
            base_hint(got, want)
        },
        (Some(a), None) => "this is an array of "@ + shape_words(a)
            + ", but a single value was expected. A bare reference sums; use :all; to keep it an array."@,
        (None, Some(b)) => "a single value cannot fill an array of "@ + shape_words(b) + "."@,
        (None, None) => base_hint(got, want),
    }
}

pub open spec fn base_hint(got: TypeView, want: TypeView) -> Seq<char> {
    if want.sign is Some && got.sign is None {
        with_article(got.base) + " might be negative, so it cannot satisfy "@ + type_text(want) + ". Declare it "@
            + type_text(want) + " instead."@
    } else if rung(got.base) is Some && rung(want.base) is Some {
        with_article(got.base) + " is wider than "@ + type_text(want)
            + ". Narrower types pass into wider ones, never the reverse."@
    } else {
        "check the declared type."@
    }
}

/// A value must fit where it goes; widening it is reported.
pub open spec fn must_fit(s: Findings, got: TypeView, want: TypeView, span: Span, what: Seq<char>) -> Findings {
    if type_fits(got, want) {
        if type_widens(got, want) {
            noted(
                s,
                span.start,
                what + " as "@ + type_text(got) + " where "@ + type_text(want) + " expected; widened"@,
            )
        } else {
            s
        }
    } else {
        erred(
            s,
            Category::Type,
            2,
            span,
            "this is "@ + type_text(got) + ", but "@ + type_text(want) + " was expected."@,
            fitting_hint(got, want),
        )
    }
}

/// The same, but a sign promise alone is left to verification.
pub open spec fn must_fit_but_for_sign(s: Findings, got: TypeView, want: TypeView, span: Span, what: Seq<char>) -> Findings {
    if want.sign is Some && base_fits(got.base, want.base) && type_shapes_agree(got, want) && !type_fits(got, want) {
        s
    } else {
        must_fit(s, got, want, span, what)
    }
}

pub open spec fn must_fit_parameter(s: Findings, got: TypeView, want: TypeView, span: Span, param: Seq<char>) -> Findings {
    if type_fits(got, want) {
        if type_widens(got, want) {
            noted(
                s,
                span.start,
                "'"@ + param + "' passed as "@ + type_text(got) + " where "@ + type_text(want)
                    + " expected; widened"@,
            )
        } else {
            s
        }
    } else {
        erred(
            s,
            Category::Type,
            2,
            span,
            "'"@ + param + "' expects "@ + type_text(want) + ", but this is "@ + type_text(got) + "."@,
            fitting_hint(got, want),
        )
    }
}

// ── what is checked of a declaration ────────────────────────────────────────

pub open spec fn rank_checked(s: Findings, ty_ref: TypeRef, ty: TypeView, span: Span) -> Findings {
    match (ty_ref.rank, ty.shape) {
        (Some(rank), Some(dims)) => if rank_agrees(rank, dims) {
            s
        } else {
            erred(
                s,
                Category::Shape,
                2,
                span,
                "'"@ + rank_name(rank) + "' is "@ + (match rank_dimensions(rank) {
                    Some(n) => nat_text(n as nat) + "-dimensional"@,
                    None => "three or more dimensions"@,
                }) + ", but shape "@ + shape_words(dims) + " has "@ + nat_text(dims.len()) + "."@,
                "use vector for one dimension, matrix for two, tensor for three or more."@,
            )
        },
        _ => s,
    }
}

pub open spec fn precision_checked(s: Findings, ty: TypeView, span: Span) -> Findings {
    match ty.precision {
        Some(Precision::Bits(b)) => if ty.base == Base::InfNum {
            erred(
                s,
                Category::Prec,
                2,
                span,
                "infnum is unbounded, so a bit width means nothing for it."@,
                "drop the width, or use [n digits] to say how much of an irrational to compute."@,
            )
        } else if ty.base == Base::Deci && !(b == 32 || b == 64 || b == 128) {
            erred(
                s,
                Category::Prec,
                3,
                span,
                nat_text(b as nat) + " is not an IEEE decimal format."@,
                "decimals are 32, 64 or 128 bit. decimal128 gives 34 digits, which is what financial systems use."@,
            )
        } else if !(b == 8 || b == 16 || b == 32 || b == 64 || b == 128) {
            erred(
                s,
                Category::Prec,
                5,
                span,
                nat_text(b as nat) + " is not a width AHPCL offers."@,
                "the widths are 8, 16, 32, 64 and 128."@,
            )
        } else {
            s
        },
        _ => s,
    }
}

// ── literals ────────────────────────────────────────────────────────────────

pub open spec fn is_sign(c: char) -> bool {
    c == '-' || c == '+'
}

/// A text without one sign in front.
pub open spec fn unsigned_text(t: Seq<char>) -> Seq<char> {
    if t.len() > 0 && is_sign(t[0]) {
        t.skip(1)
    } else {
        t
    }
}

/// A text without any signs in front.
pub open spec fn without_signs(t: Seq<char>) -> Seq<char>
    decreases t.len(),
{
    if t.len() > 0 && is_sign(t[0]) {
        without_signs(t.skip(1))
    } else {
        t
    }
}

pub open spec fn numeric_char(c: char) -> bool {
    is_digit(c) || c == '.'
}

/// Whether a literal is written as a number.
pub open spec fn looks_numeric(t: Seq<char>) -> bool {
    &&& forall|i: int| 0 <= i < unsigned_text(t).len() ==> numeric_char(#[trigger] unsigned_text(t)[i])
    &&& exists|i: int| 0 <= i < t.len() && is_digit(#[trigger] t[i])
}

pub open spec fn has_point(t: Seq<char>) -> bool {
    exists|i: int| 0 <= i < t.len() && #[trigger] t[i] == '.'
}

pub open spec fn zero_char(c: char) -> bool {
    c == '0' || c == '.'
}

/// Whether a literal is written as zero.
pub open spec fn looks_zero(t: Seq<char>) -> bool {
    forall|i: int| 0 <= i < without_signs(t).len() ==> zero_char(#[trigger] without_signs(t)[i])
}

pub open spec fn literal_sign_checked(s: Findings, text: Seq<char>, ty: TypeView, span: Span) -> Findings {
    let negative = text.len() > 0 && text[0] == '-';
    match ty.sign {
        Some(Sign::Positive) => if negative || looks_zero(text) {
            erred(
                s,
                Category::Sign,
                1,
                span,
                "'"@ + text + "' is not strictly positive, but the type says +"@ + base_text(ty.base) + "."@,
                "zero lives only in the unprefixed types; use a plain type, or a positive value."@,
            )
        } else {
            s
        },
        Some(Sign::Negative) => if !negative || looks_zero(text) {
            erred(
                s,
                Category::Sign,
                1,
                span,
                "'"@ + text + "' is not strictly negative, but the type says -"@ + base_text(ty.base) + "."@,
                "zero lives only in the unprefixed types; use a plain type, or a negative value."@,
            )
        } else {
            s
        },
        None => s,
    }
}

pub open spec fn literal_width_checked(s: Findings, text: Seq<char>, ty: TypeView, span: Span) -> Findings {
    match (ty.precision, parsed_int(text, 10)) {
        (Some(Precision::Bits(bits)), Some(v)) => {
            let (lo, hi) = width_bounds(bits, ty.sign);
            if ty.base == Base::Int && (v < lo || v > hi) {
                erred(
                    s,
                    Category::Prec,
                    4,
                    span,
                    int_text(v) + " does not fit in "@ + type_text(ty) + " ["@ + nat_text(bits as nat)
                        + " bit], which holds "@ + int_text(lo) + " to "@ + int_text(hi) + "."@,
                    "widen the type, or use infnum."@,
                )
            } else {
                s
            }
        },
        _ => s,
    }
}

/// The type of a literal: that of its context, where it is a number.
pub open spec fn literal_type(s: Findings, text: Seq<char>, span: Span, expected: Option<TypeView>) -> (
    Findings,
    Option<TypeView>,
) {
    if !looks_numeric(text) {
        if text == "true"@ || text == "false"@ {
            (s, Some(scalar_type(Base::Bool)))
        } else {
            (s, Some(scalar_type(Base::Str)))
        }
    } else {
        match expected {
            Some(t) => if rung(t.base) is Some {
                let elem = element_type(t);
                let s1 = literal_width_checked(literal_sign_checked(s, text, elem, span), text, elem, span);
                if has_point(text) && elem.base == Base::Int {
                    (
                        erred(
                            s1,
                            Category::Type,
                            2,
                            span,
                            "'"@ + text + "' has a fractional part, but an int was expected."@,
                            "use deci, rat or num, or write a whole number."@,
                        ),
                        Some(elem),
                    )
                } else {
                    (s1, Some(elem))
                }
            } else {
                (
                    erred(
                        s,
                        Category::Type,
                        2,
                        span,
                        "'"@ + text + "' is a number, but "@ + type_text(t) + " was expected."@,
                        "check the declared type."@,
                    ),
                    None,
                )
            },
            None => (
                erred(
                    s,
                    Category::Type,
                    1,
                    span,
                    "nothing here says what kind of number '"@ + text + "' is."@,
                    "give the surrounding declaration a type, such as :deci or :int."@,
                ),
                None,
            ),
        }
    }
}

/// Whether more places are asked for than are known.
pub open spec fn places_beyond(precision: Option<Precision>, known: u32) -> bool {
    precision matches Some(Precision::Digits(n)) && n > known
}

pub open spec fn places_asked(precision: Option<Precision>) -> nat {
    match precision {
        Some(Precision::Digits(n)) => n as nat,
        _ => 0,
    }
}

/// π, e and τ are irrational, so they are polymorphic until pinned.
pub open spec fn constant_type(s: Findings, span: Span, expected: Option<TypeView>) -> (Findings, Option<TypeView>) {
    match expected {
        Some(t) => if rung(t.base) is Some {
            if places_beyond(t.precision, CONSTANT_DIGITS) {
                (
                    erred(
                        s,
                        Category::Prec,
                        4,
                        span,
                        "AHPCL knows this constant to 36 decimal places; "@ + nat_text(places_asked(t.precision))
                            + " were asked for."@,
                        "ask for at most 36 digits."@,
                    ),
                    None,
                )
            } else {
                (s, Some(t))
            }
        } else {
            (s, Some(scalar_type(Base::Deci)))
        },
        None => (s, Some(scalar_type(Base::Deci))),
    }
}

// ── lengths ─────────────────────────────────────────────────────────────────

/// The whole number that an expression is written as, where it is written as one.
pub open spec fn written_int(e: Expr) -> Option<int> {
    match e.kind {
        ExprKind::Number(t) => short_int(t@),
        ExprKind::Literal(t) => short_int(t@),
        ExprKind::Math(inner) => match inner.kind {
            ExprKind::Number(t) => short_int(t@),
            ExprKind::Literal(t) => short_int(t@),
            _ => None,
        },
        _ => None,
    }
}

pub open spec fn short_int(t: Seq<char>) -> Option<int> {
    match parsed_int(t, 10) {
        Some(n) => if i64::MIN <= n <= i64::MAX {
            Some(n)
        } else {
            None
        },
        None => None,
    }
}

/// How many numbers there are from `f` to `t` by steps of `step`.
pub open spec fn count_between(f: int, t: int, step: int) -> int {
    if step > 0 {
        if t < f {
            0
        } else {
            (t - f) / step + 1
        }
    } else {
        if t > f {
            0
        } else {
            (f - t) / (-step) + 1
        }
    }
}

/// How many values a literal range covers, when its bounds are known.
pub open spec fn written_length(from: Expr, to: Expr, by: Option<Box<Expr>>) -> Option<u64> {
    let step = match by {
        Some(b) => written_int(*b),
        None => Some(1int),
    };
    match (written_int(from), written_int(to), step) {
        (Some(f), Some(t), Some(n)) => if n == 0 || count_between(f, t, n) > u64::MAX {
            None
        } else {
            Some(count_between(f, t, n) as u64)
        },
        _ => None,
    }
}

/// How many iterations a counted loop runs, when its range is literal.
pub open spec fn written_iterations(range: Expr) -> Option<u64> {
    match range_inside(range).kind {
        ExprKind::Range { from, to, by } => written_length(*from, *to, by),
        _ => None,
    }
}

pub open spec fn known_or_not(n: Option<u64>) -> Dim {
    match n {
        Some(k) => Dim::Known(k),
        None => Dim::Unknown,
    }
}

pub open spec fn tail_of(dims: Seq<Dim>) -> Seq<Dim> {
    if dims.len() > 0 {
        dims.skip(1)
    } else {
        dims
    }
}

// ── paths ───────────────────────────────────────────────────────────────────

/// Whether one of the statements from the `i`-th on hands a value back on every path.
pub open spec fn hands_back(stmts: Vec<Stmt>, i: nat) -> bool
    decreases stmts, stmts@.len() - i,
{
    if i >= stmts@.len() {
        false
    } else {
        statement_hands_back(stmts@[i as int]) || hands_back(stmts, i + 1)
    }
}

pub open spec fn statement_hands_back(s: Stmt) -> bool
    decreases s, 0nat,
{
    match s {
        Stmt::Handback { .. } => true,
        Stmt::If(chain) => has_else(chain) && all_hand_back(chain, 0),
        _ => false,
    }
}

pub open spec fn has_else(chain: IfChain) -> bool {
    exists|i: int| 0 <= i < chain.arms@.len() && (#[trigger] chain.arms@[i]).condition is None
}

/// Whether every arm from the `i`-th on hands a value back.
pub open spec fn all_hand_back(chain: IfChain, i: nat) -> bool
    decreases chain, chain.arms@.len() - i,
{
    if i >= chain.arms@.len() {
        true
    } else {
        hands_back(chain.arms@[i as int].body, 0) && all_hand_back(chain, i + 1)
    }
}

pub open spec fn span_of(s: Stmt) -> Span {
    match s {
        Stmt::Var(v) => v.span,
        Stmt::Change(c) => c.span,
        Stmt::Func(f) => f.span,
        Stmt::If(c) => c.span,
        Stmt::Loop(l) => l.span,
        Stmt::Print { span, .. } => span,
        Stmt::Handback { span, .. } => span,
        Stmt::Expr(e) => e.span,
    }
}

/// The first handback among the statements from the `i`-th on.
pub open spec fn first_handback(stmts: Seq<Stmt>, i: nat) -> Option<int>
    decreases stmts.len() - i,
{
    if i >= stmts.len() {
        None
    } else if stmts[i as int] is Handback {
        Some(i as int)
    } else {
        first_handback(stmts, i + 1)
    }
}

/// Nothing behind a handback in the same block can ever run.
pub open spec fn reach_checked(s: Findings, body: Seq<Stmt>) -> Findings {
    match first_handback(body, 0) {
        Some(at) => if at + 1 < body.len() {
            erred(
                s,
                Category::Syn,
                2,
                span_of(body[at + 1]),
                "this can never run, because the handback above it ends the block."@,
                "move it above the handback, or take it out."@,
            )
        } else {
            s
        },
        None => s,
    }
}

// ── functions ───────────────────────────────────────────────────────────────

/// The types of the first `n` parameters, those of no known type left out.
pub open spec fn parameter_types(params: Seq<Param>, n: nat) -> Seq<TypeView>
    decreases n,
{
    if n == 0 {
        Seq::empty()
    } else {
        let p = params[n - 1];
        match written_type(p.ty, dims_view(p.shape), p.precision) {
            Some(t) => parameter_types(params, (n - 1) as nat).push(t),
            None => parameter_types(params, (n - 1) as nat),
        }
    }
}

pub open spec fn signature(f: FuncDecl) -> Option<FunctionView> {
    match written_type(f.returns, None, None) {
        Some(result) => Some(
            FunctionView {
                params: parameter_types(f.params@, f.params@.len()),
                param_names: Seq::new(f.params@.len(), |i: int| f.params@[i].name@),
                returns: result,
                declared_at: f.name_span,
            },
        ),
        None => None,
    }
}

/// The functions declared by the first `n` statements; a later one replaces an earlier one
/// of the same name.
pub open spec fn collected_functions(stmts: Seq<Stmt>, n: nat) -> Map<Seq<char>, FunctionView>
    decreases n,
{
    if n == 0 {
        Map::empty()
    } else {
        let before = collected_functions(stmts, (n - 1) as nat);
        match stmts[n - 1] {
            Stmt::Func(f) => match signature(f) {
                Some(v) => before.insert(f.name@, v),
                None => before,
            },
            _ => before,
        }
    }
}

// ── operators ───────────────────────────────────────────────────────────────

/// The shape an operand keeps under an operator: a bare array is summed, unless the
/// operator works on arrays.
pub open spec fn kept_dims(op: BinOp, e: Expr, t: Option<TypeView>) -> Option<Seq<Dim>> {
    match t {
        Some(t) => if is_array_operator(op) || !bare(e) {
            t.shape
        } else {
            None
        },
        None => None,
    }
}

pub open spec fn either_dims(a: Option<Seq<Dim>>, b: Option<Seq<Dim>>) -> Option<Seq<Dim>> {
    match a {
        Some(_) => a,
        None => b,
    }
}

pub open spec fn unrefined(t: Option<TypeView>) -> Option<TypeView> {
    match t {
        Some(t) => Some(TypeView { sign: None, ..t }),
        None => None,
    }
}

/// What the second operand is checked against.
pub open spec fn second_expectation(op: BinOp, a: Option<TypeView>, expected: Option<TypeView>) -> Option<TypeView> {
    if is_comparison(op) {
        match a {
            Some(t) => Some(TypeView { sign: None, precision: None, ..t }),
            None => None,
        }
    } else {
        match unrefined(expected) {
            Some(t) => Some(t),
            None => a,
        }
    }
}

/// The base of a result; division's is pinned by context.
pub open spec fn result_base(s: Findings, op: BinOp, a: Base, b: Base, span: Span, expected: Option<TypeView>) -> (
    Findings,
    Option<Base>,
) {
    if op == BinOp::Div {
        match expected {
            Some(t) => if t.base == Base::Rat || t.base == Base::Deci || t.base == Base::InfNum {
                (s, Some(t.base))
            } else if t.base == Base::Int {
                (
                    erred(
                        s,
                        Category::Type,
                        2,
                        span,
                        "division does not produce a whole number, so it cannot land in an int."@,
                        "use // for truncating division, or declare the result :deci or :rat."@,
                    ),
                    None,
                )
            } else {
                (ambiguous_division(s, span), None)
            },
            None => (ambiguous_division(s, span), None),
        }
    } else if op == BinOp::IntDiv {
        (s, Some(Base::Int))
    } else {
        (s, joined_base(a, b))
    }
}

pub open spec fn ambiguous_division(s: Findings, span: Span) -> Findings {
    erred(
        s,
        Category::Type,
        1,
        span,
        "division produces either an exact rational or a decimal, and nothing here says which."@,
        "give the surrounding declaration a concrete type, such as :deci or :rat."@,
    )
}

pub open spec fn result_sign(op: BinOp, a: Option<Sign>, b: Option<Sign>) -> Option<Sign> {
    match op {
        BinOp::Add => added_sign(a, b),
        BinOp::Mul => multiplied_sign(a, b),
        BinOp::Div => multiplied_sign(a, b),
        BinOp::IntDiv => multiplied_sign(a, b),
        BinOp::Pow => raised_sign(a),
        _ => None,
    }
}

pub open spec fn mismatched_shapes(s: Findings, x: Seq<Dim>, y: Seq<Dim>, span: Span) -> Findings {
    erred(
        s,
        Category::Shape,
        1,
        span,
        "elementwise operations need matching shapes, but these are "@ + shape_words(x) + " and "@ + shape_words(y)
            + "."@,
        "make the shapes agree."@,
    )
}

/// The type of arithmetic on two operands, once their own types are known.
pub open spec fn arithmetic_type(
    s: Findings,
    op: BinOp,
    a: TypeView,
    b: TypeView,
    a_dims: Option<Seq<Dim>>,
    b_dims: Option<Seq<Dim>>,
    span: Span,
    expected: Option<TypeView>,
) -> (Findings, Option<TypeView>) {
    if rung(a.base) is None || rung(b.base) is None {
        (
            erred(
                s,
                Category::Type,
                3,
                span,
                "arithmetic needs numbers, but this is "@ + type_text(
                    if rung(a.base) is Some {
                        b
                    } else {
                        a
                    },
                ) + "."@,
                "only num, rat, deci, int and infnum take arithmetic."@,
            ),
            None,
        )
    } else {
        match result_base(s, op, a.base, b.base, span, expected) {
            (s1, None) => (s1, None),
            (s1, Some(base)) => match (a_dims, b_dims) {
                (Some(x), Some(y)) => if !shapes_agree(x, y) {
                    (mismatched_shapes(s1, x, y, span), None)
                } else {
                    (
                        s1,
                        Some(
                            TypeView {
                                base,
                                sign: result_sign(op, a.sign, b.sign),
                                shape: either_dims(a_dims, b_dims),
                                precision: None,
                            },
                        ),
                    )
                },
                _ => (
                    s1,
                    Some(
                        TypeView {
                            base,
                            sign: result_sign(op, a.sign, b.sign),
                            shape: either_dims(a_dims, b_dims),
                            precision: None,
                        },
                    ),
                ),
            },
        }
    }
}

pub open spec fn first_dim(dims: Seq<Dim>) -> Dim {
    if dims.len() > 0 {
        dims[0]
    } else {
        Dim::Unknown
    }
}

pub open spec fn last_dim(dims: Seq<Dim>) -> Dim {
    if dims.len() > 0 {
        dims.last()
    } else {
        Dim::Unknown
    }
}

/// vec·vec → a single number; mat·vec → vec; vec·mat → vec; mat·mat → mat.
pub open spec fn dot_dims(a: Seq<Dim>, b: Seq<Dim>) -> Option<Seq<Dim>> {
    if a.len() == 1 && b.len() == 1 {
        None
    } else if b.len() == 1 {
        Some(seq![first_dim(a)])
    } else if a.len() == 1 {
        Some(seq![last_dim(b)])
    } else {
        Some(seq![first_dim(a), last_dim(b)])
    }
}

/// A type made of the two operands' bases and signs, multiplied.
pub open spec fn product_type(a: TypeView, b: TypeView, shape: Option<Seq<Dim>>) -> Option<TypeView> {
    match joined_base(a.base, b.base) {
        Some(base) => Some(TypeView { base, sign: multiplied_sign(a.sign, b.sign), shape, precision: None }),
        None => None,
    }
}

pub open spec fn is_three(dims: Seq<Dim>) -> bool {
    dims.len() == 1 && dims[0] == Dim::Known(3)
}

/// The type of one of the four array operators.
pub open spec fn array_operator_type(s: Findings, op: BinOp, a: TypeView, b: TypeView, span: Span) -> (
    Findings,
    Option<TypeView>,
) {
    match (a.shape, b.shape) {
        (Some(x), Some(y)) => match op {
            BinOp::Dot => match (last_dim(x), first_dim(y)) {
                (Dim::Known(k), Dim::Known(n)) => if k != n {
                    (
                        erred(
                            s,
                            Category::Shape,
                            1,
                            span,
                            "matrix multiplication requires inner dimensions to agree. "@ + shape_words(x) + " · "@
                                + shape_words(y) + " — "@ + nat_text(k as nat) + " ≠ "@ + nat_text(n as nat) + "."@,
                            "transpose one side, or declare a matching shape."@,
                        ),
                        None,
                    )
                } else {
                    (s, product_type(a, b, dot_dims(x, y)))
                },
                _ => (s, product_type(a, b, dot_dims(x, y))),
            },
            BinOp::Cross => if !is_three(x) || !is_three(y) {
                (
                    erred(
                        s,
                        Category::Shape,
                        1,
                        span,
                        "cross product is defined for two 3-element vectors, but these are "@ + shape_words(x)
                            + " and "@ + shape_words(y) + "."@,
                        "use · for the dot product, or ⊙ for elementwise."@,
                    ),
                    None,
                )
            } else {
                (s, Some(a))
            },
            BinOp::Hadamard => if !shapes_agree(x, y) {
                (mismatched_shapes(s, x, y, span), None)
            } else {
                (s, product_type(a, b, Some(x)))
            },
            BinOp::Tensor => (s, product_type(a, b, Some(x + y))),
            _ => (s, None),
        },
        _ => (
            erred(
                s,
                Category::Shape,
                1,
                span,
                "this operator works on arrays, but one side is a single value."@,
                "use ordinary arithmetic for single numbers."@,
            ),
            None,
        ),
    }
}

/// The type of an operator on two operands, once they have been checked.
pub open spec fn binary_type(
    s: Findings,
    op: BinOp,
    lhs: Expr,
    a: Option<TypeView>,
    rhs: Expr,
    b: Option<TypeView>,
    span: Span,
    expected: Option<TypeView>,
) -> (Findings, Option<TypeView>) {
    let a_dims = kept_dims(op, lhs, a);
    let b_dims = kept_dims(op, rhs, b);
    if is_comparison(op) {
        (s, Some(TypeView { shape: either_dims(a_dims, b_dims), ..scalar_type(Base::Bool) }))
    } else {
        match (a, b) {
            (Some(x), Some(y)) => if is_array_operator(op) {
                array_operator_type(s, op, x, y, span)
            } else {
                arithmetic_type(s, op, x, y, a_dims, b_dims, span, expected)
            },
            _ => (s, None),
        }
    }
}

pub open spec fn is_logical(op: BinOp) -> bool {
    op == BinOp::And || op == BinOp::Or
}

/// A numeric context's element type; a decimal where the context is not numeric.
pub open spec fn numeric_or_decimal(expected: Option<TypeView>) -> TypeView {
    match expected {
        Some(t) => if rung(t.base) is Some {
            element_type(t)
        } else {
            scalar_type(Base::Deci)
        },
        None => scalar_type(Base::Deci),
    }
}

/// The type of a function that is irrational as a rule, once its operand has been checked.
pub open spec fn irrational_type(
    s: Findings,
    op: UnOp,
    operand: Option<TypeView>,
    span: Span,
    expected: Option<TypeView>,
) -> (Findings, Option<TypeView>) {
    let result = numeric_or_decimal(expected);
    if operand matches Some(t) && rung(t.base) is None {
        (
            erred(
                s,
                Category::Type,
                3,
                span,
                "this operation needs a number, but got "@ + type_text(operand->0) + "."@,
                "check the operand's type."@,
            ),
            None,
        )
    } else if result.base == Base::Int {
        (
            erred(
                s,
                Category::Type,
                2,
                span,
                "this operation usually produces an irrational, which an int cannot hold.                          √9 is exactly 3, but √2 is not, and which one you have is not always                          knowable before the program runs."@,
                "use deci for a rounded result, or infnum with a digit count."@,
            ),
            None,
        )
    } else if op == UnOp::Sqrt && places_beyond(result.precision, SQRT_MAX_DIGITS) {
        (
            erred(
                s,
                Category::Prec,
                4,
                span,
                "AHPCL computes square roots to at most 18 decimal places; "@ + nat_text(
                    places_asked(result.precision),
                ) + " were asked for."@,
                "ask for at most 18 digits."@,
            ),
            None,
        )
    } else if result.base == Base::Deci {
        (
            noted(s, span.start, "result may be irrational; rounded toward zero"@),
            Some(result),
        )
    } else {
        (s, Some(result))
    }
}

// ── assignments ─────────────────────────────────────────────────────────────

/// Naming one array as another could copy it or share it, and nothing says which.
pub open spec fn naming_checked(s: Findings, name: Seq<char>, want: TypeView, got: TypeView, value: Expr) -> Findings {
    if want.shape is Some && got.shape is Some && bare(value) {
        erred(
            s,
            Category::Type,
            6,
            value.span,
            "'"@ + name + "' could be a copy of this array or a second name for it, and nothing here says which."@,
            "write :all; to copy every element."@,
        )
    } else {
        s
    }
}

pub open spec fn literal_shape_checked(s: Findings, name: Seq<char>, want: TypeView, got: TypeView, span: Span) -> Findings {
    match (want.shape, got.shape) {
        (Some(w), Some(h)) => if !shapes_agree(w, h) {
            erred(
                s,
                Category::Shape,
                3,
                span,
                "the value is "@ + shape_words(h) + " but '"@ + name + "' is declared "@ + shape_words(w) + "."@,
                "make the literal match the declared shape, or drop the shape and let the literal decide."@,
            )
        } else {
            s
        },
        _ => s,
    }
}

/// What is checked when a declaration's value has been.
pub open spec fn initialised(s: Findings, name: Seq<char>, ty: TypeView, got: TypeView, value: Expr) -> Findings {
    let shape_only = base_fits(got.base, ty.base) && got.shape is Some && ty.shape is Some && !type_fits(got, ty);
    let s1 = if shape_only {
        s
    } else {
        must_fit_but_for_sign(s, got, ty, value.span, "assigned"@)
    };
    naming_checked(literal_shape_checked(s1, name, ty, got, value.span), name, ty, got, value)
}

/// The declared type, its shape taken from the value where none is written.
pub open spec fn settled_type(ty: TypeView, got: TypeView) -> TypeView {
    if ty.shape is None {
        TypeView { shape: got.shape, ..ty }
    } else {
        ty
    }
}

pub open spec fn no_value(s: Findings, v: VarDecl, b: Binding) -> Findings {
    erred(
        s,
        Category::Type,
        5,
        b.name_span,
        "'"@ + b.name@ + "' is declared but never given a value."@,
        "give it one, as in var:"@ + v.ty.base@ + " '"@ + b.name@ + "' = <value>."@,
    )
}

pub open spec fn binding_checked(s: Findings, v: VarDecl, b: Binding) -> Findings
    decreases b, 0nat,
{
    match written_type(v.ty, dims_view(b.shape), b.precision) {
        None => s,
        Some(ty) => {
            let s1 = rank_checked(precision_checked(s, ty, v.ty.span), v.ty, ty, b.name_span);
            match b.value {
                None => declared(no_value(s1, v, b), b.name@, ty, b.name_span, false),
                Some(value) => match expr_type(s1, value, Some(ty)) {
                    (s2, None) => declared(s2, b.name@, ty, b.name_span, false),
                    (s2, Some(got)) => declared(
                        initialised(s2, b.name@, ty, got, value),
                        b.name@,
                        settled_type(ty, got),
                        b.name_span,
                        false,
                    ),
                },
            }
        },
    }
}

pub open spec fn bindings_checked(s: Findings, v: VarDecl, i: nat) -> Findings
    decreases v, v.bindings@.len() - i,
{
    if i >= v.bindings@.len() {
        s
    } else {
        bindings_checked(binding_checked(s, v, v.bindings@[i as int]), v, i + 1)
    }
}

/// The type a change restates must be the one that was declared.
pub open spec fn restated_checked(
    s: Findings,
    c: ChangeStmt,
    t: ChangeTarget,
    stated: TypeView,
    want: TypeView,
    declared_at: Span,
) -> Findings {
    if stated.base != want.base || stated.sign != want.sign {
        reported(
            s,
            labelled(
                labelled(
                    fault_view(
                        Category::Type,
                        4,
                        c.ty.span,
                        "'"@ + t.name@ + "' is "@ + type_text(want) + ", but this says "@ + type_text(stated) + "."@,
                        "write change:var:"@ + type_text(want) + " '"@ + t.name@ + "' = … ."@,
                    ),
                    declared_at,
                    "declared here"@,
                ),
                c.ty.span,
                "restated differently here"@,
            ),
        )
    } else {
        s
    }
}

pub open spec fn target_checked(s: Findings, c: ChangeStmt, t: ChangeTarget, stated: TypeView) -> Findings
    decreases t, 0nat,
{
    match found(s.scopes, t.name@) {
        None => unknown_variable(s, t.name@, t.name_span),
        Some(v) => if v.read_only {
            erred(
                s,
                Category::Sign,
                2,
                t.name_span,
                "'"@ + t.name@ + "' is a loop counter, which is read-only inside the body."@,
                "a counted loop runs a fixed number of times; use a separate variable."@,
            )
        } else {
            let want = if t.selectors@.len() == 0 {
                v.ty
            } else {
                element_type(v.ty)
            };
            let s1 = restated_checked(s, c, t, stated, want, v.declared_at);
            match expr_type(s1, t.value, Some(want)) {
                (s2, None) => s2,
                (s2, Some(got)) => naming_checked(
                    must_fit_but_for_sign(s2, got, want, t.value.span, "assigned"@),
                    t.name@,
                    want,
                    got,
                    t.value,
                ),
            }
        },
    }
}

pub open spec fn targets_checked(s: Findings, c: ChangeStmt, stated: TypeView, i: nat) -> Findings
    decreases c, c.targets@.len() - i,
{
    if i >= c.targets@.len() {
        s
    } else {
        targets_checked(target_checked(s, c, c.targets@[i as int], stated), c, stated, i + 1)
    }
}

// ── statements ──────────────────────────────────────────────────────────────

/// The statements of a body from the `i`-th on; `want` is what a handback must produce.
pub open spec fn body_checked(s: Findings, stmts: Vec<Stmt>, i: nat, want: Option<TypeView>) -> Findings
    decreases stmts, stmts@.len() - i,
{
    if i >= stmts@.len() {
        s
    } else {
        body_checked(statement_checked(s, stmts@[i as int], want), stmts, i + 1, want)
    }
}

/// A body in a scope of its own, once what belongs to the scope has been declared.
pub open spec fn inner_body(s: Findings, stmts: Vec<Stmt>, want: Option<TypeView>) -> Findings
    decreases stmts, stmts@.len() + 1,
{
    scope_closed(body_checked(reach_checked(s, stmts@), stmts, 0, want))
}

pub open spec fn statement_checked(s: Findings, stmt: Stmt, want: Option<TypeView>) -> Findings
    decreases stmt, 0nat,
{
    match stmt {
        Stmt::Var(v) => bindings_checked(s, v, 0),
        Stmt::Change(c) => match written_type(c.ty, None, None) {
            Some(stated) => targets_checked(s, c, stated, 0),
            None => s,
        },
        Stmt::Func(f) => function_checked(s, f),
        Stmt::If(chain) => chain_type(s, chain, None, want).0,
        Stmt::Loop(l) => loop_checked(s, l, want),
        Stmt::Print { args, .. } => each_checked(s, args, None, 0),
        Stmt::Handback { value, span } => match (expr_type(s, value, want), want) {
            ((s1, Some(got)), Some(w)) => must_fit(s1, got, w, span, "handed back"@),
            ((s1, _), _) => s1,
        },
        Stmt::Expr(e) => expr_type(s, e, None).0,
    }
}

/// Expressions from the `i`-th on, each checked against the same type.
pub open spec fn each_checked(s: Findings, items: Vec<Expr>, expected: Option<TypeView>, i: nat) -> Findings
    decreases items, items@.len() - i,
{
    if i >= items@.len() {
        s
    } else {
        each_checked(expr_type(s, items@[i as int], expected).0, items, expected, i + 1)
    }
}

/// The parameters of a function, the first `n` of them declared.
pub open spec fn parameters_declared(s: Findings, f: FuncDecl, n: nat) -> Findings
    decreases n,
{
    if n == 0 {
        s
    } else {
        let before = parameters_declared(s, f, (n - 1) as nat);
        let p = f.params@[n - 1];
        match written_type(p.ty, dims_view(p.shape), p.precision) {
            Some(ty) => declared(rank_checked(before, p.ty, ty, p.name_span), p.name@, ty, p.name_span, false),
            None => before,
        }
    }
}

pub open spec fn function_checked(s: Findings, f: FuncDecl) -> Findings
    decreases f, 0nat,
{
    match written_type(f.returns, None, None) {
        None => s,
        Some(result) => {
            let want = if result.base == Base::Nothing {
                None
            } else {
                Some(result)
            };
            let s1 = inner_body(parameters_declared(scope_opened(s), f, f.params@.len()), f.body, want);
            if result.base != Base::Nothing && !hands_back(f.body, 0) {
                erred(
                    s1,
                    Category::Type,
                    2,
                    f.name_span,
                    "'"@ + f.name@ + "' produces "@ + type_text(result) + ", but no path hands a value back."@,
                    "add a handback, or declare the function as func:none."@,
                )
            } else {
                s1
            }
        },
    }
}

pub open spec fn condition_checked(s: Findings, cond: Expr, in_loop: bool) -> Findings
    decreases cond, 2nat,
{
    match expr_type(s, cond, Some(scalar_type(Base::Bool))) {
        (s1, Some(t)) => if t.base != Base::Bool {
            if in_loop {
                erred(
                    s1,
                    Category::Type,
                    2,
                    cond.span,
                    "a loop condition must be a bool, but this is "@ + type_text(t) + "."@,
                    "compare something, as in math { ('n') > 1 }."@,
                )
            } else {
                erred(
                    s1,
                    Category::Type,
                    2,
                    cond.span,
                    "a condition must be a bool, but this is "@ + type_text(t) + "."@,
                    "compare something, as in math { ('x') > 5 }."@,
                )
            }
        } else {
            s1
        },
        (s1, None) => s1,
    }
}

/// The arms of a conditional from the `i`-th on.
pub open spec fn arms_checked(s: Findings, chain: IfChain, want: Option<TypeView>, i: nat) -> Findings
    decreases chain, chain.arms@.len() - i,
{
    if i >= chain.arms@.len() {
        s
    } else {
        let arm = chain.arms@[i as int];
        let s1 = match arm.condition {
            Some(cond) => condition_checked(s, cond, false),
            None => s,
        };
        arms_checked(inner_body(scope_opened(s1), arm.body, want), chain, want, i + 1)
    }
}

pub open spec fn no_value_on_a_path(chain: IfChain) -> ErrorView {
    fault_view(
        Category::Type,
        2,
        chain.span,
        if has_else(chain) {
            "this conditional is used for its value, but not every branch hands one back."@
        } else {
            "this conditional is used for its value, but it has no else, so one path produces nothing."@
        },
        "add an else, and a handback in every branch."@,
    )
}

/// The type a conditional produces: what is expected of it, where every path hands a value
/// back.
pub open spec fn chain_type(s: Findings, chain: IfChain, expected: Option<TypeView>, outer: Option<TypeView>) -> (
    Findings,
    Option<TypeView>,
)
    decreases chain, chain.arms@.len() + 1,
{
    let want = match expected {
        Some(_) => expected,
        None => outer,
    };
    let s1 = arms_checked(s, chain, want, 0);
    if expected is Some && (chain.arms@.len() == 0 || !all_hand_back(chain, 0) || !has_else(chain)) {
        (reported(s1, no_value_on_a_path(chain)), None)
    } else {
        (s1, expected)
    }
}

pub open spec fn counter_type(ty: TypeRef) -> TypeView {
    match written_type(ty, None, None) {
        Some(t) => t,
        None => scalar_type(Base::Int),
    }
}

pub open spec fn loop_checked(s: Findings, l: LoopStmt, want: Option<TypeView>) -> Findings
    decreases l, 0nat,
{
    let s1 = match l.kind {
        LoopKind::Counted { ty, var, var_span, range } => declared(
            expr_type(scope_opened(s), range, Some(counter_type(ty))).0,
            var@,
            counter_type(ty),
            var_span,
            true,
        ),
        LoopKind::While { condition } => condition_checked(scope_opened(s), condition, true),
    };
    inner_body(s1, l.body, want)
}

// ── expressions ─────────────────────────────────────────────────────────────

/// The type of a loop used for its value: each handback contributes one element, so the
/// length comes from the range.
pub open spec fn loop_type(l: LoopStmt, expected: Option<TypeView>) -> TypeView {
    let outer = match l.kind {
        LoopKind::Counted { range, .. } => written_iterations(range),
        LoopKind::While { .. } => None,
    };
    let inner = match expected {
        Some(t) => match t.shape {
            Some(dims) => tail_of(dims),
            None => Seq::empty(),
        },
        None => Seq::empty(),
    };
    TypeView {
        base: match expected {
            Some(t) => t.base,
            None => Base::Num,
        },
        sign: match expected {
            Some(t) => t.sign,
            None => None,
        },
        shape: Some(seq![known_or_not(outer)] + inner),
        precision: None,
    }
}

pub open spec fn element_of(t: Option<TypeView>) -> Option<TypeView> {
    match t {
        Some(t) => Some(element_type(t)),
        None => None,
    }
}

pub open spec fn expr_type(s: Findings, e: Expr, expected: Option<TypeView>) -> (Findings, Option<TypeView>)
    decreases e, 1nat,
{
    match e.kind {
        ExprKind::Literal(text) => literal_type(s, text@, e.span, expected),
        ExprKind::Str(_) => (s, Some(scalar_type(Base::Str))),
        ExprKind::Number(text) => literal_type(s, text@, e.span, expected),
        ExprKind::Constant(_) => constant_type(s, e.span, expected),
        ExprKind::Ref { name, selectors } => match found(s.scopes, name@) {
            None => (unknown_variable(s, name@, e.span), None),
            Some(v) => chain_selected(s, v.ty, selectors, 0, 0, e.span),
        },
        ExprKind::Math(inner) => match expr_type(s, *inner, expected) {
            (s1, Some(t)) => if bare(*inner) && t.shape is Some && !(expected matches Some(x) && x.shape is Some) {
                (s1, Some(element_type(t)))
            } else {
                (s1, Some(t))
            },
            (s1, None) => (s1, None),
        },
        ExprKind::Binary { op, lhs, rhs } => if is_logical(op) {
            let want = Some(scalar_type(Base::Bool));
            (expr_type(expr_type(s, *lhs, want).0, *rhs, want).0, want)
        } else {
            let (s1, a) = expr_type(
                s,
                *lhs,
                if is_comparison(op) {
                    None
                } else {
                    unrefined(expected)
                },
            );
            let (s2, b) = expr_type(s1, *rhs, second_expectation(op, a, expected));
            binary_type(s2, op, *lhs, a, *rhs, b, e.span, expected)
        },
        ExprKind::Unary { op, operand } => unary_type(s, op, *operand, e.span, expected),
        ExprKind::Call { name, args } => call_type(s, name@, args, e.span),
        ExprKind::Builtin { name, args } => builtin_type(s, name@, args, e.span, expected),
        ExprKind::ArrayLit(items) => {
            let (s1, inner) = rows_checked(s, items, expected, 0, None);
            (s1, Some(array_type(items@.len(), inner, expected)))
        },
        ExprKind::If(chain) => chain_type(s, chain, expected, None),
        ExprKind::Loop(l) => (loop_checked(s, *l, element_of(expected)), Some(loop_type(*l, expected))),
        ExprKind::Option { .. } => (s, None),
        ExprKind::Range { from, to, by } => {
            let want = Some(scalar_type(Base::Int));
            let s1 = expr_type(expr_type(s, *from, want).0, *to, want).0;
            (optional_checked(s1, by, want), want)
        },
    }
}

pub open spec fn optional_checked(s: Findings, by: Option<Box<Expr>>, want: Option<TypeView>) -> Findings
    decreases by, 0nat,
{
    match by {
        Some(b) => expr_type(s, *b, want).0,
        None => s,
    }
}

pub open spec fn unary_type(s: Findings, op: UnOp, operand: Expr, span: Span, expected: Option<TypeView>) -> (
    Findings,
    Option<TypeView>,
)
    decreases operand, 2nat,
{
    match op {
        UnOp::Not => {
            let want = Some(scalar_type(Base::Bool));
            (expr_type(s, operand, want).0, want)
        },
        UnOp::Neg => match expr_type(s, operand, expected) {
            (s1, Some(t)) => (s1, Some(TypeView { sign: negated_sign(t.sign), ..t })),
            (s1, None) => (s1, None),
        },
        UnOp::Floor | UnOp::Ceil => match expr_type(s, operand, Some(scalar_type(Base::Deci))) {
            (s1, Some(t)) => (
                s1,
                Some(
                    scalar_type(
                        if rung(t.base) is Some {
                            Base::Int
                        } else {
                            t.base
                        },
                    ),
                ),
            ),
            (s1, None) => (s1, None),
        },
        UnOp::Abs => match expr_type(s, operand, expected) {
            (s1, Some(t)) => (s1, Some(TypeView { sign: None, ..t })),
            (s1, None) => (s1, None),
        },
        _ => {
            let (s1, t) = expr_type(s, operand, Some(numeric_or_decimal(expected)));
            irrational_type(s1, op, t, span, expected)
        },
    }
}

// ── array literals ──────────────────────────────────────────────────────────

/// What a row of an array literal is checked against.
pub open spec fn row_expectation(expected: Option<TypeView>) -> Option<TypeView> {
    match expected {
        Some(t) => match t.shape {
            Some(dims) => Some(TypeView { shape: Some(tail_of(dims)), ..t }),
            None => Some(element_type(t)),
        },
        None => None,
    }
}

pub open spec fn ragged_rows(s: Findings, span: Span) -> Findings {
    erred(
        s,
        Category::Shape,
        3,
        span,
        "every row of an array must be the same length."@,
        "arrays are rectangular; ragged rows are not allowed."@,
    )
}

/// One row's shape against that of the first.
pub open spec fn row_checked(s: Findings, row: Option<TypeView>, first: Option<Seq<Dim>>, span: Span) -> (
    Findings,
    Option<Seq<Dim>>,
) {
    match row {
        Some(t) => match (t.shape, first) {
            (Some(dims), Some(f)) => if !shapes_agree(f, dims) {
                (ragged_rows(s, span), first)
            } else {
                (s, first)
            },
            (Some(dims), None) => (s, Some(dims)),
            (None, _) => (s, first),
        },
        None => (s, first),
    }
}

/// The items of an array literal from the `i`-th on, and the shape of its first row.
pub open spec fn rows_checked(
    s: Findings,
    items: Vec<Expr>,
    expected: Option<TypeView>,
    i: nat,
    first: Option<Seq<Dim>>,
) -> (Findings, Option<Seq<Dim>>)
    decreases items, items@.len() - i,
{
    if i >= items@.len() {
        (s, first)
    } else {
        let item = items@[i as int];
        match item.kind {
            ExprKind::ArrayLit(_) => {
                let (s1, row) = expr_type(s, item, row_expectation(expected));
                let (s2, f) = row_checked(s1, row, first, item.span);
                rows_checked(s2, items, expected, i + 1, f)
            },
            _ => rows_checked(expr_type(s, item, element_of(expected)).0, items, expected, i + 1, first),
        }
    }
}

pub open spec fn array_type(n: nat, inner: Option<Seq<Dim>>, expected: Option<TypeView>) -> TypeView {
    TypeView {
        base: match expected {
            Some(t) => t.base,
            None => Base::Num,
        },
        sign: match expected {
            Some(t) => t.sign,
            None => None,
        },
        shape: Some(
            seq![Dim::Known(n as u64)] + match inner {
                Some(dims) => dims,
                None => Seq::empty(),
            },
        ),
        precision: None,
    }
}

// ── calls ───────────────────────────────────────────────────────────────────

pub open spec fn name_at(names: Seq<Seq<char>>, i: nat) -> Seq<char> {
    if i < names.len() {
        names[i as int]
    } else {
        ""@
    }
}

/// The arguments of a call from the `i`-th on, each against its parameter.
pub open spec fn arguments_checked(s: Findings, f: FunctionView, args: Vec<Expr>, i: nat) -> Findings
    decreases args, args@.len() - i,
{
    if i >= args@.len() {
        s
    } else {
        let arg = args@[i as int];
        let want = if i < f.params.len() {
            Some(f.params[i as int])
        } else {
            None
        };
        let s2 = match (expr_type(s, arg, want), want) {
            ((s1, Some(got)), Some(w)) => must_fit_parameter(s1, got, w, arg.span, name_at(f.param_names, i)),
            ((s1, _), _) => s1,
        };
        arguments_checked(s2, f, args, i + 1)
    }
}

pub open spec fn wrong_count(s: Findings, name: Seq<char>, takes: nat, given: nat, span: Span) -> Findings {
    erred(
        s,
        Category::Name,
        3,
        span,
        "'"@ + name + "' takes "@ + nat_text(takes) + " argument"@ + plural(takes as int) + ", but "@ + nat_text(given)
            + " "@ + (if given == 1 {
            "was"@
        } else {
            "were"@
        }) + " given."@,
        "arguments are space-separated, in the order the parameters were declared."@,
    )
}

pub open spec fn call_type(s: Findings, name: Seq<char>, args: Vec<Expr>, span: Span) -> (Findings, Option<TypeView>)
    decreases args, args@.len() + 1,
{
    if !s.scopes.functions.dom().contains(name) {
        (unknown_function(s, name, span), None)
    } else {
        let f = s.scopes.functions[name];
        let s1 = if args@.len() != f.params.len() {
            wrong_count(s, name, f.params.len(), args@.len(), span)
        } else {
            s
        };
        (arguments_checked(s1, f, args, 0), Some(f.returns))
    }
}

pub open spec fn builtin_type(
    s: Findings,
    name: Seq<char>,
    args: Vec<Expr>,
    span: Span,
    expected: Option<TypeView>,
) -> (Findings, Option<TypeView>)
    decreases args, args@.len() + 1,
{
    if name == "print"@ {
        (each_checked(s, args, None, 0), Some(scalar_type(Base::Nothing)))
    } else if name == "read"@ {
        (each_checked(s, args, Some(scalar_type(Base::Str)), 0), Some(scalar_type(Base::Str)))
    } else if name == "parse"@ {
        let s1 = if args@.len() > 0 {
            expr_type(s, args@[0], Some(scalar_type(Base::Str))).0
        } else {
            s
        };
        match expected {
            Some(t) => if rung(t.base) is Some {
                (s1, Some(element_type(t)))
            } else {
                (ambiguous_parse(s1, span), None)
            },
            None => (ambiguous_parse(s1, span), None),
        }
    } else if name == "clock"@ {
        (s, Some(scalar_type(Base::Deci)))
    } else {
        (
            erred(
                s,
                Category::Name,
                2,
                span,
                "'"@ + name + "' is not a builtin AHPCL knows."@,
                "the builtins are print, read, parse and clock. A user function is quoted: 'name'[…]."@,
            ),
            None,
        )
    }
}

pub open spec fn ambiguous_parse(s: Findings, span: Span) -> Findings {
    erred(
        s,
        Category::Type,
        1,
        span,
        "parse produces a number, and nothing here says which kind."@,
        "give the surrounding declaration a type, such as :int or :deci."@,
    )
}

// ── selectors ───────────────────────────────────────────────────────────────

/// A chain of selectors from the `i`-th on, those from the `start`-th not yet applied.
pub open spec fn chain_selected(
    s: Findings,
    ty: TypeView,
    sels: Vec<Selector>,
    start: nat,
    i: nat,
    span: Span,
) -> (Findings, Option<TypeView>)
    decreases sels, sels@.len() + 2 + (if i < sels@.len() { sels@.len() - i } else { 0 }),
{
    if i >= sels@.len() {
        run_selected(s, ty, sels, start, sels@.len(), span)
    } else {
        match sels@[i as int] {
            Selector::Length => match run_selected(s, ty, sels, start, i, span) {
                (s1, None) => (s1, None),
                (s1, Some(_)) => chain_selected(s1, scalar_type(Base::Int), sels, i + 1, i + 1, span),
            },
            Selector::Shape => match run_selected(s, ty, sels, start, i, span) {
                (s1, None) => (s1, None),
                (s1, Some(t)) => chain_selected(s1, shape_query_type(t), sels, i + 1, i + 1, span),
            },
            _ => chain_selected(s, ty, sels, start, i + 1, span),
        }
    }
}

/// The type of `:shape;`: a vector with one entry for each dimension.
pub open spec fn shape_query_type(t: TypeView) -> TypeView {
    TypeView {
        shape: Some(
            seq![
                Dim::Known(
                    match t.shape {
                        Some(dims) => dims.len() as u64,
                        None => 0,
                    },
                ),
            ],
        ),
        ..scalar_type(Base::Int)
    }
}

/// One run of dimension selectors, one per dimension in order.
pub open spec fn run_selected(s: Findings, ty: TypeView, sels: Vec<Selector>, start: nat, end: nat, span: Span) -> (
    Findings,
    Option<TypeView>,
)
    decreases sels, sels@.len() + 1,
{
    if start >= end {
        (s, Some(ty))
    } else {
        match ty.shape {
            None => (
                erred(
                    s,
                    Category::Shape,
                    1,
                    span,
                    type_text(ty) + " is not an array, so it cannot be selected from."@,
                    "selectors apply to vectors, matrices and tensors."@,
                ),
                None,
            ),
            Some(dims) => if end - start > dims.len() {
                (
                    erred(
                        s,
                        Category::Shape,
                        1,
                        span,
                        nat_text((end - start) as nat) + " selectors were given, but "@ + type_text(ty) + " has "@
                            + nat_text(dims.len()) + " dimension"@ + plural(dims.len() as int) + "."@,
                        "one selector addresses one dimension."@,
                    ),
                    None,
                )
            } else {
                let (s1, kept) = dims_selected(s, dims, sels, start, start, end, Seq::empty());
                let left = kept + dims.skip(end - start);
                (
                    s1,
                    Some(
                        TypeView {
                            shape: if left.len() == 0 {
                                None
                            } else {
                                Some(left)
                            },
                            ..ty
                        },
                    ),
                )
            },
        }
    }
}

/// The dimensions that the selectors from the `k`-th up to the `end`-th leave, behind those
/// in `acc`. One index collapses the dimension; several keep it, resized.
pub open spec fn dims_selected(
    s: Findings,
    dims: Seq<Dim>,
    sels: Vec<Selector>,
    start: nat,
    k: nat,
    end: nat,
    acc: Seq<Dim>,
) -> (Findings, Seq<Dim>)
    decreases sels, (if k < sels@.len() { sels@.len() - k } else { 0 }),
{
    if k >= end || k >= sels@.len() {
        (s, acc)
    } else {
        let (s1, more) = selector_checked(s, sels@[k as int], dims[k - start]);
        dims_selected(s1, dims, sels, start, k + 1, end, acc + more)
    }
}

pub open spec fn selector_checked(s: Findings, sel: Selector, dim: Dim) -> (Findings, Seq<Dim>)
    decreases sel, 0nat,
{
    let want = Some(scalar_type(Base::Int));
    match sel {
        Selector::Indices(items) => (
            each_checked(s, items, want, 0),
            if items@.len() > 1 {
                seq![Dim::Known(items@.len() as u64)]
            } else {
                Seq::empty()
            },
        ),
        Selector::Range { from, to, by } => (
            optional_checked(expr_type(expr_type(s, *from, want).0, *to, want).0, by, want),
            seq![known_or_not(written_length(*from, *to, by))],
        ),
        _ => (s, seq![dim]),
    }
}

// ── programs ────────────────────────────────────────────────────────────────

/// What a program's check starts from: every function is visible before its declaration.
pub open spec fn starting(p: Program, informer: InformerView) -> Findings {
    Findings {
        scopes: ScopesView {
            frames: seq![Map::empty()],
            functions: collected_functions(p.statements@, p.statements@.len()),
        },
        errors: Seq::empty(),
        informer,
    }
}

/// What a check finds in a program.
pub open spec fn program_checked(p: Program, informer: InformerView) -> Findings {
    body_checked(starting(p, informer), p.statements, 0, None)
}

} // verus!
