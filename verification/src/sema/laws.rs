//! Why range analysis can be believed: what it says of an expression or a condition holds
//! of every run.

use vstd::prelude::*;

use crate::ast::{BinOp, Expr, ExprKind, Sign, TypeRef, UnOp};
use crate::diagnostics::position::Span;
use crate::eval::decimal::{first_index, parsed_decimal, sign_split, Decimal};
use crate::eval::numeric::{literal_meaning, width_bounds, Numeric};
use crate::eval::ops::{arith, compared, is_comparison, summed, unary_val, StopView};
use crate::eval::parse::{parsed_int, radix_digit, radix_value};
use crate::eval::semantics::{
    assigned, attempted, bare, binary_result, defined, expr_result, holder, looked_up, operand, range_inside,
    refinement_kept, run_result, selectors_from, World,
};
use crate::eval::value::Val;
use crate::sema::analysis::{
    expr_range, literal_range, named_by, narrowed, narrowed_range, narrowest_width, opposite, proves, refutes,
    width_holds, Ranges,
};
use crate::sema::interval::{
    anything, only_value, range_difference, range_difference_is_sound, range_in, range_negation_is_sound,
    range_product, range_product_is_sound, range_sum, range_sum_is_sound, within, Interval,
};
use crate::text::{all_digits, digits_value, is_digit, trim_end, trim_start, trimmed};

verus! {

/// Whether a value agrees with a range: it is a single value, and a whole number lies in it.
pub open spec fn agrees(v: Val, range: Interval) -> bool {
    &&& !(v is Array)
    &&& v matches Val::Int(n) ==> within(range, n as int)
}

/// What is known of each variable is true of what it holds.
pub open spec fn covers(w: World, s: Ranges) -> bool {
    forall|name: Seq<char>|
        #![trigger range_in(s, name)]
        range_in(s, name) != anything() ==> (looked_up(w, name) matches Some(v) && agrees(v, range_in(s, name)))
}

proof fn lemma_radix_ten(s: Seq<char>)
    requires
        radix_value(s, 10) is Some,
    ensures
        all_digits(s),
        digits_value(s) == radix_value(s, 10)->0,
        first_index(s, '.') == s.len(),
    decreases s.len(),
{
    if s.len() > 0 {
        let head = s.drop_last();
        lemma_radix_ten(head);
        assert(radix_digit(s.last(), 10) is Some);
        assert(is_digit(s.last()));
        assert forall|i: int| 0 <= i < s.len() implies is_digit(#[trigger] s[i]) by {
            if i < head.len() {
                assert(s[i] == head[i]);
            }
        }
        lemma_no_point(s);
    }
}

proof fn lemma_no_point(s: Seq<char>)
    requires
        all_digits(s),
    ensures
        first_index(s, '.') == s.len(),
    decreases s.len(),
{
    if s.len() > 0 {
        assert(is_digit(s[0]));
        assert forall|i: int| 0 <= i < s.skip(1).len() implies is_digit(#[trigger] s.skip(1)[i]) by {
            assert(is_digit(s[i + 1]));
        }
        lemma_no_point(s.skip(1));
    }
}

/// A text that is read as a whole number spells the same number as a decimal.
pub proof fn lemma_same_number(t: Seq<char>)
    requires
        parsed_int(t, 10) is Some,
        parsed_decimal(t) is Some,
    ensures
        parsed_decimal(t)->0 == (Decimal { mantissa: parsed_int(t, 10)->0 as i128, scale: 0 }),
{
    let signed = t.len() > 0 && (t[0] == '-' || t[0] == '+');
    let body = if signed {
        t.skip(1)
    } else {
        t
    };
    lemma_radix_ten(body);
    assert(is_digit(body[body.len() - 1]));
    assert(t.last() == body.last());
    assert(is_digit(body[0]));
    assert(trim_start(t) == t);
    assert(trim_end(t) == t);
    assert(trimmed(t) == t);
    assert(sign_split(t).1 == body);
    assert(body.take(body.len() as int) =~= body);
    assert(body + Seq::<char>::empty() =~= body);
}

proof fn lemma_literal(t: Seq<char>, hint: Option<Numeric>)
    requires
        literal_range(t) != anything(),
    ensures
        agrees(literal_meaning(t, hint), literal_range(t)),
{
    if parsed_decimal(t) is Some {
        lemma_same_number(t);
    }
}

/// An operation stays in the range of what it can come to.
proof fn lemma_operation(op: BinOp, a: Val, b: Val, x: Interval, y: Interval, span: Span, hint: Option<Numeric>)
    requires
        op == BinOp::Add || op == BinOp::Sub || op == BinOp::Mul,
        agrees(a, x),
        agrees(b, y),
    ensures
        ({
            let r = arith(op, a, b, span, hint);
            let range = match op {
                BinOp::Add => range_sum(x, y),
                BinOp::Sub => range_difference(x, y),
                _ => range_product(x, y),
            };
            &&& r matches Err(s) ==> s is Fail
            &&& r matches Ok(v) ==> agrees(v, range)
        }),
{
    reveal(arith);
    if a is Int && b is Int {
        let m = a->Int_0 as int;
        let n = b->Int_0 as int;
        range_sum_is_sound(x, y, m, n);
        range_difference_is_sound(x, y, m, n);
        range_product_is_sound(x, y, m, n);
    }
}

/// Whether an expression comes to a value in its range, changing nothing.
pub open spec fn stays_in_range(d: nat, w: World, e: Expr, hint: Option<Numeric>, s: Ranges) -> bool {
    let (after, r) = expr_result(d, w, e, hint);
    &&& after == w
    &&& r matches Ok(v) ==> agrees(v, expr_range(e, s))
}

/// The value of an expression lies in the range that analysis gives it, whatever the
/// variables hold within their own ranges. An expression of which anything is known
/// changes nothing as it is evaluated.
pub proof fn an_expression_stays_in_its_range(d: nat, w: World, e: Expr, hint: Option<Numeric>, s: Ranges)
    requires
        covers(w, s),
        expr_range(e, s) != anything(),
    ensures
        stays_in_range(d, w, e, hint, s),
    decreases e,
{
    reveal(summed);
    reveal(unary_val);
    match e.kind {
        ExprKind::Math(inner) => {
            an_expression_stays_in_its_range(d, w, *inner, hint, s);
        },
        ExprKind::Number(t) => {
            lemma_literal(t@, hint);
        },
        ExprKind::Literal(t) => {
            lemma_literal(t@, hint);
        },
        ExprKind::Ref { name, selectors } => {
            assert(range_in(s, name@) != anything());
            match looked_up(w, name@) {
                Some(v) => {
                    assert(run_result(d, w, v, selectors, 0, 0, e.span) == (w, Ok::<Val, StopView>(v)));
                    assert(selectors_from(d, w, v, selectors, 0, 0, e.span) == (w, Ok::<Val, StopView>(v)));
                },
                None => {},
            }
        },
        ExprKind::Unary { op, operand: inner } => {
            assert(expr_range(*inner, s) != anything());
            an_expression_stays_in_its_range(d, w, *inner, hint, s);
            let (w1, r) = expr_result(d, w, *inner, hint);
            match r {
                Ok(v) => {
                    assert(operand(v, op != UnOp::Not && bare(*inner), e.span) == Ok::<Val, StopView>(v));
                    if v is Int {
                        range_negation_is_sound(expr_range(*inner, s), v->Int_0 as int);
                    }
                },
                Err(_) => {},
            }
        },
        ExprKind::Binary { op, lhs, rhs } => {
            assert(op == BinOp::Add || op == BinOp::Sub || op == BinOp::Mul);
            assert(expr_range(*lhs, s) != anything());
            assert(expr_range(*rhs, s) != anything());
            an_expression_stays_in_its_range(d, w, *lhs, hint, s);
            an_expression_stays_in_its_range(d, w, *rhs, hint, s);
            let (w1, a) = expr_result(d, w, *lhs, hint);
            let (w2, b) = expr_result(d, w, *rhs, hint);
            if a is Ok && b is Ok {
                assert(operand(a->Ok_0, bare(*lhs), lhs.span) == a);
                assert(operand(b->Ok_0, bare(*rhs), rhs.span) == b);
                assert(binary_result(w, op, a->Ok_0, b->Ok_0, e.span, hint) == attempted(
                    w,
                    arith(op, a->Ok_0, b->Ok_0, e.span, hint),
                    e.span,
                ));
                assert(expr_result(d, w, e, hint) == binary_result(w, op, a->Ok_0, b->Ok_0, e.span, hint));
                lemma_operation(
                    op,
                    a->Ok_0,
                    b->Ok_0,
                    expr_range(*lhs, s),
                    expr_range(*rhs, s),
                    e.span,
                    hint,
                );
            }
        },
        _ => {},
    }
}

/// Where a condition on a whole-number variable came out a certain way, the variable lies
/// in its narrowed range, and what is known of the others is untouched.
pub proof fn a_condition_narrows_soundly(d: nat, w: World, cond: Expr, taken: bool, s: Ranges)
    requires
        covers(w, s),
        expr_result(d, w, cond, None) == (w, Ok::<Val, StopView>(Val::Bool(taken))),
        range_inside(cond).kind matches ExprKind::Binary { op, lhs, rhs } ==> {
            &&& named_by(*lhs) matches Some(name) ==> looked_up(w, name) is Some && looked_up(w, name)->0 is Int
            &&& expr_result(d, w, *rhs, None).1 matches Ok(v) ==> v is Int
        },
    ensures
        covers(w, narrowed(s, cond, taken)),
{
    let inner = range_inside(cond);
    assert(expr_result(d, w, inner, None) == expr_result(d, w, cond, None));
    match inner.kind {
        ExprKind::Binary { op, lhs, rhs } => {
            match (named_by(*lhs), only_value(expr_range(*rhs, s))) {
                (Some(name), Some(b)) => {
                    let n = looked_up(w, name)->0->Int_0;
                    lemma_names(d, w, *lhs, None);
                    an_expression_stays_in_its_range(d, w, *rhs, None, s);
                    let r = expr_result(d, w, *rhs, None).1;
                    reveal(summed);
                    if is_comparison(op) {
                        lemma_comparison(d, w, inner, op, *lhs, *rhs, n, b, taken);
                    }
                    let range = narrowed_range(if taken { op } else { opposite(op) }, range_in(s, name), b);
                    if range_in(s, name) != anything() {
                        assert(within(range_in(s, name), n as int));
                    }
                    assert(within(range_in(s, name), n as int));
                    assert(within(range, n as int));
                    let after = narrowed(s, cond, taken);
                    assert forall|x: Seq<char>|
                        #![trigger range_in(after, x)]
                        range_in(after, x) != anything() implies (looked_up(w, x) matches Some(v) && agrees(
                        v,
                        range_in(after, x),
                    )) by {
                        if x != name {
                            assert(range_in(after, x) == range_in(s, x));
                        }
                    }
                },
                _ => {},
            }
        },
        _ => {},
    }
}

/// An expression that only names a variable has that variable's value.
proof fn lemma_names(d: nat, w: World, e: Expr, hint: Option<Numeric>)
    requires
        named_by(e) is Some,
        looked_up(w, named_by(e)->0) is Some,
    ensures
        expr_result(d, w, e, hint) == (w, Ok::<Val, StopView>(looked_up(w, named_by(e)->0)->0)),
    decreases e,
{
    match e.kind {
        ExprKind::Math(inner) => {
            lemma_names(d, w, *inner, hint);
        },
        ExprKind::Ref { name, selectors } => {
            let v = looked_up(w, name@)->0;
            assert(run_result(d, w, v, selectors, 0, 0, e.span) == (w, Ok::<Val, StopView>(v)));
            assert(selectors_from(d, w, v, selectors, 0, 0, e.span) == (w, Ok::<Val, StopView>(v)));
        },
        _ => {},
    }
}

/// Whether a relation holds between two whole numbers.
pub open spec fn relates(op: BinOp, n: int, b: int) -> bool {
    match op {
        BinOp::Eq => n == b,
        BinOp::NotEq => n != b,
        BinOp::Less => n < b,
        BinOp::Greater => n > b,
        BinOp::LessEq => n <= b,
        _ => n >= b,
    }
}

proof fn lemma_comparison(
    d: nat,
    w: World,
    e: Expr,
    op: BinOp,
    lhs: Expr,
    rhs: Expr,
    n: i128,
    b: i128,
    taken: bool,
)
    requires
        e.kind matches ExprKind::Binary { op: o, lhs: x, rhs: y } && o == op && *x == lhs && *y == rhs,
        is_comparison(op),
        expr_result(d, w, lhs, None) == (w, Ok::<Val, StopView>(Val::Int(n))),
        expr_result(d, w, rhs, None) == (w, Ok::<Val, StopView>(Val::Int(b))),
        expr_result(d, w, e, None) == (w, Ok::<Val, StopView>(Val::Bool(taken))),
    ensures
        taken == relates(op, n as int, b as int),
{
    reveal(summed);
    reveal(compared);
    assert(operand(Val::Int(n), bare(lhs), lhs.span) == Ok::<Val, StopView>(Val::Int(n)));
    assert(operand(Val::Int(b), bare(rhs), rhs.span) == Ok::<Val, StopView>(Val::Int(b)));
    assert(expr_result(d, w, e, None) == binary_result(w, op, Val::Int(n), Val::Int(b), e.span, None));
}

/// A variable that is given a value, in its own scope or in the one that has it, agrees with
/// the range that analysis records for it, and what is known of the others stays true.
pub proof fn a_recorded_range_holds_what_is_stored(d: nat, w: World, name: Seq<char>, e: Expr, hint: Option<Numeric>, s: Ranges)
    requires
        w.frames.len() > 0,
        covers(w, s),
        expr_result(d, w, e, hint).1 is Ok,
        covers(expr_result(d, w, e, hint).0, s),
    ensures
        ({
            let (after, r) = expr_result(d, w, e, hint);
            let known = s.insert(name, expr_range(e, s));
            &&& covers(defined(after, name, r->Ok_0), known)
            &&& covers(assigned(after, name, r->Ok_0), known)
        }),
{
    let (after, r) = expr_result(d, w, e, hint);
    let v = r->Ok_0;
    let known = s.insert(name, expr_range(e, s));
    crate::eval::run_laws::an_expression_declares_nothing(d, w, e, hint);
    if expr_range(e, s) != anything() {
        an_expression_stays_in_its_range(d, w, e, hint, s);
    }
    lemma_defined_lookup(after, name, v);
    lemma_assigned_lookup(after, name, v);
    assert forall|x: Seq<char>|
        #![trigger range_in(known, x)]
        range_in(known, x) != anything() implies ({
        &&& looked_up(defined(after, name, v), x) matches Some(y) && agrees(y, range_in(known, x))
        &&& looked_up(assigned(after, name, v), x) matches Some(y) && agrees(y, range_in(known, x))
    }) by {
        if x != name {
            assert(range_in(known, x) == range_in(s, x));
            assert(looked_up(defined(after, name, v), x) == looked_up(after, x));
            assert(looked_up(assigned(after, name, v), x) == looked_up(after, x));
        }
    }
}

proof fn lemma_holder_elsewhere(
    a: Seq<Map<Seq<char>, Val>>,
    b: Seq<Map<Seq<char>, Val>>,
    at: int,
    name: Seq<char>,
    v: Val,
    x: Seq<char>,
    n: nat,
)
    requires
        0 <= at < a.len(),
        b == a.update(at, a[at].insert(name, v)),
        n <= a.len(),
        x != name,
    ensures
        holder(b, x, n) == holder(a, x, n),
    decreases n,
{
    if n > 0 {
        assert(b[n - 1].dom().contains(x) == a[n - 1].dom().contains(x));
        lemma_holder_elsewhere(a, b, at, name, v, x, (n - 1) as nat);
    }
}

proof fn lemma_holder_bound(frames: Seq<Map<Seq<char>, Val>>, x: Seq<char>, n: nat)
    requires
        n <= frames.len(),
    ensures
        holder(frames, x, n) matches Some(i) ==> 0 <= i < n && frames[i].dom().contains(x),
    decreases n,
{
    if n > 0 && !frames[n - 1].dom().contains(x) {
        lemma_holder_bound(frames, x, (n - 1) as nat);
    }
}

/// A name declared holds its value; the others hold what they held.
pub(crate) proof fn lemma_defined_lookup(w: World, name: Seq<char>, v: Val)
    requires
        w.frames.len() > 0,
    ensures
        looked_up(defined(w, name, v), name) == Some(v),
        forall|x: Seq<char>| x != name ==> #[trigger] looked_up(defined(w, name, v), x) == looked_up(w, x),
{
    let b = defined(w, name, v).frames;
    let top = w.frames.len() - 1;
    assert forall|x: Seq<char>| x != name implies #[trigger] looked_up(defined(w, name, v), x) == looked_up(w, x) by {
        lemma_holder_elsewhere(w.frames, b, top, name, v, x, w.frames.len());
        lemma_holder_bound(w.frames, x, w.frames.len());
    }
}

pub(crate) proof fn lemma_assigned_lookup(w: World, name: Seq<char>, v: Val)
    requires
        w.frames.len() > 0,
    ensures
        looked_up(assigned(w, name, v), name) == Some(v),
        forall|x: Seq<char>| x != name ==> #[trigger] looked_up(assigned(w, name, v), x) == looked_up(w, x),
{
    lemma_holder_bound(w.frames, name, w.frames.len());
    match holder(w.frames, name, w.frames.len()) {
        None => {
            lemma_defined_lookup(w, name, v);
        },
        Some(at) => {
            let b = assigned(w, name, v).frames;
            lemma_holder_same(w.frames, b, at, name, v, w.frames.len());
            assert forall|x: Seq<char>| x != name implies #[trigger] looked_up(assigned(w, name, v), x) == looked_up(
                w,
                x,
            ) by {
                lemma_holder_elsewhere(w.frames, b, at, name, v, x, w.frames.len());
                lemma_holder_bound(w.frames, x, w.frames.len());
            }
        },
    }
}

proof fn lemma_holder_same(
    a: Seq<Map<Seq<char>, Val>>,
    b: Seq<Map<Seq<char>, Val>>,
    at: int,
    name: Seq<char>,
    v: Val,
    n: nat,
)
    requires
        0 <= at < a.len(),
        a[at].dom().contains(name),
        b == a.update(at, a[at].insert(name, v)),
        n <= a.len(),
    ensures
        holder(b, name, n) == holder(a, name, n),
    decreases n,
{
    if n > 0 {
        assert(b[n - 1].dom().contains(name) == a[n - 1].dom().contains(name));
        lemma_holder_same(a, b, at, name, v, (n - 1) as nat);
    }
}

/// What analysis calls verified is kept: every whole number of such a range has the
/// promised sign, and where it calls a promise broken, none has.
pub proof fn verified_signs_are_kept(sign: Sign, range: Interval, n: int)
    requires
        within(range, n),
    ensures
        proves(sign, range) ==> (sign == Sign::Positive && n > 0) || (sign == Sign::Negative && n < 0),
        refutes(sign, range) ==> !((sign == Sign::Positive && n > 0) || (sign == Sign::Negative && n < 0)),
{
}

/// An inferred width holds every number of the range it was inferred from, and no offered
/// width below it does.
pub proof fn an_inferred_width_holds_the_range(lo: i128, hi: i128, sign: Option<Sign>, n: int)
    requires
        narrowest_width(lo, hi, sign) is Some,
        lo <= n <= hi,
    ensures
        ({
            let bits = narrowest_width(lo, hi, sign)->0;
            &&& width_bounds(bits, sign).0 <= n <= width_bounds(bits, sign).1
            &&& bits > 8 ==> !width_holds(8, sign, lo, hi)
            &&& bits > 16 ==> !width_holds(16, sign, lo, hi)
            &&& bits > 32 ==> !width_holds(32, sign, lo, hi)
            &&& bits > 64 ==> !width_holds(64, sign, lo, hi)
        }),
{
}

/// What is reported as verified at a declaration or a change is kept there, in any program
/// and at any point at which what is known is true: the value lies in the range that was
/// computed for it, and the interpreter finds its promised sign kept.
pub proof fn a_verified_value_keeps_its_promise(
    d: nat,
    w: World,
    e: Expr,
    hint: Option<Numeric>,
    s: Ranges,
    ty: TypeRef,
    name: Seq<char>,
    at: Span,
)
    requires
        covers(w, s),
        ty.sign matches Some(sign) && proves(sign, expr_range(e, s)),
        expr_result(d, w, e, hint).1 is Ok,
        expr_result(d, w, e, hint).1->Ok_0 is Int,
    ensures
        within(expr_range(e, s), expr_result(d, w, e, hint).1->Ok_0->Int_0 as int),
        refinement_kept(ty, name, expr_result(d, w, e, hint).1->Ok_0, at) is Ok,
{
    an_expression_stays_in_its_range(d, w, e, hint, s);
    verified_signs_are_kept(ty.sign->0, expr_range(e, s), expr_result(d, w, e, hint).1->Ok_0->Int_0 as int);
}

} // verus!
