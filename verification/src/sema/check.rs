//! The type checker.

use vstd::prelude::*;
use vstd::string::*;

use crate::ast::{
    BinOp, Binding, ChangeStmt, ChangeTarget, Dim, Expr, ExprKind, FuncDecl, IfArm, IfChain, LoopKind,
    LoopStmt, Param, Precision, Program, Rank, Selector, Sign, Stmt, TypeRef, UnOp, VarDecl,
};
use crate::diagnostics::error::{fault, Category, Error, ErrorView};
use crate::diagnostics::informer::Informer;
use crate::diagnostics::position::{BytePos, Span};
use crate::eval::eval::is_bare_ref;
use crate::eval::numeric::{int_width_range, CONSTANT_DIGITS, SQRT_MAX_DIGITS};
use crate::eval::ops::comparison;
use crate::eval::parse::{parsed_int, read_int};
use crate::eval::semantics::range_inside;
use crate::sema::scope::{is_visible, suggest, Declared, Function, FunctionView, Scopes, ScopesView, Variable};
use crate::sema::types::{
    dims_of, from_type_ref, rank_matches, sign_add, sign_mul, sign_neg, sign_pow, type_option, Base, Shape,
    Type,
};
use crate::sema::typing::{
    all_hand_back, arguments_checked, arithmetic_type, arms_checked, array_operator_type, array_type,
    base_hint, binary_type, binding_checked, bindings_checked, body_checked, builtin_type, call_type,
    chain_selected, chain_type, collected_functions, condition_checked, constant_type, declared,
    dims_selected, dot_dims, each_checked, element_of, erred, expr_type, first_dim, first_handback,
    fitting_hint, function_checked, hands_back, has_else, has_point, initialised, inner_body, irrational_type,
    is_three, kept_dims, known_or_not, last_dim, literal_shape_checked, literal_sign_checked, literal_type,
    literal_width_checked, looks_numeric, looks_zero, loop_checked, loop_type, mismatched_shapes, must_fit,
    must_fit_but_for_sign, must_fit_parameter, naming_checked, noted, numeric_char, numeric_or_decimal,
    optional_checked, parameter_types, parameters_declared, plural, precision_checked, product_type,
    program_checked, rank_checked, reach_checked, reported, restated_checked, result_base, row_checked,
    row_expectation, rows_checked, run_selected, scope_closed, scope_opened, selector_checked, short_int,
    signature, span_of, statement_checked, statement_hands_back, tail_of, target_checked, targets_checked,
    type_shapes_agree, unary_type, unknown_function, unknown_variable, unrefined, unsigned_text, with_article,
    without_signs, written_int, written_iterations, written_length, zero_char, Findings,
};
use crate::text::{
    cat2, cat3, cat4, cat5, cat7, cat9, chars_of, i128_text, is_digit, is_digit_char, same_text, u128_text,
    usize_text,
};

verus! {

/// What a check found.
#[derive(Debug)]
pub struct Checked {
    pub errors: Vec<Error>,
}

pub open spec fn errors_of(errors: Seq<Error>) -> Seq<ErrorView> {
    Seq::new(errors.len(), |i: int| errors[i]@)
}

struct Checker {
    scopes: Scopes,
    errors: Vec<Error>,
    informer: Informer,
}

impl View for Checker {
    type V = Findings;

    closed spec fn view(&self) -> Findings {
        Findings { scopes: self.scopes@, errors: errors_of(self.errors@), informer: self.informer@ }
    }
}

/// What every check leaves alone: how many scopes are open.
spec fn level(a: Findings, b: Findings) -> bool {
    a.scopes.frames.len() == b.scopes.frames.len()
}

/// Check a program. What was decided or inferred on the way is told to the informer.
pub fn check(program: &Program, informer: &mut Informer) -> (r: Checked)
    ensures
        errors_of(r.errors@) == program_checked(*program, old(informer)@).errors,
        final(informer)@ == program_checked(*program, old(informer)@).informer,
{
    let mut own: Informer = Informer::silent();
    core::mem::swap(&mut own, informer);
    let mut c: Checker = Checker { scopes: Scopes::new(), errors: Vec::new(), informer: own };
    assert(c@.errors =~= Seq::empty());
    c.collect_functions(program);
    c.body(&program.statements, &None);
    *informer = c.informer;
    Checked { errors: c.errors }
}

// ── shapes of types ─────────────────────────────────────────────────────────

fn copied_option(t: &Option<Type>) -> (r: Option<Type>)
    ensures
        type_option(r) == type_option(*t),
{
    match t {
        Some(t) => Some(t.copied()),
        None => None,
    }
}

fn copied_shape(s: &Option<Shape>) -> (r: Option<Shape>)
    ensures
        dims_of(r) == dims_of(*s),
{
    match s {
        Some(s) => Some(s.copied()),
        None => None,
    }
}

fn element_option(t: &Option<Type>) -> (r: Option<Type>)
    ensures
        type_option(r) == element_of(type_option(*t)),
{
    match t {
        Some(t) => Some(t.element()),
        None => None,
    }
}

fn unrefined_option(t: &Option<Type>) -> (r: Option<Type>)
    ensures
        type_option(r) == unrefined(type_option(*t)),
{
    match t {
        Some(t) => {
            let mut u: Type = t.copied();
            u.sign = None;
            Some(u)
        },
        None => None,
    }
}

fn first_of(s: &Shape) -> (r: Dim)
    ensures
        r == first_dim(s@),
{
    if s.0.len() > 0 {
        s.0[0]
    } else {
        Dim::Unknown
    }
}

fn last_of(s: &Shape) -> (r: Dim)
    ensures
        r == last_dim(s@),
{
    if s.0.len() > 0 {
        s.0[s.0.len() - 1]
    } else {
        Dim::Unknown
    }
}

/// The dimensions from the `k`-th on, behind those given.
fn extended(head: Vec<Dim>, s: &Shape, k: usize) -> (r: Vec<Dim>)
    requires
        k <= s@.len(),
    ensures
        r@ == head@ + s@.skip(k as int),
{
    let mut out: Vec<Dim> = head;
    let mut i: usize = k;
    let ghost rest = s@.skip(k as int);
    assert(head@ + rest.take(0) =~= head@);
    while i < s.0.len()
        invariant
            k <= i <= s.0.len(),
            rest == s@.skip(k as int),
            out@ == head@ + rest.take(i - k),
        decreases s.0.len() - i,
    {
        out.push(s.0[i]);
        i = i + 1;
        assert(out@ =~= head@ + rest.take(i - k));
    }
    assert(rest.take(rest.len() as int) =~= rest);
    out
}

/// The dimensions behind the first.
fn tail_shape(s: &Shape) -> (r: Shape)
    ensures
        r@ == tail_of(s@),
{
    let none: Vec<Dim> = Vec::new();
    let k: usize = if s.0.len() > 0 {
        1
    } else {
        0
    };
    let out: Vec<Dim> = extended(none, s, k);
    assert(out@ =~= tail_of(s@));
    Shape(out)
}

fn one_dim(d: Dim) -> (r: Vec<Dim>)
    ensures
        r@ == seq![d],
{
    let mut v: Vec<Dim> = Vec::new();
    v.push(d);
    assert(v@ =~= seq![d]);
    v
}

// ── literals ────────────────────────────────────────────────────────────────

fn numeric_looking(text: &str) -> (r: bool)
    ensures
        r == looks_numeric(text@),
{
    let t: Vec<char> = chars_of(text);
    let from: usize = if t.len() > 0 && (t[0] == '-' || t[0] == '+') {
        1
    } else {
        0
    };
    let ghost body = unsigned_text(text@);
    assert(body =~= t@.skip(from as int));
    let mut i: usize = from;
    let mut any: bool = false;
    proof {
        if from == 1 {
            assert(!is_digit(t@[0]));
        }
    }
    while i < t.len()
        invariant
            from <= i <= t.len(),
            t@ == text@,
            body == t@.skip(from as int),
            body == unsigned_text(text@),
            from == 1 ==> !is_digit(t@[0]),
            from <= 1,
            forall|j: int| 0 <= j < i - from ==> numeric_char(#[trigger] body[j]),
            any == exists|j: int| 0 <= j < i && is_digit(#[trigger] t@[j]),
        decreases t.len() - i,
    {
        let c: char = t[i];
        let d: bool = is_digit_char(c);
        if !d && c != '.' {
            assert(body[i - from] == c);
            assert(!numeric_char(body[i - from]));
            return false;
        }
        if d {
            assert(is_digit(t@[i as int]));
            any = true;
        }
        assert(body[i - from] == c);
        i = i + 1;
    }
    any
}

fn contains_point(text: &str) -> (r: bool)
    ensures
        r == has_point(text@),
{
    let t: Vec<char> = chars_of(text);
    let mut i: usize = 0;
    while i < t.len()
        invariant
            i <= t.len(),
            t@ == text@,
            forall|j: int| 0 <= j < i ==> #[trigger] t@[j] != '.',
        decreases t.len() - i,
    {
        if t[i] == '.' {
            assert(t@[i as int] == '.');
            return true;
        }
        i = i + 1;
    }
    false
}

fn zero_looking(text: &str) -> (r: bool)
    ensures
        r == looks_zero(text@),
{
    let t: Vec<char> = chars_of(text);
    let mut from: usize = 0;
    assert(t@.skip(0) =~= t@);
    while from < t.len() && (t[from] == '-' || t[from] == '+')
        invariant
            from <= t.len(),
            t@ == text@,
            without_signs(text@) == without_signs(t@.skip(from as int)),
        decreases t.len() - from,
    {
        assert(t@.skip(from as int).skip(1) =~= t@.skip(from as int + 1));
        from = from + 1;
    }
    let ghost body = without_signs(text@);
    assert(body == t@.skip(from as int));
    let mut i: usize = from;
    while i < t.len()
        invariant
            from <= i <= t.len(),
            body == t@.skip(from as int),
            body == without_signs(text@),
            forall|j: int| 0 <= j < i - from ==> zero_char(#[trigger] body[j]),
        decreases t.len() - i,
    {
        if t[i] != '0' && t[i] != '.' {
            assert(!zero_char(body[i - from]));
            return false;
        }
        assert(zero_char(body[i - from]));
        i = i + 1;
    }
    true
}

/// The whole number a text spells.
fn int_in(text: &str) -> (r: Option<i128>)
    ensures
        match r {
            Some(n) => parsed_int(text@, 10) == Some(n as int),
            None => parsed_int(text@, 10) is None,
        },
{
    let t: Vec<char> = chars_of(text);
    read_int(t.as_slice(), 10)
}

fn short_in(text: &str) -> (r: Option<i128>)
    ensures
        match r {
            Some(n) => short_int(text@) == Some(n as int),
            None => short_int(text@) is None,
        },
{
    match int_in(text) {
        Some(n) => if -9223372036854775808 <= n && n <= 9223372036854775807 {
            Some(n)
        } else {
            None
        },
        None => None,
    }
}

fn literal_int(e: &Expr) -> (r: Option<i128>)
    ensures
        match r {
            Some(n) => written_int(*e) == Some(n as int) && i64::MIN <= n <= i64::MAX,
            None => written_int(*e) is None,
        },
{
    match &e.kind {
        ExprKind::Number(t) => short_in(t.as_str()),
        ExprKind::Literal(t) => short_in(t.as_str()),
        ExprKind::Math(inner) => match &inner.kind {
            ExprKind::Number(t) => short_in(t.as_str()),
            ExprKind::Literal(t) => short_in(t.as_str()),
            _ => None,
        },
        _ => None,
    }
}

/// How many values a literal range covers, when its bounds are known.
pub fn range_length(from: &Expr, to: &Expr, by: &Option<Box<Expr>>) -> (r: Option<u64>)
    ensures
        r == written_length(*from, *to, *by),
{
    let step: Option<i128> = match by {
        Some(b) => literal_int(b),
        None => Some(1),
    };
    match (literal_int(from), literal_int(to), step) {
        (Some(f), Some(t), Some(n)) => {
            if n == 0 {
                return None;
            }
            let count: i128 = if n > 0 {
                if t < f {
                    0
                } else {
                    proof {
                        vstd::arithmetic::div_mod::lemma_div_nonincreasing(t - f, n as int);
                        vstd::arithmetic::div_mod::lemma_div_pos_is_pos(t - f, n as int);
                    }
                    (t - f) / n + 1
                }
            } else {
                if t > f {
                    0
                } else {
                    proof {
                        vstd::arithmetic::div_mod::lemma_div_nonincreasing(f - t, -n as int);
                        vstd::arithmetic::div_mod::lemma_div_pos_is_pos(f - t, -n as int);
                    }
                    (f - t) / (-n) + 1
                }
            };
            if count > 18446744073709551615 {
                None
            } else {
                Some(count as u64)
            }
        },
        _ => None,
    }
}

/// How many iterations a counted loop runs, when its range is literal.
pub fn loop_length(range: &Expr) -> (r: Option<u64>)
    ensures
        r == written_iterations(*range),
{
    let inner: &Expr = match &range.kind {
        ExprKind::Math(e) => e,
        _ => range,
    };
    assert(*inner == range_inside(*range));
    match &inner.kind {
        ExprKind::Range { from, to, by } => range_length(from, to, by),
        _ => None,
    }
}

fn dim_of(n: Option<u64>) -> (r: Dim)
    ensures
        r == known_or_not(n),
{
    match n {
        Some(k) => Dim::Known(k),
        None => Dim::Unknown,
    }
}

// ── paths ───────────────────────────────────────────────────────────────────

/// Whether every path through a block hands a value back.
pub fn block_hands_back(body: &Vec<Stmt>) -> (r: bool)
    ensures
        r == hands_back(*body, 0),
    decreases body, body@.len(),
{
    let mut i: usize = 0;
    while i < body.len()
        invariant
            i <= body.len(),
            hands_back(*body, 0) == hands_back(*body, i as nat),
        decreases body.len() - i,
    {
        if hands_value_back(&body[i]) {
            return true;
        }
        i = i + 1;
    }
    false
}

fn hands_value_back(s: &Stmt) -> (r: bool)
    ensures
        r == statement_hands_back(*s),
    decreases s, 0nat,
{
    match s {
        Stmt::Handback { .. } => true,
        Stmt::If(chain) => else_in(chain) && arms_hand_back(chain),
        _ => false,
    }
}

fn else_in(chain: &IfChain) -> (r: bool)
    ensures
        r == has_else(*chain),
{
    let mut i: usize = 0;
    while i < chain.arms.len()
        invariant
            i <= chain.arms.len(),
            forall|j: int| 0 <= j < i ==> (#[trigger] chain.arms@[j]).condition is Some,
        decreases chain.arms.len() - i,
    {
        if chain.arms[i].condition.is_none() {
            assert(chain.arms@[i as int].condition is None);
            return true;
        }
        i = i + 1;
    }
    false
}

fn arms_hand_back(chain: &IfChain) -> (r: bool)
    ensures
        r == all_hand_back(*chain, 0),
    decreases chain, chain.arms@.len(),
{
    let mut i: usize = 0;
    while i < chain.arms.len()
        invariant
            i <= chain.arms.len(),
            all_hand_back(*chain, 0) == all_hand_back(*chain, i as nat),
        decreases chain.arms.len() - i,
    {
        if !block_hands_back(&chain.arms[i].body) {
            return false;
        }
        i = i + 1;
    }
    true
}

/// Where a statement sits in the source, for pointing at it.
pub fn stmt_span(s: &Stmt) -> (r: Span)
    ensures
        r == span_of(*s),
{
    match s {
        Stmt::Var(v) => v.span,
        Stmt::Change(c) => c.span,
        Stmt::Func(f) => f.span,
        Stmt::If(c) => c.span,
        Stmt::Loop(l) => l.span,
        Stmt::Print { span, .. } => *span,
        Stmt::Handback { span, .. } => *span,
        Stmt::Expr(e) => e.span,
    }
}

// ── words ───────────────────────────────────────────────────────────────────

/// "an int", "a deci".
fn article(b: Base) -> (r: String)
    ensures
        r@ == with_article(b),
{
    if b == Base::Int || b == Base::InfNum {
        cat2("an ", b.name())
    } else {
        cat2("a ", b.name())
    }
}

fn narrowing_hint(got: &Type, want: &Type) -> (r: String)
    ensures
        r@ == base_hint(got@, want@),
{
    if want.sign.is_some() && got.sign.is_none() {
        cat5(
            article(got.base).as_str(),
            " might be negative, so it cannot satisfy ",
            want.render().as_str(),
            ". Declare it ",
            want.render().as_str(),
        ).concat(" instead.")
    } else if got.base.is_numeric() && want.base.is_numeric() {
        cat4(
            article(got.base).as_str(),
            " is wider than ",
            want.render().as_str(),
            ". Narrower types pass into wider ones, never the reverse.",
        )
    } else {
        "check the declared type.".to_owned()
    }
}

fn widening_hint(got: &Type, want: &Type) -> (r: String)
    ensures
        r@ == fitting_hint(got@, want@),
{
    match (&got.shape, &want.shape) {
        (Some(a), Some(b)) => if !a.agrees_with(b) {
            cat5("the shapes ", a.render().as_str(), " and ", b.render().as_str(), " do not agree.")
        } else {
            narrowing_hint(got, want)
        },
        (Some(a), None) => cat3(
            "this is an array of ",
            a.render().as_str(),
            ", but a single value was expected. A bare reference sums; use :all; to keep it an array.",
        ),
        (None, Some(b)) => cat3("a single value cannot fill an array of ", b.render().as_str(), "."),
        (None, None) => narrowing_hint(got, want),
    }
}

fn ending(n: usize) -> (r: &'static str)
    ensures
        r@ == plural(n as int),
{
    if n == 1 {
        ""
    } else {
        "s"
    }
}

fn shapes_fit(a: &Type, b: &Type) -> (r: bool)
    ensures
        r == type_shapes_agree(a@, b@),
{
    match (&a.shape, &b.shape) {
        (None, None) => true,
        (Some(x), Some(y)) => x.agrees_with(y),
        _ => false,
    }
}

/// The signature of a function, where its result has a known type.
fn signature_of(f: &FuncDecl) -> (r: Option<Function>)
    ensures
        match r {
            Some(v) => signature(*f) == Some(v@),
            None => signature(*f) is None,
        },
{
    let result: Type = match from_type_ref(&f.returns, &None, None) {
        Some(t) => t,
        None => {
            return None;
        },
    };
    let mut params: Vec<Type> = Vec::new();
    let mut names: Vec<String> = Vec::new();
    let ghost types = |v: Seq<Type>| Seq::new(v.len(), |i: int| v[i]@);
    let mut i: usize = 0;
    assert(types(params@) =~= Seq::empty());
    while i < f.params.len()
        invariant
            i <= f.params.len(),
            types == (|v: Seq<Type>| Seq::new(v.len(), |i: int| v[i]@)),
            types(params@) == parameter_types(f.params@, i as nat),
            names@.len() == i,
            forall|j: int| 0 <= j < i ==> (#[trigger] names@[j])@ == f.params@[j].name@,
        decreases f.params.len() - i,
    {
        let p: &Param = &f.params[i];
        match from_type_ref(&p.ty, &p.shape, p.precision) {
            Some(t) => {
                let ghost before = params@;
                params.push(t);
                assert(types(params@) =~= types(before).push(t@));
            },
            None => {},
        }
        names.push(p.name.clone());
        i = i + 1;
    }
    let out: Function = Function { params, param_names: names, returns: result, declared_at: f.name_span };
    proof {
        assert(out@.params =~= types(params@));
        assert(out@.param_names =~= Seq::new(f.params@.len(), |i: int| f.params@[i].name@));
    }
    Some(out)
}

proof fn lemma_function_insert(m: Map<Seq<char>, Function>, name: Seq<char>, f: Function)
    ensures
        m.insert(name, f).map_values(|f: Function| f@) == m.map_values(|f: Function| f@).insert(name, f@),
{
    assert(m.insert(name, f).map_values(|f: Function| f@) =~= m.map_values(|f: Function| f@).insert(name, f@));
}

impl Checker {
    // ── the findings ────────────────────────────────────────────────────────

    fn report(&mut self, e: Error)
        ensures
            final(self)@ == reported(old(self)@, e@),
    {
        let ghost before = self@;
        self.errors.push(e);
        assert(self@.errors =~= before.errors.push(e@));
    }

    fn err(&mut self, category: Category, number: u16, span: Span, what: String, fix: &str)
        ensures
            final(self)@ == erred(old(self)@, category, number, span, what@, fix@),
    {
        self.report(fault(category, number, span, what, fix));
    }

    fn say(&mut self, at: BytePos, message: String)
        ensures
            final(self)@ == noted(old(self)@, at, message@),
    {
        self.informer.say(at, message);
    }

    fn open(&mut self)
        ensures
            final(self)@ == scope_opened(old(self)@),
    {
        self.scopes.push();
    }

    fn close(&mut self)
        ensures
            final(self)@ == scope_closed(old(self)@),
    {
        self.scopes.pop();
    }

    fn declare(&mut self, name: &str, ty: Type, span: Span, read_only: bool)
        requires
            old(self)@.scopes.frames.len() > 0,
        ensures
            final(self)@ == declared(old(self)@, name@, ty@, span, read_only),
            level(old(self)@, final(self)@),
    {
        match self.scopes.declare(name, Variable { ty, declared_at: span, read_only }) {
            Declared::Shadows { .. } => {
                self.say(span.start, cat5("'", name, "' here shadows '", name, "' declared earlier"));
            },
            Declared::Fresh => {},
        }
    }

    /// Functions are visible before their declaration, so order does not matter.
    fn collect_functions(&mut self, program: &Program)
        requires
            old(self)@.scopes.functions == Map::<Seq<char>, FunctionView>::empty(),
        ensures
            final(self)@ == (Findings {
                scopes: ScopesView {
                    functions: collected_functions(program.statements@, program.statements@.len()),
                    ..old(self)@.scopes
                },
                ..old(self)@
            }),
    {
        let stmts: &Vec<Stmt> = &program.statements;
        let mut i: usize = 0;
        while i < stmts.len()
            invariant
                i <= stmts.len(),
                self@ == (Findings {
                    scopes: ScopesView {
                        functions: collected_functions(stmts@, i as nat),
                        ..old(self)@.scopes
                    },
                    ..old(self)@
                }),
            decreases stmts.len() - i,
        {
            if let Stmt::Func(f) = &stmts[i] {
                match signature_of(f) {
                    Some(v) => {
                        proof {
                            lemma_function_insert(self.scopes.functions.map(), f.name@, v);
                        }
                        self.scopes.functions.insert(f.name.as_str(), v);
                    },
                    None => {},
                }
            }
            i = i + 1;
        }
    }

    fn unknown_name(&mut self, name: &str, span: Span)
        ensures
            final(self)@ == unknown_variable(old(self)@, name@, span),
    {
        let fix: String = {
            let visible: Vec<&str> = self.scopes.visible_names();
            let ghost names = |n: Seq<char>| is_visible(self@.scopes, n);
            match suggest(name, &visible, Ghost(names)) {
                Some(s) => cat3("did you mean '", s, "'?"),
                None => "check the spelling, and that it is declared before this point.".to_owned(),
            }
        };
        self.err(
            Category::Name,
            1,
            span,
            cat3("there is no variable called '", name, "' in scope."),
            fix.as_str(),
        );
    }

    fn unknown_call(&mut self, name: &str, span: Span)
        ensures
            final(self)@ == unknown_function(old(self)@, name@, span),
    {
        let fix: String = {
            let known: Vec<&str> = crate::sema::scope::ordered_names(&self.scopes.functions);
            let ghost names = |n: Seq<char>| self@.scopes.functions.dom().contains(n);
            match suggest(name, &known, Ghost(names)) {
                Some(s) => cat3("did you mean '", s, "'?"),
                None => "check the name, and that the function is declared.".to_owned(),
            }
        };
        self.err(Category::Name, 2, span, cat3("there is no function called '", name, "'."), fix.as_str());
    }

    // ── fitting ─────────────────────────────────────────────────────────────

    fn require_fits(&mut self, got: &Type, want: &Type, span: Span, what: &str)
        ensures
            final(self)@ == must_fit(old(self)@, got@, want@, span, what@),
            level(old(self)@, final(self)@),
    {
        if got.fits_in(want) {
            if got.widens_to(want) {
                self.say(
                    span.start,
                    cat5(what, " as ", got.render().as_str(), " where ", want.render().as_str()).concat(
                        " expected; widened",
                    ),
                );
            }
            return ;
        }
        self.err(
            Category::Type,
            2,
            span,
            cat5("this is ", got.render().as_str(), ", but ", want.render().as_str(), " was expected."),
            widening_hint(got, want).as_str(),
        );
    }

    /// A sign-only mismatch on an assignment is **not** a type error.
    ///
    /// The sign algebra is deliberately conservative: `+int - +int` widens to `int`,
    /// because `7 - 7` is 0. Rejecting here would make the refinement useless with
    /// mutation, and would pre-empt the very thing verification exists to decide.
    ///
    /// Call arguments and handbacks stay strict, because verification does not reason
    /// across function boundaries.
    fn require_fits_deferring_sign(&mut self, got: &Type, want: &Type, span: Span, what: &str)
        ensures
            final(self)@ == must_fit_but_for_sign(old(self)@, got@, want@, span, what@),
            level(old(self)@, final(self)@),
    {
        let sign_only: bool = want.sign.is_some() && got.base.fits_in(want.base) && shapes_fit(got, want)
            && !got.fits_in(want);
        if sign_only {
            return ;
        }
        self.require_fits(got, want, span, what);
    }

    fn require_fits_named(&mut self, got: &Type, want: &Type, span: Span, param: &str)
        ensures
            final(self)@ == must_fit_parameter(old(self)@, got@, want@, span, param@),
            level(old(self)@, final(self)@),
    {
        if got.fits_in(want) {
            if got.widens_to(want) {
                self.say(
                    span.start,
                    cat7(
                        "'",
                        param,
                        "' passed as ",
                        got.render().as_str(),
                        " where ",
                        want.render().as_str(),
                        " expected; widened",
                    ),
                );
            }
            return ;
        }
        self.err(
            Category::Type,
            2,
            span,
            cat7("'", param, "' expects ", want.render().as_str(), ", but this is ", got.render().as_str(), "."),
            widening_hint(got, want).as_str(),
        );
    }

    // ── what is checked of a declaration ────────────────────────────────────

    fn check_rank(&mut self, ty_ref: &TypeRef, ty: &Type, span: Span)
        ensures
            final(self)@ == rank_checked(old(self)@, *ty_ref, ty@, span),
            level(old(self)@, final(self)@),
    {
        let rank: Rank = match ty_ref.rank {
            Some(r) => r,
            None => {
                return ;
            },
        };
        let shape: &Shape = match &ty.shape {
            Some(s) => s,
            None => {
                return ;
            },
        };
        if !rank_matches(rank, shape) {
            let expected: String = match rank.dimensions() {
                Some(n) => cat2(usize_text(n).as_str(), "-dimensional"),
                None => "three or more dimensions".to_owned(),
            };
            let what: String = cat9(
                "'",
                rank.name(),
                "' is ",
                expected.as_str(),
                ", but shape ",
                shape.render().as_str(),
                " has ",
                usize_text(shape.rank()).as_str(),
                ".",
            );
            self.err(
                Category::Shape,
                2,
                span,
                what,
                "use vector for one dimension, matrix for two, tensor for three or more.",
            );
        }
    }

    fn check_precision(&mut self, ty: &Type, span: Span)
        ensures
            final(self)@ == precision_checked(old(self)@, ty@, span),
            level(old(self)@, final(self)@),
    {
        let b: u32 = match ty.precision {
            Some(Precision::Bits(b)) => b,
            _ => {
                return ;
            },
        };
        if ty.base == Base::InfNum {
            self.err(
                Category::Prec,
                2,
                span,
                "infnum is unbounded, so a bit width means nothing for it.".to_owned(),
                "drop the width, or use [n digits] to say how much of an irrational to compute.",
            );
        } else if ty.base == Base::Deci && !(b == 32 || b == 64 || b == 128) {
            self.err(
                Category::Prec,
                3,
                span,
                cat2(u128_text(b as u128).as_str(), " is not an IEEE decimal format."),
                "decimals are 32, 64 or 128 bit. decimal128 gives 34 digits, which is what financial systems use.",
            );
        } else if !(b == 8 || b == 16 || b == 32 || b == 64 || b == 128) {
            self.err(
                Category::Prec,
                5,
                span,
                cat2(u128_text(b as u128).as_str(), " is not a width AHPCL offers."),
                "the widths are 8, 16, 32, 64 and 128.",
            );
        }
    }

    /// Anything written behind a handback in the same block can never run.
    fn check_unreachable(&mut self, body: &Vec<Stmt>)
        ensures
            final(self)@ == reach_checked(old(self)@, body@),
            level(old(self)@, final(self)@),
    {
        let mut i: usize = 0;
        while i < body.len()
            invariant
                i <= body.len(),
                self@ == old(self)@,
                first_handback(body@, 0) == first_handback(body@, i as nat),
            decreases body.len() - i,
        {
            let hands: bool = match &body[i] {
                Stmt::Handback { .. } => true,
                _ => false,
            };
            if hands {
                if i + 1 < body.len() {
                    self.err(
                        Category::Syn,
                        2,
                        stmt_span(&body[i + 1]),
                        "this can never run, because the handback above it ends the block.".to_owned(),
                        "move it above the handback, or take it out.",
                    );
                }
                return ;
            }
            i = i + 1;
        }
    }

    // ── literals ────────────────────────────────────────────────────────────

    fn check_literal_sign(&mut self, text: &str, ty: &Type, span: Span)
        ensures
            final(self)@ == literal_sign_checked(old(self)@, text@, ty@, span),
            level(old(self)@, final(self)@),
    {
        let negative: bool = !text.is_empty() && text.get_char(0) == '-';
        match ty.sign {
            Some(Sign::Positive) => if negative || zero_looking(text) {
                self.err(
                    Category::Sign,
                    1,
                    span,
                    cat5("'", text, "' is not strictly positive, but the type says +", ty.base.name(), "."),
                    "zero lives only in the unprefixed types; use a plain type, or a positive value.",
                );
            },
            Some(Sign::Negative) => if !negative || zero_looking(text) {
                self.err(
                    Category::Sign,
                    1,
                    span,
                    cat5("'", text, "' is not strictly negative, but the type says -", ty.base.name(), "."),
                    "zero lives only in the unprefixed types; use a plain type, or a negative value.",
                );
            },
            None => {},
        }
    }

    /// A stated width is a promise about range, so check the literal fits.
    fn check_literal_width(&mut self, text: &str, ty: &Type, span: Span)
        ensures
            final(self)@ == literal_width_checked(old(self)@, text@, ty@, span),
            level(old(self)@, final(self)@),
    {
        let bits: u32 = match ty.precision {
            Some(Precision::Bits(b)) => b,
            _ => {
                return ;
            },
        };
        let v: i128 = match int_in(text) {
            Some(v) => v,
            None => {
                return ;
            },
        };
        let (lo, hi) = int_width_range(bits, ty.sign);
        if ty.base == Base::Int && (v < lo || v > hi) {
            let mut what: String = cat7(
                i128_text(v).as_str(),
                " does not fit in ",
                ty.render().as_str(),
                " [",
                u128_text(bits as u128).as_str(),
                " bit], which holds ",
                i128_text(lo).as_str(),
            );
            what.append(" to ");
            what.append(i128_text(hi).as_str());
            what.append(".");
            self.err(Category::Prec, 4, span, what, "widen the type, or use infnum.");
        }
    }

    /// A numeric literal is polymorphic until pinned by context. With nothing to pin
    /// it, that is an error rather than a silent default.
    fn literal(&mut self, text: &str, span: Span, expected: &Option<Type>) -> (r: Option<Type>)
        ensures
            (final(self)@, type_option(r)) == literal_type(old(self)@, text@, span, type_option(*expected)),
            level(old(self)@, final(self)@),
    {
        if !numeric_looking(text) {
            if same_text(text, "true") || same_text(text, "false") {
                return Some(Type::scalar(Base::Bool));
            }
            return Some(Type::scalar(Base::Str));
        }
        match expected {
            Some(t) => {
                if t.base.is_numeric() {
                    let elem: Type = t.element();
                    self.check_literal_sign(text, &elem, span);
                    self.check_literal_width(text, &elem, span);
                    if contains_point(text) && elem.base == Base::Int {
                        self.err(
                            Category::Type,
                            2,
                            span,
                            cat3("'", text, "' has a fractional part, but an int was expected."),
                            "use deci, rat or num, or write a whole number.",
                        );
                    }
                    Some(elem)
                } else {
                    self.err(
                        Category::Type,
                        2,
                        span,
                        cat5("'", text, "' is a number, but ", t.render().as_str(), " was expected."),
                        "check the declared type.",
                    );
                    None
                }
            },
            None => {
                self.err(
                    Category::Type,
                    1,
                    span,
                    cat3("nothing here says what kind of number '", text, "' is."),
                    "give the surrounding declaration a type, such as :deci or :int.",
                );
                None
            },
        }
    }

    fn constant(&mut self, span: Span, expected: &Option<Type>) -> (r: Option<Type>)
        ensures
            (final(self)@, type_option(r)) == constant_type(old(self)@, span, type_option(*expected)),
            level(old(self)@, final(self)@),
    {
        match expected {
            Some(t) => if t.base.is_numeric() {
                if let Some(Precision::Digits(n)) = t.precision {
                    if n > CONSTANT_DIGITS {
                        self.err(
                            Category::Prec,
                            4,
                            span,
                            cat3(
                                "AHPCL knows this constant to 36 decimal places; ",
                                u128_text(n as u128).as_str(),
                                " were asked for.",
                            ),
                            "ask for at most 36 digits.",
                        );
                        return None;
                    }
                }
                Some(t.copied())
            } else {
                Some(Type::scalar(Base::Deci))
            },
            None => Some(Type::scalar(Base::Deci)),
        }
    }

    // ── operators ───────────────────────────────────────────────────────────

    fn report_shapes(&mut self, x: &Shape, y: &Shape, span: Span)
        ensures
            final(self)@ == mismatched_shapes(old(self)@, x@, y@, span),
            level(old(self)@, final(self)@),
    {
        self.err(
            Category::Shape,
            1,
            span,
            cat5(
                "elementwise operations need matching shapes, but these are ",
                x.render().as_str(),
                " and ",
                y.render().as_str(),
                ".",
            ),
            "make the shapes agree.",
        );
    }

    fn base_of_result(&mut self, op: BinOp, a: Base, b: Base, span: Span, expected: &Option<Type>) -> (r: Option<Base>)
        ensures
            (final(self)@, r) == result_base(old(self)@, op, a, b, span, type_option(*expected)),
            level(old(self)@, final(self)@),
    {
        if op == BinOp::Div {
            if let Some(t) = expected {
                if t.base == Base::Rat || t.base == Base::Deci || t.base == Base::InfNum {
                    return Some(t.base);
                }
                if t.base == Base::Int {
                    self.err(
                        Category::Type,
                        2,
                        span,
                        "division does not produce a whole number, so it cannot land in an int.".to_owned(),
                        "use // for truncating division, or declare the result :deci or :rat.",
                    );
                    return None;
                }
            }
            self.err(
                Category::Type,
                1,
                span,
                "division produces either an exact rational or a decimal, and nothing here says which.".to_owned(),
                "give the surrounding declaration a concrete type, such as :deci or :rat.",
            );
            None
        } else if op == BinOp::IntDiv {
            Some(Base::Int)
        } else {
            a.join(b)
        }
    }

    fn arithmetic(
        &mut self,
        op: BinOp,
        a: &Type,
        b: &Type,
        a_dims: Option<Shape>,
        b_dims: Option<Shape>,
        span: Span,
        expected: &Option<Type>,
    ) -> (r: Option<Type>)
        ensures
            (final(self)@, type_option(r)) == arithmetic_type(
                old(self)@,
                op,
                a@,
                b@,
                dims_of(a_dims),
                dims_of(b_dims),
                span,
                type_option(*expected),
            ),
            level(old(self)@, final(self)@),
    {
        if !a.base.is_numeric() || !b.base.is_numeric() {
            let offender: &Type = if a.base.is_numeric() {
                b
            } else {
                a
            };
            self.err(
                Category::Type,
                3,
                span,
                cat3("arithmetic needs numbers, but this is ", offender.render().as_str(), "."),
                "only num, rat, deci, int and infnum take arithmetic.",
            );
            return None;
        }
        let base: Base = match self.base_of_result(op, a.base, b.base, span, expected) {
            Some(base) => base,
            None => {
                return None;
            },
        };
        let sign: Option<Sign> = match op {
            BinOp::Add => sign_add(a.sign, b.sign),
            BinOp::Mul => sign_mul(a.sign, b.sign),
            BinOp::Div => sign_mul(a.sign, b.sign),
            BinOp::IntDiv => sign_mul(a.sign, b.sign),
            BinOp::Pow => sign_pow(a.sign),
            _ => None,
        };
        if let (Some(x), Some(y)) = (&a_dims, &b_dims) {
            if !x.agrees_with(y) {
                self.report_shapes(x, y, span);
                return None;
            }
        }
        let shape: Option<Shape> = if a_dims.is_some() {
            a_dims
        } else {
            b_dims
        };
        Some(Type { base, sign, shape, precision: None })
    }

    fn product(a: &Type, b: &Type, shape: Option<Shape>) -> (r: Option<Type>)
        ensures
            type_option(r) == product_type(a@, b@, dims_of(shape)),
    {
        match a.base.join(b.base) {
            Some(base) => Some(Type { base, sign: sign_mul(a.sign, b.sign), shape, precision: None }),
            None => None,
        }
    }

    fn three(s: &Shape) -> (r: bool)
        ensures
            r == is_three(s@),
    {
        s.0.len() == 1 && match s.0[0] {
            Dim::Known(n) => n == 3,
            Dim::Unknown => false,
        }
    }

    fn dot_shape(a: &Shape, b: &Shape) -> (r: Option<Shape>)
        ensures
            dims_of(r) == dot_dims(a@, b@),
    {
        if a.0.len() == 1 && b.0.len() == 1 {
            None
        } else if b.0.len() == 1 {
            Some(Shape(one_dim(first_of(a))))
        } else if a.0.len() == 1 {
            Some(Shape(one_dim(last_of(b))))
        } else {
            let mut dims: Vec<Dim> = Vec::new();
            dims.push(first_of(a));
            dims.push(last_of(b));
            assert(dims@ =~= seq![first_dim(a@), last_dim(b@)]);
            Some(Shape(dims))
        }
    }

    fn array_operator(&mut self, op: BinOp, a: &Type, b: &Type, span: Span) -> (r: Option<Type>)
        ensures
            (final(self)@, type_option(r)) == array_operator_type(old(self)@, op, a@, b@, span),
            level(old(self)@, final(self)@),
    {
        let (x, y) = match (&a.shape, &b.shape) {
            (Some(x), Some(y)) => (x, y),
            _ => {
                self.err(
                    Category::Shape,
                    1,
                    span,
                    "this operator works on arrays, but one side is a single value.".to_owned(),
                    "use ordinary arithmetic for single numbers.",
                );
                return None;
            },
        };
        match op {
            BinOp::Dot => {
                // The dot product *is* matrix multiplication. A rank-1 operand acts as
                // a row on the left and a column on the right.
                if let (Dim::Known(k), Dim::Known(n)) = (last_of(x), first_of(y)) {
                    if k != n {
                        let mut what: String = cat5(
                            "matrix multiplication requires inner dimensions to agree. ",
                            x.render().as_str(),
                            " · ",
                            y.render().as_str(),
                            " — ",
                        );
                        what.append(u128_text(k as u128).as_str());
                        what.append(" ≠ ");
                        what.append(u128_text(n as u128).as_str());
                        what.append(".");
                        self.err(
                            Category::Shape,
                            1,
                            span,
                            what,
                            "transpose one side, or declare a matching shape.",
                        );
                        return None;
                    }
                }
                Self::product(a, b, Self::dot_shape(x, y))
            },
            BinOp::Cross => {
                if !Self::three(x) || !Self::three(y) {
                    self.err(
                        Category::Shape,
                        1,
                        span,
                        cat5(
                            "cross product is defined for two 3-element vectors, but these are ",
                            x.render().as_str(),
                            " and ",
                            y.render().as_str(),
                            ".",
                        ),
                        "use · for the dot product, or ⊙ for elementwise.",
                    );
                    return None;
                }
                Some(a.copied())
            },
            BinOp::Hadamard => {
                if !x.agrees_with(y) {
                    self.report_shapes(x, y, span);
                    return None;
                }
                Self::product(a, b, Some(x.copied()))
            },
            BinOp::Tensor => {
                let none: Vec<Dim> = Vec::new();
                let head: Vec<Dim> = extended(none, x, 0);
                assert(head@ =~= x@);
                let dims: Vec<Dim> = extended(head, y, 0);
                assert(dims@ =~= x@ + y@);
                Self::product(a, b, Some(Shape(dims)))
            },
            _ => None,
        }
    }

    /// The shape an operand keeps under an operator.
    fn kept_shape(op: BinOp, e: &Expr, t: &Option<Type>) -> (r: Option<Shape>)
        ensures
            dims_of(r) == kept_dims(op, *e, type_option(*t)),
    {
        let works_on_arrays: bool = match op {
            BinOp::Dot => true,
            BinOp::Cross => true,
            BinOp::Hadamard => true,
            BinOp::Tensor => true,
            _ => false,
        };
        match t {
            Some(t) => if works_on_arrays || !is_bare_ref(e) {
                copied_shape(&t.shape)
            } else {
                None
            },
            None => None,
        }
    }

    fn combine(
        &mut self,
        op: BinOp,
        lhs: &Expr,
        a: &Option<Type>,
        rhs: &Expr,
        b: &Option<Type>,
        span: Span,
        expected: &Option<Type>,
    ) -> (r: Option<Type>)
        ensures
            (final(self)@, type_option(r)) == binary_type(
                old(self)@,
                op,
                *lhs,
                type_option(*a),
                *rhs,
                type_option(*b),
                span,
                type_option(*expected),
            ),
            level(old(self)@, final(self)@),
    {
        let a_dims: Option<Shape> = Self::kept_shape(op, lhs, a);
        let b_dims: Option<Shape> = Self::kept_shape(op, rhs, b);
        if comparison(op) {
            let shape: Option<Shape> = if a_dims.is_some() {
                a_dims
            } else {
                b_dims
            };
            return Some(Type { base: Base::Bool, sign: None, shape, precision: None });
        }
        match (a, b) {
            (Some(x), Some(y)) => match op {
                BinOp::Dot | BinOp::Cross | BinOp::Hadamard | BinOp::Tensor => self.array_operator(op, x, y, span),
                _ => self.arithmetic(op, x, y, a_dims, b_dims, span, expected),
            },
            _ => None,
        }
    }

    fn numeric_result(expected: &Option<Type>) -> (r: Type)
        ensures
            r@ == numeric_or_decimal(type_option(*expected)),
    {
        match expected {
            Some(t) => if t.base.is_numeric() {
                t.element()
            } else {
                Type::scalar(Base::Deci)
            },
            None => Type::scalar(Base::Deci),
        }
    }

    fn irrational(&mut self, op: UnOp, operand: &Option<Type>, span: Span, expected: &Option<Type>) -> (r: Option<Type>)
        ensures
            (final(self)@, type_option(r)) == irrational_type(
                old(self)@,
                op,
                type_option(*operand),
                span,
                type_option(*expected),
            ),
            level(old(self)@, final(self)@),
    {
        if let Some(t) = operand {
            if !t.base.is_numeric() {
                self.err(
                    Category::Type,
                    3,
                    span,
                    cat3("this operation needs a number, but got ", t.render().as_str(), "."),
                    "check the operand's type.",
                );
                return None;
            }
        }
        let result: Type = Self::numeric_result(expected);
        if result.base == Base::Int {
            self.err(
                Category::Type,
                2,
                span,
                "this operation usually produces an irrational, which an int cannot hold.                          √9 is exactly 3, but √2 is not, and which one you have is not always                          knowable before the program runs.".to_owned(),
                "use deci for a rounded result, or infnum with a digit count.",
            );
            return None;
        }
        if op == UnOp::Sqrt {
            if let Some(Precision::Digits(n)) = result.precision {
                if n > SQRT_MAX_DIGITS {
                    self.err(
                        Category::Prec,
                        4,
                        span,
                        cat3(
                            "AHPCL computes square roots to at most 18 decimal places; ",
                            u128_text(n as u128).as_str(),
                            " were asked for.",
                        ),
                        "ask for at most 18 digits.",
                    );
                    return None;
                }
            }
        }
        if result.base == Base::Deci {
            self.say(
                span.start,
                "result may be irrational; rounded toward zero".to_owned(),
            );
        }
        Some(result)
    }

    // ── assignments ─────────────────────────────────────────────────────────

    fn check_naming(&mut self, name: &str, want: &Type, got: &Type, value: &Expr)
        ensures
            final(self)@ == naming_checked(old(self)@, name@, want@, got@, *value),
            level(old(self)@, final(self)@),
    {
        if want.shape.is_some() && got.shape.is_some() && is_bare_ref(value) {
            self.err(
                Category::Type,
                6,
                value.span,
                cat3(
                    "'",
                    name,
                    "' could be a copy of this array or a second name for it, and nothing here says which.",
                ),
                "write :all; to copy every element.",
            );
        }
    }

    fn check_literal_shape(&mut self, name: &str, want: &Type, got: &Type, span: Span)
        ensures
            final(self)@ == literal_shape_checked(old(self)@, name@, want@, got@, span),
            level(old(self)@, final(self)@),
    {
        if let (Some(w), Some(h)) = (&want.shape, &got.shape) {
            if !w.agrees_with(h) {
                self.err(
                    Category::Shape,
                    3,
                    span,
                    cat7(
                        "the value is ",
                        h.render().as_str(),
                        " but '",
                        name,
                        "' is declared ",
                        w.render().as_str(),
                        ".",
                    ),
                    "make the literal match the declared shape, or drop the shape and let the literal decide.",
                );
            }
        }
    }

    fn check_initial(&mut self, name: &str, ty: &Type, got: &Type, value: &Expr)
        ensures
            final(self)@ == initialised(old(self)@, name@, ty@, got@, *value),
            level(old(self)@, final(self)@),
    {
        // A shape disagreement is reported by the shape check below, so do not also
        // report it as a type mismatch.
        let shape_only: bool = got.base.fits_in(ty.base) && got.shape.is_some() && ty.shape.is_some()
            && !got.fits_in(ty);
        if !shape_only {
            self.require_fits_deferring_sign(got, ty, value.span, "assigned");
        }
        self.check_literal_shape(name, ty, got, value.span);
        self.check_naming(name, ty, got, value);
    }

    /// The restated type is documentation for the reader, so it is verified.
    /// Documentation that can drift out of sync is worse than none.
    fn check_restated(&mut self, c: &ChangeStmt, t: &ChangeTarget, stated: &Type, want: &Type, declared_at: Span)
        ensures
            final(self)@ == restated_checked(old(self)@, *c, *t, stated@, want@, declared_at),
            level(old(self)@, final(self)@),
    {
        let same_sign: bool = match (stated.sign, want.sign) {
            (None, None) => true,
            (Some(a), Some(b)) => a == b,
            _ => false,
        };
        if stated.base != want.base || !same_sign {
            let e: Error = fault(
                Category::Type,
                4,
                c.ty.span,
                cat7(
                    "'",
                    t.name.as_str(),
                    "' is ",
                    want.render().as_str(),
                    ", but this says ",
                    stated.render().as_str(),
                    ".",
                ),
                cat5("write change:var:", want.render().as_str(), " '", t.name.as_str(), "' = … .").as_str(),
            );
            self.report(
                e.with_label(declared_at, "declared here".to_owned()).with_label(
                    c.ty.span,
                    "restated differently here".to_owned(),
                ),
            );
        }
    }

    fn check_row(&mut self, row: &Option<Type>, first: Option<Shape>, span: Span) -> (r: Option<Shape>)
        ensures
            (final(self)@, dims_of(r)) == row_checked(old(self)@, type_option(*row), dims_of(first), span),
            level(old(self)@, final(self)@),
    {
        match row {
            Some(t) => match (&t.shape, first) {
                (Some(s), Some(f)) => {
                    if !f.agrees_with(s) {
                        self.err(
                            Category::Shape,
                            3,
                            span,
                            "every row of an array must be the same length.".to_owned(),
                            "arrays are rectangular; ragged rows are not allowed.",
                        );
                    }
                    Some(f)
                },
                (Some(s), None) => Some(s.copied()),
                (None, f) => f,
            },
            None => first,
        }
    }

    fn row_want(expected: &Option<Type>) -> (r: Option<Type>)
        ensures
            type_option(r) == row_expectation(type_option(*expected)),
    {
        match expected {
            Some(t) => match &t.shape {
                Some(s) => Some(
                    Type { base: t.base, sign: t.sign, shape: Some(tail_shape(s)), precision: t.precision },
                ),
                None => Some(t.element()),
            },
            None => None,
        }
    }

    fn array_of(n: usize, inner: Option<Shape>, expected: &Option<Type>) -> (r: Type)
        ensures
            r@ == array_type(n as nat, dims_of(inner), type_option(*expected)),
    {
        let head: Vec<Dim> = one_dim(Dim::Known(n as u64));
        let dims: Vec<Dim> = match &inner {
            Some(s) => {
                let d: Vec<Dim> = extended(head, s, 0);
                assert(s@.skip(0) =~= s@);
                d
            },
            None => head,
        };
        proof {
            if inner is None {
                assert(dims@ =~= seq![Dim::Known(n as u64)] + Seq::empty());
            }
        }
        match expected {
            Some(t) => Type { base: t.base, sign: t.sign, shape: Some(Shape(dims)), precision: None },
            None => Type { base: Base::Num, sign: None, shape: Some(Shape(dims)), precision: None },
        }
    }

    fn loop_array(l: &LoopStmt, expected: &Option<Type>) -> (r: Type)
        ensures
            r@ == loop_type(*l, type_option(*expected)),
    {
        let outer: Option<u64> = match &l.kind {
            LoopKind::Counted { range, .. } => loop_length(range),
            LoopKind::While { .. } => None,
        };
        let head: Vec<Dim> = one_dim(dim_of(outer));
        proof {
            assert(head@ + Seq::<Dim>::empty() =~= head@);
        }
        match expected {
            Some(t) => {
                let dims: Vec<Dim> = match &t.shape {
                    Some(s) => {
                        let tail: Shape = tail_shape(s);
                        let d: Vec<Dim> = extended(head, &tail, 0);
                        assert(tail@.skip(0) =~= tail@);
                        d
                    },
                    None => head,
                };
                Type { base: t.base, sign: t.sign, shape: Some(Shape(dims)), precision: None }
            },
            None => Type { base: Base::Num, sign: None, shape: Some(Shape(head)), precision: None },
        }
    }

    // ── statements ──────────────────────────────────────────────────────────

    fn body(&mut self, stmts: &Vec<Stmt>, want: &Option<Type>)
        requires
            old(self)@.scopes.frames.len() > 0,
        ensures
            final(self)@ == body_checked(old(self)@, *stmts, 0, type_option(*want)),
            level(old(self)@, final(self)@),
        decreases stmts, stmts@.len(),
    {
        let mut i: usize = 0;
        while i < stmts.len()
            invariant
                i <= stmts.len(),
                old(self)@.scopes.frames.len() > 0,
                level(old(self)@, self@),
                body_checked(old(self)@, *stmts, 0, type_option(*want)) == body_checked(
                    self@,
                    *stmts,
                    i as nat,
                    type_option(*want),
                ),
            decreases stmts.len() - i,
        {
            self.statement(&stmts[i], want);
            i = i + 1;
        }
    }

    /// A body in a scope that has been opened for it, which is closed behind it.
    fn scoped_body(&mut self, stmts: &Vec<Stmt>, want: &Option<Type>)
        requires
            old(self)@.scopes.frames.len() > 0,
        ensures
            final(self)@ == inner_body(old(self)@, *stmts, type_option(*want)),
            final(self)@.scopes.frames.len() == old(self)@.scopes.frames.len() - 1,
        decreases stmts, stmts@.len() + 1,
    {
        self.check_unreachable(stmts);
        self.body(stmts, want);
        self.close();
    }

    /// `want` is the type a `handback` must produce, when inside a function body.
    fn statement(&mut self, stmt: &Stmt, want: &Option<Type>)
        requires
            old(self)@.scopes.frames.len() > 0,
        ensures
            final(self)@ == statement_checked(old(self)@, *stmt, type_option(*want)),
            level(old(self)@, final(self)@),
        decreases stmt, 0nat,
    {
        match stmt {
            Stmt::Var(v) => self.var_decl(v),
            Stmt::Change(c) => {
                if let Some(stated) = from_type_ref(&c.ty, &None, None) {
                    self.change(c, &stated);
                }
            },
            Stmt::Func(f) => self.func(f),
            Stmt::If(chain) => {
                let _ = self.if_chain(chain, &None, want);
            },
            Stmt::Loop(l) => self.loop_stmt(l, want),
            Stmt::Print { args, .. } => self.each(args, &None),
            Stmt::Handback { value, span } => {
                let got: Option<Type> = self.expr(value, want);
                if let (Some(w), Some(g)) = (want, &got) {
                    self.require_fits(g, w, *span, "handed back");
                }
            },
            Stmt::Expr(e) => {
                let _ = self.expr(e, &None);
            },
        }
    }

    fn var_decl(&mut self, v: &VarDecl)
        requires
            old(self)@.scopes.frames.len() > 0,
        ensures
            final(self)@ == bindings_checked(old(self)@, *v, 0),
            level(old(self)@, final(self)@),
        decreases v, v.bindings@.len(),
    {
        let mut i: usize = 0;
        while i < v.bindings.len()
            invariant
                i <= v.bindings.len(),
                old(self)@.scopes.frames.len() > 0,
                level(old(self)@, self@),
                bindings_checked(old(self)@, *v, 0) == bindings_checked(self@, *v, i as nat),
            decreases v.bindings.len() - i,
        {
            self.binding(v, &v.bindings[i]);
            i = i + 1;
        }
    }

    fn binding(&mut self, v: &VarDecl, b: &Binding)
        requires
            old(self)@.scopes.frames.len() > 0,
        ensures
            final(self)@ == binding_checked(old(self)@, *v, *b),
            level(old(self)@, final(self)@),
        decreases b, 0nat,
    {
        let mut ty: Type = match from_type_ref(&v.ty, &b.shape, b.precision) {
            Some(t) => t,
            None => {
                return ;
            },
        };
        self.check_precision(&ty, v.ty.span);
        self.check_rank(&v.ty, &ty, b.name_span);
        match &b.value {
            Some(value) => {
                let want: Option<Type> = Some(ty.copied());
                if let Some(got) = self.expr(value, &want) {
                    self.check_initial(b.name.as_str(), &ty, &got, value);
                    // A literal may determine the shape when none was written.
                    if ty.shape.is_none() {
                        ty.shape = got.shape;
                    }
                }
            },
            None => {
                // A declaration must say what the variable holds. Nothing can be read
                // before it is written, and a silent 0 would be exactly the kind of
                // default AHPCL does not do.
                self.err(
                    Category::Type,
                    5,
                    b.name_span,
                    cat3("'", b.name.as_str(), "' is declared but never given a value."),
                    cat5("give it one, as in var:", v.ty.base.as_str(), " '", b.name.as_str(), "' = <value>.").as_str(),
                );
            },
        }
        self.declare(b.name.as_str(), ty, b.name_span, false);
    }

    fn change(&mut self, c: &ChangeStmt, stated: &Type)
        requires
            old(self)@.scopes.frames.len() > 0,
        ensures
            final(self)@ == targets_checked(old(self)@, *c, stated@, 0),
            level(old(self)@, final(self)@),
        decreases c, c.targets@.len(),
    {
        let mut i: usize = 0;
        while i < c.targets.len()
            invariant
                i <= c.targets.len(),
                old(self)@.scopes.frames.len() > 0,
                level(old(self)@, self@),
                targets_checked(old(self)@, *c, stated@, 0) == targets_checked(self@, *c, stated@, i as nat),
            decreases c.targets.len() - i,
        {
            self.target(c, &c.targets[i], stated);
            i = i + 1;
        }
    }

    fn target(&mut self, c: &ChangeStmt, t: &ChangeTarget, stated: &Type)
        requires
            old(self)@.scopes.frames.len() > 0,
        ensures
            final(self)@ == target_checked(old(self)@, *c, *t, stated@),
            level(old(self)@, final(self)@),
        decreases t, 0nat,
    {
        let (want, declared_at, read_only) = match self.scopes.lookup(t.name.as_str()) {
            Some(v) => {
                let w: Type = if t.selectors.len() == 0 {
                    v.ty.copied()
                } else {
                    v.ty.element()
                };
                (w, v.declared_at, v.read_only)
            },
            None => {
                self.unknown_name(t.name.as_str(), t.name_span);
                return ;
            },
        };
        if read_only {
            self.err(
                Category::Sign,
                2,
                t.name_span,
                cat3("'", t.name.as_str(), "' is a loop counter, which is read-only inside the body."),
                "a counted loop runs a fixed number of times; use a separate variable.",
            );
            return ;
        }
        self.check_restated(c, t, stated, &want, declared_at);
        let expected: Option<Type> = Some(want.copied());
        if let Some(got) = self.expr(&t.value, &expected) {
            self.require_fits_deferring_sign(&got, &want, t.value.span, "assigned");
            self.check_naming(t.name.as_str(), &want, &got, &t.value);
        }
    }

    fn declare_parameters(&mut self, f: &FuncDecl)
        requires
            old(self)@.scopes.frames.len() > 0,
        ensures
            final(self)@ == parameters_declared(old(self)@, *f, f.params@.len()),
            level(old(self)@, final(self)@),
    {
        let mut i: usize = 0;
        while i < f.params.len()
            invariant
                i <= f.params.len(),
                old(self)@.scopes.frames.len() > 0,
                level(old(self)@, self@),
                self@ == parameters_declared(old(self)@, *f, i as nat),
            decreases f.params.len() - i,
        {
            let p: &Param = &f.params[i];
            if let Some(ty) = from_type_ref(&p.ty, &p.shape, p.precision) {
                self.check_rank(&p.ty, &ty, p.name_span);
                self.declare(p.name.as_str(), ty, p.name_span, false);
            }
            i = i + 1;
        }
    }

    fn func(&mut self, f: &FuncDecl)
        requires
            old(self)@.scopes.frames.len() > 0,
        ensures
            final(self)@ == function_checked(old(self)@, *f),
            level(old(self)@, final(self)@),
        decreases f, 0nat,
    {
        let result: Type = match from_type_ref(&f.returns, &None, None) {
            Some(t) => t,
            None => {
                return ;
            },
        };
        self.open();
        self.declare_parameters(f);
        let want: Option<Type> = if result.base == Base::Nothing {
            None
        } else {
            Some(result.copied())
        };
        self.scoped_body(&f.body, &want);
        if result.base != Base::Nothing && !block_hands_back(&f.body) {
            self.err(
                Category::Type,
                2,
                f.name_span,
                cat5(
                    "'",
                    f.name.as_str(),
                    "' produces ",
                    result.render().as_str(),
                    ", but no path hands a value back.",
                ),
                "add a handback, or declare the function as func:none.",
            );
        }
    }

    fn condition(&mut self, cond: &Expr, in_loop: bool)
        requires
            old(self)@.scopes.frames.len() > 0,
        ensures
            final(self)@ == condition_checked(old(self)@, *cond, in_loop),
            level(old(self)@, final(self)@),
        decreases cond, 2nat,
    {
        let want: Option<Type> = Some(Type::scalar(Base::Bool));
        if let Some(t) = self.expr(cond, &want) {
            if t.base != Base::Bool {
                if in_loop {
                    self.err(
                        Category::Type,
                        2,
                        cond.span,
                        cat3("a loop condition must be a bool, but this is ", t.render().as_str(), "."),
                        "compare something, as in math { ('n') > 1 }.",
                    );
                } else {
                    self.err(
                        Category::Type,
                        2,
                        cond.span,
                        cat3("a condition must be a bool, but this is ", t.render().as_str(), "."),
                        "compare something, as in math { ('x') > 5 }.",
                    );
                }
            }
        }
    }

    fn arms(&mut self, chain: &IfChain, want: &Option<Type>)
        requires
            old(self)@.scopes.frames.len() > 0,
        ensures
            final(self)@ == arms_checked(old(self)@, *chain, type_option(*want), 0),
            level(old(self)@, final(self)@),
        decreases chain, chain.arms@.len(),
    {
        let mut i: usize = 0;
        while i < chain.arms.len()
            invariant
                i <= chain.arms.len(),
                old(self)@.scopes.frames.len() > 0,
                level(old(self)@, self@),
                arms_checked(old(self)@, *chain, type_option(*want), 0) == arms_checked(
                    self@,
                    *chain,
                    type_option(*want),
                    i as nat,
                ),
            decreases chain.arms.len() - i,
        {
            let arm: &IfArm = &chain.arms[i];
            if let Some(cond) = &arm.condition {
                self.condition(cond, false);
            }
            self.open();
            self.scoped_body(&arm.body, want);
            i = i + 1;
        }
    }

    /// Returns the type the chain produces, when every arm hands one back.
    fn if_chain(&mut self, chain: &IfChain, expected: &Option<Type>, outer: &Option<Type>) -> (r: Option<Type>)
        requires
            old(self)@.scopes.frames.len() > 0,
        ensures
            (final(self)@, type_option(r)) == chain_type(
                old(self)@,
                *chain,
                type_option(*expected),
                type_option(*outer),
            ),
            level(old(self)@, final(self)@),
        decreases chain, chain.arms@.len() + 1,
    {
        // Inside an arm, a handback belongs to the value the if produces when the if is
        // being used for its value; otherwise to the enclosing function.
        if expected.is_some() {
            self.arms(chain, expected);
        } else {
            self.arms(chain, outer);
        }
        let has_else: bool = else_in(chain);
        if expected.is_some() && (chain.arms.len() == 0 || !arms_hand_back(chain) || !has_else) {
            self.err(
                Category::Type,
                2,
                chain.span,
                if has_else {
                    "this conditional is used for its value, but not every branch hands one back.".to_owned()
                } else {
                    "this conditional is used for its value, but it has no else, so one path produces nothing.".to_owned()
                },
                "add an else, and a handback in every branch.",
            );
            return None;
        }
        copied_option(expected)
    }

    fn loop_stmt(&mut self, l: &LoopStmt, want: &Option<Type>)
        requires
            old(self)@.scopes.frames.len() > 0,
        ensures
            final(self)@ == loop_checked(old(self)@, *l, type_option(*want)),
            level(old(self)@, final(self)@),
        decreases l, 0nat,
    {
        self.open();
        match &l.kind {
            LoopKind::Counted { ty, var, var_span, range } => {
                let counter: Type = match from_type_ref(ty, &None, None) {
                    Some(t) => t,
                    None => Type::scalar(Base::Int),
                };
                let expected: Option<Type> = Some(counter.copied());
                let _ = self.expr(range, &expected);
                // The counter is read-only, which is what makes a counted loop
                // provably terminating.
                self.declare(var.as_str(), counter, *var_span, true);
            },
            LoopKind::While { condition } => {
                self.condition(condition, true);
            },
        }
        self.scoped_body(&l.body, want);
    }

    fn each(&mut self, items: &Vec<Expr>, expected: &Option<Type>)
        requires
            old(self)@.scopes.frames.len() > 0,
        ensures
            final(self)@ == each_checked(old(self)@, *items, type_option(*expected), 0),
            level(old(self)@, final(self)@),
        decreases items, items@.len(),
    {
        let mut i: usize = 0;
        while i < items.len()
            invariant
                i <= items.len(),
                old(self)@.scopes.frames.len() > 0,
                level(old(self)@, self@),
                each_checked(old(self)@, *items, type_option(*expected), 0) == each_checked(
                    self@,
                    *items,
                    type_option(*expected),
                    i as nat,
                ),
            decreases items.len() - i,
        {
            let _ = self.expr(&items[i], expected);
            i = i + 1;
        }
    }

    // ── expressions ─────────────────────────────────────────────────────────

    fn expr(&mut self, e: &Expr, expected: &Option<Type>) -> (r: Option<Type>)
        requires
            old(self)@.scopes.frames.len() > 0,
        ensures
            (final(self)@, type_option(r)) == expr_type(old(self)@, *e, type_option(*expected)),
            level(old(self)@, final(self)@),
        decreases e, 1nat,
    {
        match &e.kind {
            ExprKind::Literal(text) => self.literal(text.as_str(), e.span, expected),
            ExprKind::Str(_) => Some(Type::scalar(Base::Str)),
            ExprKind::Number(text) => self.literal(text.as_str(), e.span, expected),
            ExprKind::Constant(_) => self.constant(e.span, expected),
            ExprKind::Ref { name, selectors } => {
                let ty: Type = match self.scopes.lookup(name.as_str()) {
                    Some(v) => v.ty.copied(),
                    None => {
                        self.unknown_name(name.as_str(), e.span);
                        return None;
                    },
                };
                self.apply_selectors(ty, selectors, e.span)
            },
            ExprKind::Math(inner) => {
                let t: Type = match self.expr(inner, expected) {
                    Some(t) => t,
                    None => {
                        return None;
                    },
                };
                // A bare array reference sums, including when it is the whole
                // expression: `math { ('areas') }` is the sum, not the array.
                let array_wanted: bool = match expected {
                    Some(x) => x.shape.is_some(),
                    None => false,
                };
                if is_bare_ref(inner) && t.is_array() && !array_wanted {
                    Some(t.element())
                } else {
                    Some(t)
                }
            },
            ExprKind::Binary { op, lhs, rhs } => self.binary(*op, lhs, rhs, e, expected),
            ExprKind::Unary { op, operand } => self.unary(*op, operand, e.span, expected),
            ExprKind::Call { name, args } => self.call(name.as_str(), args, e.span),
            ExprKind::Builtin { name, args } => self.builtin(name.as_str(), args, e.span, expected),
            ExprKind::ArrayLit(items) => {
                let inner: Option<Shape> = self.rows(items, expected);
                Some(Self::array_of(items.len(), inner, expected))
            },
            ExprKind::If(chain) => self.if_chain(chain, expected, &None),
            ExprKind::Loop(l) => {
                let elem: Option<Type> = element_option(expected);
                self.loop_stmt(l, &elem);
                Some(Self::loop_array(l, expected))
            },
            ExprKind::Option { .. } => None,
            ExprKind::Range { from, to, by } => {
                let want: Option<Type> = Some(Type::scalar(Base::Int));
                let _ = self.expr(from, &want);
                let _ = self.expr(to, &want);
                self.optional(by, &want);
                want
            },
        }
    }

    fn optional(&mut self, by: &Option<Box<Expr>>, want: &Option<Type>)
        requires
            old(self)@.scopes.frames.len() > 0,
        ensures
            final(self)@ == optional_checked(old(self)@, *by, type_option(*want)),
            level(old(self)@, final(self)@),
        decreases by, 0nat,
    {
        if let Some(b) = by {
            let _ = self.expr(b, want);
        }
    }

    fn binary(&mut self, op: BinOp, lhs: &Expr, rhs: &Expr, e: &Expr, expected: &Option<Type>) -> (r: Option<Type>)
        requires
            old(self)@.scopes.frames.len() > 0,
            e.kind matches ExprKind::Binary { op: o, lhs: l, rhs: h } && o == op && *l == *lhs && *h == *rhs,
        ensures
            (final(self)@, type_option(r)) == expr_type(old(self)@, *e, type_option(*expected)),
            level(old(self)@, final(self)@),
        decreases e, 0nat,
    {
        if op == BinOp::And || op == BinOp::Or {
            let want: Option<Type> = Some(Type::scalar(Base::Bool));
            let _ = self.expr(lhs, &want);
            let _ = self.expr(rhs, &want);
            return want;
        }
        // A refinement constrains the *result*, not each operand. `math { 0 - 5 }`
        // assigned to a +int is broken by its answer, not by the `0`, and deciding
        // that is verification's job, not the type checker's.
        let compares: bool = comparison(op);
        let first: Option<Type> = if compares {
            None
        } else {
            unrefined_option(expected)
        };
        let a: Option<Type> = self.expr(lhs, &first);
        // A comparison bound is an ordinary number, not a member of the refined type.
        // Pinning `0` to `+int` in `math { ('n') > 0 }` would reject the very idiom
        // used to keep a +int positive.
        let second: Option<Type> = if compares {
            match &a {
                Some(t) => {
                    let mut u: Type = t.copied();
                    u.sign = None;
                    u.precision = None;
                    Some(u)
                },
                None => None,
            }
        } else if expected.is_some() {
            unrefined_option(expected)
        } else {
            copied_option(&a)
        };
        let b: Option<Type> = self.expr(rhs, &second);
        self.combine(op, lhs, &a, rhs, &b, e.span, expected)
    }

    fn unary(&mut self, op: UnOp, operand: &Expr, span: Span, expected: &Option<Type>) -> (r: Option<Type>)
        requires
            old(self)@.scopes.frames.len() > 0,
        ensures
            (final(self)@, type_option(r)) == unary_type(old(self)@, op, *operand, span, type_option(*expected)),
            level(old(self)@, final(self)@),
        decreases operand, 2nat,
    {
        match op {
            UnOp::Not => {
                let want: Option<Type> = Some(Type::scalar(Base::Bool));
                let _ = self.expr(operand, &want);
                want
            },
            UnOp::Neg => match self.expr(operand, expected) {
                Some(t) => {
                    let mut u: Type = t;
                    u.sign = sign_neg(u.sign);
                    Some(u)
                },
                None => None,
            },
            UnOp::Floor | UnOp::Ceil => {
                // The operand still needs pinning, or a bare number in it is reported
                // as ambiguous.
                let want: Option<Type> = Some(Type::scalar(Base::Deci));
                match self.expr(operand, &want) {
                    Some(t) => Some(
                        Type::scalar(
                            if t.base.is_numeric() {
                                Base::Int
                            } else {
                                t.base
                            },
                        ),
                    ),
                    None => None,
                }
            },
            UnOp::Abs => match self.expr(operand, expected) {
                Some(t) => {
                    let mut u: Type = t;
                    u.sign = None;
                    Some(u)
                },
                None => None,
            },
            _ => {
                let want: Option<Type> = Some(Self::numeric_result(expected));
                let t: Option<Type> = self.expr(operand, &want);
                self.irrational(op, &t, span, expected)
            },
        }
    }

    fn rows(&mut self, items: &Vec<Expr>, expected: &Option<Type>) -> (r: Option<Shape>)
        requires
            old(self)@.scopes.frames.len() > 0,
        ensures
            (final(self)@, dims_of(r)) == rows_checked(old(self)@, *items, type_option(*expected), 0, None),
            level(old(self)@, final(self)@),
        decreases items, items@.len(),
    {
        let elem: Option<Type> = element_option(expected);
        let row: Option<Type> = Self::row_want(expected);
        let mut first: Option<Shape> = None;
        let mut i: usize = 0;
        while i < items.len()
            invariant
                i <= items.len(),
                old(self)@.scopes.frames.len() > 0,
                level(old(self)@, self@),
                type_option(elem) == element_of(type_option(*expected)),
                type_option(row) == row_expectation(type_option(*expected)),
                rows_checked(old(self)@, *items, type_option(*expected), 0, None) == rows_checked(
                    self@,
                    *items,
                    type_option(*expected),
                    i as nat,
                    dims_of(first),
                ),
            decreases items.len() - i,
        {
            let item: &Expr = &items[i];
            let nested: bool = match &item.kind {
                ExprKind::ArrayLit(_) => true,
                _ => false,
            };
            if nested {
                let t: Option<Type> = self.expr(item, &row);
                first = self.check_row(&t, first, item.span);
            } else {
                let _ = self.expr(item, &elem);
            }
            i = i + 1;
        }
        first
    }

    // ── calls ───────────────────────────────────────────────────────────────

    fn arguments(&mut self, f: &Function, args: &Vec<Expr>)
        requires
            old(self)@.scopes.frames.len() > 0,
        ensures
            final(self)@ == arguments_checked(old(self)@, f@, *args, 0),
            level(old(self)@, final(self)@),
        decreases args, args@.len(),
    {
        let mut i: usize = 0;
        while i < args.len()
            invariant
                i <= args.len(),
                old(self)@.scopes.frames.len() > 0,
                level(old(self)@, self@),
                arguments_checked(old(self)@, f@, *args, 0) == arguments_checked(self@, f@, *args, i as nat),
            decreases args.len() - i,
        {
            let arg: &Expr = &args[i];
            let want: Option<Type> = if i < f.params.len() {
                Some(f.params[i].copied())
            } else {
                None
            };
            let got: Option<Type> = self.expr(arg, &want);
            if let (Some(w), Some(g)) = (&want, &got) {
                let name: &str = if i < f.param_names.len() {
                    f.param_names[i].as_str()
                } else {
                    ""
                };
                self.require_fits_named(g, w, arg.span, name);
            }
            i = i + 1;
        }
    }

    fn call(&mut self, name: &str, args: &Vec<Expr>, span: Span) -> (r: Option<Type>)
        requires
            old(self)@.scopes.frames.len() > 0,
        ensures
            (final(self)@, type_option(r)) == call_type(old(self)@, name@, *args, span),
            level(old(self)@, final(self)@),
        decreases args, args@.len() + 1,
    {
        let f: Function = match self.scopes.functions.get(name) {
            Some(f) => copied_function(f),
            None => {
                self.unknown_call(name, span);
                return None;
            },
        };
        if args.len() != f.params.len() {
            let mut what: String = cat9(
                "'",
                name,
                "' takes ",
                usize_text(f.params.len()).as_str(),
                " argument",
                ending(f.params.len()),
                ", but ",
                usize_text(args.len()).as_str(),
                " ",
            );
            what.append(
                if args.len() == 1 {
                    "was"
                } else {
                    "were"
                },
            );
            what.append(" given.");
            self.err(
                Category::Name,
                3,
                span,
                what,
                "arguments are space-separated, in the order the parameters were declared.",
            );
        }
        self.arguments(&f, args);
        Some(f.returns)
    }

    fn builtin(&mut self, name: &str, args: &Vec<Expr>, span: Span, expected: &Option<Type>) -> (r: Option<Type>)
        requires
            old(self)@.scopes.frames.len() > 0,
        ensures
            (final(self)@, type_option(r)) == builtin_type(
                old(self)@,
                name@,
                *args,
                span,
                type_option(*expected),
            ),
            level(old(self)@, final(self)@),
        decreases args, args@.len() + 1,
    {
        if same_text(name, "print") {
            self.each(args, &None);
            Some(Type::scalar(Base::Nothing))
        } else if same_text(name, "read") {
            let want: Option<Type> = Some(Type::scalar(Base::Str));
            self.each(args, &want);
            want
        } else if same_text(name, "parse") {
            if args.len() > 0 {
                let want: Option<Type> = Some(Type::scalar(Base::Str));
                let _ = self.expr(&args[0], &want);
            }
            // Options after the first argument are words, not values.
            if let Some(t) = expected {
                if t.base.is_numeric() {
                    return Some(t.element());
                }
            }
            self.err(
                Category::Type,
                1,
                span,
                "parse produces a number, and nothing here says which kind.".to_owned(),
                "give the surrounding declaration a type, such as :int or :deci.",
            );
            None
        } else if same_text(name, "clock") {
            Some(Type::scalar(Base::Deci))
        } else {
            self.err(
                Category::Name,
                2,
                span,
                cat3("'", name, "' is not a builtin AHPCL knows."),
                "the builtins are print, read, parse and clock. A user function is quoted: 'name'[…].",
            );
            None
        }
    }

    // ── selectors ───────────────────────────────────────────────────────────

    /// Apply a selector chain. Consecutive index selectors address **successive
    /// dimensions**; `:length;` and `:shape;` are questions about the array and restart
    /// the chain on their result.
    fn apply_selectors(&mut self, base: Type, sels: &Vec<Selector>, span: Span) -> (r: Option<Type>)
        requires
            old(self)@.scopes.frames.len() > 0,
        ensures
            (final(self)@, type_option(r)) == chain_selected(old(self)@, base@, *sels, 0, 0, span),
            level(old(self)@, final(self)@),
        decreases sels, sels@.len() + 2,
    {
        let mut ty: Type = base;
        let mut start: usize = 0;
        let mut i: usize = 0;
        while i < sels.len()
            invariant
                start <= i <= sels.len(),
                old(self)@.scopes.frames.len() > 0,
                level(old(self)@, self@),
                chain_selected(old(self)@, base@, *sels, 0, 0, span) == chain_selected(
                    self@,
                    ty@,
                    *sels,
                    start as nat,
                    i as nat,
                    span,
                ),
            decreases sels.len() - i,
        {
            match &sels[i] {
                Selector::Length => {
                    match self.apply_dimension_run(ty, sels, start, i, span) {
                        Some(_) => {},
                        None => {
                            return None;
                        },
                    }
                    ty = Type::scalar(Base::Int);
                    start = i + 1;
                },
                Selector::Shape => {
                    let t: Type = match self.apply_dimension_run(ty, sels, start, i, span) {
                        Some(t) => t,
                        None => {
                            return None;
                        },
                    };
                    let rank: u64 = match &t.shape {
                        Some(s) => s.rank() as u64,
                        None => 0,
                    };
                    ty = Type {
                        base: Base::Int,
                        sign: None,
                        shape: Some(Shape(one_dim(Dim::Known(rank)))),
                        precision: None,
                    };
                    start = i + 1;
                },
                _ => {},
            }
            i = i + 1;
        }
        self.apply_dimension_run(ty, sels, start, sels.len(), span)
    }

    fn apply_dimension_run(&mut self, ty: Type, sels: &Vec<Selector>, start: usize, end: usize, span: Span) -> (r: Option<
        Type,
    >)
        requires
            old(self)@.scopes.frames.len() > 0,
            start <= end <= sels@.len(),
        ensures
            (final(self)@, type_option(r)) == run_selected(
                old(self)@,
                ty@,
                *sels,
                start as nat,
                end as nat,
                span,
            ),
            level(old(self)@, final(self)@),
        decreases sels, sels@.len() + 1,
    {
        if start >= end {
            return Some(ty);
        }
        let shape: Shape = match &ty.shape {
            Some(s) => s.copied(),
            None => {
                self.err(
                    Category::Shape,
                    1,
                    span,
                    cat2(ty.render().as_str(), " is not an array, so it cannot be selected from."),
                    "selectors apply to vectors, matrices and tensors.",
                );
                return None;
            },
        };
        if end - start > shape.rank() {
            let what: String = cat7(
                usize_text(end - start).as_str(),
                " selectors were given, but ",
                ty.render().as_str(),
                " has ",
                usize_text(shape.rank()).as_str(),
                " dimension",
                ending(shape.rank()),
            ).concat(".");
            self.err(Category::Shape, 1, span, what, "one selector addresses one dimension.");
            return None;
        }
        let kept: Vec<Dim> = self.select_dims(&shape, sels, start, end);
        let left: Vec<Dim> = extended(kept, &shape, end - start);
        let dims: Option<Shape> = if left.len() == 0 {
            None
        } else {
            Some(Shape(left))
        };
        Some(Type { base: ty.base, sign: ty.sign, shape: dims, precision: ty.precision })
    }

    fn select_dims(&mut self, shape: &Shape, sels: &Vec<Selector>, start: usize, end: usize) -> (r: Vec<Dim>)
        requires
            old(self)@.scopes.frames.len() > 0,
            start <= end <= sels@.len(),
            end - start <= shape@.len(),
        ensures
            (final(self)@, r@) == dims_selected(
                old(self)@,
                shape@,
                *sels,
                start as nat,
                start as nat,
                end as nat,
                Seq::empty(),
            ),
            level(old(self)@, final(self)@),
        decreases sels, sels@.len(),
    {
        let mut dims: Vec<Dim> = Vec::new();
        let mut k: usize = start;
        assert(dims@ =~= Seq::empty());
        while k < end
            invariant
                start <= k <= end <= sels@.len(),
                end - start <= shape@.len(),
                old(self)@.scopes.frames.len() > 0,
                level(old(self)@, self@),
                dims_selected(
                    old(self)@,
                    shape@,
                    *sels,
                    start as nat,
                    start as nat,
                    end as nat,
                    Seq::empty(),
                ) == dims_selected(self@, shape@, *sels, start as nat, k as nat, end as nat, dims@),
            decreases end - k,
        {
            match self.selector(&sels[k], shape.0[k - start]) {
                Some(d) => {
                    let ghost before = dims@;
                    dims.push(d);
                    assert(dims@ =~= before + seq![d]);
                },
                None => {
                    assert(dims@ + Seq::<Dim>::empty() =~= dims@);
                },
            }
            k = k + 1;
        }
        dims
    }

    fn selector(&mut self, sel: &Selector, dim: Dim) -> (r: Option<Dim>)
        requires
            old(self)@.scopes.frames.len() > 0,
        ensures
            (final(self)@, (match r {
                Some(d) => seq![d],
                None => Seq::empty(),
            })) == selector_checked(old(self)@, *sel, dim),
            level(old(self)@, final(self)@),
        decreases sel, 0nat,
    {
        let want: Option<Type> = Some(Type::scalar(Base::Int));
        match sel {
            Selector::Indices(items) => {
                self.each(items, &want);
                // One index collapses the dimension; several keep it, resized.
                if items.len() > 1 {
                    Some(Dim::Known(items.len() as u64))
                } else {
                    None
                }
            },
            Selector::Range { from, to, by } => {
                let _ = self.expr(from, &want);
                let _ = self.expr(to, &want);
                self.optional(by, &want);
                // The length is knowable whenever the bounds are literals.
                Some(dim_of(range_length(from, to, by)))
            },
            _ => Some(dim),
        }
    }
}

/// Another function signature that is the same.
fn copied_function(f: &Function) -> (r: Function)
    ensures
        r@ == f@,
{
    let mut params: Vec<Type> = Vec::new();
    let mut i: usize = 0;
    while i < f.params.len()
        invariant
            i <= f.params.len(),
            params@.len() == i,
            forall|j: int| 0 <= j < i ==> (#[trigger] params@[j])@ == f.params@[j]@,
        decreases f.params.len() - i,
    {
        params.push(f.params[i].copied());
        i = i + 1;
    }
    let mut names: Vec<String> = Vec::new();
    let mut k: usize = 0;
    while k < f.param_names.len()
        invariant
            k <= f.param_names.len(),
            names@.len() == k,
            forall|j: int| 0 <= j < k ==> (#[trigger] names@[j])@ == f.param_names@[j]@,
        decreases f.param_names.len() - k,
    {
        names.push(f.param_names[k].clone());
        k = k + 1;
    }
    let out: Function = Function {
        params,
        param_names: names,
        returns: f.returns.copied(),
        declared_at: f.declared_at,
    };
    assert(out@ =~= f@);
    out
}

} // verus!
