//! Verification, and precision inference.
//!
//! Two jobs, one machinery: both need to know the range a value can take.
//!
//! **Precision.** The compiler never guesses a width. It infers one by looking at every
//! use of a variable in scope; if the value is not knowable at compile time, that is an
//! error and you must state a width or use `infnum`.
//!
//! **Refinements.** A sign promise like `+int` must hold at every point in a program
//! where everything is mutable. Three layers, in order:
//!
//! ```text
//! 1. All values known?  → evaluate it and look. Exact answer.
//! 2. Not knowable?      → interval analysis. Sound, and needs no theorem prover.
//! 3. Neither proved it? → insert a runtime check.
//! ```

use vstd::prelude::*;
use vstd::string::*;

use crate::ast::{
    BinOp, Binding, ChangeStmt, ChangeTarget, Expr, ExprKind, IfArm, IfChain, LoopKind, LoopStmt, Precision,
    Program, Sign, Stmt, TypeRef, UnOp, VarDecl,
};
use crate::diagnostics::error::{fault, Category, Error};
use crate::diagnostics::informer::Informer;
use crate::diagnostics::position::{BytePos, Span};
use crate::eval::numeric::int_width_range;
use crate::eval::parse::read_int;
use crate::eval::semantics::range_inside;
use crate::sema::analysis::{
    after_arms, after_bindings, after_block, after_loop, after_scope, after_statement, after_targets, at_top,
    binds, broken, calm, counter_of, counter_range, declares, entry_state, expr_range, found_bindings,
    found_in_arms, found_in_block, found_in_statement, found_targets, inside_loop, literal_range, named_by,
    narrowed, narrowest_width, narrowing_from, once_round, opposite, prefix_of, program_verified,
    promised_range, reach_arms, reach_block, reach_statement, reach_targets, remarked, reporting_state,
    settled_state, sign_verified, steady, undeclared, widening_from, width_holds, width_verified,
    without_bindings, Ranges, Verdicts, NARROW_ROUNDS, WIDEN_ROUNDS,
};
use crate::sema::check::errors_of;
use crate::sema::interval::{Interval, State};
use crate::sema::touch::{texts_in, Touch};
use crate::text::{cat3, cat5, cat7, chars_of, i128_text, same_text, u128_text};

verus! {

/// Which layer proved a refinement.
#[derive(Debug, Clone, Copy, PartialEq, Eq, Structural)]
pub enum Proof {
    /// The code was executed at compile time.
    Evaluated,
    /// Interval analysis.
    Analysed,
    /// Nothing proved it, so a check happens while running.
    RuntimeCheck,
}

#[derive(Debug)]
pub struct Verified {
    pub errors: Vec<Error>,
    /// Places where a check was inserted.
    pub runtime_checks: Vec<Span>,
}

/// How much compile-time evaluation is allowed.
#[derive(Debug, Clone, Copy, PartialEq, Eq, Structural)]
pub enum EvalBudget {
    /// Run to completion, however long it takes. The default at a keyboard.
    Unlimited,
    /// Stop after this many steps and fall through to the next layer.
    Limited(u64),
    /// Skip the first layer entirely.
    Off,
}

impl Default for EvalBudget {
    fn default() -> (r: Self)
        ensures
            r == EvalBudget::Unlimited,
    {
        EvalBudget::Unlimited
    }
}

struct Verifier {
    errors: Vec<Error>,
    runtime_checks: Vec<Span>,
    informer: Informer,
    /// How many more values may be evaluated; none where any number may.
    left: Option<u64>,
    /// The names that the functions of the program change.
    functions: Vec<String>,
    /// Reaching a fixed point means walking the body several times. Findings are
    /// suppressed during those rounds and reported once, from the converged state.
    quiet: bool,
}

impl View for Verifier {
    type V = Verdicts;

    closed spec fn view(&self) -> Verdicts {
        Verdicts { errors: errors_of(self.errors@), checks: self.runtime_checks@, informer: self.informer@, left: self.left }
    }
}

/// How many values the first layer may evaluate. One that is known outright takes one step.
pub open spec fn evaluations(budget: EvalBudget) -> Option<u64> {
    match budget {
        EvalBudget::Unlimited => None,
        EvalBudget::Limited(n) => Some(n),
        EvalBudget::Off => Some(0),
    }
}

/// Verify a program. What was proved, and how, is told to the informer.
pub fn verify(program: &Program, informer: &mut Informer, budget: EvalBudget) -> (r: Verified)
    ensures
        errors_of(r.errors@) == program_verified(*program, old(informer)@, evaluations(budget)).errors,
        r.runtime_checks@ == program_verified(*program, old(informer)@, evaluations(budget)).checks,
        final(informer)@ == program_verified(*program, old(informer)@, evaluations(budget)).informer,
{
    let left: Option<u64> = match budget {
        EvalBudget::Unlimited => None,
        EvalBudget::Limited(n) => Some(n),
        EvalBudget::Off => Some(0),
    };
    let touch: Touch = Touch::functions(&program.statements);
    let mut own: Informer = Informer::silent();
    core::mem::swap(&mut own, informer);
    let mut v: Verifier = Verifier {
        errors: Vec::new(),
        runtime_checks: Vec::new(),
        informer: own,
        left,
        functions: touch.names,
        quiet: false,
    };
    proof {
        assert(v@.errors =~= Seq::empty());
        assert(v@.checks =~= Seq::empty());
    }
    let mut state: State = State::new();
    v.block(&program.statements, &mut state);
    *informer = v.informer;
    Verified { errors: v.errors, runtime_checks: v.runtime_checks }
}

fn sign_prefix(s: Sign) -> (r: &'static str)
    ensures
        r@ == prefix_of(s),
{
    match s {
        Sign::Positive => "+",
        Sign::Negative => "-",
    }
}

fn negate(op: BinOp) -> (r: BinOp)
    ensures
        r == opposite(op),
{
    match op {
        BinOp::Greater => BinOp::LessEq,
        BinOp::GreaterEq => BinOp::Less,
        BinOp::Less => BinOp::GreaterEq,
        BinOp::LessEq => BinOp::Greater,
        BinOp::Eq => BinOp::NotEq,
        BinOp::NotEq => BinOp::Eq,
        other => other,
    }
}

fn bare_name(e: &Expr) -> (r: Option<&str>)
    ensures
        match r {
            Some(n) => named_by(*e) == Some(n@),
            None => named_by(*e) is None,
        },
    decreases e,
{
    match &e.kind {
        ExprKind::Ref { name, selectors } => if selectors.len() == 0 {
            Some(name.as_str())
        } else {
            None
        },
        ExprKind::Math(inner) => bare_name(inner),
        _ => None,
    }
}

/// The range a parameter starts with, from its declared refinement.
fn sign_range(ty: &TypeRef) -> (r: Interval)
    ensures
        r == promised_range(ty.sign),
{
    match ty.sign {
        Some(Sign::Positive) => Interval { lo: Some(1), hi: None },
        Some(Sign::Negative) => Interval { lo: None, hi: Some(-1) },
        None => Interval::unknown(),
    }
}

fn text_range(t: &str) -> (r: Interval)
    ensures
        r == literal_range(t@),
{
    let cs: Vec<char> = chars_of(t);
    match read_int(cs.as_slice(), 10) {
        Some(n) => Interval::exact(n),
        None => Interval::unknown(),
    }
}

/// The range an expression can produce.
pub fn range_of(e: &Expr, state: &State) -> (r: Interval)
    ensures
        r == expr_range(*e, state@),
    decreases e,
{
    match &e.kind {
        ExprKind::Math(inner) => range_of(inner, state),
        ExprKind::Number(t) => text_range(t.as_str()),
        ExprKind::Literal(t) => text_range(t.as_str()),
        ExprKind::Ref { name, selectors } => if selectors.len() == 0 {
            state.get(name.as_str())
        } else {
            Interval::unknown()
        },
        ExprKind::Unary { op, operand } => if *op == UnOp::Neg {
            range_of(operand, state).neg()
        } else {
            Interval::unknown()
        },
        ExprKind::Binary { op, lhs, rhs } => {
            let a: Interval = range_of(lhs, state);
            let b: Interval = range_of(rhs, state);
            match op {
                BinOp::Add => a.add(b),
                BinOp::Sub => a.sub(b),
                BinOp::Mul => a.mul(b),
                _ => Interval::unknown(),
            }
        },
        _ => Interval::unknown(),
    }
}

/// The range a counted loop's counter takes.
pub fn counted_range(range: &Expr, state: &State) -> (r: Interval)
    ensures
        r == counter_range(*range, state@),
{
    let inner: &Expr = match &range.kind {
        ExprKind::Math(e) => e,
        _ => range,
    };
    assert(*inner == range_inside(*range));
    match &inner.kind {
        ExprKind::Range { from, to, .. } => {
            let f: Interval = range_of(from, state);
            let t: Interval = range_of(to, state);
            Interval { lo: f.lo, hi: t.hi }.join(Interval { lo: t.lo, hi: f.hi })
        },
        _ => Interval::unknown(),
    }
}

/// Apply a condition to the state, either as taken or as not taken.
pub fn narrow(cond: &Expr, state: &mut State, taken: bool)
    ensures
        final(state)@ == narrowed(old(state)@, *cond, taken),
{
    let inner: &Expr = match &cond.kind {
        ExprKind::Math(e) => e,
        _ => cond,
    };
    assert(*inner == range_inside(*cond));
    if let ExprKind::Binary { op, lhs, rhs } = &inner.kind {
        let named: Option<&str> = bare_name(lhs);
        let only: Option<i128> = range_of(rhs, state).singleton();
        if let (Some(name), Some(bound)) = (named, only) {
            let current: Interval = state.get(name);
            let held: BinOp = if taken {
                *op
            } else {
                negate(*op)
            };
            let range: Interval = match held {
                BinOp::Greater => current.above(bound),
                BinOp::GreaterEq => current.at_least(bound),
                BinOp::Less => current.below(bound),
                BinOp::LessEq => current.at_most(bound),
                BinOp::Eq => current.meet(Interval::exact(bound)),
                _ => current,
            };
            state.set(name, range);
        }
    }
}

fn width_contains(bits: u32, sign: Option<Sign>, lo: i128, hi: i128) -> (r: bool)
    ensures
        r == width_holds(bits, sign, lo, hi),
{
    let (min, max) = int_width_range(bits, sign);
    min <= lo && hi <= max
}

/// The narrowest offered width that holds this range.
pub fn smallest_width(lo: i128, hi: i128, sign: Option<Sign>) -> (r: Option<u32>)
    ensures
        r == narrowest_width(lo, hi, sign),
{
    if width_contains(8, sign, lo, hi) {
        Some(8)
    } else if width_contains(16, sign, lo, hi) {
        Some(16)
    } else if width_contains(32, sign, lo, hi) {
        Some(32)
    } else if width_contains(64, sign, lo, hi) {
        Some(64)
    } else if width_contains(128, sign, lo, hi) {
        Some(128)
    } else {
        None
    }
}

/// What was found, unless findings are suppressed.
spec fn unless_quiet(quiet: bool, before: Verdicts, after: Verdicts) -> Verdicts {
    if quiet {
        before
    } else {
        after
    }
}

impl Verifier {
    fn report(&mut self, e: Error)
        ensures
            final(self)@ == broken(old(self)@, e@),
            final(self).quiet == old(self).quiet,
            final(self).functions == old(self).functions,
    {
        let ghost before = self@;
        self.errors.push(e);
        assert(self@.errors =~= before.errors.push(e@));
    }

    fn say(&mut self, at: BytePos, message: String)
        ensures
            final(self)@ == remarked(old(self)@, at, message@),
            final(self).quiet == old(self).quiet,
            final(self).functions == old(self).functions,
    {
        self.informer.say(at, message);
    }

    /// Verify a sign refinement, trying each layer in turn.
    fn check_sign(&mut self, ty: &TypeRef, name: &str, range: Interval, span: Span)
        ensures
            final(self)@ == unless_quiet(
                old(self).quiet,
                old(self)@,
                sign_verified(old(self)@, *ty, name@, range, span),
            ),
            final(self).quiet == old(self).quiet,
            final(self).functions == old(self).functions,
    {
        if self.quiet {
            return ;
        }
        let sign: Sign = match ty.sign {
            Some(s) => s,
            None => {
                return ;
            },
        };
        let prefix: &str = sign_prefix(sign);
        // First layer: if the value is known outright, just look at it.
        let known: Option<i128> = match self.left {
            Some(0) => None,
            _ => range.singleton(),
        };
        if let Some(v) = known {
            if let Some(n) = self.left {
                self.left = Some(n - 1);
            }
            let ok: bool = match sign {
                Sign::Positive => v > 0,
                Sign::Negative => v < 0,
            };
            if ok {
                self.say(
                    span.start,
                    cat7(
                        "'",
                        name,
                        "' evaluated at compile time to ",
                        i128_text(v).as_str(),
                        "; ",
                        prefix,
                        ty.base.as_str(),
                    ).concat(" verified"),
                );
            } else {
                let what: String = cat7(
                    "'",
                    name,
                    "' evaluates to ",
                    i128_text(v).as_str(),
                    ", which breaks the promise that it is ",
                    prefix,
                    ty.base.as_str(),
                ).concat(".");
                self.report(
                    fault(
                        Category::Sign,
                        3,
                        span,
                        what,
                        cat3("declare it :", ty.base.as_str(), " instead.").as_str(),
                    ),
                );
            }
            return ;
        }
        // Second layer: interval analysis.
        let proved: bool = match sign {
            Sign::Positive => match range.lo {
                Some(l) => l > 0,
                None => false,
            },
            Sign::Negative => match range.hi {
                Some(h) => h < 0,
                None => false,
            },
        };
        if proved {
            self.say(
                span.start,
                cat7(
                    "range analysis proved '",
                    name,
                    "' ∈ ",
                    range.render().as_str(),
                    "; ",
                    prefix,
                    ty.base.as_str(),
                ).concat(" verified"),
            );
            return ;
        }
        // A range that definitely breaks the promise is an error, not a check.
        let definitely_broken: bool = match sign {
            Sign::Positive => match range.hi {
                Some(h) => h <= 0,
                None => false,
            },
            Sign::Negative => match range.lo {
                Some(l) => l >= 0,
                None => false,
            },
        };
        if definitely_broken {
            let what: String = cat7(
                "'",
                name,
                "' is ",
                range.render().as_str(),
                ", which breaks the promise that it is ",
                prefix,
                ty.base.as_str(),
            ).concat(".");
            self.report(
                fault(
                    Category::Sign,
                    3,
                    span,
                    what,
                    cat3("declare it :", ty.base.as_str(), " instead.").as_str(),
                ),
            );
            return ;
        }
        // Third layer: nothing proved it, so check while running.
        self.runtime_checks.push(span);
        self.say(
            span.start,
            cat7(
                prefix,
                ty.base.as_str(),
                " on '",
                name,
                "' unproven (",
                range.render().as_str(),
                "); runtime check inserted",
            ),
        );
    }

    /// Infer a width, or require one.
    ///
    /// The compiler never guesses: it takes the range from every use in scope and picks
    /// a width that fits them all. When the value is not knowable at compile time, that
    /// is an error and a width must be stated, or `infnum` used.
    ///
    /// Width-from-range applies to **integers** only. A decimal's width is an IEEE
    /// *format*, chosen for how many significant digits you want, not derived from the
    /// range of a value, and rationals have no width at all.
    fn check_precision(&mut self, ty: &TypeRef, b: &Binding, range: Interval)
        ensures
            final(self)@ == unless_quiet(old(self).quiet, old(self)@, width_verified(old(self)@, *ty, *b, range)),
            final(self).quiet == old(self).quiet,
            final(self).functions == old(self).functions,
    {
        if self.quiet {
            return ;
        }
        if !same_text(ty.base.as_str(), "int") || b.shape.is_some() {
            return ;
        }
        if let Some(p) = b.precision {
            if let Precision::Bits(bits) = p {
                // A stated width is a promise about range, so check it holds.
                if let (Some(lo), Some(hi)) = (range.lo, range.hi) {
                    if !width_contains(bits, ty.sign, lo, hi) {
                        let (min, max) = int_width_range(bits, ty.sign);
                        let mut what: String = cat7(
                            "'",
                            b.name.as_str(),
                            "' reaches ",
                            range.render().as_str(),
                            ", which does not fit in [",
                            u128_text(bits as u128).as_str(),
                            " bit] — that holds [",
                        );
                        what.append(i128_text(min).as_str());
                        what.append(", ");
                        what.append(i128_text(max).as_str());
                        what.append("].");
                        self.report(
                            fault(Category::Prec, 4, b.name_span, what, "widen the type, or use infnum."),
                        );
                    }
                }
            }
            return ;
        }
        match (range.lo, range.hi) {
            (Some(lo), Some(hi)) => match smallest_width(lo, hi, ty.sign) {
                Some(w) => {
                    self.say(
                        b.name_span.start,
                        cat5(
                            "'",
                            b.name.as_str(),
                            "' inferred as [",
                            u128_text(w as u128).as_str(),
                            " bit] from its range ",
                        ).concat(range.render().as_str()),
                    );
                },
                None => {
                    self.report(
                        fault(
                            Category::Prec,
                            4,
                            b.name_span,
                            cat5(
                                "'",
                                b.name.as_str(),
                                "' reaches ",
                                range.render().as_str(),
                                ", which no fixed width holds.",
                            ),
                            "use infnum, which is unbounded.",
                        ),
                    );
                },
            },
            _ => {
                self.report(
                    fault(
                        Category::Prec,
                        1,
                        b.name_span,
                        cat3(
                            "'",
                            b.name.as_str(),
                            "' has a value that is not knowable at compile time, so no width can be inferred.",
                        ),
                        "state a precision, as in [32 bit], or use infnum which is unbounded.",
                    ),
                );
            },
        }
    }

    /// Forget what evaluating an expression may change.
    fn calm(&self, e: &Expr, state: &mut State)
        ensures
            final(state)@ == calm(texts_in(self.functions@), old(state)@, *e),
    {
        let mut t: Touch = Touch::new();
        t.expr(e);
        t.calm(&self.functions, state);
    }

    /// A declaration: what is known behind it, and what is found in it. `stmts` from the
    /// `at`-th on are the rest of its block.
    fn bindings(&mut self, v: &VarDecl, state: &mut State, stmts: &Vec<Stmt>, at: usize)
        requires
            at <= stmts.len(),
        ensures
            final(state)@ == after_bindings(texts_in(old(self).functions@), old(state)@, *v, v.bindings@.len()),
            final(self)@ == unless_quiet(
                old(self).quiet,
                old(self)@,
                found_bindings(
                    texts_in(old(self).functions@),
                    old(self)@,
                    old(state)@,
                    *v,
                    v.bindings@.len(),
                    *stmts,
                    at as nat,
                ),
            ),
            final(self).quiet == old(self).quiet,
            final(self).functions == old(self).functions,
        decreases stmts, stmts@.len() - at, 2nat,
    {
        let ghost fs = texts_in(self.functions@);
        let before: State = state.copied();
        self.declare(v, state);
        if self.quiet {
            return ;
        }
        let mut current: State = before.copied();
        let mut i: usize = 0;
        while i < v.bindings.len()
            invariant
                i <= v.bindings.len(),
                at <= stmts.len(),
                fs == texts_in(self.functions@),
                current@ == after_bindings(fs, before@, *v, i as nat),
                state@ == after_bindings(fs, before@, *v, v.bindings@.len()),
                !self.quiet,
                !old(self).quiet,
                before@ == old(state)@,
                self@ == found_bindings(fs, old(self)@, before@, *v, i as nat, *stmts, at as nat),
                self.functions == old(self).functions,
            decreases v.bindings.len() - i,
        {
            let b: &Binding = &v.bindings[i];
            if let Some(e) = &b.value {
                self.calm(e, &mut current);
            }
            let range: Interval = match &b.value {
                Some(e) => range_of(e, &current),
                None => Interval::unknown(),
            };
            current.set(b.name.as_str(), range);
            self.check_sign(&v.ty, b.name.as_str(), range, b.name_span);
            let reach: Interval = self.reach_from(b.name.as_str(), state, stmts, at, range);
            self.check_precision(&v.ty, b, reach);
            i = i + 1;
        }
    }

    fn targets(&mut self, c: &ChangeStmt, state: &mut State)
        ensures
            final(state)@ == after_targets(texts_in(old(self).functions@), old(state)@, *c, c.targets@.len()),
            final(self)@ == unless_quiet(
                old(self).quiet,
                old(self)@,
                found_targets(texts_in(old(self).functions@), old(self)@, old(state)@, *c, c.targets@.len()),
            ),
            final(self).quiet == old(self).quiet,
            final(self).functions == old(self).functions,
    {
        let ghost fs = texts_in(self.functions@);
        let mut i: usize = 0;
        while i < c.targets.len()
            invariant
                i <= c.targets.len(),
                fs == texts_in(self.functions@),
                state@ == after_targets(fs, old(state)@, *c, i as nat),
                self@ == unless_quiet(
                    old(self).quiet,
                    old(self)@,
                    found_targets(fs, old(self)@, old(state)@, *c, i as nat),
                ),
                self.quiet == old(self).quiet,
                self.functions == old(self).functions,
            decreases c.targets.len() - i,
        {
            let x: &ChangeTarget = &c.targets[i];
            let mut t: Touch = Touch::new();
            t.selectors(&x.selectors);
            t.expr(&x.value);
            t.calm(&self.functions, state);
            let range: Interval = range_of(&x.value, state);
            let known: Interval = if x.selectors.len() == 0 {
                range
            } else {
                Interval::unknown()
            };
            state.set(x.name.as_str(), known);
            self.check_sign(&c.ty, x.name.as_str(), range, x.name_span);
            i = i + 1;
        }
    }

    /// A range with all that the rest of a block gives a variable, found without reporting.
    fn reach_from(&mut self, name: &str, state: &State, stmts: &Vec<Stmt>, at: usize, acc: Interval) -> (r: Interval)
        requires
            at <= stmts.len(),
        ensures
            r == reach_block(texts_in(old(self).functions@), name@, state@, *stmts, at as nat, acc),
            final(self)@ == old(self)@,
            final(self).quiet == old(self).quiet,
            final(self).functions == old(self).functions,
        decreases stmts, stmts@.len() - at, 1nat,
    {
        let was_quiet: bool = self.quiet;
        self.quiet = true;
        let r: Interval = self.reach(name, state, stmts, at, acc);
        self.quiet = was_quiet;
        r
    }

    fn reach(&mut self, name: &str, state: &State, stmts: &Vec<Stmt>, at: usize, acc: Interval) -> (r: Interval)
        requires
            at <= stmts.len(),
            old(self).quiet,
        ensures
            r == reach_block(texts_in(old(self).functions@), name@, state@, *stmts, at as nat, acc),
            final(self)@ == old(self)@,
            final(self).quiet,
            final(self).functions == old(self).functions,
        decreases stmts, stmts@.len() - at, 0nat,
    {
        let ghost fs = texts_in(self.functions@);
        let mut current: State = state.copied();
        let mut r: Interval = acc;
        let mut i: usize = at;
        while i < stmts.len()
            invariant
                at <= i <= stmts.len(),
                fs == texts_in(self.functions@),
                reach_block(fs, name@, state@, *stmts, at as nat, acc) == reach_block(
                    fs,
                    name@,
                    current@,
                    *stmts,
                    i as nat,
                    r,
                ),
                self@ == old(self)@,
                self.quiet,
                self.functions == old(self).functions,
            decreases stmts.len() - i,
        {
            if declares_name(&stmts[i], name) {
                return r;
            }
            r = self.reach_in(name, &current, &stmts[i], r);
            self.statement(&stmts[i], &mut current);
            i = i + 1;
        }
        r
    }

    /// The same for one statement.
    fn reach_in(&mut self, name: &str, state: &State, stmt: &Stmt, acc: Interval) -> (r: Interval)
        requires
            old(self).quiet,
        ensures
            r == reach_statement(texts_in(old(self).functions@), name@, state@, *stmt, acc),
            final(self)@ == old(self)@,
            final(self).quiet,
            final(self).functions == old(self).functions,
        decreases stmt, 1nat,
    {
        let own: Touch = Touch::own(stmt);
        if own.stirs(&self.functions, name) {
            return Interval::unknown();
        }
        match stmt {
            Stmt::Change(c) => self.reach_changes(name, state, c, acc),
            Stmt::If(chain) => {
                let mut calm: State = state.copied();
                own.calm(&self.functions, &mut calm);
                self.reach_each(name, &calm, chain, acc)
            },
            Stmt::Loop(l) => {
                if let LoopKind::Counted { var, .. } = &l.kind {
                    if same_text(var.as_str(), name) {
                        return acc;
                    }
                }
                let top: State = self.top_of(l, state);
                self.reach(name, &top, &l.body, 0, acc)
            },
            _ => acc,
        }
    }

    /// The same for the arms of a conditional.
    fn reach_each(&mut self, name: &str, state: &State, chain: &IfChain, acc: Interval) -> (r: Interval)
        requires
            old(self).quiet,
        ensures
            r == reach_arms(texts_in(old(self).functions@), name@, state@, *chain, 0, acc),
            final(self)@ == old(self)@,
            final(self).quiet,
            final(self).functions == old(self).functions,
        decreases chain, chain.arms@.len(), 0nat,
    {
        let ghost fs = texts_in(self.functions@);
        let mut r: Interval = acc;
        let mut i: usize = 0;
        while i < chain.arms.len()
            invariant
                i <= chain.arms.len(),
                fs == texts_in(self.functions@),
                reach_arms(fs, name@, state@, *chain, 0, acc) == reach_arms(fs, name@, state@, *chain, i as nat, r),
                self@ == old(self)@,
                self.quiet,
                self.functions == old(self).functions,
            decreases chain.arms.len() - i,
        {
            let arm: &IfArm = &chain.arms[i];
            let mut branch: State = state.copied();
            if let Some(cond) = &arm.condition {
                narrow(cond, &mut branch, true);
            }
            r = self.reach(name, &branch, &arm.body, 0, r);
            i = i + 1;
        }
        r
    }

    fn reach_changes(&self, name: &str, state: &State, c: &ChangeStmt, acc: Interval) -> (r: Interval)
        ensures
            r == reach_targets(texts_in(self.functions@), name@, state@, *c, c.targets@.len(), acc),
    {
        let ghost fs = texts_in(self.functions@);
        let mut current: State = state.copied();
        let mut r: Interval = acc;
        let mut i: usize = 0;
        while i < c.targets.len()
            invariant
                i <= c.targets.len(),
                fs == texts_in(self.functions@),
                current@ == after_targets(fs, state@, *c, i as nat),
                r == reach_targets(fs, name@, state@, *c, i as nat, acc),
            decreases c.targets.len() - i,
        {
            let x: &ChangeTarget = &c.targets[i];
            let mut t: Touch = Touch::new();
            t.selectors(&x.selectors);
            t.expr(&x.value);
            t.calm(&self.functions, &mut current);
            let range: Interval = range_of(&x.value, &current);
            let known: Interval = if x.selectors.len() == 0 {
                range
            } else {
                Interval::unknown()
            };
            if same_text(x.name.as_str(), name) && x.selectors.len() == 0 {
                r = r.join(range);
            }
            current.set(x.name.as_str(), known);
            i = i + 1;
        }
        r
    }

    fn block(&mut self, stmts: &Vec<Stmt>, state: &mut State)
        ensures
            final(state)@ == after_block(texts_in(old(self).functions@), old(state)@, *stmts, 0),
            final(self)@ == unless_quiet(
                old(self).quiet,
                old(self)@,
                found_in_block(texts_in(old(self).functions@), old(self)@, old(state)@, *stmts, 0),
            ),
            final(self).quiet == old(self).quiet,
            final(self).functions == old(self).functions,
        decreases stmts, stmts@.len() + 1, 0nat,
    {
        let ghost fs = texts_in(self.functions@);
        let mut i: usize = 0;
        while i < stmts.len()
            invariant
                i <= stmts.len(),
                fs == texts_in(self.functions@),
                after_block(fs, old(state)@, *stmts, 0) == after_block(fs, state@, *stmts, i as nat),
                old(self).quiet ==> self@ == old(self)@,
                !old(self).quiet ==> found_in_block(fs, old(self)@, old(state)@, *stmts, 0) == found_in_block(
                    fs,
                    self@,
                    state@,
                    *stmts,
                    i as nat,
                ),
                self.quiet == old(self).quiet,
                self.functions == old(self).functions,
            decreases stmts.len() - i,
        {
            match &stmts[i] {
                Stmt::Var(v) => self.bindings(v, state, stmts, i + 1),
                stmt => self.statement(stmt, state),
            }
            i = i + 1;
        }
    }

    /// A block that is a scope of its own.
    fn scope(&mut self, stmts: &Vec<Stmt>, state: &mut State)
        ensures
            final(state)@ == after_scope(texts_in(old(self).functions@), old(state)@, *stmts),
            final(self)@ == unless_quiet(
                old(self).quiet,
                old(self)@,
                found_in_block(texts_in(old(self).functions@), old(self)@, old(state)@, *stmts, 0),
            ),
            final(self).quiet == old(self).quiet,
            final(self).functions == old(self).functions,
        decreases stmts, stmts@.len() + 2, 0nat,
    {
        self.block(stmts, state);
        let ghost behind = state@;
        let mut i: usize = 0;
        while i < stmts.len()
            invariant
                i <= stmts.len(),
                state@ == undeclared(behind, stmts@, i as nat),
            decreases stmts.len() - i,
        {
            if let Stmt::Var(v) = &stmts[i] {
                let ghost before = state@;
                let mut k: usize = 0;
                while k < v.bindings.len()
                    invariant
                        k <= v.bindings.len(),
                        state@ == without_bindings(before, *v, k as nat),
                    decreases v.bindings.len() - k,
                {
                    state.remove(v.bindings[k].name.as_str());
                    k = k + 1;
                }
            }
            i = i + 1;
        }
    }

    /// A statement. What a declaration is found to be, its block finds: it takes the uses
    /// behind it.
    fn statement(&mut self, stmt: &Stmt, state: &mut State)
        ensures
            final(state)@ == after_statement(texts_in(old(self).functions@), old(state)@, *stmt),
            final(self)@ == unless_quiet(
                old(self).quiet,
                old(self)@,
                found_in_statement(texts_in(old(self).functions@), old(self)@, old(state)@, *stmt),
            ),
            final(self).quiet == old(self).quiet,
            final(self).functions == old(self).functions,
        decreases stmt, 0nat, 0nat,
    {
        match stmt {
            Stmt::Var(v) => self.declare(v, state),
            Stmt::Change(c) => self.targets(c, state),
            Stmt::Func(f) => {
                let mut inner: State = State::new();
                let mut i: usize = 0;
                while i < f.params.len()
                    invariant
                        i <= f.params.len(),
                        inner@ == entry_state(*f, i as nat),
                    decreases f.params.len() - i,
                {
                    inner.set(f.params[i].name.as_str(), sign_range(&f.params[i].ty));
                    i = i + 1;
                }
                self.block(&f.body, &mut inner);
            },
            Stmt::If(chain) => {
                Touch::own(stmt).calm(&self.functions, state);
                if let Some(m) = self.arms(chain, state) {
                    *state = state.join(&m);
                }
            },
            Stmt::Loop(l) => self.loop_stmt(l, state),
            _ => Touch::own(stmt).calm(&self.functions, state),
        }
    }

    /// What is known behind a declaration.
    fn declare(&self, v: &VarDecl, state: &mut State)
        ensures
            final(state)@ == after_bindings(texts_in(self.functions@), old(state)@, *v, v.bindings@.len()),
    {
        let ghost fs = texts_in(self.functions@);
        let mut i: usize = 0;
        while i < v.bindings.len()
            invariant
                i <= v.bindings.len(),
                fs == texts_in(self.functions@),
                state@ == after_bindings(fs, old(state)@, *v, i as nat),
            decreases v.bindings.len() - i,
        {
            let b: &Binding = &v.bindings[i];
            if let Some(e) = &b.value {
                self.calm(e, state);
            }
            let range: Interval = match &b.value {
                Some(e) => range_of(e, state),
                None => Interval::unknown(),
            };
            state.set(b.name.as_str(), range);
            i = i + 1;
        }
    }

    /// Each arm runs from the incoming state, narrowed by its condition; afterwards a
    /// variable can hold whatever any arm allowed.
    fn arms(&mut self, chain: &IfChain, state: &State) -> (r: Option<State>)
        ensures
            match r {
                Some(m) => after_arms(texts_in(old(self).functions@), state@, *chain, 0, None) == Some(m@),
                None => after_arms(texts_in(old(self).functions@), state@, *chain, 0, None) is None,
            },
            final(self)@ == unless_quiet(
                old(self).quiet,
                old(self)@,
                found_in_arms(texts_in(old(self).functions@), old(self)@, state@, *chain, 0),
            ),
            final(self).quiet == old(self).quiet,
            final(self).functions == old(self).functions,
        decreases chain, chain.arms@.len(), 0nat,
    {
        let mut merged: Option<State> = None;
        let ghost mut so_far: Option<Ranges> = None;
        let mut i: usize = 0;
        while i < chain.arms.len()
            invariant
                i <= chain.arms.len(),
                so_far == (match merged {
                    Some(m) => Some(m@),
                    None => None,
                }),
                after_arms(texts_in(old(self).functions@), state@, *chain, 0, None) == after_arms(texts_in(old(self).functions@), state@, *chain, i as nat, so_far),
                old(self).quiet ==> self@ == old(self)@,
                !old(self).quiet ==> found_in_arms(texts_in(old(self).functions@), old(self)@, state@, *chain, 0) == found_in_arms(
                    texts_in(old(self).functions@),
                    self@,
                    state@,
                    *chain,
                    i as nat,
                ),
                self.quiet == old(self).quiet,
                self.functions == old(self).functions,
            decreases chain.arms.len() - i,
        {
            let arm: &IfArm = &chain.arms[i];
            let mut branch: State = state.copied();
            if let Some(cond) = &arm.condition {
                narrow(cond, &mut branch, true);
            }
            self.scope(&arm.body, &mut branch);
            let next: State = match &merged {
                Some(m) => m.join(&branch),
                None => branch,
            };
            proof {
                so_far = Some(next@);
            }
            merged = Some(next);
            i = i + 1;
        }
        merged
    }

    /// What is known at the top of a loop's body, and around it in every iteration.
    fn top_of(&mut self, l: &LoopStmt, state: &State) -> (r: State)
        requires
            old(self).quiet,
        ensures
            r@ == reporting_state(texts_in(old(self).functions@), state@, *l),
            final(self)@ == old(self)@,
            final(self).quiet == old(self).quiet,
            final(self).functions == old(self).functions,
        decreases l, 3nat, 0nat,
    {
        let (inner, counter) = self.inside(l, state);
        self.at_top(l, &inner, counter)
    }

    /// What is known around a loop's body in every iteration, and the range of its counter.
    fn inside(&mut self, l: &LoopStmt, state: &State) -> (r: (State, Interval))
        ensures
            r.0@ == inside_loop(texts_in(old(self).functions@), state@, *l),
            r.1 == counter_of(texts_in(old(self).functions@), state@, *l),
            final(self)@ == old(self)@,
            final(self).quiet == old(self).quiet,
            final(self).functions == old(self).functions,
        decreases l, 2nat, 0nat,
    {
        let mut entry: State = state.copied();
        // A counted loop is bounded by construction, so the counter's range is known
        // outright.
        let counter: Interval = match &l.kind {
            LoopKind::Counted { var, range, .. } => {
                self.calm(range, &mut entry);
                let counter: Interval = counted_range(range, &entry);
                entry.remove(var.as_str());
                counter
            },
            LoopKind::While { condition } => {
                self.calm(condition, &mut entry);
                Interval::unknown()
            },
        };
        let inner: State = self.iterate_to_fixed_point(l, &entry, counter);
        (inner, counter)
    }

    fn at_top(&self, l: &LoopStmt, state: &State, counter: Interval) -> (r: State)
        ensures
            r@ == at_top(texts_in(self.functions@), state@, *l, counter),
    {
        let mut top: State = state.copied();
        match &l.kind {
            LoopKind::Counted { var, .. } => top.set(var.as_str(), counter),
            LoopKind::While { condition } => {
                self.calm(condition, &mut top);
                narrow(condition, &mut top, true);
            },
        }
        top
    }

    fn loop_stmt(&mut self, l: &LoopStmt, state: &mut State)
        ensures
            final(state)@ == after_loop(texts_in(old(self).functions@), old(state)@, *l),
            final(self)@ == unless_quiet(
                old(self).quiet,
                old(self)@,
                found_in_block(
                    texts_in(old(self).functions@),
                    old(self)@,
                    reporting_state(texts_in(old(self).functions@), old(state)@, *l),
                    l.body,
                    0,
                ),
            ),
            final(self).quiet == old(self).quiet,
            final(self).functions == old(self).functions,
        decreases l, 4nat, 0nat,
    {
        let (mut inner, counter) = self.inside(l, state);
        // Report from the converged state, as it is at the top of the body.
        let mut reporting: State = self.at_top(l, &inner, counter);
        self.block(&l.body, &mut reporting);
        match &l.kind {
            LoopKind::Counted { var, range, .. } => {
                self.calm(range, state);
                state.remove(var.as_str());
            },
            LoopKind::While { condition } => {
                self.calm(condition, state);
                // On exit the condition is false.
                self.calm(condition, &mut inner);
                narrow(condition, &mut inner, false);
            },
        }
        *state = state.join(&inner);
    }

    /// One walk over a body: the condition holds at the top of every iteration, so it
    /// narrows the state first. That is what proves a countdown stays positive.
    fn once_through(&mut self, l: &LoopStmt, state: &State, counter: Interval) -> (r: State)
        requires
            old(self).quiet,
        ensures
            r@ == once_round(texts_in(old(self).functions@), state@, *l, counter),
            final(self)@ == old(self)@,
            final(self).quiet == old(self).quiet,
            final(self).functions == old(self).functions,
        decreases l, 0nat, 0nat,
    {
        let mut next: State = self.at_top(l, state, counter);
        self.scope(&l.body, &mut next);
        if let LoopKind::Counted { var, .. } = &l.kind {
            next.remove(var.as_str());
        }
        next
    }

    /// Run the body until the state stops changing.
    ///
    /// Two phases, which is what standard abstract interpretation needs:
    ///
    /// * **Widening** guarantees termination. A range that keeps moving outward jumps
    ///   straight to unbounded rather than creeping one step per round forever.
    /// * **Narrowing** then recovers precision. Widening over-approximates (a countdown
    ///   from 100 widens to `[-∞, 100]`) and re-running the body without widening pulls
    ///   it back to the true `[1, 100]`.
    ///
    /// What comes out is held against the body once more: only a state that the body keeps
    /// is believed.
    fn iterate_to_fixed_point(&mut self, l: &LoopStmt, entry: &State, counter: Interval) -> (r: State)
        ensures
            r@ == settled_state(texts_in(old(self).functions@), entry@, *l, counter),
            final(self)@ == old(self)@,
            final(self).quiet == old(self).quiet,
            final(self).functions == old(self).functions,
        decreases l, 1nat, 0nat,
    {
        let was_quiet: bool = self.quiet;
        self.quiet = true;
        let ghost fs = texts_in(self.functions@);
        let mut current: State = entry.copied();
        let mut round: usize = 0;
        let mut done: bool = false;
        while round < WIDEN_ROUNDS && !done
            invariant
                round <= WIDEN_ROUNDS,
                self.quiet,
                self@ == old(self)@,
                self.functions == old(self).functions,
                fs == texts_in(self.functions@),
                widening_from(fs, entry@, *l, counter, 0) == if done {
                    current@
                } else {
                    widening_from(fs, current@, *l, counter, round as nat)
                },
            decreases WIDEN_ROUNDS - round,
        {
            let walked: State = self.once_through(l, &current, counter);
            let joined: State = current.join(&walked);
            let next: State = if round >= 1 {
                current.widen(&joined)
            } else {
                joined
            };
            done = next.same(&current);
            current = next;
            round = round + 1;
        }
        let wide: State = current.copied();
        assert(wide@ == widening_from(fs, entry@, *l, counter, 0));
        round = 0;
        done = false;
        while round < NARROW_ROUNDS && !done
            invariant
                round <= NARROW_ROUNDS,
                self.quiet,
                self@ == old(self)@,
                self.functions == old(self).functions,
                fs == texts_in(self.functions@),
                narrowing_from(fs, entry@, wide@, *l, counter, 0) == if done {
                    current@
                } else {
                    narrowing_from(fs, entry@, current@, *l, counter, round as nat)
                },
            decreases NARROW_ROUNDS - round,
        {
            let walked: State = self.once_through(l, &current, counter);
            let next: State = entry.join(&walked);
            done = next.same(&current);
            current = next;
            round = round + 1;
        }
        let r: State = if self.keeps(l, entry, &current, counter) {
            current
        } else if self.keeps(l, entry, &wide, counter) {
            wide
        } else {
            State::new()
        };
        self.quiet = was_quiet;
        r
    }

    /// Whether a state allows what comes into a loop and what one more time round leaves.
    fn keeps(&mut self, l: &LoopStmt, entry: &State, state: &State, counter: Interval) -> (r: bool)
        requires
            old(self).quiet,
        ensures
            r == steady(texts_in(old(self).functions@), entry@, state@, *l, counter),
            final(self)@ == old(self)@,
            final(self).quiet == old(self).quiet,
            final(self).functions == old(self).functions,
        decreases l, 0nat, 1nat,
    {
        let walked: State = self.once_through(l, state, counter);
        state.allows(entry) && state.allows(&walked)
    }
}

/// Whether a statement declares a name.
fn declares_name(stmt: &Stmt, name: &str) -> (r: bool)
    ensures
        r == declares(*stmt, name@),
{
    if let Stmt::Var(v) = stmt {
        let mut i: usize = 0;
        while i < v.bindings.len()
            invariant
                i <= v.bindings.len(),
                !binds(*v, name@, i as nat),
                *stmt == Stmt::Var(*v),
            decreases v.bindings.len() - i,
        {
            if same_text(v.bindings[i].name.as_str(), name) {
                proof {
                    lemma_binds(*v, name@, (i + 1) as nat, v.bindings@.len());
                }
                return true;
            }
            i = i + 1;
        }
        false
    } else {
        false
    }
}

proof fn lemma_binds(v: VarDecl, name: Seq<char>, n: nat, m: nat)
    requires
        n <= m,
        binds(v, name, n),
    ensures
        binds(v, name, m),
    decreases m,
{
    if n < m {
        lemma_binds(v, name, n, (m - 1) as nat);
    }
}

} // verus!
