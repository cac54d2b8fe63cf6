//! The evaluator.
//!
//! It runs programs, evaluates loops at compile time to check a refinement, and folds
//! constants. Runtime failures stop the program, reported in the Error Handler's style.
//!
//! What only the world outside can answer (a file's text, the time, a function that is
//! irrational as a rule) is asked for: a run that meets a question without an answer
//! stops there, and is started again once the answer is known.

use vstd::prelude::*;
use vstd::string::*;

use crate::ast::{
    BinOp, Binding, ChangeStmt, ChangeTarget, Expr, ExprKind, FuncDecl, IfChain, LoopKind, LoopStmt,
    Precision, Program, Selector, Sign, Stmt, TypeRef, UnOp, VarDecl,
};
use crate::diagnostics::error::{fault, Category, Error};
use crate::diagnostics::position::Span;
use crate::eval::arrays::{array_binary, mismatched_error, shape_text, unfilled_error};
use crate::eval::numeric::{
    as_bool, as_index, as_int, constant_value, digits_of, int_width_range, invalid_index_error, literal_value,
    numeric_hint, numeric_hint_with, numeric_sign, outcome, whole_hint, Numeric, CONSTANT_DIGITS,
};
use crate::eval::ops::{
    arithmetic, compare_values, comparison, result_view, settle, sum_overflow_error, try_reduce_array,
    unary_value, Answer, AnswerView, Request, Stop, StopView,
};
use crate::eval::parse::ParseOptions;
use crate::eval::select::{
    all_positions, assemble, disagreeing_shapes, every_position, flat_index, picks_valid, picks_view,
    range_positions, select_positions,
};
use crate::eval::semantics::{
    admitted, arguments_from, assigned, attempted, bare, beyond, binary_result, bindings_from, block_from,
    bounds_result, broadcast_item, builtin_result, call_result, chain_from, closed_scope, counted_from,
    defined, dimension_result, element_change, elementwise, expr_result, first_beyond, first_text,
    fresh_world, function_named, functions_in, holder, index_list_from, indices_from, int_result_of,
    is_array_operator, looked_up, loop_array, loop_result, opened, operand, option_text, options_in,
    pair_result, pairs_from, parameters_given, parse_result, picks_from, positions_result, printed, queried,
    range_inside, refinement_kept, run_meaning, run_result, scoped, selection, selectors_from,
    statement_result, step_result, targets_from, texts_from, ticked, too_many_selectors, unary_from,
    unary_result, values_from, while_from, whole_picks, whole_single, width_kept, with_element,
    with_parameters, FlowView, OutputView, World,
};
use crate::eval::value::{lemma_array_view, lemma_vals_push, val_of, vals_of, Array, Val, Value};
use crate::table::Table;
use crate::text::{cat2, cat3, cat5, cat7, i128_text, quoted, same_text, u128_text, usize_text};

verus! {

/// How a block finished.
enum Flow {
    Normal,
    /// A `handback` produced a value.
    Handback(Value),
}

spec fn flow_view(f: Flow) -> FlowView {
    match f {
        Flow::Normal => FlowView::Normal,
        Flow::Handback(v) => FlowView::Handback(v@),
    }
}

spec fn flow_result(r: Result<Flow, Stop>) -> Result<FlowView, StopView> {
    match r {
        Ok(f) => Ok(flow_view(f)),
        Err(s) => Err(s@),
    }
}

/// What a computation of something that is its own view came to.
spec fn plain_result<T>(r: Result<T, Stop>) -> Result<T, StopView> {
    match r {
        Ok(v) => Ok(v),
        Err(s) => Err(s@),
    }
}

spec fn vals_result(r: Result<Vec<Value>, Stop>) -> Result<Seq<Val>, StopView> {
    match r {
        Ok(v) => Ok(vals_of(v@)),
        Err(s) => Err(s@),
    }
}

spec fn text_result(r: Result<String, Stop>) -> Result<Seq<char>, StopView> {
    match r {
        Ok(t) => Ok(t@),
        Err(s) => Err(s@),
    }
}

spec fn list_result<T>(r: Result<Vec<T>, Stop>) -> Result<Seq<T>, StopView> {
    match r {
        Ok(v) => Ok(v@),
        Err(s) => Err(s@),
    }
}

spec fn positions_view(r: Result<(Vec<i128>, bool), Stop>) -> Result<(Seq<i128>, bool), StopView> {
    match r {
        Ok((v, b)) => Ok((v@, b)),
        Err(s) => Err(s@),
    }
}

spec fn picks_result(r: Result<(Vec<Vec<i128>>, Vec<bool>), Stop>) -> Result<(Seq<Seq<i128>>, Seq<bool>), StopView> {
    match r {
        Ok((p, b)) => Ok((picks_view(p@), b@)),
        Err(s) => Err(s@),
    }
}

/// What a program printed, and how it ended.
#[derive(Debug)]
pub struct Output {
    pub lines: Vec<String>,
    pub error: Option<Error>,
    /// What the program waits for, where it stopped at a question without an answer.
    pub request: Option<Request>,
}

pub open spec fn texts_of(lines: Seq<String>) -> Seq<Seq<char>> {
    Seq::new(lines.len(), |i: int| lines[i]@)
}

impl View for Output {
    type V = OutputView;

    open spec fn view(&self) -> OutputView {
        OutputView {
            lines: texts_of(self.lines@),
            error: match self.error {
                Some(e) => Some(e@),
                None => None,
            },
            request: match self.request {
                Some(q) => Some(q@),
                None => None,
            },
        }
    }
}

pub open spec fn answers_of(answers: Seq<Answer>) -> Seq<AnswerView> {
    Seq::new(answers.len(), |i: int| answers[i]@)
}

pub struct Interpreter<'a> {
    scopes: Vec<Table<Value>>,
    functions: Vec<&'a FuncDecl>,
    pub lines: Vec<String>,
    /// A guard against a runaway loop taking the whole machine with it.
    steps: u64,
    step_limit: Option<u64>,
    /// How many more calls may be open at once.
    room: u64,
    answers: &'a Vec<Answer>,
    asked: usize,
}

spec fn frame_view(t: Table<Value>) -> Map<Seq<char>, Val> {
    t.map().map_values(|v: Value| val_of(v))
}

proof fn lemma_frame_insert(m: Map<Seq<char>, Value>, name: Seq<char>, v: Value)
    ensures
        m.insert(name, v).map_values(|v: Value| val_of(v)) == m.map_values(|v: Value| val_of(v)).insert(
            name,
            val_of(v),
        ),
{
    assert(m.insert(name, v).map_values(|v: Value| val_of(v)) =~= m.map_values(|v: Value| val_of(v)).insert(
        name,
        val_of(v),
    ));
}

impl<'a> View for Interpreter<'a> {
    type V = World;

    closed spec fn view(&self) -> World {
        World {
            frames: Seq::new(self.scopes@.len(), |i: int| frame_view(self.scopes@[i])),
            functions: Seq::new(self.functions@.len(), |i: int| *self.functions@[i]),
            lines: texts_of(self.lines@),
            steps: self.steps as nat,
            limit: self.step_limit,
            answers: answers_of(self.answers@),
            asked: self.asked as nat,
        }
    }
}

/// What every step of a run leaves alone, or only lets grow.
spec fn kept(a: Interpreter, b: Interpreter) -> bool {
    &&& b.scopes@.len() == a.scopes@.len()
    &&& b.room == a.room
    &&& b.steps >= a.steps
}

fn stop_fail(category: Category, number: u16, span: Span, what: String, fix: &str) -> (r: Stop)
    ensures
        r@ == StopView::Fail(crate::diagnostics::error::fault_view(category, number, span, what@, fix@)),
{
    Stop::Fail(fault(category, number, span, what, fix))
}

impl<'a> Interpreter<'a> {
    /// How many more calls may be open at once.
    pub closed spec fn room_left(&self) -> nat {
        self.room as nat
    }

    pub closed spec fn inv(&self) -> bool {
        self.scopes@.len() > 0
    }

    pub fn new(answers: &'a Vec<Answer>) -> (r: Self)
        ensures
            r@ == fresh_world(Seq::empty(), answers_of(answers@)),
            r.inv(),
            r.room_left() == u64::MAX,
    {
        let mut scopes: Vec<Table<Value>> = Vec::new();
        scopes.push(Table::new());
        let r: Interpreter<'a> = Interpreter {
            scopes,
            functions: Vec::new(),
            lines: Vec::new(),
            steps: 0,
            step_limit: None,
            room: u64::MAX,
            answers,
            asked: 0,
        };
        proof {
            assert(frame_view(r.scopes@[0]) =~= Map::empty());
            assert(r@.frames =~= seq![Map::empty()]);
            assert(r@.functions =~= Seq::empty());
            assert(r@.lines =~= Seq::empty());
        }
        r
    }

    /// Cap the work done, for compile-time evaluation where a non-terminating loop
    /// would otherwise hang the compiler.
    pub fn with_step_limit(self, limit: u64) -> (r: Self)
        ensures
            r@ == (World { limit: Some(limit), ..self@ }),
            r.inv() == self.inv(),
            r.room_left() == self.room_left(),
    {
        let mut r: Interpreter<'a> = self;
        r.step_limit = Some(limit);
        assert(r@.frames =~= self@.frames);
        assert(r@.functions =~= self@.functions);
        r
    }

    pub fn collect_functions(&mut self, program: &'a Program)
        ensures
            final(self)@ == (World {
                functions: old(self)@.functions + functions_in(
                    program.statements@,
                    program.statements@.len(),
                ),
                ..old(self)@
            }),
            final(self).inv() == old(self).inv(),
            final(self).room_left() == old(self).room_left(),
    {
        let ghost before = self@;
        let ghost stmts = program.statements@;
        let ghost prior = self.functions@;
        let ghost start = *self;
        let mut i: usize = 0;
        assert(before.functions + Seq::<FuncDecl>::empty() =~= before.functions);
        while i < program.statements.len()
            invariant
                i <= program.statements.len(),
                stmts == program.statements@,
                self.scopes == start.scopes,
                self.lines == start.lines,
                self.steps == start.steps,
                self.step_limit == start.step_limit,
                self.answers == start.answers,
                self.asked == start.asked,
                self.room == start.room,
                before == start@,
                self@.functions == before.functions + functions_in(stmts, i as nat),
            decreases program.statements.len() - i,
        {
            let ghost so_far = self@.functions;
            if let Stmt::Func(f) = &program.statements[i] {
                self.functions.push(f);
                proof {
                    assert(functions_in(stmts, i as nat + 1) == functions_in(stmts, i as nat).push(*f));
                    assert(self@.functions =~= so_far.push(*f));
                    assert(self@.functions =~= before.functions + functions_in(stmts, i as nat + 1));
                }
            }
            i = i + 1;
        }
        assert(self@.frames =~= before.frames);
    }

    // ── the state ───────────────────────────────────────────────────────────

    fn lookup(&self, name: &str) -> (r: Option<&Value>)
        ensures
            match r {
                Some(v) => looked_up(self@, name@) == Some(v@),
                None => looked_up(self@, name@) is None,
            },
    {
        match self.find_scope(name) {
            Some(i) => self.scopes[i].get(name),
            None => None,
        }
    }

    fn find_scope(&self, name: &str) -> (r: Option<usize>)
        ensures
            match r {
                Some(i) => i < self.scopes@.len() && holder(self@.frames, name@, self@.frames.len()) == Some(i as int)
                    && self.scopes@[i as int].map().dom().contains(name@),
                None => holder(self@.frames, name@, self@.frames.len()) is None,
            },
    {
        let mut i: usize = self.scopes.len();
        while i > 0
            invariant
                i <= self.scopes.len(),
                holder(self@.frames, name@, self@.frames.len()) == holder(self@.frames, name@, i as nat),
            decreases i,
        {
            i = i - 1;
            if self.scopes[i].get(name).is_some() {
                return Some(i);
            }
        }
        None
    }

    fn set_in(&mut self, i: usize, name: &str, value: Value)
        requires
            i < old(self).scopes@.len(),
        ensures
            kept(*old(self), *final(self)),
            final(self)@ == (World {
                frames: old(self)@.frames.update(i as int, old(self)@.frames[i as int].insert(name@, value@)),
                ..old(self)@
            }),
    {
        let ghost before = *self;
        proof {
            lemma_frame_insert(self.scopes@[i as int].map(), name@, value);
        }
        self.scopes[i].insert(name, value);
        proof {
            assert(self@.frames =~= before@.frames.update(
                i as int,
                before@.frames[i as int].insert(name@, value@),
            ));
            assert(self@.functions =~= before@.functions);
        }
    }

    fn define(&mut self, name: &str, value: Value)
        requires
            old(self).inv(),
        ensures
            kept(*old(self), *final(self)),
            final(self)@ == defined(old(self)@, name@, value@),
    {
        let top: usize = self.scopes.len() - 1;
        self.set_in(top, name, value);
    }

    fn assign(&mut self, name: &str, value: Value)
        requires
            old(self).inv(),
        ensures
            kept(*old(self), *final(self)),
            final(self)@ == assigned(old(self)@, name@, value@),
    {
        match self.find_scope(name) {
            Some(i) => self.set_in(i, name, value),
            None => self.define(name, value),
        }
    }

    fn open_scope(&mut self)
        ensures
            final(self)@ == opened(old(self)@),
            final(self).scopes@.len() == old(self).scopes@.len() + 1,
            final(self).room == old(self).room,
            final(self).steps == old(self).steps,
    {
        let ghost before = *self;
        self.scopes.push(Table::new());
        proof {
            assert(frame_view(self.scopes@[before.scopes@.len() as int]) =~= Map::empty());
            assert(self@.frames =~= before@.frames.push(Map::empty()));
            assert(self@.functions =~= before@.functions);
        }
    }

    fn close_scope(&mut self)
        requires
            old(self).scopes@.len() > 0,
        ensures
            final(self)@ == closed_scope(old(self)@),
            final(self).scopes@.len() == old(self).scopes@.len() - 1,
            final(self).room == old(self).room,
            final(self).steps == old(self).steps,
    {
        let ghost before = *self;
        let _ = self.scopes.pop();
        proof {
            assert(self@.frames =~= before@.frames.drop_last());
            assert(self@.functions =~= before@.functions);
        }
    }

    fn print_line(&mut self, line: String)
        ensures
            kept(*old(self), *final(self)),
            final(self)@ == printed(old(self)@, line@),
    {
        let ghost before = *self;
        self.lines.push(line);
        proof {
            assert(self@.lines =~= before@.lines.push(line@));
            assert(self@.frames =~= before@.frames);
            assert(self@.functions =~= before@.functions);
        }
    }

    fn find_function(&self, name: &str) -> (r: Option<&'a FuncDecl>)
        ensures
            match r {
                Some(f) => function_named(self@.functions, name@, self@.functions.len()) matches Some(k) && 0 <= k
                    < self@.functions.len() && self@.functions[k] == *f,
                None => function_named(self@.functions, name@, self@.functions.len()) is None,
            },
    {
        let mut i: usize = self.functions.len();
        while i > 0
            invariant
                i <= self.functions.len(),
                function_named(self@.functions, name@, self@.functions.len()) == function_named(
                    self@.functions,
                    name@,
                    i as nat,
                ),
            decreases i,
        {
            i = i - 1;
            let f: &'a FuncDecl = self.functions[i];
            if same_text(f.name.as_str(), name) {
                return Some(f);
            }
        }
        None
    }

    /// Carry out an operation, with the next answer where it asks for one.
    fn attempt(&mut self, r: Result<Value, Stop>, span: Span) -> (out: Result<Value, Stop>)
        ensures
            kept(*old(self), *final(self)),
            (final(self)@, result_view(out)) == attempted(old(self)@, result_view(r), span),
    {
        match r {
            Err(Stop::Ask(req)) => {
                if self.asked < self.answers.len() {
                    let ghost before = *self;
                    let at: usize = self.asked;
                    self.asked = at + 1;
                    proof {
                        assert(self@.frames =~= before@.frames);
                        assert(self@.functions =~= before@.functions);
                    }
                    settle(req, &self.answers[at], span)
                } else {
                    Err(Stop::Ask(req))
                }
            },
            other => other,
        }
    }

    fn tick(&mut self, span: Span) -> (r: Result<(), Stop>)
        ensures
            kept(*old(self), *final(self)),
            (final(self)@, plain_result(r)) == ticked(old(self)@, span),
            r is Ok ==> final(self).steps > old(self).steps,
    {
        let ghost before = *self;
        let passed: bool = if self.steps == u64::MAX {
            true
        } else {
            self.steps = self.steps + 1;
            proof {
                assert(self@.frames =~= before@.frames);
                assert(self@.functions =~= before@.functions);
            }
            match self.step_limit {
                Some(limit) => self.steps > limit,
                None => false,
            }
        };
        if passed {
            Err(
                stop_fail(
                    Category::Run,
                    1,
                    span,
                    "compile-time evaluation exceeded its step limit.".to_owned(),
                    "this loop may not terminate; run with flag:loop-evaluation = limit.",
                ),
            )
        } else {
            Ok(())
        }
    }

    // ── checks made while running ───────────────────────────────────────────

    /// Verification decides whether a refinement can be *proved*; when it cannot, the
    /// promise still has to hold, so it is checked here.
    fn check_refinement(ty: &TypeRef, name: &str, value: &Value, span: Span) -> (r: Result<(), Error>)
        ensures
            outcome(r) == refinement_kept(*ty, name@, value@, span),
    {
        let sign: Sign = match ty.sign {
            Some(s) => s,
            None => {
                return Ok(());
            },
        };
        let n: i32 = match numeric_sign(value) {
            Some(n) => n,
            None => {
                return Ok(());
            },
        };
        let ok: bool = match sign {
            Sign::Positive => n > 0,
            Sign::Negative => n < 0,
        };
        if ok {
            return Ok(());
        }
        let word: &str = match sign {
            Sign::Positive => "strictly positive",
            Sign::Negative => "strictly negative",
        };
        Err(
            fault(
                Category::Sign,
                4,
                span,
                cat7("'", name, "' is ", value.text().as_str(), ", but its type promises it is ", word, "."),
                cat5("declare it :", ty.base.as_str(), " instead, or keep the value ", word, ".").as_str(),
            ),
        )
    }

    /// A stated width is a promise about range, so it is enforced while running.
    fn check_width(ty: &TypeRef, precision: Option<Precision>, name: &str, value: &Value, span: Span) -> (r: Result<
        (),
        Error,
    >)
        ensures
            outcome(r) == width_kept(*ty, precision, name@, value@, span),
    {
        let bits: u32 = match precision {
            Some(Precision::Bits(b)) => b,
            _ => {
                return Ok(());
            },
        };
        let v: i128 = match value {
            Value::Int(v) => *v,
            _ => {
                return Ok(());
            },
        };
        if !same_text(ty.base.as_str(), "int") {
            return Ok(());
        }
        let (lo, hi) = int_width_range(bits, ty.sign);
        if v < lo || v > hi {
            let mut what: String = cat7(
                "'",
                name,
                "' is ",
                i128_text(v).as_str(),
                ", which does not fit in [",
                usize_text(bits as usize).as_str(),
                " bit] — that holds ",
            );
            what.append(i128_text(lo).as_str());
            what.append(" to ");
            what.append(i128_text(hi).as_str());
            what.append(".");
            return Err(fault(Category::Prec, 4, span, what, "widen the type, or use infnum."));
        }
        Ok(())
    }

    /// A value summed where a single value is wanted, and held to what its type promises.
    fn accept(v: Value, ty: &TypeRef, b: &Binding, span: Span) -> (r: Result<Value, Stop>)
        ensures
            result_view(r) == admitted(v@, *ty, *b, span),
    {
        let single: bool = ty.rank.is_none() && !same_text(ty.base.as_str(), "nna");
        let t: Value = match Self::reduce(v, single, span) {
            Ok(t) => t,
            Err(s) => {
                return Err(s);
            },
        };
        match Self::check_refinement(ty, b.name.as_str(), &t, b.name_span) {
            Ok(_) => {},
            Err(e) => {
                return Err(Stop::Fail(e));
            },
        }
        match Self::check_width(ty, b.precision, b.name.as_str(), &t, b.name_span) {
            Ok(_) => {},
            Err(e) => {
                return Err(Stop::Fail(e));
            },
        }
        Ok(t)
    }

    fn reduce(v: Value, sums: bool, span: Span) -> (r: Result<Value, Stop>)
        ensures
            result_view(r) == operand(v@, sums, span),
    {
        if sums {
            match try_reduce_array(v) {
                Some(t) => Ok(t),
                None => Err(Stop::Fail(sum_overflow_error(span))),
            }
        } else {
            Ok(v)
        }
    }

    // ── operators ───────────────────────────────────────────────────────────

    fn pair(&mut self, op: BinOp, a: &Value, b: &Value, span: Span, hint: Option<Numeric>) -> (r: Result<Value, Stop>)
        ensures
            kept(*old(self), *final(self)),
            (final(self)@, result_view(r)) == pair_result(old(self)@, op, a@, b@, span, hint),
    {
        let out: Result<Value, Stop> = if comparison(op) {
            compare_values(op, a, b, span)
        } else {
            arithmetic(op, a, b, span, hint)
        };
        self.attempt(out, span)
    }

    /// Apply `op` position by position, a single value spread across the array.
    fn pairs(&mut self, op: BinOp, a: &Value, b: &Value, n: usize, span: Span, hint: Option<Numeric>) -> (r: Result<
        Vec<Value>,
        Stop,
    >)
        requires
            a matches Value::Array(x) ==> x.items@.len() == n,
            b matches Value::Array(y) ==> y.items@.len() == n,
        ensures
            kept(*old(self), *final(self)),
            (final(self)@, vals_result(r)) == pairs_from(
                old(self)@,
                op,
                a@,
                b@,
                n as nat,
                Seq::empty(),
                span,
                hint,
            ),
    {
        broadcast use lemma_array_view;

        let mut out: Vec<Value> = Vec::new();
        let ghost goal = pairs_from(self@, op, a@, b@, n as nat, Seq::empty(), span, hint);
        assert(vals_of(out@) =~= Seq::empty());
        let mut i: usize = 0;
        while i < n
            invariant
                i <= n,
                out@.len() == i,
                a matches Value::Array(x) ==> x.items@.len() == n,
                b matches Value::Array(y) ==> y.items@.len() == n,
                kept(*old(self), *self),
                goal == pairs_from(old(self)@, op, a@, b@, n as nat, Seq::empty(), span, hint),
                goal == pairs_from(self@, op, a@, b@, n as nat, vals_of(out@), span, hint),
            decreases n - i,
        {
            let p: &Value = match a {
                Value::Array(x) => &x.items[i],
                other => other,
            };
            let q: &Value = match b {
                Value::Array(y) => &y.items[i],
                other => other,
            };
            assert(p@ == broadcast_item(a@, i as int));
            assert(q@ == broadcast_item(b@, i as int));
            match self.pair(op, p, q, span, hint) {
                Ok(v) => {
                    proof {
                        lemma_vals_push(out@, v);
                    }
                    out.push(v);
                },
                Err(s) => {
                    return Err(s);
                },
            }
            i = i + 1;
        }
        Ok(out)
    }

    fn elementwise(&mut self, op: BinOp, a: &Value, b: &Value, span: Span, hint: Option<Numeric>) -> (r: Result<
        Value,
        Stop,
    >)
        ensures
            kept(*old(self), *final(self)),
            (final(self)@, result_view(r)) == elementwise(old(self)@, op, a@, b@, span, hint),
    {
        broadcast use lemma_array_view;

        let shape: Vec<usize>;
        let n: usize;
        match (a, b) {
            (Value::Array(x), Value::Array(y)) => {
                if x.items.len() != y.items.len() {
                    return Err(Stop::Fail(mismatched_error(&x.shape, &y.shape, span)));
                }
                n = x.items.len();
                shape = crate::eval::arrays::copied_shape(&x.shape);
            },
            (Value::Array(x), _) => {
                n = x.items.len();
                shape = crate::eval::arrays::copied_shape(&x.shape);
            },
            (_, Value::Array(y)) => {
                n = y.items.len();
                shape = crate::eval::arrays::copied_shape(&y.shape);
            },
            _ => {
                return Ok(Value::Nothing);
            },
        }
        match self.pairs(op, a, b, n, span, hint) {
            Ok(items) => Ok(Value::Array(Array { items, shape })),
            Err(s) => Err(s),
        }
    }

    fn binary(&mut self, op: BinOp, a: &Value, b: &Value, span: Span, hint: Option<Numeric>) -> (r: Result<Value, Stop>)
        ensures
            kept(*old(self), *final(self)),
            (final(self)@, result_view(r)) == binary_result(old(self)@, op, a@, b@, span, hint),
    {
        broadcast use lemma_array_view;

        match op {
            BinOp::And | BinOp::Or => {
                let x: bool = match as_bool(a, span) {
                    Ok(x) => x,
                    Err(e) => {
                        return Err(Stop::Fail(e));
                    },
                };
                let y: bool = match as_bool(b, span) {
                    Ok(y) => y,
                    Err(e) => {
                        return Err(Stop::Fail(e));
                    },
                };
                return Ok(
                    Value::Bool(
                        if op == BinOp::And {
                            x && y
                        } else {
                            x || y
                        },
                    ),
                );
            },
            BinOp::Hadamard | BinOp::Cross | BinOp::Tensor | BinOp::Dot => {
                return array_binary(op, a, b, span);
            },
            _ => {},
        }
        let arrays: bool = match (a, b) {
            (Value::Array(_), _) => true,
            (_, Value::Array(_)) => true,
            _ => false,
        };
        if arrays {
            self.elementwise(op, a, b, span, hint)
        } else {
            self.pair(op, a, b, span, hint)
        }
    }

    fn unary(&mut self, op: UnOp, v: &Value, span: Span, hint: Option<Numeric>) -> (r: Result<Value, Stop>)
        ensures
            kept(*old(self), *final(self)),
            (final(self)@, result_view(r)) == unary_result(old(self)@, op, v@, span, hint),
    {
        broadcast use lemma_array_view;

        if op != UnOp::Not {
            if let Value::Array(a) = v {
                return match self.unary_items(op, &a.items, span, hint) {
                    Ok(items) => Ok(
                        Value::Array(Array { items, shape: crate::eval::arrays::copied_shape(&a.shape) }),
                    ),
                    Err(s) => Err(s),
                };
            }
        }
        self.attempt(unary_value(op, v, span, hint), span)
    }

    fn unary_items(&mut self, op: UnOp, items: &Vec<Value>, span: Span, hint: Option<Numeric>) -> (r: Result<
        Vec<Value>,
        Stop,
    >)
        ensures
            kept(*old(self), *final(self)),
            (final(self)@, vals_result(r)) == unary_from(
                old(self)@,
                op,
                vals_of(items@),
                Seq::empty(),
                span,
                hint,
            ),
    {
        let mut out: Vec<Value> = Vec::new();
        let ghost all = vals_of(items@);
        let ghost goal = unary_from(self@, op, all, Seq::empty(), span, hint);
        assert(vals_of(out@) =~= Seq::empty());
        let mut i: usize = 0;
        while i < items.len()
            invariant
                i <= items.len(),
                out@.len() == i,
                all == vals_of(items@),
                kept(*old(self), *self),
                goal == unary_from(old(self)@, op, all, Seq::empty(), span, hint),
                goal == unary_from(self@, op, all, vals_of(out@), span, hint),
            decreases items.len() - i,
        {
            match self.attempt(unary_value(op, &items[i], span, hint), span) {
                Ok(v) => {
                    proof {
                        lemma_vals_push(out@, v);
                    }
                    out.push(v);
                },
                Err(s) => {
                    return Err(s);
                },
            }
            i = i + 1;
        }
        Ok(out)
    }

    /// `:length;` and `:shape;`.
    fn query(value: &Value, sel: &Selector, span: Span) -> (r: Result<Value, Stop>)
        ensures
            result_view(r) == queried(value@, *sel, span),
    {
        broadcast use lemma_array_view;

        match (value, sel) {
            (Value::Array(a), Selector::Length) => Ok(Value::Int(a.items.len() as i128)),
            (Value::Array(a), _) => {
                let mut dims: Vec<Value> = Vec::new();
                let mut i: usize = 0;
                while i < a.shape.len()
                    invariant
                        i <= a.shape.len(),
                        dims@.len() == i,
                        forall|j: int| 0 <= j < i ==> val_of(#[trigger] dims@[j]) == Val::Int(a.shape@[j] as i128),
                    decreases a.shape.len() - i,
                {
                    dims.push(Value::Int(a.shape[i] as i128));
                    i = i + 1;
                }
                assert(vals_of(dims@) =~= Seq::new(a.shape@.len(), |i: int| Val::Int(a.shape@[i] as i128)));
                Ok(Value::Array(Array::vector(dims)))
            },
            (_, Selector::Length) => Ok(Value::Int(1)),
            _ => Err(
                stop_fail(
                    Category::Run,
                    1,
                    span,
                    cat2(value.kind_name(), " is not an array, so it has no shape."),
                    "selectors apply to vectors, matrices and tensors.",
                ),
            ),
        }
    }

    fn first_past(chosen: &Vec<i128>, extent: usize) -> (r: Option<i128>)
        ensures
            r == first_beyond(chosen@, extent, 0),
            r matches Some(p) ==> p >= extent,
            r is None ==> forall|k: int| 0 <= k < chosen@.len() ==> #[trigger] chosen@[k] < extent,
    {
        let mut k: usize = 0;
        while k < chosen.len()
            invariant
                k <= chosen.len(),
                first_beyond(chosen@, extent, 0) == first_beyond(chosen@, extent, k as int),
                forall|j: int| 0 <= j < k ==> #[trigger] chosen@[j] < extent,
            decreases chosen.len() - k,
        {
            if chosen[k] >= extent as i128 {
                return Some(chosen[k]);
            }
            k = k + 1;
        }
        None
    }

    /// Select from an array once the positions are known.
    fn select(arr: &Array, picks: Vec<Vec<i128>>, single: Vec<bool>, span: Span) -> (r: Result<Value, Stop>)
        requires
            picks_valid(arr.shape@, picks_view(picks@)),
            picks@.len() == single@.len(),
        ensures
            result_view(r) == selection(vals_of(arr.items@), arr.shape@, picks_view(picks@), single@, span),
    {
        let ghost given = picks_view(picks@);
        let ghost ones = single@;
        let ghost shape = arr.shape@;
        let mut picks: Vec<Vec<i128>> = picks;
        let mut single: Vec<bool> = single;
        while picks.len() < arr.shape.len()
            invariant
                picks@.len() == single@.len(),
                given.len() == ones.len(),
                given.len() <= picks@.len() <= arr.shape@.len(),
                shape == arr.shape@,
                picks_valid(shape, given),
                forall|d: int| 0 <= d < picks@.len() ==> #[trigger] picks@[d]@ == whole_picks(given, shape)[d],
                forall|d: int| 0 <= d < single@.len() ==> #[trigger] single@[d] == whole_single(ones, shape)[d],
            decreases arr.shape.len() - picks.len(),
        {
            let d: usize = picks.len();
            picks.push(every_position(arr.shape[d]));
            single.push(false);
        }
        proof {
            assert(picks_view(picks@) =~= whole_picks(given, shape));
            assert(single@ =~= whole_single(ones, shape));
            let all = picks_view(picks@);
            assert forall|d: int, k: int| 0 <= d < all.len() && 0 <= k < all[d].len() implies 0 <= #[trigger] all[d][k]
                < shape[d] by {
                if d < given.len() {
                    assert(all[d][k] == given[d][k]);
                } else {
                    assert(all[d] == all_positions(shape[d]));
                }
            }
        }
        match select_positions(arr, &picks, &single) {
            Some(v) => Ok(v),
            None => Err(Stop::Fail(unfilled_error(span))),
        }
    }

    /// The options that the arguments of `parse` set.
    fn options(args: &Vec<Expr>) -> (r: ParseOptions)
        ensures
            r == options_in(args@, args@.len()),
    {
        let mut options: ParseOptions = ParseOptions::new();
        if args.len() == 0 {
            return options;
        }
        let mut i: usize = 1;
        while i < args.len()
            invariant
                1 <= i <= args.len(),
                options == options_in(args@, i as nat),
            decreases args.len() - i,
        {
            if let ExprKind::Option { name, value } = &args[i].kind {
                let literal: Option<&str> = match value {
                    Some(v) => match &v.kind {
                        ExprKind::Str(s) => Some(s.as_str()),
                        ExprKind::Literal(s) => Some(s.as_str()),
                        _ => None,
                    },
                    None => None,
                };
                assert(crate::eval::parse::text_in(literal) == option_text(*value));
                options.set(name.as_str(), literal);
            }
            i = i + 1;
        }
        options
    }

    fn parse(text: &str, args: &Vec<Expr>, span: Span, hint: Option<Numeric>) -> (r: Result<Value, Stop>)
        ensures
            result_view(r) == parse_result(text@, args@, span, hint),
    {
        let options: ParseOptions = Self::options(args);
        match options.read(text, hint) {
            Some(v) => Ok(v),
            None => Err(
                stop_fail(
                    Category::Run,
                    4,
                    span,
                    cat2(quoted(text).as_str(), " is not a number AHPCL can read."),
                    "parse is strict by default; add trim, scientific, hex, unicode-digits, or group:\",\" decimal:\".\" as needed.",
                ),
            ),
        }
    }

    /// The array that a loop makes of what it collected.
    fn loop_value(items: &Vec<Value>, span: Span) -> (r: Result<Value, Stop>)
        ensures
            result_view(r) == loop_array(vals_of(items@), span),
    {
        match disagreeing_shapes(items) {
            Some((first, other)) => Err(
                stop_fail(
                    Category::Run,
                    1,
                    span,
                    cat5(
                        "every iteration must hand back the same shape, but one gave ",
                        shape_text(&first).as_str(),
                        " and another ",
                        shape_text(&other).as_str(),
                        ".",
                    ),
                    "arrays are rectangular; make each iteration produce the same shape.",
                ),
            ),
            None => Ok(assemble(items)),
        }
    }

    /// Change one element of an array.
    fn change_element(&mut self, target: &ChangeTarget, indices: &Vec<i128>, val: Value) -> (r: Result<(), Stop>)
        requires
            old(self).inv(),
        ensures
            kept(*old(self), *final(self)),
            (final(self)@, plain_result(r)) == with_element(old(self)@, *target, indices@, val@),
    {
        broadcast use lemma_array_view;

        let mut arr: Array = match self.lookup(target.name.as_str()) {
            Some(Value::Array(a)) => a.copied(),
            _ => {
                return Err(
                    stop_fail(
                        Category::Run,
                        1,
                        target.name_span,
                        cat3("'", target.name.as_str(), "' is not an array, so it has no elements to change."),
                        "selectors apply to vectors, matrices and tensors.",
                    ),
                );
            },
        };
        match flat_index(&arr, indices) {
            None => Err(
                stop_fail(
                    Category::Run,
                    3,
                    target.name_span,
                    cat5(
                        "index out of range for '",
                        target.name.as_str(),
                        "', which is ",
                        shape_text(&arr.shape).as_str(),
                        ".",
                    ),
                    "indices start at 1.",
                ),
            ),
            Some(o) => {
                let ghost before = vals_of(arr.items@);
                arr.items.set(o, val);
                assert(vals_of(arr.items@) =~= before.update(o as int, val@));
                self.assign(target.name.as_str(), Value::Array(arr));
                Ok(())
            },
        }
    }

    // ── statements ──────────────────────────────────────────────────────────

    fn block(&mut self, stmts: &Vec<Stmt>) -> (r: Result<Flow, Stop>)
        requires
            old(self).inv(),
        ensures
            kept(*old(self), *final(self)),
            (final(self)@, flow_result(r)) == block_from(old(self).room as nat, old(self)@, *stmts, 0),
        decreases old(self).room, stmts, stmts@.len(),
    {
        let mut i: usize = 0;
        while i < stmts.len()
            invariant
                i <= stmts.len(),
                old(self).inv(),
                kept(*old(self), *self),
                block_from(old(self).room as nat, old(self)@, *stmts, 0) == block_from(
                    self.room as nat,
                    self@,
                    *stmts,
                    i as nat,
                ),
            decreases stmts.len() - i,
        {
            match self.statement(&stmts[i]) {
                Ok(Flow::Normal) => {},
                other => {
                    return other;
                },
            }
            i = i + 1;
        }
        Ok(Flow::Normal)
    }

    fn scoped_block(&mut self, stmts: &Vec<Stmt>) -> (r: Result<Flow, Stop>)
        requires
            old(self).inv(),
        ensures
            kept(*old(self), *final(self)),
            (final(self)@, flow_result(r)) == scoped(old(self).room as nat, old(self)@, *stmts),
        decreases old(self).room, stmts, stmts@.len() + 1,
    {
        self.open_scope();
        let out: Result<Flow, Stop> = self.block(stmts);
        self.close_scope();
        out
    }

    fn statement(&mut self, stmt: &Stmt) -> (r: Result<Flow, Stop>)
        requires
            old(self).inv(),
        ensures
            kept(*old(self), *final(self)),
            (final(self)@, flow_result(r)) == statement_result(old(self).room as nat, old(self)@, *stmt),
        decreases old(self).room, stmt, 0nat,
    {
        match stmt {
            Stmt::Var(v) => self.declare(v),
            Stmt::Change(c) => self.change(c),
            Stmt::Func(_) => Ok(Flow::Normal),
            Stmt::If(chain) => self.if_chain(chain),
            Stmt::Loop(l) => match self.loop_stmt(l) {
                Ok(_) => Ok(Flow::Normal),
                Err(s) => Err(s),
            },
            Stmt::Print { args, .. } => match self.texts(args) {
                Ok(line) => {
                    self.print_line(line);
                    Ok(Flow::Normal)
                },
                Err(s) => Err(s),
            },
            Stmt::Handback { value, .. } => match self.expr(value, None) {
                Ok(v) => Ok(Flow::Handback(v)),
                Err(s) => Err(s),
            },
            Stmt::Expr(e) => match self.expr(e, None) {
                Ok(_) => Ok(Flow::Normal),
                Err(s) => Err(s),
            },
        }
    }

    fn declare(&mut self, v: &VarDecl) -> (r: Result<Flow, Stop>)
        requires
            old(self).inv(),
        ensures
            kept(*old(self), *final(self)),
            (final(self)@, flow_result(r)) == bindings_from(old(self).room as nat, old(self)@, *v, 0),
        decreases old(self).room, v, v.bindings@.len(),
    {
        let mut i: usize = 0;
        while i < v.bindings.len()
            invariant
                i <= v.bindings.len(),
                old(self).inv(),
                kept(*old(self), *self),
                bindings_from(old(self).room as nat, old(self)@, *v, 0) == bindings_from(
                    self.room as nat,
                    self@,
                    *v,
                    i as nat,
                ),
            decreases v.bindings.len() - i,
        {
            let b: &Binding = &v.bindings[i];
            match &b.value {
                None => {
                    self.define(b.name.as_str(), Value::Nothing);
                },
                Some(value) => {
                    let hint: Option<Numeric> = numeric_hint_with(&v.ty, b.precision);
                    let x: Value = match self.expr(value, hint) {
                        Ok(x) => x,
                        Err(s) => {
                            return Err(s);
                        },
                    };
                    match Self::accept(x, &v.ty, b, value.span) {
                        Ok(t) => {
                            self.define(b.name.as_str(), t);
                        },
                        Err(s) => {
                            return Err(s);
                        },
                    }
                },
            }
            i = i + 1;
        }
        Ok(Flow::Normal)
    }

    fn change(&mut self, c: &ChangeStmt) -> (r: Result<Flow, Stop>)
        requires
            old(self).inv(),
        ensures
            kept(*old(self), *final(self)),
            (final(self)@, flow_result(r)) == targets_from(old(self).room as nat, old(self)@, *c, 0),
        decreases old(self).room, c, c.targets@.len(),
    {
        let hint: Option<Numeric> = numeric_hint(&c.ty);
        let mut i: usize = 0;
        while i < c.targets.len()
            invariant
                i <= c.targets.len(),
                old(self).inv(),
                kept(*old(self), *self),
                hint == crate::eval::numeric::context_of(c.ty.base@, c.ty.precision),
                targets_from(old(self).room as nat, old(self)@, *c, 0) == targets_from(
                    self.room as nat,
                    self@,
                    *c,
                    i as nat,
                ),
            decreases c.targets.len() - i,
        {
            let t: &ChangeTarget = &c.targets[i];
            let v: Value = match self.expr(&t.value, hint) {
                Ok(v) => v,
                Err(s) => {
                    return Err(s);
                },
            };
            if t.selectors.len() == 0 {
                match Self::check_refinement(&c.ty, t.name.as_str(), &v, t.name_span) {
                    Ok(_) => {},
                    Err(e) => {
                        return Err(Stop::Fail(e));
                    },
                }
                self.assign(t.name.as_str(), v);
            } else {
                match self.assign_element(t, v) {
                    Ok(_) => {},
                    Err(s) => {
                        return Err(s);
                    },
                }
            }
            i = i + 1;
        }
        Ok(Flow::Normal)
    }

    fn assign_element(&mut self, target: &ChangeTarget, val: Value) -> (r: Result<(), Stop>)
        requires
            old(self).inv(),
        ensures
            kept(*old(self), *final(self)),
            (final(self)@, plain_result(r)) == element_change(old(self).room as nat, old(self)@, *target, val@),
        decreases old(self).room, target, 0nat,
    {
        let sels: &Vec<Selector> = &target.selectors;
        let mut indices: Vec<i128> = Vec::new();
        let mut i: usize = 0;
        assert(indices@ =~= Seq::empty());
        while i < sels.len()
            invariant
                i <= sels.len(),
                sels == &target.selectors,
                old(self).inv(),
                kept(*old(self), *self),
                indices_from(old(self).room as nat, old(self)@, *sels, 0, Seq::empty()) == indices_from(
                    self.room as nat,
                    self@,
                    *sels,
                    i as nat,
                    indices@,
                ),
            decreases sels.len() - i,
        {
            if let Selector::Indices(items) = &sels[i] {
                match self.index_list(items, indices) {
                    Ok(more) => {
                        indices = more;
                    },
                    Err(s) => {
                        return Err(s);
                    },
                }
            }
            i = i + 1;
        }
        self.change_element(target, &indices, val)
    }

    fn index_list(&mut self, items: &Vec<Expr>, before: Vec<i128>) -> (r: Result<Vec<i128>, Stop>)
        requires
            old(self).inv(),
        ensures
            kept(*old(self), *final(self)),
            (final(self)@, list_result(r)) == index_list_from(old(self).room as nat, old(self)@, *items, 0, before@),
            before@.len() == 0 ==> (r matches Ok(v) ==> forall|k: int| 0 <= k < v@.len() ==> 1 <= #[trigger] v@[k]),
        decreases old(self).room, items, items@.len(),
    {
        let mut out: Vec<i128> = before;
        let mut i: usize = 0;
        while i < items.len()
            invariant
                i <= items.len(),
                old(self).inv(),
                kept(*old(self), *self),
                before@.len() == 0 ==> forall|k: int| 0 <= k < out@.len() ==> 1 <= #[trigger] out@[k],
                index_list_from(old(self).room as nat, old(self)@, *items, 0, before@) == index_list_from(
                    self.room as nat,
                    self@,
                    *items,
                    i as nat,
                    out@,
                ),
            decreases items.len() - i,
        {
            let item: &Expr = &items[i];
            let v: Value = match self.expr(item, whole_hint()) {
                Ok(v) => v,
                Err(s) => {
                    return Err(s);
                },
            };
            match as_index(&v, item.span) {
                Ok(n) => {
                    out.push(n);
                },
                Err(e) => {
                    return Err(Stop::Fail(e));
                },
            }
            i = i + 1;
        }
        Ok(out)
    }

    fn if_chain(&mut self, chain: &IfChain) -> (r: Result<Flow, Stop>)
        requires
            old(self).inv(),
        ensures
            kept(*old(self), *final(self)),
            (final(self)@, flow_result(r)) == chain_from(old(self).room as nat, old(self)@, *chain, 0),
        decreases old(self).room, chain, chain.arms@.len(),
    {
        let mut i: usize = 0;
        while i < chain.arms.len()
            invariant
                i <= chain.arms.len(),
                old(self).inv(),
                kept(*old(self), *self),
                chain_from(old(self).room as nat, old(self)@, *chain, 0) == chain_from(
                    self.room as nat,
                    self@,
                    *chain,
                    i as nat,
                ),
            decreases chain.arms.len() - i,
        {
            let arm: &crate::ast::IfArm = &chain.arms[i];
            match &arm.condition {
                None => {
                    return self.scoped_block(&arm.body);
                },
                Some(cond) => match self.expr(cond, None) {
                    Err(s) => {
                        return Err(s);
                    },
                    Ok(Value::Bool(true)) => {
                        return self.scoped_block(&arm.body);
                    },
                    Ok(Value::Bool(false)) => {},
                    Ok(other) => {
                        return Err(
                            stop_fail(
                                Category::Run,
                                1,
                                cond.span,
                                cat3("a condition must be a bool, but this is ", other.kind_name(), "."),
                                "compare something, as in math { ('x') > 5 }.",
                            ),
                        );
                    },
                },
            }
            i = i + 1;
        }
        Ok(Flow::Normal)
    }

    // ── loops ───────────────────────────────────────────────────────────────

    /// Runs a loop, collecting each `handback` as one element, which is what makes a
    /// loop an array comprehension.
    fn loop_stmt(&mut self, l: &LoopStmt) -> (r: Result<Vec<Value>, Stop>)
        requires
            old(self).inv(),
        ensures
            kept(*old(self), *final(self)),
            (final(self)@, vals_result(r)) == loop_result(old(self).room as nat, old(self)@, *l),
        decreases old(self).room, l, u64::MAX + 1,
    {
        match &l.kind {
            LoopKind::Counted { var, range, .. } => match self.range_bounds(range) {
                Ok((from, to, by)) => self.counted(&l.body, var.as_str(), l.span, from, to, by),
                Err(s) => Err(s),
            },
            LoopKind::While { condition } => self.while_loop(l, condition),
        }
    }

    fn counted(&mut self, body: &Vec<Stmt>, var: &str, span: Span, from: i128, to: i128, by: i128) -> (r: Result<
        Vec<Value>,
        Stop,
    >)
        requires
            old(self).inv(),
        ensures
            kept(*old(self), *final(self)),
            (final(self)@, vals_result(r)) == counted_from(
                old(self).room as nat,
                old(self)@,
                *body,
                var@,
                span,
                from as int,
                to as int,
                by as int,
                Seq::empty(),
            ),
        decreases old(self).room, body, body@.len() + 1,
    {
        let mut out: Vec<Value> = Vec::new();
        let mut i: i128 = from;
        assert(vals_of(out@) =~= Seq::empty());
        while (by > 0 && i <= to) || (by < 0 && i >= to)
            invariant
                old(self).inv(),
                kept(*old(self), *self),
                counted_from(
                    old(self).room as nat,
                    old(self)@,
                    *body,
                    var@,
                    span,
                    from as int,
                    to as int,
                    by as int,
                    Seq::empty(),
                ) == counted_from(
                    self.room as nat,
                    self@,
                    *body,
                    var@,
                    span,
                    i as int,
                    to as int,
                    by as int,
                    vals_of(out@),
                ),
            decreases crate::eval::select::range_left(i as int, to as int, by as int),
        {
            match self.tick(span) {
                Ok(_) => {},
                Err(s) => {
                    return Err(s);
                },
            }
            self.open_scope();
            self.define(var, Value::Int(i));
            let flow: Result<Flow, Stop> = self.block(body);
            self.close_scope();
            match flow {
                Ok(Flow::Handback(v)) => {
                    proof {
                        lemma_vals_push(out@, v);
                    }
                    out.push(v);
                },
                Ok(Flow::Normal) => {},
                Err(s) => {
                    return Err(s);
                },
            }
            match i.checked_add(by) {
                Some(next) => {
                    i = next;
                },
                None => {
                    proof {
                        assert(counted_from(
                            self.room as nat,
                            self@,
                            *body,
                            var@,
                            span,
                            i + by,
                            to as int,
                            by as int,
                            vals_of(out@),
                        ) == (self@, Ok::<Seq<Val>, StopView>(vals_of(out@))));
                    }
                    return Ok(out);
                },
            }
        }
        Ok(out)
    }

    fn while_loop(&mut self, l: &LoopStmt, condition: &Expr) -> (r: Result<Vec<Value>, Stop>)
        requires
            old(self).inv(),
            l.kind == (LoopKind::While { condition: *condition }),
        ensures
            kept(*old(self), *final(self)),
            (final(self)@, vals_result(r)) == while_from(old(self).room as nat, old(self)@, *l, Seq::empty()),
        decreases old(self).room, l, u64::MAX as nat,
    {
        let mut out: Vec<Value> = Vec::new();
        assert(vals_of(out@) =~= Seq::empty());
        loop
            invariant
                old(self).inv(),
                kept(*old(self), *self),
                l.kind == (LoopKind::While { condition: *condition }),
                while_from(old(self).room as nat, old(self)@, *l, Seq::empty()) == while_from(
                    self.room as nat,
                    self@,
                    *l,
                    vals_of(out@),
                ),
            decreases u64::MAX - self.steps,
        {
            match self.tick(l.span) {
                Ok(_) => {},
                Err(s) => {
                    return Err(s);
                },
            }
            match self.expr(condition, None) {
                Err(s) => {
                    return Err(s);
                },
                Ok(Value::Bool(true)) => {},
                Ok(Value::Bool(false)) => {
                    return Ok(out);
                },
                Ok(other) => {
                    return Err(
                        stop_fail(
                            Category::Run,
                            1,
                            condition.span,
                            cat3("a loop condition must be a bool, but this is ", other.kind_name(), "."),
                            "compare something, as in math { ('n') > 1 }.",
                        ),
                    );
                },
            }
            match self.scoped_block(&l.body) {
                Ok(Flow::Handback(v)) => {
                    proof {
                        lemma_vals_push(out@, v);
                    }
                    out.push(v);
                },
                Ok(Flow::Normal) => {},
                Err(s) => {
                    return Err(s);
                },
            }
        }
    }

    fn range_bounds(&mut self, range: &Expr) -> (r: Result<(i128, i128, i128), Stop>)
        requires
            old(self).inv(),
        ensures
            kept(*old(self), *final(self)),
            (final(self)@, plain_result(r)) == bounds_result(old(self).room as nat, old(self)@, *range),
        decreases old(self).room, range, 0nat,
    {
        let inner: &Expr = match &range.kind {
            ExprKind::Math(e) => e,
            _ => range,
        };
        assert(*inner == range_inside(*range));
        match &inner.kind {
            ExprKind::Range { from, to, by } => {
                let f: Value = match self.expr(from, whole_hint()) {
                    Ok(v) => v,
                    Err(s) => {
                        return Err(s);
                    },
                };
                let t: Value = match self.expr(to, whole_hint()) {
                    Ok(v) => v,
                    Err(s) => {
                        return Err(s);
                    },
                };
                let step: i128 = match self.step(by) {
                    Ok(v) => v,
                    Err(s) => {
                        return Err(s);
                    },
                };
                if step == 0 {
                    return Err(
                        stop_fail(
                            Category::Run,
                            1,
                            range.span,
                            "a loop step of 0 would never finish.".to_owned(),
                            "use a non-zero step.",
                        ),
                    );
                }
                let a: i128 = match as_int(&f, from.span) {
                    Ok(a) => a,
                    Err(e) => {
                        return Err(Stop::Fail(e));
                    },
                };
                let b: i128 = match as_int(&t, to.span) {
                    Ok(b) => b,
                    Err(e) => {
                        return Err(Stop::Fail(e));
                    },
                };
                Ok((a, b, step))
            },
            _ => Err(
                stop_fail(
                    Category::Run,
                    1,
                    range.span,
                    "a counted loop needs a range.".to_owned(),
                    "write loop:var:int 'i' = math { 1 to 10 } { … }.",
                ),
            ),
        }
    }

    fn step(&mut self, by: &Option<Box<Expr>>) -> (r: Result<i128, Stop>)
        requires
            old(self).inv(),
        ensures
            kept(*old(self), *final(self)),
            (final(self)@, plain_result(r)) == step_result(old(self).room as nat, old(self)@, *by),
        decreases old(self).room, by, 0nat,
    {
        match by {
            None => Ok(1),
            Some(b) => {
                let v: Value = match self.expr(b, whole_hint()) {
                    Ok(v) => v,
                    Err(s) => {
                        return Err(s);
                    },
                };
                match as_int(&v, b.span) {
                    Ok(n) => Ok(n),
                    Err(e) => Err(Stop::Fail(e)),
                }
            },
        }
    }

    // ── expressions ─────────────────────────────────────────────────────────

    fn expr(&mut self, e: &Expr, hint: Option<Numeric>) -> (r: Result<Value, Stop>)
        requires
            old(self).inv(),
        ensures
            kept(*old(self), *final(self)),
            (final(self)@, result_view(r)) == expr_result(old(self).room as nat, old(self)@, *e, hint),
        decreases old(self).room, e, 1nat,
    {
        match &e.kind {
            ExprKind::Literal(text) => Ok(literal_value(text.as_str(), hint)),
            ExprKind::Number(text) => Ok(literal_value(text.as_str(), hint)),
            ExprKind::Str(s) => Ok(Value::Str(s.clone())),
            ExprKind::Constant(c) => {
                let want: u32 = digits_of(hint);
                if want > CONSTANT_DIGITS {
                    return Err(
                        stop_fail(
                            Category::Prec,
                            4,
                            e.span,
                            cat3(
                                "AHPCL knows this constant to 36 decimal places; ",
                                usize_text(want as usize).as_str(),
                                " were asked for.",
                            ),
                            "ask for at most 36 digits.",
                        ),
                    );
                }
                Ok(Value::Deci(constant_value(*c, want)))
            },
            ExprKind::Math(inner) => self.expr(inner, hint),
            ExprKind::Ref { name, selectors } => {
                let base: Value = match self.lookup(name.as_str()) {
                    Some(v) => v.copied(),
                    None => {
                        return Err(
                            stop_fail(
                                Category::Run,
                                1,
                                e.span,
                                cat3("there is no variable called '", name.as_str(), "' here."),
                                "check the spelling and that it is declared before this point.",
                            ),
                        );
                    },
                };
                self.apply_selectors(base, selectors, e.span)
            },
            ExprKind::Binary { op, lhs, rhs } => {
                let a: Value = match self.expr(lhs, hint) {
                    Ok(v) => v,
                    Err(s) => {
                        return Err(s);
                    },
                };
                let b: Value = match self.expr(rhs, hint) {
                    Ok(v) => v,
                    Err(s) => {
                        return Err(s);
                    },
                };
                let sums: bool = !array_operator(*op);
                let x: Value = match Self::reduce(a, sums && is_bare_ref(lhs), lhs.span) {
                    Ok(v) => v,
                    Err(s) => {
                        return Err(s);
                    },
                };
                let y: Value = match Self::reduce(b, sums && is_bare_ref(rhs), rhs.span) {
                    Ok(v) => v,
                    Err(s) => {
                        return Err(s);
                    },
                };
                self.binary(*op, &x, &y, e.span, hint)
            },
            ExprKind::Unary { op, operand } => {
                let v: Value = match self.expr(operand, hint) {
                    Ok(v) => v,
                    Err(s) => {
                        return Err(s);
                    },
                };
                let x: Value = match Self::reduce(v, *op != UnOp::Not && is_bare_ref(operand), e.span) {
                    Ok(v) => v,
                    Err(s) => {
                        return Err(s);
                    },
                };
                self.unary(*op, &x, e.span, hint)
            },
            ExprKind::ArrayLit(items) => match self.values(items, hint) {
                Ok(vs) => Ok(assemble(&vs)),
                Err(s) => Err(s),
            },
            ExprKind::If(chain) => match self.if_chain(chain) {
                Ok(Flow::Handback(v)) => Ok(v),
                Ok(Flow::Normal) => Ok(Value::Nothing),
                Err(s) => Err(s),
            },
            ExprKind::Loop(l) => match self.loop_stmt(l) {
                Ok(items) => Self::loop_value(&items, l.span),
                Err(s) => Err(s),
            },
            ExprKind::Option { .. } => Ok(Value::Nothing),
            ExprKind::Range { .. } => Err(
                stop_fail(
                    Category::Run,
                    1,
                    e.span,
                    "a range is only meaningful in a loop or a selector.".to_owned(),
                    "write it as loop:var:int 'i' = math { 1 to 10 } { … }.",
                ),
            ),
            ExprKind::Call { name, args } => self.call(name.as_str(), args, e.span),
            ExprKind::Builtin { name, args } => self.builtin(name.as_str(), args, e.span, hint),
        }
    }

    fn values(&mut self, items: &Vec<Expr>, hint: Option<Numeric>) -> (r: Result<Vec<Value>, Stop>)
        requires
            old(self).inv(),
        ensures
            kept(*old(self), *final(self)),
            (final(self)@, vals_result(r)) == values_from(
                old(self).room as nat,
                old(self)@,
                *items,
                hint,
                0,
                Seq::empty(),
            ),
        decreases old(self).room, items, items@.len(),
    {
        let mut out: Vec<Value> = Vec::new();
        let mut i: usize = 0;
        assert(vals_of(out@) =~= Seq::empty());
        while i < items.len()
            invariant
                i <= items.len(),
                old(self).inv(),
                kept(*old(self), *self),
                values_from(old(self).room as nat, old(self)@, *items, hint, 0, Seq::empty()) == values_from(
                    self.room as nat,
                    self@,
                    *items,
                    hint,
                    i as nat,
                    vals_of(out@),
                ),
            decreases items.len() - i,
        {
            match self.expr(&items[i], hint) {
                Ok(v) => {
                    proof {
                        lemma_vals_push(out@, v);
                    }
                    out.push(v);
                },
                Err(s) => {
                    return Err(s);
                },
            }
            i = i + 1;
        }
        Ok(out)
    }

    fn texts(&mut self, items: &Vec<Expr>) -> (r: Result<String, Stop>)
        requires
            old(self).inv(),
        ensures
            kept(*old(self), *final(self)),
            (final(self)@, text_result(r)) == texts_from(old(self).room as nat, old(self)@, *items, 0, Seq::empty()),
        decreases old(self).room, items, items@.len(),
    {
        let mut out: String = String::new();
        let mut i: usize = 0;
        while i < items.len()
            invariant
                i <= items.len(),
                old(self).inv(),
                kept(*old(self), *self),
                texts_from(old(self).room as nat, old(self)@, *items, 0, Seq::empty()) == texts_from(
                    self.room as nat,
                    self@,
                    *items,
                    i as nat,
                    out@,
                ),
            decreases items.len() - i,
        {
            match self.expr(&items[i], None) {
                Ok(v) => {
                    out.append(v.text().as_str());
                },
                Err(s) => {
                    return Err(s);
                },
            }
            i = i + 1;
        }
        Ok(out)
    }

    // ── calls ───────────────────────────────────────────────────────────────

    fn arguments(&mut self, f: &FuncDecl, args: &Vec<Expr>) -> (r: Result<Vec<Value>, Stop>)
        requires
            old(self).inv(),
        ensures
            kept(*old(self), *final(self)),
            (final(self)@, vals_result(r)) == arguments_from(
                old(self).room as nat,
                old(self)@,
                *f,
                *args,
                0,
                Seq::empty(),
            ),
        decreases old(self).room, args, args@.len(),
    {
        let mut out: Vec<Value> = Vec::new();
        let mut i: usize = 0;
        assert(vals_of(out@) =~= Seq::empty());
        while i < args.len()
            invariant
                i <= args.len(),
                old(self).inv(),
                kept(*old(self), *self),
                arguments_from(old(self).room as nat, old(self)@, *f, *args, 0, Seq::empty()) == arguments_from(
                    self.room as nat,
                    self@,
                    *f,
                    *args,
                    i as nat,
                    vals_of(out@),
                ),
            decreases args.len() - i,
        {
            let hint: Option<Numeric> = if i < f.params.len() {
                numeric_hint(&f.params[i].ty)
            } else {
                None
            };
            match self.expr(&args[i], hint) {
                Ok(v) => {
                    proof {
                        lemma_vals_push(out@, v);
                    }
                    out.push(v);
                },
                Err(s) => {
                    return Err(s);
                },
            }
            i = i + 1;
        }
        Ok(out)
    }

    fn define_parameters(&mut self, f: &FuncDecl, values: &Vec<Value>)
        requires
            old(self).inv(),
        ensures
            kept(*old(self), *final(self)),
            final(self)@ == with_parameters(
                old(self)@,
                *f,
                vals_of(values@),
                parameters_given(*f, vals_of(values@)),
            ),
    {
        let n: usize = if f.params.len() <= values.len() {
            f.params.len()
        } else {
            values.len()
        };
        let mut i: usize = 0;
        while i < n
            invariant
                i <= n,
                n <= f.params.len(),
                n <= values.len(),
                old(self).inv(),
                kept(*old(self), *self),
                self@ == with_parameters(old(self)@, *f, vals_of(values@), i as nat),
            decreases n - i,
        {
            self.define(f.params[i].name.as_str(), values[i].copied());
            i = i + 1;
        }
    }

    fn call(&mut self, name: &str, args: &Vec<Expr>, span: Span) -> (r: Result<Value, Stop>)
        requires
            old(self).inv(),
        ensures
            kept(*old(self), *final(self)),
            (final(self)@, result_view(r)) == call_result(old(self).room as nat, old(self)@, name@, *args, span),
        decreases old(self).room, args, args@.len() + 1,
    {
        let f: &'a FuncDecl = match self.find_function(name) {
            Some(f) => f,
            None => {
                return Err(
                    stop_fail(
                        Category::Run,
                        1,
                        span,
                        cat3("there is no function called '", name, "'."),
                        "check the name, and that the function is declared.",
                    ),
                );
            },
        };
        let values: Vec<Value> = match self.arguments(f, args) {
            Ok(vs) => vs,
            Err(s) => {
                return Err(s);
            },
        };
        if self.room == 0 {
            return Err(
                stop_fail(
                    Category::Run,
                    1,
                    span,
                    cat3("calls of '", name, "' are nested too deeply."),
                    "make sure the function stops calling itself.",
                ),
            );
        }
        self.open_scope();
        self.define_parameters(f, &values);
        self.enter();
        let flow: Result<Flow, Stop> = self.block(&f.body);
        self.leave();
        self.close_scope();
        match flow {
            Ok(Flow::Handback(v)) => Ok(v),
            Ok(Flow::Normal) => Ok(Value::Nothing),
            Err(s) => Err(s),
        }
    }

    fn enter(&mut self)
        requires
            old(self).room > 0,
        ensures
            final(self)@ == old(self)@,
            final(self).room == old(self).room - 1,
            final(self).scopes == old(self).scopes,
            final(self).steps == old(self).steps,
    {
        let ghost before = *self;
        self.room = self.room - 1;
        assert(self@.frames =~= before@.frames);
        assert(self@.functions =~= before@.functions);
    }

    fn leave(&mut self)
        requires
            old(self).room < u64::MAX,
        ensures
            final(self)@ == old(self)@,
            final(self).room == old(self).room + 1,
            final(self).scopes == old(self).scopes,
            final(self).steps == old(self).steps,
    {
        let ghost before = *self;
        self.room = self.room + 1;
        assert(self@.frames =~= before@.frames);
        assert(self@.functions =~= before@.functions);
    }

    fn first_argument(&mut self, args: &Vec<Expr>) -> (r: Result<String, Stop>)
        requires
            old(self).inv(),
        ensures
            kept(*old(self), *final(self)),
            (final(self)@, text_result(r)) == first_text(old(self).room as nat, old(self)@, *args),
        decreases old(self).room, args, args@.len() + 1,
    {
        if args.len() == 0 {
            return Ok(String::new());
        }
        match self.expr(&args[0], None) {
            Ok(v) => Ok(v.text()),
            Err(s) => Err(s),
        }
    }

    fn builtin(&mut self, name: &str, args: &Vec<Expr>, span: Span, hint: Option<Numeric>) -> (r: Result<Value, Stop>)
        requires
            old(self).inv(),
        ensures
            kept(*old(self), *final(self)),
            (final(self)@, result_view(r)) == builtin_result(
                old(self).room as nat,
                old(self)@,
                name@,
                *args,
                span,
                hint,
            ),
        decreases old(self).room, args, args@.len() + 2,
    {
        if same_text(name, "print") {
            match self.texts(args) {
                Ok(line) => {
                    self.print_line(line);
                    Ok(Value::Nothing)
                },
                Err(s) => Err(s),
            }
        } else if same_text(name, "read") {
            match self.first_argument(args) {
                Ok(path) => self.attempt(Err(Stop::Ask(Request::Read { path })), span),
                Err(s) => Err(s),
            }
        } else if same_text(name, "parse") {
            match self.first_argument(args) {
                Ok(text) => Self::parse(text.as_str(), args, span, hint),
                Err(s) => Err(s),
            }
        } else if same_text(name, "clock") {
            self.attempt(Err(Stop::Ask(Request::Clock)), span)
        } else {
            Err(
                stop_fail(
                    Category::Run,
                    1,
                    span,
                    cat3("'", name, "' is not a builtin AHPCL knows."),
                    "the builtins are print, read, parse and clock.",
                ),
            )
        }
    }

    // ── selectors ───────────────────────────────────────────────────────────

    /// Apply a whole selector chain.
    fn apply_selectors(&mut self, base: Value, selectors: &Vec<Selector>, span: Span) -> (r: Result<Value, Stop>)
        requires
            old(self).inv(),
        ensures
            kept(*old(self), *final(self)),
            (final(self)@, result_view(r)) == selectors_from(
                old(self).room as nat,
                old(self)@,
                base@,
                *selectors,
                0,
                0,
                span,
            ),
        decreases old(self).room, selectors, selectors@.len() + 2,
    {
        let mut value: Value = base;
        let mut start: usize = 0;
        let mut i: usize = 0;
        while i < selectors.len()
            invariant
                start <= i <= selectors.len(),
                old(self).inv(),
                kept(*old(self), *self),
                selectors_from(old(self).room as nat, old(self)@, base@, *selectors, 0, 0, span) == selectors_from(
                    self.room as nat,
                    self@,
                    value@,
                    *selectors,
                    start as nat,
                    i as nat,
                    span,
                ),
            decreases selectors.len() - i,
        {
            let asks: bool = match &selectors[i] {
                Selector::Length => true,
                Selector::Shape => true,
                _ => false,
            };
            if asks {
                let x: Value = match self.apply_dimension_run(value, selectors, start, i, span) {
                    Ok(v) => v,
                    Err(s) => {
                        return Err(s);
                    },
                };
                value = match Self::query(&x, &selectors[i], span) {
                    Ok(v) => v,
                    Err(s) => {
                        return Err(s);
                    },
                };
                start = i + 1;
            }
            i = i + 1;
        }
        self.apply_dimension_run(value, selectors, start, selectors.len(), span)
    }

    /// Apply one run of dimension selectors, one per dimension in order.
    fn apply_dimension_run(&mut self, value: Value, sels: &Vec<Selector>, start: usize, end: usize, span: Span) -> (r: Result<
        Value,
        Stop,
    >)
        requires
            old(self).inv(),
            start <= end <= sels@.len(),
        ensures
            kept(*old(self), *final(self)),
            (final(self)@, result_view(r)) == run_result(
                old(self).room as nat,
                old(self)@,
                value@,
                *sels,
                start as nat,
                end as nat,
                span,
            ),
        decreases old(self).room, sels, sels@.len() + 1,
    {
        broadcast use lemma_array_view;

        if start >= end {
            return Ok(value);
        }
        let arr: Array = match value {
            Value::Array(a) => a,
            _ => {
                return Err(
                    stop_fail(
                        Category::Run,
                        1,
                        span,
                        "this is not an array, so it cannot be selected from.".to_owned(),
                        "selectors apply to vectors, matrices and tensors.",
                    ),
                );
            },
        };
        if end - start > arr.shape.len() {
            return Err(
                Stop::Fail(too_many_selectors_error(end - start, arr.shape.len(), span)),
            );
        }
        let (picks, single) = match self.dimension_picks(&arr.shape, sels, start, end, span) {
            Ok(p) => p,
            Err(s) => {
                return Err(s);
            },
        };
        Self::select(&arr, picks, single, span)
    }

    /// The positions that one run of selectors picks, each in its own dimension.
    fn dimension_picks(&mut self, shape: &Vec<usize>, sels: &Vec<Selector>, start: usize, end: usize, span: Span) -> (r: Result<
        (Vec<Vec<i128>>, Vec<bool>),
        Stop,
    >)
        requires
            old(self).inv(),
            start <= end <= sels@.len(),
            end - start <= shape@.len(),
        ensures
            kept(*old(self), *final(self)),
            (final(self)@, picks_result(r)) == picks_from(
                old(self).room as nat,
                old(self)@,
                shape@,
                *sels,
                start as nat,
                start as nat,
                end as nat,
                span,
                Seq::empty(),
                Seq::empty(),
            ),
            r matches Ok((picks, single)) ==> picks_valid(shape@, picks_view(picks@)) && picks@.len()
                == single@.len(),
        decreases old(self).room, sels, sels@.len(),
    {
        let ghost goal = picks_from(
            self.room as nat,
            self@,
            shape@,
            *sels,
            start as nat,
            start as nat,
            end as nat,
            span,
            Seq::empty(),
            Seq::empty(),
        );
        let mut picks: Vec<Vec<i128>> = Vec::new();
        let mut single: Vec<bool> = Vec::new();
        assert(picks_view(picks@) =~= Seq::empty());
        let mut k: usize = start;
        while k < end
            invariant
                start <= k <= end <= sels@.len(),
                end - start <= shape@.len(),
                old(self).inv(),
                kept(*old(self), *self),
                picks@.len() == k - start,
                single@.len() == k - start,
                picks_valid(shape@, picks_view(picks@)),
                goal == picks_from(
                    old(self).room as nat,
                    old(self)@,
                    shape@,
                    *sels,
                    start as nat,
                    start as nat,
                    end as nat,
                    span,
                    Seq::empty(),
                    Seq::empty(),
                ),
                goal == picks_from(
                    self.room as nat,
                    self@,
                    shape@,
                    *sels,
                    start as nat,
                    k as nat,
                    end as nat,
                    span,
                    picks_view(picks@),
                    single@,
                ),
            decreases end - k,
        {
            let dim: usize = k - start;
            let (chosen, one) = match self.dimension(&sels[k], dim, shape[dim], span) {
                Ok(p) => p,
                Err(s) => {
                    return Err(s);
                },
            };
            proof {
                lemma_picks_push(shape@, picks@, chosen);
            }
            picks.push(chosen);
            single.push(one);
            k = k + 1;
        }
        Ok((picks, single))
    }

    /// The positions that a selector picks in a dimension, all of which must lie in it.
    fn dimension(&mut self, sel: &Selector, dim: usize, extent: usize, span: Span) -> (r: Result<(Vec<i128>, bool), Stop>)
        requires
            old(self).inv(),
        ensures
            kept(*old(self), *final(self)),
            (final(self)@, positions_view(r)) == dimension_result(
                old(self).room as nat,
                old(self)@,
                *sel,
                dim as int,
                extent,
                span,
            ),
            r matches Ok((v, _)) ==> forall|k: int| 0 <= k < v@.len() ==> 0 <= #[trigger] v@[k] < extent,
        decreases old(self).room, sel, 1nat,
    {
        let (chosen, one) = match self.positions(sel, extent, span) {
            Ok(p) => p,
            Err(s) => {
                return Err(s);
            },
        };
        match Self::first_past(&chosen, extent) {
            Some(p) => Err(Stop::Fail(beyond_error(p, dim, extent, span))),
            None => Ok((chosen, one)),
        }
    }

    /// An expression that must come to a whole number.
    fn int_of(&mut self, e: &Expr) -> (r: Result<i128, Stop>)
        requires
            old(self).inv(),
        ensures
            kept(*old(self), *final(self)),
            (final(self)@, plain_result(r)) == int_result_of(old(self).room as nat, old(self)@, *e),
        decreases old(self).room, e, 2nat,
    {
        let v: Value = match self.expr(e, whole_hint()) {
            Ok(v) => v,
            Err(s) => {
                return Err(s);
            },
        };
        match as_int(&v, e.span) {
            Ok(n) => Ok(n),
            Err(e) => Err(Stop::Fail(e)),
        }
    }

    /// Zero-based positions a selector picks along one dimension, and whether it was a
    /// single index (which collapses the dimension).
    fn positions(&mut self, sel: &Selector, extent: usize, span: Span) -> (r: Result<(Vec<i128>, bool), Stop>)
        requires
            old(self).inv(),
        ensures
            kept(*old(self), *final(self)),
            (final(self)@, positions_view(r)) == positions_result(
                old(self).room as nat,
                old(self)@,
                *sel,
                extent,
                span,
            ),
            r matches Ok((v, _)) ==> forall|k: int| 0 <= k < v@.len() ==> 0 <= #[trigger] v@[k],
        decreases old(self).room, sel, 0nat,
    {
        match sel {
            Selector::Indices(items) => {
                let ns: Vec<i128> = match self.index_list(items, Vec::new()) {
                    Ok(ns) => ns,
                    Err(s) => {
                        return Err(s);
                    },
                };
                let out: Vec<i128> = zero_based(&ns);
                let one: bool = ns.len() == 1;
                Ok((out, one))
            },
            Selector::Range { from, to, by } => {
                let f: i128 = match self.int_of(from) {
                    Ok(n) => n,
                    Err(s) => {
                        return Err(s);
                    },
                };
                let t: i128 = match self.int_of(to) {
                    Ok(n) => n,
                    Err(s) => {
                        return Err(s);
                    },
                };
                let step: i128 = match self.step(by) {
                    Ok(n) => n,
                    Err(s) => {
                        return Err(s);
                    },
                };
                if step == 0 {
                    return Err(
                        stop_fail(
                            Category::Run,
                            1,
                            span,
                            "a selector step of 0 would never finish.".to_owned(),
                            "use a non-zero step.",
                        ),
                    );
                }
                match range_positions(f, t, step) {
                    Ok(v) => Ok((v, false)),
                    Err(i) => Err(Stop::Fail(invalid_index_error(i, span))),
                }
            },
            _ => Ok((every_position(extent), false)),
        }
    }
}

/// Whether an operator implies `:all;`.
fn array_operator(op: BinOp) -> (r: bool)
    ensures
        r == is_array_operator(op),
{
    match op {
        BinOp::Dot => true,
        BinOp::Cross => true,
        BinOp::Hadamard => true,
        BinOp::Tensor => true,
        _ => false,
    }
}

/// Whether an expression is a bare array reference, one with no selector, which is what
/// is summed.
pub fn is_bare_ref(e: &Expr) -> (r: bool)
    ensures
        r == bare(*e),
    decreases e,
{
    match &e.kind {
        ExprKind::Ref { selectors, .. } => selectors.len() == 0,
        ExprKind::Math(inner) => is_bare_ref(inner),
        _ => false,
    }
}

proof fn lemma_picks_push(shape: Seq<usize>, picks: Seq<Vec<i128>>, chosen: Vec<i128>)
    requires
        picks_valid(shape, picks_view(picks)),
        picks.len() < shape.len(),
        forall|k: int| 0 <= k < chosen@.len() ==> 0 <= #[trigger] chosen@[k] < shape[picks.len() as int],
    ensures
        picks_view(picks.push(chosen)) == picks_view(picks).push(chosen@),
        picks_valid(shape, picks_view(picks.push(chosen))),
{
    let before = picks_view(picks);
    let now = picks_view(picks.push(chosen));
    assert(now =~= before.push(chosen@));
    assert forall|d: int, j: int| 0 <= d < now.len() && 0 <= j < now[d].len() implies 0 <= #[trigger] now[d][j]
        < shape[d] by {
        if d < before.len() {
            assert(now[d][j] == before[d][j]);
        } else {
            assert(now[d][j] == chosen@[j]);
        }
    }
}

/// The zero-based positions of 1-based indices.
fn zero_based(ns: &Vec<i128>) -> (r: Vec<i128>)
    requires
        forall|k: int| 0 <= k < ns@.len() ==> 1 <= #[trigger] ns@[k],
    ensures
        r@ == Seq::new(ns@.len(), |i: int| (ns@[i] - 1) as i128),
        forall|k: int| 0 <= k < r@.len() ==> 0 <= #[trigger] r@[k],
{
    let mut out: Vec<i128> = Vec::new();
    let mut i: usize = 0;
    while i < ns.len()
        invariant
            i <= ns.len(),
            out@.len() == i,
            forall|k: int| 0 <= k < ns@.len() ==> 1 <= #[trigger] ns@[k],
            forall|k: int| 0 <= k < i ==> #[trigger] out@[k] == ns@[k] - 1,
        decreases ns.len() - i,
    {
        out.push(ns[i] - 1);
        i = i + 1;
    }
    assert(out@ =~= Seq::new(ns@.len(), |i: int| (ns@[i] - 1) as i128));
    out
}

fn too_many_selectors_error(given: usize, dims: usize, span: Span) -> (r: Error)
    ensures
        r@ == too_many_selectors(given as int, dims as int, span),
{
    let mut what: String = cat5(
        usize_text(given).as_str(),
        " selectors were given, but this array has ",
        usize_text(dims).as_str(),
        " dimension",
        if dims == 1 {
            ""
        } else {
            "s"
        },
    );
    what.append(".");
    fault(Category::Run, 1, span, what, "one selector addresses one dimension.")
}

fn beyond_error(p: i128, dim: usize, extent: usize, span: Span) -> (r: Error)
    requires
        p >= 0,
    ensures
        r@ == beyond(p, dim as int, extent, span),
{
    fault(
        Category::Run,
        3,
        span,
        cat7(
            "index ",
            u128_text(p as u128 + 1).as_str(),
            " is out of range for dimension ",
            u128_text(dim as u128 + 1).as_str(),
            " of length ",
            usize_text(extent).as_str(),
            ".",
        ),
        "indices start at 1.",
    )
}

/// Run a whole program, as far as it goes without asking.
pub fn run(program: &Program) -> (r: Output)
    ensures
        r@ == run_meaning(*program, Seq::empty()),
{
    let none: Vec<Answer> = Vec::new();
    assert(answers_of(none@) =~= Seq::empty());
    run_with(program, &none)
}

/// Run a whole program, with what the world outside has answered so far.
pub fn run_with(program: &Program, answers: &Vec<Answer>) -> (r: Output)
    ensures
        r@ == run_meaning(*program, answers_of(answers@)),
{
    let mut interp: Interpreter = Interpreter::new(answers);
    interp.collect_functions(program);
    proof {
        let fs = functions_in(program.statements@, program.statements@.len());
        assert(Seq::<FuncDecl>::empty() + fs =~= fs);
    }
    match interp.block(&program.statements) {
        Ok(_) => Output { lines: interp.lines, error: None, request: None },
        Err(Stop::Fail(e)) => Output { lines: interp.lines, error: Some(e), request: None },
        Err(Stop::Ask(q)) => Output { lines: interp.lines, error: None, request: Some(q) },
    }
}

} // verus!
