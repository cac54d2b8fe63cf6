//! Whole programs: checked, analysed, interpreted, lowered and executed.

use ahpcl::ast::{
    BinOp, Binding, ChangeStmt, ChangeTarget, Constant, Dim, Expr, ExprKind, FuncDecl, IfArm, IfChain, LoopKind,
    LoopStmt, Param, Precision, Program, Rank, Selector, Sign, Stmt, TypeRef, UnOp, VarDecl,
};
use ahpcl::codegen::compile::{compile, Compiled, Function};
use ahpcl::codegen::native::mangle;
use ahpcl::codegen::runtime::{declared_runtime, Kind, Rt};
use ahpcl::codegen::work::{CheckedOp, Inst, Relation};
use ahpcl::diagnostics::error::{Category, Code, Error};
use ahpcl::diagnostics::informer::Informer;
use ahpcl::diagnostics::position::{SourceFile, Span};
use ahpcl::driver::report::{Lexed, Parsed, Report};
use ahpcl::eval::decimal::Decimal;
use ahpcl::eval::eval::{run, run_with};
use ahpcl::eval::ops::{Answer, Request};
use ahpcl::eval::value::Value;
use ahpcl::runtime::access::{
    ahpcl_array_get_bool, ahpcl_array_get_deci, ahpcl_array_get_int, ahpcl_array_get_rat, ahpcl_array_get_str,
    ahpcl_array_push_array, ahpcl_deci_unary, ahpcl_num_cmp, ahpcl_rat_add, ahpcl_rat_div, ahpcl_rat_mul, ahpcl_rat_sub,
    ahpcl_rat_unary,
};
use ahpcl::runtime::array::{
    ahpcl_array_empty, ahpcl_array_get_num, ahpcl_array_len, ahpcl_array_new, ahpcl_array_offset,
    ahpcl_array_select_run, ahpcl_array_set_num, ahpcl_array_shape, copied_array, format_array, push, Array,
    Cell, Pick,
};
use ahpcl::runtime::exact::{
    ahpcl_constant, ahpcl_deci_add, ahpcl_deci_cmp, ahpcl_deci_div, ahpcl_deci_int_div, ahpcl_deci_mul,
    ahpcl_deci_sub, ahpcl_int_div, ahpcl_int_mod, ahpcl_rat_cmp, ahpcl_str_cmp, deci_apply, format_decimal,
    format_rational, rat_apply, AhpclDecimal, AhpclRational, Failure, Halt,
};
use ahpcl::runtime::num::{
    ahpcl_array_compare, ahpcl_array_cross, ahpcl_array_dot, ahpcl_array_elementwise, ahpcl_array_hadamard,
    ahpcl_array_sum, ahpcl_array_tensor, ahpcl_array_unary, ahpcl_num_to_int, arith, to_deci, to_rat, unary,
};
use ahpcl::runtime::parse::{ahpcl_parse_deci, ahpcl_parse_int, ahpcl_parse_rat};
use ahpcl::sema::check::check;
use ahpcl::sema::verify::{verify, EvalBudget};

// ── reading source text ─────────────────────────────────────────────────────

struct Reader<'a> {
    text: &'a str,
    at: usize,
}

impl<'a> Reader<'a> {
    fn rest(&self) -> &'a str {
        &self.text[self.at..]
    }

    fn space(&mut self) {
        while self.rest().starts_with(|c: char| c.is_whitespace()) {
            self.at += self.rest().chars().next().unwrap().len_utf8();
        }
    }

    fn sees(&mut self, t: &str) -> bool {
        self.space();
        self.rest().starts_with(t)
    }

    fn eat(&mut self, t: &str) -> bool {
        if self.sees(t) {
            self.at += t.len();
            return true;
        }
        false
    }

    fn expect(&mut self, t: &str) {
        assert!(self.eat(t), "expected {t:?} at {:?}", self.rest());
    }

    fn sees_word(&mut self, w: &str) -> bool {
        self.sees(w) && !self.rest()[w.len()..].starts_with(|c: char| c.is_alphanumeric() || c == '-')
    }

    fn word(&mut self, w: &str) -> bool {
        if self.sees_word(w) {
            self.at += w.len();
            return true;
        }
        false
    }

    fn ident(&mut self) -> String {
        self.space();
        let n = self
            .rest()
            .find(|c: char| !(c.is_alphabetic() || c == '-' || c == '∞'))
            .unwrap_or(self.rest().len());
        let out = self.rest()[..n].to_string();
        self.at += n;
        out
    }

    fn quoted(&mut self, q: char) -> String {
        self.space();
        assert!(self.rest().starts_with(q), "expected {q} at {:?}", self.rest());
        self.at += 1;
        let n = self.rest().find(q).expect("a closing quote");
        let out = self.rest()[..n].to_string();
        self.at += n + 1;
        out
    }

    fn digits(&mut self) -> String {
        self.space();
        let n = self.rest().find(|c: char| !c.is_ascii_digit()).unwrap_or(self.rest().len());
        let out = self.rest()[..n].to_string();
        self.at += n;
        out
    }

    fn span(&self, from: usize) -> Span {
        Span::new(from, self.at)
    }

    fn node(&self, from: usize, kind: ExprKind) -> Expr {
        Expr { kind, span: self.span(from) }
    }

    fn block(&mut self) -> Vec<Stmt> {
        self.expect("{");
        let mut out = Vec::new();
        while !self.eat("}") {
            out.push(self.stmt());
        }
        out
    }

    fn type_ref(&mut self) -> TypeRef {
        self.space();
        let from = self.at;
        let mut rank = None;
        let mut sign = None;
        loop {
            if self.eat("+") {
                sign = Some(Sign::Positive);
            } else if self.eat("-") {
                sign = Some(Sign::Negative);
            }
            let word = self.ident();
            let named = match word.as_str() {
                "vector" => Some(Rank::Vector),
                "matrix" => Some(Rank::Matrix),
                "tensor" => Some(Rank::Tensor),
                _ => None,
            };
            if named.is_some() {
                rank = named;
                self.expect(":");
                continue;
            }
            return TypeRef { base: word, sign, rank, shape: None, precision: None, span: self.span(from) };
        }
    }

    /// `[3, 4]` or `[64 bit]` behind a name.
    fn brackets(&mut self) -> (Option<Vec<Dim>>, Option<Precision>) {
        let mut shape = None;
        let mut precision = None;
        while self.eat("[") {
            let mut dims = Vec::new();
            loop {
                if self.eat("?") {
                    dims.push(Dim::Unknown);
                } else {
                    let n = self.digits();
                    if self.word("bit") {
                        precision = Some(Precision::Bits(n.parse().unwrap()));
                    } else if self.word("digits") {
                        precision = Some(Precision::Digits(n.parse().unwrap()));
                    } else {
                        dims.push(Dim::Known(n.parse().unwrap()));
                    }
                }
                if !self.eat(",") {
                    break;
                }
            }
            self.expect("]");
            if !dims.is_empty() {
                shape = Some(dims);
            }
        }
        (shape, precision)
    }

    fn stmt(&mut self) -> Stmt {
        self.space();
        let from = self.at;
        let out = if self.eat("var:") {
            let ty = self.type_ref();
            let mut bindings = Vec::new();
            loop {
                self.space();
                let start = self.at;
                let name = self.quoted('\'');
                let name_span = self.span(start);
                let (shape, precision) = self.brackets();
                let value = if self.eat("=") { Some(self.value()) } else { None };
                bindings.push(Binding { name, name_span, shape, precision, value });
                if !self.eat(",") {
                    break;
                }
            }
            Stmt::Var(VarDecl { ty, bindings, span: self.span(from) })
        } else if self.eat("change:var:") {
            let ty = self.type_ref();
            self.space();
            let start = self.at;
            let name = self.quoted('\'');
            let name_span = self.span(start);
            let selectors = self.selectors();
            self.expect("=");
            let value = self.value();
            let targets = vec![ChangeTarget { name, name_span, selectors, value }];
            Stmt::Change(ChangeStmt { ty, targets, span: self.span(from) })
        } else if self.eat("func:") {
            let returns = self.type_ref();
            self.space();
            let start = self.at;
            let name = self.quoted('\'');
            let name_span = self.span(start);
            self.expect("[");
            let mut params = Vec::new();
            let mut ty = None;
            while !self.eat("]") {
                if self.eat("var:") {
                    ty = Some(self.type_ref());
                }
                self.space();
                let start = self.at;
                let name = self.quoted('\'');
                let name_span = self.span(start);
                let (shape, precision) = self.brackets();
                params.push(Param { name, name_span, ty: ty.clone().unwrap(), shape, precision });
                self.eat(",");
            }
            let body = self.block();
            Stmt::Func(FuncDecl { name, name_span, params, returns, body, span: self.span(from) })
        } else if self.word("if") {
            Stmt::If(self.if_chain(from))
        } else if self.eat("loop:") {
            Stmt::Loop(self.loop_stmt(from))
        } else if self.eat("print[") {
            let mut args = Vec::new();
            while !self.eat("]") {
                args.push(self.value());
            }
            Stmt::Print { args, span: self.span(from) }
        } else if self.word("handback") || self.word("hb") {
            let value = self.value();
            Stmt::Handback { value, span: self.span(from) }
        } else {
            Stmt::Expr(self.value())
        };
        self.expect(".");
        out
    }

    fn if_chain(&mut self, from: usize) -> IfChain {
        let condition = Some(self.value());
        let body = self.block();
        let mut arms = vec![IfArm { condition, body }];
        loop {
            let back = self.at;
            if !(self.eat(",") && self.word("else")) {
                self.at = back;
                break;
            }
            let condition = if self.word("if") { Some(self.value()) } else { None };
            let body = self.block();
            arms.push(IfArm { condition, body });
        }
        IfChain { arms, span: self.span(from) }
    }

    fn loop_stmt(&mut self, from: usize) -> LoopStmt {
        let kind = if self.word("while") {
            LoopKind::While { condition: self.value() }
        } else {
            self.expect("var:");
            let ty = self.type_ref();
            self.space();
            let start = self.at;
            let var = self.quoted('\'');
            let var_span = self.span(start);
            self.expect("=");
            LoopKind::Counted { ty, var, var_span, range: self.value() }
        };
        let body = self.block();
        LoopStmt { kind, body, span: self.span(from) }
    }

    fn value(&mut self) -> Expr {
        self.space();
        let from = self.at;
        if self.word("if") {
            let chain = self.if_chain(from);
            return self.node(from, ExprKind::If(chain));
        }
        if self.eat("loop:") {
            let l = self.loop_stmt(from);
            return self.node(from, ExprKind::Loop(Box::new(l)));
        }
        self.primary()
    }

    fn selectors(&mut self) -> Vec<Selector> {
        let mut out = Vec::new();
        while self.rest().starts_with(':') {
            self.at += 1;
            let sel = if self.word("all") {
                Selector::All
            } else if self.word("length") {
                Selector::Length
            } else if self.word("shape") {
                Selector::Shape
            } else {
                let first = self.or();
                if self.word("to") {
                    let to = self.or();
                    let by = if self.word("by") { Some(Box::new(self.or())) } else { None };
                    Selector::Range { from: Box::new(first), to: Box::new(to), by }
                } else {
                    let mut ix = vec![first];
                    while self.eat(",") {
                        ix.push(self.or());
                    }
                    Selector::Indices(ix)
                }
            };
            self.expect(";");
            out.push(sel);
        }
        out
    }

    /// What stands inside `math { }`.
    fn math(&mut self) -> Expr {
        self.space();
        let from = self.at;
        let first = self.or();
        if self.word("to") {
            let to = self.or();
            let by = if self.word("by") { Some(Box::new(self.or())) } else { None };
            return self.node(from, ExprKind::Range { from: Box::new(first), to: Box::new(to), by });
        }
        first
    }

    fn binary(&self, from: usize, op: BinOp, lhs: Expr, rhs: Expr) -> Expr {
        self.node(from, ExprKind::Binary { op, lhs: Box::new(lhs), rhs: Box::new(rhs) })
    }

    fn or(&mut self) -> Expr {
        self.space();
        let from = self.at;
        let mut e = self.and();
        while self.word("or") {
            let r = self.and();
            e = self.binary(from, BinOp::Or, e, r);
        }
        e
    }

    fn and(&mut self) -> Expr {
        self.space();
        let from = self.at;
        let mut e = self.comparison();
        while self.word("and") {
            let r = self.comparison();
            e = self.binary(from, BinOp::And, e, r);
        }
        e
    }

    fn comparison(&mut self) -> Expr {
        self.space();
        let from = self.at;
        let e = self.sum();
        let ops = [
            ("!=", BinOp::NotEq),
            ("<=", BinOp::LessEq),
            (">=", BinOp::GreaterEq),
            ("=", BinOp::Eq),
            ("<", BinOp::Less),
            (">", BinOp::Greater),
        ];
        for (t, op) in ops {
            if self.eat(t) {
                let r = self.sum();
                return self.binary(from, op, e, r);
            }
        }
        e
    }

    fn sum(&mut self) -> Expr {
        self.space();
        let from = self.at;
        let mut e = self.product();
        loop {
            let op = if self.eat("+") {
                BinOp::Add
            } else if self.eat("-") {
                BinOp::Sub
            } else {
                return e;
            };
            let r = self.product();
            e = self.binary(from, op, e, r);
        }
    }

    fn product(&mut self) -> Expr {
        self.space();
        let from = self.at;
        let mut e = self.prefix();
        loop {
            let op = if self.eat("//") {
                BinOp::IntDiv
            } else if self.eat("/") {
                BinOp::Div
            } else if self.eat("*") || self.word("x") {
                BinOp::Mul
            } else if self.word("mod") {
                BinOp::Mod
            } else if self.eat("·") {
                BinOp::Dot
            } else if self.eat("×") {
                BinOp::Cross
            } else if self.eat("⊙") {
                BinOp::Hadamard
            } else if self.eat("⊗") {
                BinOp::Tensor
            } else {
                return e;
            };
            let r = self.prefix();
            e = self.binary(from, op, e, r);
        }
    }

    fn prefix(&mut self) -> Expr {
        self.space();
        let from = self.at;
        let named = [
            ("not", UnOp::Not),
            ("sqrt", UnOp::Sqrt),
            ("sin", UnOp::Sin),
            ("cos", UnOp::Cos),
            ("tan", UnOp::Tan),
            ("log", UnOp::Log),
            ("ln", UnOp::Ln),
            ("floor", UnOp::Floor),
            ("ceil", UnOp::Ceil),
        ];
        for (t, op) in named {
            if self.word(t) {
                let operand = Box::new(self.prefix());
                return self.node(from, ExprKind::Unary { op, operand });
            }
        }
        if self.eat("-") {
            let operand = Box::new(self.prefix());
            return self.node(from, ExprKind::Unary { op: UnOp::Neg, operand });
        }
        let base = self.primary();
        if self.word("xx") {
            let exponent = self.prefix();
            return self.binary(from, BinOp::Pow, base, exponent);
        }
        base
    }

    fn primary(&mut self) -> Expr {
        self.space();
        let from = self.at;
        if self.word("math") {
            self.expect("{");
            let inner = self.math();
            self.expect("}");
            return self.node(from, ExprKind::Math(Box::new(inner)));
        }
        for (t, c) in [("pi", Constant::Pi), ("e", Constant::E), ("tau", Constant::Tau)] {
            if self.word(t) {
                return self.node(from, ExprKind::Constant(c));
            }
        }
        for t in ["read", "parse", "clock"] {
            if self.sees_word(t) {
                self.at += t.len();
                self.expect("[");
                let mut args = Vec::new();
                while !self.eat("]") {
                    args.push(self.builtin_arg());
                }
                return self.node(from, ExprKind::Builtin { name: t.to_string(), args });
            }
        }
        let c = self.rest().chars().next().expect("a value");
        if c == '"' {
            let t = self.quoted('"');
            return self.node(from, ExprKind::Str(t));
        }
        if c == '\'' {
            let name = self.quoted('\'');
            if self.rest().starts_with('[') {
                self.at += 1;
                let mut args = Vec::new();
                while !self.eat("]") {
                    args.push(self.value());
                }
                return self.node(from, ExprKind::Call { name, args });
            }
            return self.node(from, ExprKind::Literal(name));
        }
        if c == '(' {
            self.at += 1;
            let name = self.quoted('\'');
            self.expect(")");
            let selectors = self.selectors();
            return self.node(from, ExprKind::Ref { name, selectors });
        }
        if c == '{' {
            self.at += 1;
            let mut items = Vec::new();
            while !self.eat("}") {
                items.push(self.value());
                self.eat(",");
            }
            return self.node(from, ExprKind::ArrayLit(items));
        }
        if c == '|' {
            self.at += 1;
            let operand = Box::new(self.or());
            self.expect("|");
            return self.node(from, ExprKind::Unary { op: UnOp::Abs, operand });
        }
        let n = self.rest().find(|c: char| !(c.is_ascii_digit() || c == '.')).unwrap_or(self.rest().len());
        assert!(n > 0, "a value at {:?}", self.rest());
        let t = self.rest()[..n].to_string();
        self.at += n;
        self.node(from, ExprKind::Number(t))
    }

    fn builtin_arg(&mut self) -> Expr {
        self.space();
        let from = self.at;
        if self.rest().starts_with(|c: char| c.is_alphabetic()) {
            let name = self.ident();
            let value = if self.eat(":") { Some(Box::new(self.value())) } else { None };
            return self.node(from, ExprKind::Option { name, value });
        }
        self.value()
    }
}

fn parse_source(text: &str) -> Program {
    let mut r = Reader { text, at: 0 };
    let mut statements = Vec::new();
    loop {
        r.space();
        if r.rest().is_empty() {
            return Program { statements };
        }
        statements.push(r.stmt());
    }
}

// ── the world outside ───────────────────────────────────────────────────────

fn number(v: f64, digits: u32) -> Option<Decimal> {
    if !v.is_finite() {
        return None;
    }
    Decimal::parse(&format!("{:.*}", digits as usize, v)).map(|d| d.normalised())
}

fn float_of(v: &Value) -> f64 {
    match v {
        Value::Rat(r) => r.num as f64 / r.den as f64,
        other => other.text().parse().unwrap(),
    }
}

fn answer(q: &Request) -> Answer {
    match q {
        Request::Power { base, exponent, digits } => {
            let b: f64 = base.text().parse().unwrap();
            let e: f64 = exponent.text().parse().unwrap();
            Answer::Number(number(b.powf(e), *digits))
        }
        Request::Function { op, argument, digits } => {
            let x = float_of(argument);
            let v = match op {
                UnOp::Sin => x.sin(),
                UnOp::Cos => x.cos(),
                UnOp::Tan => x.tan(),
                UnOp::Log => x.log10(),
                UnOp::Ln => x.ln(),
                _ => x.sqrt(),
            };
            Answer::Number(number(v, *digits))
        }
        Request::Read { path } => match path.as_str() {
            "read-me.txt" => Answer::Text("hello from a file\n".to_string()),
            _ => Answer::Unreadable("no such file".to_string()),
        },
        Request::Clock => Answer::Number(Decimal::parse("1.5")),
    }
}

/// Run a program and hand back what it printed, answering what it asks for.
fn interpreted(src: &str) -> String {
    let program = parse_source(src);
    let mut answers = Vec::new();
    loop {
        let out = run_with(&program, &answers);
        assert!(out.error.is_none(), "should run cleanly: {:?}", out.error);
        match out.request {
            Some(q) => answers.push(answer(&q)),
            None => return out.lines.join("\n").trim_end().to_string(),
        }
    }
}

fn output(src: &str) -> Vec<String> {
    let out = run(&parse_source(src));
    assert!(out.error.is_none(), "should run cleanly: {:?}", out.error);
    out.lines
}

fn one(src: &str) -> String {
    output(src).join("\n")
}

/// Run a program expected to fail, returning the error code.
fn fails(src: &str) -> String {
    let out = run(&parse_source(src));
    out.error.expect("expected a runtime failure").code.render()
}

// ── running lowered code ────────────────────────────────────────────────────

#[derive(Debug)]
enum Heap {
    Array(Array),
    Num(Cell),
    Text,
}

#[derive(Debug, Clone)]
enum Reg {
    Nothing,
    Bit(bool),
    Byte(u8),
    Small(i64),
    Long(u64),
    Word(i128),
    Deci(AhpclDecimal),
    Rat(AhpclRational),
    Text(String, Option<usize>),
    Null,
    Slot(usize),
    Chars(String),
    Object(usize),
    Pair(i128, bool),
}

/// A machine for lowered code: the runtime is the library's, and every heap value is
/// counted.
struct Machine {
    heap: Vec<Option<(i64, Heap)>>,
    slots: Vec<Reg>,
    out: String,
    peak: usize,
}

type Stopped = (String, String);

fn failed(f: Failure) -> Stopped {
    (f.code, f.message)
}

impl Machine {
    fn place(&mut self, h: Heap) -> Reg {
        self.heap.push(Some((1, h)));
        self.peak = self.peak.max(self.live());
        Reg::Object(self.heap.len() - 1)
    }

    fn live(&self) -> usize {
        self.heap.iter().filter(|h| h.is_some()).count()
    }

    fn count(&mut self, r: &Reg, by: i64) {
        if let Reg::Object(i) = r {
            let held = self.heap[*i].as_mut().expect("a live object");
            held.0 += by;
            if held.0 == 0 {
                self.heap[*i] = None;
            }
        }
    }

    fn array(&self, r: &Reg) -> &Array {
        match r {
            Reg::Object(i) => match &self.heap[*i].as_ref().expect("a live object").1 {
                Heap::Array(a) => a,
                other => panic!("{other:?} is not an array"),
            },
            other => panic!("{other:?} is not an array"),
        }
    }

    fn array_mut(&mut self, r: &Reg) -> &mut Array {
        match r {
            Reg::Object(i) => match &mut self.heap[*i].as_mut().expect("a live object").1 {
                Heap::Array(a) => a,
                other => panic!("{other:?} is not an array"),
            },
            other => panic!("{other:?} is not an array"),
        }
    }

    fn num(&self, r: &Reg) -> &Cell {
        match r {
            Reg::Object(i) => match &self.heap[*i].as_ref().expect("a live object").1 {
                Heap::Num(c) => c,
                other => panic!("{other:?} is not a num"),
            },
            other => panic!("{other:?} is not a num"),
        }
    }

    fn slot(&self, r: &Reg) -> Reg {
        match r {
            Reg::Slot(i) => self.slots[*i].clone(),
            other => panic!("{other:?} is not an address"),
        }
    }

    fn set_slot(&mut self, r: &Reg, v: Reg) {
        match r {
            Reg::Slot(i) => self.slots[*i] = v,
            other => panic!("{other:?} is not an address"),
        }
    }

    fn word(&self, r: &Reg) -> i128 {
        match r {
            Reg::Word(v) => *v,
            other => panic!("{other:?} is not a word"),
        }
    }

    fn small(&self, r: &Reg) -> u32 {
        match r {
            Reg::Small(v) => *v as u32,
            other => panic!("{other:?} is not small"),
        }
    }

    fn deci(&self, r: &Reg) -> AhpclDecimal {
        match self.slot(r) {
            Reg::Deci(d) => d,
            other => panic!("{other:?} is not a decimal"),
        }
    }

    fn rat(&self, r: &Reg) -> AhpclRational {
        match self.slot(r) {
            Reg::Rat(d) => d,
            other => panic!("{other:?} is not a rational"),
        }
    }

    fn text(&self, r: &Reg) -> String {
        match r {
            Reg::Null => String::new(),
            _ => match self.slot(r) {
                Reg::Text(t, _) => t,
                other => panic!("{other:?} is not text"),
            },
        }
    }

    fn owned_text(&mut self, t: String) -> Reg {
        match self.place(Heap::Text) {
            Reg::Object(i) => Reg::Text(t, Some(i)),
            _ => unreachable!(),
        }
    }

    /// What a computation came to, answered from outside where it asks.
    fn settle(&self, r: Result<Cell, Halt>) -> Result<Cell, Stopped> {
        match r {
            Ok(c) => Ok(c),
            Err(Halt::Fail(f)) => Err(failed(f)),
            Err(Halt::Ask(q)) => match answer(&q) {
                Answer::Number(Some(d)) => Ok(Cell::Deci(AhpclDecimal::ok(d.mantissa, d.scale))),
                other => panic!("{other:?}"),
            },
        }
    }

    fn halted<T>(&self, r: Result<T, Halt>) -> Result<T, Stopped> {
        match r {
            Ok(v) => Ok(v),
            Err(Halt::Fail(f)) => Err(failed(f)),
            Err(Halt::Ask(q)) => panic!("{q:?}"),
        }
    }

    fn call(&mut self, f: Rt, a: Vec<Reg>) -> Result<Reg, Stopped> {
        let mut out = Reg::Nothing;
        match f {
            Rt::DeciAdd => {
                let v = ahpcl_deci_add(self.deci(&a[1]), self.deci(&a[2])).map_err(failed)?;
                self.set_slot(&a[0], Reg::Deci(v));
            }
            Rt::DeciSub => {
                let v = ahpcl_deci_sub(self.deci(&a[1]), self.deci(&a[2])).map_err(failed)?;
                self.set_slot(&a[0], Reg::Deci(v));
            }
            Rt::DeciMul => {
                let v = ahpcl_deci_mul(self.deci(&a[1]), self.deci(&a[2])).map_err(failed)?;
                self.set_slot(&a[0], Reg::Deci(v));
            }
            Rt::DeciDiv => {
                let v = ahpcl_deci_div(self.deci(&a[1]), self.deci(&a[2]), self.small(&a[3])).map_err(failed)?;
                self.set_slot(&a[0], Reg::Deci(v));
            }
            Rt::DeciBinary => {
                let v = deci_apply(self.small(&a[1]), self.deci(&a[2]), self.deci(&a[3]));
                let v = self.halted(v)?;
                self.set_slot(&a[0], Reg::Deci(v));
            }
            Rt::DeciIntDiv => {
                out = Reg::Word(self.halted(ahpcl_deci_int_div(self.deci(&a[0]), self.deci(&a[1])))?);
            }
            Rt::RatBinary => {
                let v = rat_apply(self.small(&a[1]), self.rat(&a[2]), self.rat(&a[3])).map_err(failed)?;
                self.set_slot(&a[0], Reg::Rat(v));
            }
            Rt::RatAdd | Rt::RatSub | Rt::RatMul | Rt::RatDiv => {
                let (x, y) = (self.rat(&a[1]), self.rat(&a[2]));
                let v = match f {
                    Rt::RatAdd => ahpcl_rat_add(x, y),
                    Rt::RatSub => ahpcl_rat_sub(x, y),
                    Rt::RatMul => ahpcl_rat_mul(x, y),
                    _ => ahpcl_rat_div(x, y),
                };
                self.set_slot(&a[0], Reg::Rat(v.map_err(failed)?));
            }
            Rt::Constant => {
                let v = ahpcl_constant(self.small(&a[1]), self.small(&a[2])).map_err(failed)?;
                self.set_slot(&a[0], Reg::Deci(v));
            }
            Rt::RatFromInt => self.set_slot(&a[0], Reg::Rat(AhpclRational::reduced(self.word(&a[1]), 1))),
            Rt::DeciFromInt => self.set_slot(&a[0], Reg::Deci(AhpclDecimal::ok(self.word(&a[1]), 0))),
            Rt::RatOrder => out = Reg::Small(ahpcl_rat_cmp(self.rat(&a[0]), self.rat(&a[1])) as i64),
            Rt::DeciOrder => out = Reg::Small(ahpcl_deci_cmp(self.deci(&a[0]), self.deci(&a[1])) as i64),
            Rt::StrOrder => out = Reg::Small(ahpcl_str_cmp(&self.text(&a[0]), &self.text(&a[1])) as i64),
            Rt::NumOrder => {
                out = Reg::Small(self.halted(ahpcl_num_cmp(self.num(&a[0]), self.num(&a[1])))? as i64);
            }
            Rt::PrintRat => self.out += &format_rational(self.rat(&a[0])),
            Rt::PrintText => self.out += &self.text(&a[0]),
            Rt::PrintDeci => self.out += &format_decimal(self.deci(&a[0])),
            Rt::PrintInt => self.out += &self.word(&a[0]).to_string(),
            Rt::PrintBool => {
                let t = match a[0] {
                    Reg::Byte(0) => "false",
                    _ => "true",
                };
                self.out += t;
            }
            Rt::PrintStr => match &a[0] {
                Reg::Chars(t) => self.out += t,
                other => panic!("{other:?}"),
            },
            Rt::PrintNum => self.out += &self.num(&a[0]).render(),
            Rt::PrintArray => self.out += &format_array(self.array(&a[0])),
            Rt::PrintNewline => self.out += "\n",
            Rt::Clock => self.set_slot(&a[0], Reg::Deci(AhpclDecimal::ok(15, 1))),
            Rt::ReadFile => {
                let t = match answer(&Request::Read { path: self.text(&a[1]) }) {
                    Answer::Text(t) => t,
                    other => panic!("{other:?}"),
                };
                let v = self.owned_text(t);
                self.set_slot(&a[0], v);
            }
            Rt::ParseInt => {
                let flags = match a[1] {
                    Reg::Long(v) => v,
                    _ => panic!("flags"),
                };
                let (t, g, d) = (self.text(&a[0]), self.text(&a[2]), self.text(&a[3]));
                out = Reg::Word(ahpcl_parse_int(&t, flags, &g, &d).map_err(failed)?);
            }
            Rt::ParseDeci | Rt::ParseRat => {
                let flags = match a[2] {
                    Reg::Long(v) => v,
                    _ => panic!("flags"),
                };
                let (t, g, d) = (self.text(&a[1]), self.text(&a[3]), self.text(&a[4]));
                let v = if f == Rt::ParseDeci {
                    Reg::Deci(ahpcl_parse_deci(&t, flags, &g, &d).map_err(failed)?)
                } else {
                    Reg::Rat(ahpcl_parse_rat(&t, flags, &g, &d).map_err(failed)?)
                };
                self.set_slot(&a[0], v);
            }
            Rt::NumFromInt => out = self.place(Heap::Num(Cell::Int(self.word(&a[0])))),
            Rt::NumFromBool => out = self.place(Heap::Num(Cell::Bool(!matches!(a[0], Reg::Byte(0))))),
            Rt::NumFromDeci => out = self.place(Heap::Num(Cell::Deci(self.deci(&a[0])))),
            Rt::NumFromRat => out = self.place(Heap::Num(Cell::Rat(self.rat(&a[0])))),
            Rt::NumBinary => {
                let r = arith(self.small(&a[0]), self.num(&a[1]), self.num(&a[2]));
                let c = self.settle(r)?;
                out = self.place(Heap::Num(c));
            }
            Rt::NumUnary => {
                let r = unary(self.small(&a[0]), self.num(&a[1]), self.small(&a[2]));
                let c = self.settle(r)?;
                out = self.place(Heap::Num(c));
            }
            Rt::DeciUnary => {
                let v = self.halted(ahpcl_deci_unary(self.small(&a[1]), self.deci(&a[2]), self.small(&a[3])))?;
                self.set_slot(&a[0], Reg::Deci(v));
            }
            Rt::RatUnary => {
                let v = self.halted(ahpcl_rat_unary(self.small(&a[1]), self.rat(&a[2]), self.small(&a[3])))?;
                self.set_slot(&a[0], Reg::Rat(v));
            }
            Rt::NumToInt => out = Reg::Word(ahpcl_num_to_int(self.num(&a[0]))),
            Rt::NumToDeci => {
                let v = to_deci(self.num(&a[1]));
                self.set_slot(&a[0], Reg::Deci(v));
            }
            Rt::NumToRat => {
                let v = to_rat(self.num(&a[1]));
                self.set_slot(&a[0], Reg::Rat(v));
            }
            Rt::ArrayOffset => {
                let n = self.word(&a[2]) as usize;
                let ix = self.words(&a[1], n);
                out = Reg::Word(ahpcl_array_offset(self.array(&a[0]), &ix).map_err(failed)?);
            }
            Rt::ArrayRelate => {
                let r = ahpcl_array_compare(self.small(&a[0]), self.array(&a[1]), self.array(&a[2]));
                let v = self.halted(r)?;
                out = self.place(Heap::Array(v));
            }
            Rt::ArrayElementwise => {
                let r = ahpcl_array_elementwise(self.small(&a[0]), self.array(&a[1]), self.array(&a[2]));
                let v = self.halted(r)?;
                out = self.place(Heap::Array(v));
            }
            Rt::ArrayUnary => {
                let r = ahpcl_array_unary(self.small(&a[0]), self.array(&a[1]), self.small(&a[2]));
                let v = self.halted(r)?;
                out = self.place(Heap::Array(v));
            }
            Rt::ArrayHadamard | Rt::ArrayDot | Rt::ArrayCross | Rt::ArrayTensor => {
                let (x, y) = (self.array(&a[0]), self.array(&a[1]));
                let r = match f {
                    Rt::ArrayHadamard => ahpcl_array_hadamard(x, y),
                    Rt::ArrayDot => ahpcl_array_dot(x, y),
                    Rt::ArrayCross => ahpcl_array_cross(x, y),
                    _ => ahpcl_array_tensor(x, y),
                };
                let v = self.halted(r)?;
                out = self.place(Heap::Array(v));
            }
            Rt::ArrayNew => {
                let n = self.small(&a[1]) as usize;
                let base = self.address(&a[2]);
                let dims = (0..n)
                    .map(|k| match self.slots[base + k] {
                        Reg::Long(v) => v,
                        _ => panic!("a dimension"),
                    })
                    .collect();
                out = self.place(Heap::Array(ahpcl_array_new(self.small(&a[0]), dims)));
            }
            Rt::ArrayEmpty => out = self.place(Heap::Array(ahpcl_array_empty(self.small(&a[0])))),
            Rt::ArrayLen => out = Reg::Word(ahpcl_array_len(self.array(&a[0]))),
            Rt::ArrayShape => {
                let v = ahpcl_array_shape(self.array(&a[0]));
                out = self.place(Heap::Array(v));
            }
            Rt::ArraySum => {
                let r = ahpcl_array_sum(self.array(&a[0]));
                let c = self.settle(r)?;
                out = self.place(Heap::Num(c));
            }
            Rt::ArrayPushInt => {
                let c = Cell::Int(self.word(&a[1]));
                push(self.array_mut(&a[0]), c);
            }
            Rt::ArrayPushBool => {
                let c = Cell::Bool(!matches!(a[1], Reg::Byte(0)));
                push(self.array_mut(&a[0]), c);
            }
            Rt::ArrayPushDeci => {
                let c = Cell::Deci(self.deci(&a[1]));
                push(self.array_mut(&a[0]), c);
            }
            Rt::ArrayPushRat => {
                let c = Cell::Rat(self.rat(&a[1]));
                push(self.array_mut(&a[0]), c);
            }
            Rt::ArrayPushStr => {
                let c = Cell::Str(self.text(&a[1]));
                push(self.array_mut(&a[0]), c);
            }
            Rt::ArrayPushNum => {
                let c = self.num(&a[1]).copied();
                push(self.array_mut(&a[0]), c);
            }
            Rt::ArrayPushArray => {
                let row = copied_array(self.array(&a[1]));
                ahpcl_array_push_array(self.array_mut(&a[0]), &row);
            }
            Rt::ArrayRetain | Rt::NumRetain | Rt::StrRetain => self.count(&a[0], 1),
            Rt::ArrayRelease | Rt::NumRelease | Rt::StrRelease => self.count(&a[0], -1),
            Rt::ArraySelectRun => {
                let n = self.word(&a[5]) as usize;
                let (kinds, bounds) = (self.address(&a[1]), self.address(&a[2]));
                let (buffers, counts) = (self.address(&a[3]), self.address(&a[4]));
                let mut picks = Vec::new();
                for k in 0..n {
                    picks.push(match self.slots[kinds + k].clone() {
                        Reg::Small(1) => {
                            let count = match self.slots[counts + k] {
                                Reg::Long(v) => v as usize,
                                _ => panic!("a count"),
                            };
                            Pick::Indices(self.words(&self.slots[buffers + k].clone(), count))
                        }
                        Reg::Small(2) => Pick::Range {
                            from: self.word(&self.slots[bounds + k * 3]),
                            to: self.word(&self.slots[bounds + k * 3 + 1]),
                            by: self.word(&self.slots[bounds + k * 3 + 2]),
                        },
                        _ => Pick::All,
                    });
                }
                let v = ahpcl_array_select_run(self.array(&a[0]), &picks).map_err(failed)?;
                out = self.place(Heap::Array(v));
            }
            Rt::ArraySetInt | Rt::ArraySetBool | Rt::ArraySetNum | Rt::ArraySetDeci | Rt::ArraySetRat
            | Rt::ArraySetStr => {
                let c = match f {
                    Rt::ArraySetInt => Cell::Int(self.word(&a[2])),
                    Rt::ArraySetBool => Cell::Bool(!matches!(a[2], Reg::Byte(0))),
                    Rt::ArraySetNum => self.num(&a[2]).copied(),
                    Rt::ArraySetDeci => Cell::Deci(self.deci(&a[2])),
                    Rt::ArraySetRat => Cell::Rat(self.rat(&a[2])),
                    _ => Cell::Str(self.text(&a[2])),
                };
                let i = self.word(&a[1]);
                ahpcl_array_set_num(self.array_mut(&a[0]), i, c).map_err(failed)?;
            }
            Rt::ArrayGetInt => {
                out = Reg::Word(ahpcl_array_get_int(self.array(&a[0]), self.word(&a[1])).map_err(failed)?);
            }
            Rt::ArrayGetBool => {
                let v = ahpcl_array_get_bool(self.array(&a[0]), self.word(&a[1])).map_err(failed)?;
                out = Reg::Byte(v as u8);
            }
            Rt::ArrayGetNum => {
                let c = ahpcl_array_get_num(self.array(&a[0]), self.word(&a[1])).map_err(failed)?;
                out = self.place(Heap::Num(c));
            }
            Rt::ArrayGetDeci => {
                let v = ahpcl_array_get_deci(self.array(&a[1]), self.word(&a[2])).map_err(failed)?;
                self.set_slot(&a[0], Reg::Deci(v));
            }
            Rt::ArrayGetRat => {
                let v = ahpcl_array_get_rat(self.array(&a[1]), self.word(&a[2])).map_err(failed)?;
                self.set_slot(&a[0], Reg::Rat(v));
            }
            Rt::ArrayGetStr => {
                let t = ahpcl_array_get_str(self.array(&a[1]), self.word(&a[2])).map_err(failed)?;
                let v = self.owned_text(t);
                self.set_slot(&a[0], v);
            }
            Rt::IntDiv => out = Reg::Word(ahpcl_int_div(self.word(&a[0]), self.word(&a[1])).map_err(failed)?),
            Rt::IntMod => out = Reg::Word(ahpcl_int_mod(self.word(&a[0]), self.word(&a[1])).map_err(failed)?),
            Rt::Fail => match (&a[0], &a[1]) {
                (Reg::Chars(c), Reg::Chars(m)) => return Err((c.clone(), m.clone())),
                other => panic!("{other:?}"),
            },
            Rt::ArrayKind | Rt::ArrayIsScalar | Rt::ArrayRange => panic!("{f:?} is not emitted"),
        }
        Ok(out)
    }

    fn address(&self, r: &Reg) -> usize {
        match r {
            Reg::Slot(i) => *i,
            other => panic!("{other:?} is not an address"),
        }
    }

    fn words(&self, r: &Reg, n: usize) -> Vec<i128> {
        let base = self.address(r);
        (0..n).map(|k| self.word(&self.slots[base + k])).collect()
    }

    fn run(&mut self, c: &Compiled, f: &Function, args: Vec<Reg>) -> Result<Reg, Stopped> {
        let mut regs = vec![Reg::Nothing; f.code.len()];
        let mut starts = vec![0; f.code.len()];
        let base = self.slots.len();
        for (i, inst) in f.code.iter().enumerate() {
            match inst {
                Inst::Slot(_) => {
                    regs[i] = Reg::Slot(self.slots.len());
                    self.slots.push(Reg::Nothing);
                }
                Inst::Slots { count, .. } => {
                    regs[i] = Reg::Slot(self.slots.len());
                    self.slots.extend((0..*count).map(|_| Reg::Nothing));
                }
                Inst::At(b) => starts[*b] = i,
                _ => {}
            }
        }
        let mut pending: Vec<Reg> = Vec::new();
        let mut pc = 0;
        loop {
            let i = pc;
            pc += 1;
            let bit = |r: &Reg| match r {
                Reg::Bit(b) => *b,
                other => panic!("{other:?} is not a bit"),
            };
            match f.code[i] {
                Inst::Param { index, .. } => regs[i] = args[index].clone(),
                Inst::Bool(b) => regs[i] = Reg::Bit(b),
                Inst::Byte(b) => regs[i] = Reg::Byte(b),
                Inst::Word(v) => regs[i] = Reg::Word(v),
                Inst::Small(v) => regs[i] = Reg::Small(v as i64),
                Inst::Long(v) => regs[i] = Reg::Long(v),
                Inst::Deci { mantissa, scale } => regs[i] = Reg::Deci(AhpclDecimal::ok(mantissa, scale)),
                Inst::Rat { num, den } => regs[i] = Reg::Rat(AhpclRational { num, den, failed: 0 }),
                Inst::Null => regs[i] = Reg::Null,
                Inst::Chars(t) => regs[i] = Reg::Chars(f.texts[t].clone()),
                Inst::Text(t) => regs[i] = Reg::Text(f.texts[t].clone(), None),
                Inst::Slot(_) | Inst::Slots { .. } | Inst::Block | Inst::At(_) => {}
                Inst::Load { from, .. } => regs[i] = self.slot(&regs[from]),
                Inst::Store { into, value } => {
                    let v = regs[value].clone();
                    self.set_slot(&regs[into], v);
                }
                Inst::StoreAt { into, index, value, .. } => {
                    let at = self.address(&regs[into]) + index as usize;
                    self.slots[at] = regs[value].clone();
                }
                Inst::Owner(v) => {
                    regs[i] = match &regs[v] {
                        Reg::Text(_, Some(o)) => Reg::Object(*o),
                        Reg::Text(_, None) => Reg::Null,
                        other => panic!("{other:?} is not text"),
                    }
                }
                Inst::Not(v) => regs[i] = Reg::Bit(!bit(&regs[v])),
                Inst::And(a, b) => regs[i] = Reg::Bit(bit(&regs[a]) && bit(&regs[b])),
                Inst::Or(a, b) => regs[i] = Reg::Bit(bit(&regs[a]) || bit(&regs[b])),
                Inst::Neg(v) => regs[i] = Reg::Word(self.word(&regs[v]).wrapping_neg()),
                Inst::Plus(a, b) => regs[i] = Reg::Word(self.word(&regs[a]).wrapping_add(self.word(&regs[b]))),
                Inst::Select { test, yes, no, .. } => {
                    regs[i] = if bit(&regs[test]) { regs[yes].clone() } else { regs[no].clone() }
                }
                Inst::Relate { relation, lhs, rhs, .. } => {
                    let n = |r: &Reg| match r {
                        Reg::Word(v) => *v,
                        Reg::Small(v) => *v as i128,
                        Reg::Byte(v) => *v as i128,
                        other => panic!("{other:?} has no order"),
                    };
                    let (a, b) = (n(&regs[lhs]), n(&regs[rhs]));
                    regs[i] = Reg::Bit(match relation {
                        Relation::Equal => a == b,
                        Relation::NotEqual => a != b,
                        Relation::Less => a < b,
                        Relation::Greater => a > b,
                        Relation::LessEqual => a <= b,
                        Relation::GreaterEqual => a >= b,
                    });
                }
                Inst::Checked { op, lhs, rhs } => {
                    let (a, b) = (self.word(&regs[lhs]), self.word(&regs[rhs]));
                    let (v, o) = match op {
                        CheckedOp::Add => a.overflowing_add(b),
                        CheckedOp::Sub => a.overflowing_sub(b),
                        CheckedOp::Mul => a.overflowing_mul(b),
                    };
                    regs[i] = Reg::Pair(v, o);
                }
                Inst::CheckedValue(p) => match regs[p] {
                    Reg::Pair(v, _) => regs[i] = Reg::Word(v),
                    _ => panic!("a pair"),
                },
                Inst::Overflowed(p) => match regs[p] {
                    Reg::Pair(_, o) => regs[i] = Reg::Bit(o),
                    _ => panic!("a pair"),
                },
                Inst::Widen { kind, value } => {
                    let b = bit(&regs[value]);
                    regs[i] = match kind {
                        Kind::Byte => Reg::Byte(b as u8),
                        _ => Reg::Word(b as i128),
                    };
                }
                Inst::Arg(v) => pending.push(regs[v].clone()),
                Inst::CallRt(rt) => {
                    let a = std::mem::take(&mut pending);
                    regs[i] = self.call(rt, a)?;
                }
                Inst::CallFn { index, .. } => {
                    let a = std::mem::take(&mut pending);
                    regs[i] = self.run(c, &c.functions[index], a)?;
                }
                Inst::Jump(b) => pc = starts[b],
                Inst::Fork { test, yes, no } => pc = if bit(&regs[test]) { starts[yes] } else { starts[no] },
                Inst::Return(v) => {
                    let out = regs[v].clone();
                    self.slots.truncate(base);
                    return Ok(out);
                }
                Inst::ReturnNothing => {
                    self.slots.truncate(base);
                    return Ok(Reg::Nothing);
                }
                Inst::Unreachable => panic!("ran into unreachable code"),
            }
        }
    }
}

fn execute(src: &str) -> (Result<(), Stopped>, Machine) {
    let c = compile(&parse_source(src)).unwrap_or_else(|u| panic!("should compile natively: {}", u.what));
    let mut m = Machine { heap: Vec::new(), slots: Vec::new(), out: String::new(), peak: 0 };
    let r = m.run(&c, &c.main, Vec::new()).map(|_| ());
    (r, m)
}

/// Lower and run, returning what was printed. Nothing may be left on the heap.
fn compile_and_run(src: &str) -> String {
    let (r, m) = execute(src);
    assert!(r.is_ok(), "the program should exit cleanly: {r:?}");
    assert_eq!(m.live(), 0, "everything is released");
    m.out.trim_end().to_string()
}

/// Lower only, expecting the backend to decline.
fn declines(src: &str) -> String {
    compile(&parse_source(src)).err().expect("expected the backend to decline").what
}

// ── the exactness guarantees ────────────────────────────────────────────────

#[test]
fn point_one_plus_point_two_is_exactly_point_three() {
    assert_eq!(
        one("var:deci 'a' = '0.1', 'b' = '0.2'.\n\
             var:deci 's' = math { ('a') + ('b') }.\n\
             print[('s')]."),
        "0.3"
    );
}

#[test]
fn the_comparison_agrees_too() {
    assert_eq!(
        one("var:deci 'a' = '0.1', 'b' = '0.2'.\n\
             var:deci 's' = math { ('a') + ('b') }.\n\
             var:bool 'q' = math { ('s') = '0.3' }.\n\
             print[('q')]."),
        "true"
    );
}

#[test]
fn a_third_is_exact_and_three_of_them_make_one() {
    assert_eq!(
        one("var:rat 't' = math { 1 / 3 }.\nprint[('t')]."),
        "1/3"
    );
    assert_eq!(
        one("var:rat 't' = math { 1 / 3 }.\n\
             var:rat 'w' = math { ('t') + ('t') + ('t') }.\n\
             print[('w')]."),
        "1"
    );
}

#[test]
fn an_exact_root_stays_exact() {
    assert_eq!(one("var:deci 'r' = math { sqrt 9 }.\nprint[('r')]."), "3");
}

#[test]
fn precedence_matches_mathematics_at_runtime() {
    assert_eq!(one("var:int 'r' = math { -3 xx 2 }.\nprint[('r')]."), "-9");
    assert_eq!(one("var:int 'r' = math { 2 xx 3 xx 2 }.\nprint[('r')]."), "512");
    assert_eq!(one("var:int 'r' = math { 2 + 3 * 4 }.\nprint[('r')]."), "14");
}

#[test]
fn integer_division_and_remainder() {
    assert_eq!(one("var:int 'r' = math { 10 // 4 }.\nprint[('r')]."), "2");
    assert_eq!(one("var:int 'r' = math { 10 mod 4 }.\nprint[('r')]."), "2");
}

#[test]
fn absolute_value_uses_its_real_notation() {
    assert_eq!(one("var:int 'r' = math { |0 - 5| }.\nprint[('r')]."), "5");
}

#[test]
fn division_by_zero_fails_rather_than_producing_infinity() {
    assert_eq!(
        fails("var:deci 'r' = math { 1 / 0 }.\nprint[('r')]."),
        "AHPCL-RUN-0002"
    );
}

#[test]
fn run_overflow_is_reported_rather_than_wrapping() {
    assert_eq!(
        fails(
            "var:int 'big' = '170141183460469231731687303715884105727'.\n\
             var:int 'r' = math { ('big') + 1 }.\n\
             print[('r')]."
        ),
        "AHPCL-PREC-0004"
    );
}

#[test]
fn run_a_bare_array_reference_sums_its_elements() {
    assert_eq!(
        one("var:vector:int 'a' [3] = {'1', '2', '3'}.\n\
             var:int 's' = math { ('a') }.\n\
             print[('s')]."),
        "6"
    );
}

#[test]
fn one_index_gives_a_plain_value() {
    assert_eq!(
        one("var:vector:int 'a' [3] = {'10', '20', '30'}.\n\
             var:int 'v' = math { ('a'):2; }.\n\
             print[('v')]."),
        "20"
    );
}

#[test]
fn indices_are_one_based() {
    assert_eq!(
        one("var:vector:int 'a' [3] = {'10', '20', '30'}.\n\
             var:int 'v' = math { ('a'):1; }.\n\
             print[('v')]."),
        "10"
    );
}

#[test]
fn length_and_shape_answer_different_questions() {
    assert_eq!(
        one("var:matrix:int 'm' [2, 3] = {{'1','2','3'}, {'4','5','6'}}.\n\
             var:int 'n' = math { ('m'):length; }.\n\
             print[('n')]."),
        "6"
    );
    assert_eq!(
        one("var:matrix:int 'm' [2, 3] = {{'1','2','3'}, {'4','5','6'}}.\n\
             var:vector:int 's' = math { ('m'):shape; }.\n\
             print[('s')]."),
        "{2, 3}"
    );
}

#[test]
fn the_dot_product_collapses_to_one_number() {
    assert_eq!(
        one("var:vector:int 'a' [3] = {'1','2','3'}.\n\
             var:vector:int 'b' [3] = {'4','5','6'}.\n\
             var:int 'd' = math { ('a') · ('b') }.\n\
             print[('d')]."),
        "32"
    );
}

#[test]
fn the_cross_product_gives_a_perpendicular_vector() {
    assert_eq!(
        one("var:vector:int 'a' [3] = {'1','2','3'}.\n\
             var:vector:int 'b' [3] = {'4','5','6'}.\n\
             var:vector:int 'c' = math { ('a') × ('b') }.\n\
             print[('c')]."),
        "{-3, 6, -3}"
    );
}

#[test]
fn elementwise_keeps_the_elements_separate() {
    assert_eq!(
        one("var:vector:int 'a' [3] = {'1','2','3'}.\n\
             var:vector:int 'b' [3] = {'4','5','6'}.\n\
             var:vector:int 'c' = math { ('a') ⊙ ('b') }.\n\
             print[('c')]."),
        "{4, 10, 18}"
    );
}

#[test]
fn matrix_multiplication_is_the_same_operator_as_the_dot_product() {
    assert_eq!(
        one("var:matrix:int 'a' [2, 2] = {{'1','2'}, {'3','4'}}.\n\
             var:matrix:int 'b' [2, 2] = {{'5','6'}, {'7','8'}}.\n\
             var:matrix:int 'c' = math { ('a') · ('b') }.\n\
             print[('c')]."),
        "{19, 22, 43, 50}"
    );
}

#[test]
fn an_out_of_range_index_is_caught() {
    assert_eq!(
        fails(
            "var:vector:int 'a' [3] = {'1','2','3'}.\n\
             var:int 'v' = math { ('a'):9; }.\n\
             print[('v')]."
        ),
        "AHPCL-RUN-0003"
    );
}

#[test]
fn a_conditional_produces_a_value() {
    assert_eq!(
        one("var:int 'x' = math { 0 - 5 }.\n\
             var:int 'a' = if math { ('x') < 0 } { handback math { -('x') }. }, else { hb ('x'). }.\n\
             print[('a')]."),
        "5"
    );
}

#[test]
fn an_else_if_chain_picks_the_right_arm() {
    let src = "var:int 'x' = '4'.\n\
               var:str 'r' = if math { ('x') > 5 } { hb \"big\". }, \
                             else if math { ('x') > 3 } { hb \"medium\". }, \
                             else { hb \"small\". }.\n\
               print[('r')].";
    assert_eq!(one(src), "medium");
}

#[test]
fn a_loop_builds_an_array_one_handback_at_a_time() {
    assert_eq!(
        one("var:vector:int 'sq' = loop:var:int 'i' = math { 1 to 5 } {\n\
                 handback math { ('i') xx 2 }.\n\
             }.\n\
             print[('sq')]."),
        "{1, 4, 9, 16, 25}"
    );
}

#[test]
fn a_loop_step_is_honoured() {
    assert_eq!(
        one("var:vector:int 'o' = loop:var:int 'i' = math { 1 to 9 by 2 } { hb ('i'). }.\n\
             print[('o')]."),
        "{1, 3, 5, 7, 9}"
    );
}

#[test]
fn nesting_loops_builds_a_matrix() {
    assert_eq!(
        one("var:matrix:int 't' = loop:var:int 'i' = math { 1 to 2 } {\n\
                 handback loop:var:int 'j' = math { 1 to 3 } {\n\
                     handback math { ('i') x ('j') }.\n\
                 }.\n\
             }.\n\
             print[('t')]."),
        "{1, 2, 3, 2, 4, 6}"
    );
}

#[test]
fn a_condition_loop_runs_until_it_is_false() {
    assert_eq!(
        one("var:int 'n' = '5'.\n\
             loop:while math { ('n') > 0 } {\n\
                 change:var:int 'n' = math { ('n') - 1 }.\n\
             }.\n\
             print[('n')]."),
        "0"
    );
}

#[test]
fn a_function_is_called_with_different_values() {
    assert_eq!(
        one("func:int 'area' [var:+int 'w', 'h'] { handback math { ('w') x ('h') }. }.\n\
             var:int 'k' = 'area'['3' '4'].\n\
             var:int 'b' = 'area'['5' '6'].\n\
             print[('k')].\n\
             print[('b')]."),
        "12\n30"
    );
}

#[test]
fn changing_a_variable_works() {
    assert_eq!(
        one("var:int 'x' = '1000'.\n\
             change:var:int 'x' = '2000'.\n\
             print[('x')]."),
        "2000"
    );
}

#[test]
fn writing_to_one_element_leaves_the_rest_alone() {
    assert_eq!(
        one("var:vector:int 'a' [3] = {'10', '20', '30'}.\n\
             change:var:int 'a':2; = '99'.\n\
             print[('a')]."),
        "{10, 99, 30}"
    );
}

#[test]
fn a_block_variable_does_not_escape() {
    assert_eq!(
        fails(
            "var:bool 'c' = 'true'.\n\
             if ('c') { var:int 'y' = '5'. }.\n\
             print[('y')]."
        ),
        "AHPCL-RUN-0001"
    );
}

#[test]
fn print_juxtaposes_its_arguments() {
    assert_eq!(
        one("var:int 'x' = '42'.\nprint[\"x is \" ('x') \".\"]."),
        "x is 42."
    );
}

#[test]
fn unicode_names_work_end_to_end() {
    assert_eq!(
        one("var:str '😂' = \"laughing\".\n\
             var:str '.' = \"!\".\n\
             print[\"Bro, I'm \" ('😂') ('.')]."),
        "Bro, I'm laughing!"
    );
}

#[test]
fn all_makes_an_operation_elementwise_rather_than_summing() {
    assert_eq!(
        one("var:vector:int 'a' [3] = {'1','2','3'}.\n\
             var:vector:int 'u' [3] = math { ('a'):all; + 1 }.\n\
             print[('u')]."),
        "{2, 3, 4}"
    );
    assert_eq!(
        one("var:vector:int 'a' [3] = {'1','2','3'}.\n\
             var:vector:int 'b' [3] = {'4','5','6'}.\n\
             var:vector:int 'v' [3] = math { ('a'):all; + ('b'):all; }.\n\
             print[('v')]."),
        "{5, 7, 9}"
    );
}

#[test]
fn a_bare_reference_still_sums() {
    assert_eq!(
        one("var:vector:int 'a' [3] = {'1','2','3'}.\n\
             var:int 's' = math { ('a') + 1 }.\n\
             print[('s')]."),
        "7"
    );
}

#[test]
fn all_and_the_hadamard_operator_agree() {
    let spelled_out = one("var:vector:int 'a' [3] = {'1','2','3'}.\n\
                           var:vector:int 'b' [3] = {'4','5','6'}.\n\
                           var:vector:int 'c' [3] = math { ('a'):all; x ('b'):all; }.\n\
                           print[('c')].");
    let symbol = one("var:vector:int 'a' [3] = {'1','2','3'}.\n\
                      var:vector:int 'b' [3] = {'4','5','6'}.\n\
                      var:vector:int 'c' [3] = math { ('a') ⊙ ('b') }.\n\
                      print[('c')].");
    assert_eq!(spelled_out, symbol);
    assert_eq!(spelled_out, "{4, 10, 18}");
}

#[test]
fn chained_selectors_address_successive_dimensions() {
    assert_eq!(
        one("var:matrix:int 'm' [2, 2] = {{'1','2'},{'3','4'}}.\n\
             var:vector:int 'c' [2] = math { ('m'):all;:2; }.\n\
             print[('c')]."),
        "{2, 4}"
    );
    assert_eq!(
        one("var:matrix:int 'm' [2, 2] = {{'1','2'},{'3','4'}}.\n\
             var:int 'v' = math { ('m'):2;:1; }.\n\
             print[('v')]."),
        "3"
    );
}

#[test]
fn a_range_selector_has_the_length_it_selects() {
    assert_eq!(
        one("var:vector:int 'a' [5] = {'10','20','30','40','50'}.\n\
             var:vector:int 'o' [3] = math { ('a'):1 to 5 by 2; }.\n\
             print[('o')]."),
        "{10, 30, 50}"
    );
}

#[test]
fn truncating_division_truncates_and_mod_gives_the_remainder() {
    assert_eq!(
        one("var:deci 'a' = '7.5'.\nvar:int 'q' = math { ('a') // 2 }.\nprint[('q')]."),
        "3"
    );
    assert_eq!(
        one("var:deci 'a' = '7.5'.\nvar:deci 'r' = math { ('a') mod 2 }.\nprint[('r')]."),
        "1.5"
    );
}

#[test]
fn integer_powers_of_rationals_stay_exact() {
    assert_eq!(
        one("var:rat 't' = math { 1 / 3 }.\n\
             var:rat 's' = math { ('t') xx 2 }.\n\
             print[('s')]."),
        "1/9"
    );
}

#[test]
fn decimal_division_and_powers_use_the_true_digits() {
    assert_eq!(
        one("var:deci 'a' = math { 58 / 3 }.\nprint[('a')]."),
        "19.333333333333333"
    );
    assert!(
        one("var:deci 'p' = math { 1.1 xx 20 }.\nprint[('p')].")
            .starts_with("6.7274999493256000"),
    );
}

#[test]
fn summing_an_array_does_not_wrap_on_overflow() {
    assert_eq!(
        fails(
            "var:vector:int 'v' [2] = {'170141183460469231731687303715884105727','1'}.\n\
             var:int 's' = math { ('v') + 0 }.\n\
             print[('s')]."
        ),
        "AHPCL-PREC-0004"
    );
}

#[test]
fn decimal_division_and_remainder_by_zero_are_errors() {
    assert_eq!(
        fails("var:deci 'a' = '7.5'.\nvar:int 'r' = math { ('a') // 0 }.\nprint[('r')]."),
        "AHPCL-RUN-0002"
    );
    assert_eq!(
        fails("var:deci 'a' = '7.5'.\nvar:deci 'r' = math { ('a') mod 0 }.\nprint[('r')]."),
        "AHPCL-RUN-0002"
    );
}

#[test]
fn a_loop_whose_handbacks_disagree_on_shape_is_an_error_not_a_panic() {
    let src = "var:matrix:int 'm' [3, 3] = loop:var:int 'i' = math { 1 to 3 } {\n\
                   handback loop:var:int 'j' = math { 1 to math { 4 - ('i') } } {\n\
                       handback math { ('j') }.\n\
                   }.\n\
               }.\n\
               print[('m')].";
    assert_eq!(fails(src), "AHPCL-RUN-0001");
}

// ── type checking ───────────────────────────────────────────────────────────

/// Type-check a program, returning the error codes it produced.
fn codes(src: &str) -> Vec<String> {
    let program = parse_source(src);
    let mut informer = Informer::new();
    check(&program, &mut informer).errors.into_iter().map(|e| e.code.render()).collect()
}

fn clean(src: &str) {
    let got = codes(src);
    assert!(got.is_empty(), "expected no errors, got {got:?}");
}

fn rejects(src: &str, code: &str) {
    let got = codes(src);
    assert!(got.iter().any(|c| c == code), "expected {code}, got {got:?}");
}

/// Informer notes produced while checking.
fn notes(src: &str) -> String {
    let program = parse_source(src);
    let mut informer = Informer::new();
    check(&program, &mut informer);
    informer.render(&SourceFile::new("t.ahpcl".to_string(), src.to_string()))
}

#[test]
fn a_literal_takes_its_type_from_the_declaration() {
    clean("var:deci 'a' = '0.1'.");
    clean("var:int 'n' = '1000'.");
}

#[test]
fn a_fraction_cannot_land_in_an_int() {
    rejects("var:int 'n' = '0.5'.", "AHPCL-TYPE-0002");
}

#[test]
fn division_needs_a_concrete_type() {
    rejects(
        "var:num 'x' = math { 1 / 3 }.",
        "AHPCL-TYPE-0001",
    );
    clean("var:deci 'x' = math { 1 / 3 }.");
    clean("var:rat 'x' = math { 1 / 3 }.");
}

#[test]
fn narrower_types_pass_into_wider_ones() {
    clean(
        "func:num 'f' [var:num 'v'] { handback ('v'). }.\n\
         var:int 'w' = '3'.\n\
         var:num 'a' = 'f'[('w')].",
    );
}

#[test]
fn a_plain_num_cannot_satisfy_a_positive_one() {
    rejects(
        "func:num 'f' [var:+num 'v'] { handback ('v'). }.\n\
         var:num 'w' = '3'.\n\
         var:num 'a' = 'f'[('w')].",
        "AHPCL-TYPE-0002",
    );
}

#[test]
fn every_widening_is_reported() {
    let out = notes(
        "func:num 'f' [var:num 'v'] { handback ('v'). }.\n\
         var:int 'w' = '3'.\n\
         var:num 'a' = 'f'[('w')].",
    );
    assert!(out.contains("widened"), "{out}");
}

#[test]
fn check_text_and_numbers_do_not_mix() {
    rejects("var:num 'x' = \"hello\".", "AHPCL-TYPE-0002");
}

#[test]
fn a_rank_name_must_agree_with_its_shape() {
    rejects("var:matrix:num 'm' [3] = {'1', '2', '3'}.", "AHPCL-SHAPE-0002");
    clean("var:matrix:num 'm' [2, 2] = {{'1', '2'}, {'3', '4'}}.");
}

#[test]
fn tensor_is_for_three_dimensions_or_more() {
    rejects("var:tensor:num 't' [3, 4] = {{'1'}}.", "AHPCL-SHAPE-0002");
}

#[test]
fn a_literal_must_match_the_declared_shape() {
    rejects(
        "var:matrix:num 'm' [3, 2] = {{'1', '2'}, {'3', '4'}}.",
        "AHPCL-SHAPE-0003",
    );
}

#[test]
fn inner_dimensions_must_agree_for_matrix_multiplication() {
    rejects(
        "var:matrix:num 'a' [3, 4] = {{'1'}}.\n\
         var:matrix:num 'b' [5, 2] = {{'1'}}.\n\
         var:matrix:num 'c' = math { ('a') · ('b') }.",
        "AHPCL-SHAPE-0001",
    );
}

#[test]
fn a_partial_shape_still_catches_a_known_mismatch() {
    rejects(
        "func:none 'f' [var:matrix:num 'data' [?, 3]] {\n\
             var:matrix:num 'w' [4, 2] = {{'1'}}.\n\
             var:matrix:num 'r' = math { ('data') · ('w') }.\n\
         }.",
        "AHPCL-SHAPE-0001",
    );
}

#[test]
fn cross_product_needs_two_three_element_vectors() {
    rejects(
        "var:vector:num 'a' [4] = {'1','2','3','4'}.\n\
         var:vector:num 'b' [4] = {'1','2','3','4'}.\n\
         var:vector:num 'c' = math { ('a') × ('b') }.",
        "AHPCL-SHAPE-0001",
    );
}

#[test]
fn elementwise_needs_matching_shapes() {
    rejects(
        "var:vector:num 'a' [3] = {'1','2','3'}.\n\
         var:vector:num 'b' [4] = {'1','2','3','4'}.\n\
         var:vector:num 'c' = math { ('a') ⊙ ('b') }.",
        "AHPCL-SHAPE-0001",
    );
}

#[test]
fn an_unknown_name_is_reported_with_a_suggestion() {
    let program = parse_source("var:num 'widths' = '1'.\nvar:num 'y' = ('width').");
    let mut informer = Informer::new();
    let errors = check(&program, &mut informer).errors;
    assert_eq!(errors[0].code.render(), "AHPCL-NAME-0001");
    assert!(errors[0].suggest_fix.contains("widths"), "{}", errors[0].suggest_fix);
}

#[test]
fn a_variable_does_not_outlive_its_block() {
    rejects(
        "var:bool 'c' = 'true'.\n\
         if ('c') {\n\
             var:num 'y' = '5'.\n\
         }.\n\
         var:num 'z' = ('y').",
        "AHPCL-NAME-0001",
    );
}

#[test]
fn check_shadowing_is_legal_and_reported() {
    let out = notes(
        "var:num 'y' = '1'.\n\
         var:bool 'c' = 'true'.\n\
         if ('c') {\n\
             var:num 'y' = '5'.\n\
         }.",
    );
    assert!(out.contains("shadows"), "{out}");
}

#[test]
fn a_call_checks_its_arguments() {
    rejects(
        "func:num 'f' [var:num 'a', 'b'] { handback ('a'). }.\n\
         var:num 'r' = 'f'['1'].",
        "AHPCL-NAME-0003",
    );
}

#[test]
fn an_unknown_function_is_reported_with_a_suggestion() {
    let program = parse_source(
        "func:num 'area' [var:num 'a'] { handback ('a'). }.\n\
         var:num 'r' = 'aria'['1'].",
    );
    let mut informer = Informer::new();
    let errors = check(&program, &mut informer).errors;
    assert!(errors.iter().any(|e| e.suggest_fix.contains("area")), "{errors:#?}");
}

#[test]
fn a_function_promising_a_value_must_hand_one_back() {
    rejects(
        "func:num 'f' [var:num 'a'] { print[\"nothing\"]. }.",
        "AHPCL-TYPE-0002",
    );
}

#[test]
fn a_none_function_need_not_hand_anything_back() {
    clean("func:none 'log' [var:str 'm'] { print[('m')]. }.");
}

#[test]
fn functions_are_visible_before_their_declaration() {
    clean(
        "var:num 'r' = 'f'['1'].\n\
         func:num 'f' [var:num 'a'] { handback ('a'). }.",
    );
}

#[test]
fn a_restated_type_must_match_the_declaration() {
    rejects(
        "var:num 'x' = '1000'.\nchange:var:int 'x' = '2000'.",
        "AHPCL-TYPE-0004",
    );
    clean("var:num 'x' = '1000'.\nchange:var:num 'x' = '2000'.");
}

#[test]
fn changing_an_undeclared_variable_is_reported() {
    rejects("change:var:num 'x' = '1'.", "AHPCL-NAME-0001");
}

#[test]
fn a_loop_counter_is_read_only() {
    rejects(
        "loop:var:int 'i' = math { 1 to 10 } {\n\
             change:var:int 'i' = '99'.\n\
         }.",
        "AHPCL-SIGN-0002",
    );
}

#[test]
fn a_condition_must_be_a_bool() {
    rejects(
        "var:num 'x' = '1'.\nif ('x') { print[\"hi\"]. }.",
        "AHPCL-TYPE-0002",
    );
    clean("var:num 'x' = '1'.\nif math { ('x') > 0 } { print[\"hi\"]. }.");
}

#[test]
fn infnum_takes_digits_not_bits() {
    rejects("var:infnum 'x' [64 bit] = '1'.", "AHPCL-PREC-0002");
    clean("var:infnum 'x' [30 digits] = math { pi }.");
}

#[test]
fn deci_widths_follow_ieee() {
    rejects("var:deci 'x' [8 bit] = '0.1'.", "AHPCL-PREC-0003");
    clean("var:deci 'x' [128 bit] = '0.1'.");
}

#[test]
fn an_irrational_result_cannot_land_in_an_int() {
    rejects("var:int 'r' = math { sqrt 2 }.", "AHPCL-TYPE-0002");
}

#[test]
fn a_deci_may_hold_a_rounded_irrational_and_says_so() {
    let out = notes("var:deci 'r' = math { sqrt 2 }.");
    assert!(out.contains("irrational"), "{out}");
    assert!(out.contains("rounded"), "{out}");
}

#[test]
fn a_literal_must_satisfy_its_sign_refinement() {
    rejects("var:+int 'n' = '-5'.", "AHPCL-SIGN-0001");
    rejects("var:+int 'n' = '0'.", "AHPCL-SIGN-0001");
    rejects("var:-int 'n' = '5'.", "AHPCL-SIGN-0001");
    clean("var:+int 'n' = '5'.");
}

#[test]
fn a_literal_must_fit_the_stated_width() {
    rejects("var:int 'x' [8 bit] = '1000'.", "AHPCL-PREC-0004");
    clean("var:int 'x' [8 bit] = '100'.");
    clean("var:+int 'x' [8 bit] = '200'.");
}

#[test]
fn only_the_offered_widths_are_accepted() {
    rejects("var:int 'x' [7 bit] = '5'.", "AHPCL-PREC-0005");
    clean("var:int 'x' [16 bit] = '5'.");
}

#[test]
fn division_cannot_land_in_an_int() {
    rejects("var:int 'q' = math { 10 / 4 }.", "AHPCL-TYPE-0002");
    clean("var:int 'q' = math { 10 // 4 }.");
}

#[test]
fn a_conditional_used_for_its_value_needs_an_else() {
    rejects(
        "var:int 'x' = '0'.\n\
         var:int 'v' = if math { ('x') > 5 } { handback '5'. }.",
        "AHPCL-TYPE-0002",
    );
    clean(
        "var:int 'x' = '0'.\n\
         var:int 'v' = if math { ('x') > 5 } { handback '5'. }, else { handback '0'. }.",
    );
}

#[test]
fn elementwise_operations_keep_their_shape() {
    clean(
        "var:vector:int 'a' [3] = {'1','2','3'}.\n\
         var:vector:int 'u' [3] = math { ('a'):all; + 1 }.",
    );
    rejects(
        "var:vector:int 'a' [3] = {'1','2','3'}.\n\
         var:vector:int 'b' [4] = {'1','2','3','4'}.\n\
         var:vector:int 'c' [3] = math { ('a'):all; + ('b'):all; }.",
        "AHPCL-SHAPE-0001",
    );
}

#[test]
fn a_range_selector_reports_the_length_it_selects() {
    clean(
        "var:vector:int 'a' [5] = {'10','20','30','40','50'}.\n\
         var:vector:int 'o' [3] = math { ('a'):1 to 5 by 2; }.",
    );
}

#[test]
fn too_many_selectors_for_the_rank_is_an_error() {
    rejects(
        "var:vector:int 'a' [3] = {'1','2','3'}.\n\
         var:int 'v' = math { ('a'):1;:1; }.",
        "AHPCL-SHAPE-0001",
    );
}

#[test]
fn asking_for_more_places_than_are_known_is_rejected() {
    rejects("var:infnum 'x' [40 digits] = math { pi }.", "AHPCL-PREC-0004");
    rejects("var:infnum 'x' [30 digits] = math { sqrt 2 }.", "AHPCL-PREC-0004");
    clean("var:infnum 'x' [18 digits] = math { sqrt 2 }.");
}

#[test]
fn naming_one_array_as_another_is_refused() {
    rejects(
        "var:vector:int 'a' [3] = {'1','2','3'}.\nvar:vector:int 'b' = ('a').",
        "AHPCL-TYPE-0006",
    );
    rejects(
        "var:vector:int 'a' [3] = {'1','2','3'}.\n\
         var:vector:int 'b' [3] = {'0','0','0'}.\n\
         change:var:vector:int 'b' = ('a').",
        "AHPCL-TYPE-0006",
    );
    clean("var:vector:int 'a' [3] = {'1','2','3'}.\nvar:vector:int 'b' [3] = ('a'):all;.");
    clean("var:vector:int 'a' [3] = {'1','2','3'}.\nvar:int 's' [64 bit] = math { ('a') }.");
}

// ── range analysis ──────────────────────────────────────────────────────────

fn verified(src: &str) -> (Vec<String>, String) {
    let program = parse_source(src);
    let mut informer = Informer::new();
    let out = verify(&program, &mut informer, EvalBudget::Unlimited);
    let notes = informer.render(&SourceFile::new("t.ahpcl".to_string(), src.to_string()));
    (out.errors.into_iter().map(|e| e.code.render()).collect(), notes)
}

#[test]
fn a_width_is_inferred_from_the_range() {
    let (errors, notes) = verified("var:int 'x' = '1000'.");
    assert!(errors.is_empty(), "{errors:?}");
    assert!(notes.contains("inferred as [16 bit]"), "{notes}");
}

#[test]
fn range_analysis_looks_at_every_use_not_just_the_initialiser() {
    let (_, notes) = verified("var:int 'x' = '1000'.\nvar:int 'y' = math { ('x') x 100 }.");
    assert!(notes.contains("'y' inferred as [32 bit]"), "{notes}");
}

#[test]
fn a_value_that_is_not_knowable_needs_a_stated_width() {
    let (errors, _) = verified("var:str 'r' = read[\"f\"].\nvar:int 'z' = parse[('r')].");
    assert!(errors.contains(&"AHPCL-PREC-0001".to_string()), "{errors:?}");
}

#[test]
fn stating_a_width_silences_that() {
    let (errors, _) =
        verified("var:str 'r' = read[\"f\"].\nvar:int 'z' [32 bit] = parse[('r')].");
    assert!(!errors.contains(&"AHPCL-PREC-0001".to_string()), "{errors:?}");
}

#[test]
fn infnum_is_the_way_to_say_unbounded() {
    let (errors, _) = verified("var:str 'r' = read[\"f\"].\nvar:infnum 'z' = parse[('r')].");
    assert!(errors.is_empty(), "{errors:?}");
}

#[test]
fn a_stated_width_is_checked_against_the_range() {
    let (errors, _) = verified("var:int 'x' [8 bit] = '1000'.");
    assert!(errors.contains(&"AHPCL-PREC-0004".to_string()), "{errors:?}");
}

#[test]
fn layer_one_verifies_a_known_value() {
    let (errors, notes) = verified("var:+int 'n' = '10'.");
    assert!(errors.is_empty(), "{errors:?}");
    assert!(notes.contains("evaluated at compile time to 10"), "{notes}");
}

#[test]
fn layer_two_proves_a_countdown_stays_positive() {
    let (errors, notes) = verified(
        "var:+int 'n' = '100'.\n\
         loop:while math { ('n') > 1 } {\n\
             change:var:+int 'n' = math { ('n') - 1 }.\n\
         }.",
    );
    assert!(errors.is_empty(), "{errors:?}");
    assert!(notes.contains("range analysis proved"), "{notes}");
}

#[test]
fn layer_three_inserts_a_check_when_nothing_proves_it() {
    let (errors, notes) = verified(
        "var:str 'r' = read[\"f\"].\n\
         var:+int 'n' [32 bit] = parse[('r')].",
    );
    assert!(errors.is_empty(), "{errors:?}");
    assert!(notes.contains("runtime check inserted"), "{notes}");
}

#[test]
fn a_range_that_definitely_breaks_the_promise_is_an_error() {
    let (errors, _) = verified(
        "var:+int 'n' = '10'.\n\
         change:var:+int 'n' = math { 0 - 5 }.",
    );
    assert!(errors.contains(&"AHPCL-SIGN-0003".to_string()), "{errors:?}");
}

fn verified_within(src: &str, budget: EvalBudget) -> (Vec<String>, usize) {
    let program = parse_source(src);
    let mut informer = Informer::new();
    let out = verify(&program, &mut informer, budget);
    (out.errors.into_iter().map(|e| e.code.render()).collect(), out.runtime_checks.len())
}

#[test]
fn evaluation_is_not_used_where_it_is_off() {
    let src = "var:+int 'n' = '10'.";
    let program = parse_source(src);
    let mut informer = Informer::new();
    let out = verify(&program, &mut informer, EvalBudget::Off);
    assert!(out.errors.is_empty());
    let notes = informer.render(&SourceFile::new("t.ahpcl".to_string(), src.to_string()));
    assert!(!notes.contains("evaluated at compile time"), "{notes}");
    let (_, notes) = verified(src);
    assert!(notes.contains("evaluated at compile time to 10"), "{notes}");
}

#[test]
fn a_limited_budget_runs_out() {
    let src = "var:+int 'n' = '10'.\nvar:+int 'k' = '11'.";
    let noted = |budget: EvalBudget| {
        let program = parse_source(src);
        let mut informer = Informer::new();
        verify(&program, &mut informer, budget);
        let notes = informer.render(&SourceFile::new("t.ahpcl".to_string(), src.to_string()));
        (notes.contains("compile time to 10"), notes.contains("compile time to 11"))
    };
    assert_eq!(noted(EvalBudget::Limited(0)), (false, false));
    assert_eq!(noted(EvalBudget::Limited(1)), (true, false));
    assert_eq!(noted(EvalBudget::Unlimited), (true, true));
}

#[test]
fn a_name_is_forgotten_where_its_block_ends() {
    let (errors, _) = verified_within(
        "var:int 'x' = '5'.\n\
         if math { ('x') > 1 } {\n\
             var:int 'x' [64 bit] = math { 0 - 7 }.\n\
         }.\n\
         var:+int 'y' = math { ('x') }.",
        EvalBudget::Off,
    );
    assert!(!errors.contains(&"AHPCL-SIGN-0003".to_string()), "{errors:?}");
}

#[test]
fn a_width_takes_in_what_a_name_is_changed_to() {
    let (errors, notes) = verified("var:int 'x' = '5'.\nchange:var:int 'x' = '1000'.");
    assert!(errors.is_empty(), "{errors:?}");
    assert!(notes.contains("'x' inferred as [16 bit]"), "{notes}");
}

// ── native code ─────────────────────────────────────────────────────────────

#[test]
fn arithmetic_compiles_and_gives_the_right_answer() {
    assert_eq!(
        compile_and_run("var:int 'r' = math { 2 + 3 * 4 }.\nprint[('r')]."),
        "14"
    );
}

#[test]
fn precedence_survives_code_generation() {
    assert_eq!(
        compile_and_run("var:int 'r' = math { -3 xx 2 }.\nprint[('r')]."),
        "-9"
    );
    assert_eq!(
        compile_and_run("var:int 'r' = math { 2 xx 3 xx 2 }.\nprint[('r')]."),
        "512"
    );
}

#[test]
fn integer_division_and_remainder_compile() {
    assert_eq!(
        compile_and_run("var:int 'r' = math { 10 // 4 }.\nprint[('r')]."),
        "2"
    );
    assert_eq!(
        compile_and_run("var:int 'r' = math { 10 mod 4 }.\nprint[('r')]."),
        "2"
    );
}

#[test]
fn a_counted_loop_compiles() {
    assert_eq!(
        compile_and_run("var:int 't' = '0'.\n\
             loop:var:int 'i' = math { 1 to 100 } {\n\
                 change:var:int 't' = math { ('t') + ('i') }.\n\
             }.\n\
             print[('t')]."
        ),
        "5050"
    );
}

#[test]
fn a_loop_step_compiles() {
    assert_eq!(
        compile_and_run("var:int 't' = '0'.\n\
             loop:var:int 'i' = math { 1 to 9 by 2 } {\n\
                 change:var:int 't' = math { ('t') + ('i') }.\n\
             }.\n\
             print[('t')]."
        ),
        "25"
    );
}

#[test]
fn a_condition_loop_compiles() {
    assert_eq!(
        compile_and_run("var:int 'n' = '5'.\n\
             loop:while math { ('n') > 0 } {\n\
                 change:var:int 'n' = math { ('n') - 1 }.\n\
             }.\n\
             print[('n')]."
        ),
        "0"
    );
}

#[test]
fn an_if_else_chain_compiles() {
    let src = "var:int 'x' = '4'.\n\
               var:int 'r' = '0'.\n\
               if math { ('x') > 5 } {\n\
                   change:var:int 'r' = '1'.\n\
               }, else if math { ('x') > 3 } {\n\
                   change:var:int 'r' = '2'.\n\
               }, else {\n\
                   change:var:int 'r' = '3'.\n\
               }.\n\
               print[('r')].";
    assert_eq!(compile_and_run(src), "2");
}

#[test]
fn functions_compile_and_are_callable() {
    assert_eq!(
        compile_and_run("func:int 'square' [var:int 'n'] { handback math { ('n') x ('n') }. }.\n\
             var:int 'a' = 'square'['7'].\n\
             print[('a')]."
        ),
        "49"
    );
}

#[test]
fn a_name_with_spaces_and_emoji_survives_mangling() {
    assert_eq!(
        compile_and_run("func:int 'my 😂 helper' [var:int 'n'] { handback math { ('n') + 1 }. }.\n\
             var:int 'r' = 'my 😂 helper'['41'].\n\
             print[('r')]."
        ),
        "42"
    );
}

#[test]
fn text_and_values_print_together() {
    assert_eq!(
        compile_and_run("var:int 'x' = '42'.\nprint[\"x is\"].\nprint[('x')]."
        ),
        "x is\n42"
    );
}

#[test]
fn a_conditional_used_as_a_value_compiles() {
    assert_eq!(
        compile_and_run("var:int 'r' = if math { 1 > 0 } { hb '1'. }, else { hb '2'. }.\nprint[('r')]."
        ),
        "1"
    );
}

#[test]
fn a_loop_used_as_a_value_collects_its_handbacks() {
    assert_eq!(
        compile_and_run("var:vector:int 'squares' = loop:var:int 'i' = math { 1 to 4 } {\n\
                 handback math { ('i') x ('i') }.\n\
             }.\n\
             print[('squares')]."
        ),
        "{1, 4, 9, 16}"
    );
}

#[test]
fn text_values_compile() {
    assert_eq!(
        compile_and_run("var:str 's' = \"hello\".\nprint[('s')]."),
        "hello"
    );
}

#[test]
fn text_comparison_compiles() {
    assert_eq!(
        compile_and_run("var:str 'a' = \"Alice\".\n\
             var:bool 'same' = math { ('a') = \"Alice\" }.\n\
             var:bool 'after' = math { ('a') > \"Bob\" }.\n\
             print[('same')].\nprint[('after')]."
        ),
        "true\nfalse"
    );
}

#[test]
fn parsing_compiles_with_its_options() {
    assert_eq!(
        compile_and_run("var:int 'n' [32 bit] = parse[\"1,234\" group:\",\"].\n\
             var:deci 'd' [64 bit] = parse[\"  3.25  \" trim].\n\
             var:int 'h' [32 bit] = parse[\"0xff\" hex].\n\
             print[('n')].\nprint[('d')].\nprint[('h')]."
        ),
        "1234\n3.25\n255"
    );
}

#[test]
fn rationals_are_exact_in_native_code() {
    assert_eq!(
        compile_and_run("var:rat 'a' = math { 1 / 3 }.\n\
             var:rat 'b' = math { ('a') + ('a') + ('a') }.\n\
             print[('a')].\nprint[('b')]."
        ),
        "1/3\n1"
    );
}

#[test]
fn rationals_reduce_natively() {
    assert_eq!(
        compile_and_run("var:rat 'r' [64 bit] = parse[\"0.5\"].\nprint[('r')]."
        ),
        "1/2"
    );
}

#[test]
fn infnum_compiles_and_stays_exact() {
    assert_eq!(
        compile_and_run("var:infnum 'x' = '1.1'.\n\
             var:infnum 'y' = math { ('x') x ('x') }.\n\
             print[('y')]."
        ),
        "1.21"
    );
}

#[test]
fn division_between_integers_compiles_into_a_decimal() {
    assert_eq!(
        compile_and_run("var:deci 'r' = math { 1 / 3 }.\nprint[('r')]."),
        "0.333333333333333"
    );
}

#[test]
fn arrays_compile_and_print_like_the_interpreter() {
    assert_eq!(
        compile_and_run("var:vector:int 'a' [3] = {'1','2','3'}.\nprint[('a')]."
        ),
        "{1, 2, 3}"
    );
}

#[test]
fn the_array_operators_compile() {
    let src = "var:vector:int 'a' [3] = {'1','2','3'}.\n\
               var:vector:int 'b' [3] = {'4','5','6'}.\n\
               var:int 'd' [64 bit] = math { ('a') · ('b') }.\n\
               var:vector:int 'h' [3] = math { ('a') ⊙ ('b') }.\n\
               var:vector:int 'c' [3] = math { ('a') × ('b') }.\n\
               print[('d')].\nprint[('h')].\nprint[('c')].";
    assert_eq!(compile_and_run(src), "32\n{4, 10, 18}\n{-3, 6, -3}");
}

#[test]
fn array_selectors_compile() {
    let src = "var:vector:int 'a' [5] = {'10','20','30','40','50'}.\n\
               var:int 'n' [64 bit] = ('a'):length;.\n\
               var:int 'third' [64 bit] = ('a'):3;.\n\
               var:vector:int 'odd' [3] = ('a'):1 to 5 by 2;.\n\
               print[('n')].\nprint[('third')].\nprint[('odd')].";
    assert_eq!(compile_and_run(src), "5\n30\n{10, 30, 50}");
}

#[test]
fn writing_to_an_array_element_compiles() {
    let src = "var:vector:int 'a' [3] = {'1','2','3'}.\n\
               change:var:int 'a':2; = '99'.\n\
               print[('a')].";
    assert_eq!(compile_and_run(src), "{1, 99, 3}");
}

#[test]
fn arrays_of_decimals_stay_exact_natively() {
    let src = "var:vector:deci 'a' [2] = {'0.1','0.2'}.\n\
               var:vector:deci 'b' [2] = {'0.2','0.1'}.\n\
               var:vector:deci 's' [2] = math { ('a'):all; + ('b'):all; }.\n\
               print[('s')].";
    assert_eq!(compile_and_run(src), "{0.3, 0.3}");
}

#[test]
fn a_bare_array_reference_sums_natively() {
    let src = "var:vector:deci 'a' [2] = {'0.1','0.2'}.\n\
               var:vector:deci 'b' [2] = {'0.2','0.1'}.\n\
               var:deci 's' = math { ('a') + ('b') }.\n\
               print[('s')].";
    assert_eq!(compile_and_run(src), "0.6");
}

#[test]
fn matrix_multiplication_compiles() {
    let src = "var:matrix:int 'a' [2, 2] = {{'1','2'},{'3','4'}}.\n\
               var:matrix:int 'b' [2, 2] = {{'5','6'},{'7','8'}}.\n\
               var:matrix:int 'p' [2, 2] = math { ('a') · ('b') }.\n\
               print[('p')].";
    assert_eq!(compile_and_run(src), "{19, 22, 43, 50}");
}

#[test]
fn decimals_are_exact_in_native_code_too() {
    assert_eq!(
        compile_and_run("var:deci 'a' = '0.1', 'b' = '0.2'.\n\
             var:deci 's' = math { ('a') + ('b') }.\n\
             print[('s')]."
        ),
        "0.3"
    );
}

#[test]
fn decimal_division_uses_the_true_digits_natively() {
    assert_eq!(
        compile_and_run("var:deci 'a' = '58', 'b' = '3'.\n\
             var:deci 'q' = math { ('a') / ('b') }.\n\
             print[('q')]."
        ),
        "19.333333333333333"
    );
}

#[test]
fn decimal_comparison_compiles() {
    assert_eq!(
        compile_and_run("var:deci 'a' = '0.1', 'b' = '0.2'.\n\
             var:deci 's' = math { ('a') + ('b') }.\n\
             var:int 'r' = '0'.\n\
             if math { ('s') = '0.3' } { change:var:int 'r' = '1'. }, else { change:var:int 'r' = '2'. }.\n\
             print[('r')]."
        ),
        "1"
    );
}

#[test]
fn an_int_widens_into_a_decimal_context() {
    assert_eq!(
        compile_and_run("var:deci 'a' = '0.5'.\n\
             var:int 'n' = '3'.\n\
             var:deci 's' = math { ('a') + ('n') }.\n\
             print[('s')]."
        ),
        "3.5"
    );
}

#[test]
fn integer_division_is_euclidean_natively() {
    assert_eq!(
        compile_and_run("var:int 'a' [32 bit] = math { 0 - 7 }.\n\
             var:int 'b' [32 bit] = '3'.\n\
             var:int 'q' [32 bit] = math { ('a') // ('b') }.\n\
             var:int 'r' [32 bit] = math { ('a') mod ('b') }.\n\
             print[('q')].\nprint[('r')]."
        ),
        "-3\n2"
    );
}

#[test]
fn booleans_print_as_words_natively() {
    assert_eq!(
        compile_and_run("var:bool 'a' = 'true'.\nprint[('a')]."),
        "true"
    );
}

#[test]
fn negating_a_decimal_compiles_rather_than_panicking() {
    assert_eq!(
        compile_and_run("var:deci 'a' [64 bit] = '2.5'.\n\
             var:deci 'n' [64 bit] = math { -('a') }.\n\
             print[('n')]."
        ),
        "-2.5"
    );
}

#[test]
fn square_root_is_exact_natively() {
    assert_eq!(
        compile_and_run("var:deci 'r' = math { sqrt '2' }.\nprint[('r')]."
        ),
        "1.414213562373095"
    );
}

#[test]
fn the_constants_compile_to_their_declared_precision() {
    assert_eq!(
        compile_and_run("var:deci 'a' [10 digits] = math { pi }.\n\
             var:deci 'b' [5 digits] = math { e }.\n\
             print[('a')].\nprint[('b')]."
        ),
        "3.1415926536\n2.71828"
    );
}

#[test]
fn powers_of_exact_values_compile() {
    assert_eq!(
        compile_and_run("var:deci 'a' = '1.1'.\n\
             var:deci 'b' = math { ('a') xx 20 }.\n\
             var:rat 'r' = math { 1 / 3 }.\n\
             var:rat 'c' = math { ('r') xx 3 }.\n\
             print[('b')].\nprint[('c')]."
        ),
        "6.72749994932560009201\n1/27"
    );
}

#[test]
fn decimal_division_and_remainder_are_euclidean_natively() {
    assert_eq!(
        compile_and_run("var:deci 'a' = '-7.5'.\n\
             var:deci 'b' = '2'.\n\
             var:int 'q' [32 bit] = math { ('a') // ('b') }.\n\
             var:deci 'r' = math { ('a') mod ('b') }.\n\
             print[('q')].\nprint[('r')]."
        ),
        "-4\n0.5"
    );
}

#[test]
fn text_and_bool_arrays_compile() {
    assert_eq!(
        compile_and_run("var:vector:str 's' [3] = {\"a\",\"b\",\"c\"}.\n\
             var:vector:bool 'b' [2] = {'true','false'}.\n\
             print[('s')].\nprint[('b')].\nprint[('s'):2;]."
        ),
        "{a, b, c}\n{true, false}\nb"
    );
}

#[test]
fn the_transcendental_operators_compile() {
    assert_eq!(
        compile_and_run("var:deci 'a' [6 digits] = math { cos '0' }.\n\
             var:deci 'b' [6 digits] = math { log '100' }.\n\
             print[('a')].\nprint[('b')]."
        ),
        "1\n2"
    );
}

#[test]
fn reading_a_file_compiles() {
    assert_eq!(
        compile_and_run("var:str 'text' = read[\"read-me.txt\"].\nprint[('text')]."),
        "hello from a file"
    );
}

#[test]
fn a_loop_counter_reads_correctly_in_an_exact_context() {
    assert_eq!(
        compile_and_run("loop:var:int 'i' = math { 1 to 3 } {\n\
                 var:deci 'x' = math { ('i') / 4 }.\n\
                 print[('x')].\n\
             }."
        ),
        "0.25\n0.5\n0.75"
    );
}

#[test]
fn a_declaration_inside_a_loop_does_not_leak_out_of_it() {
    assert_eq!(
        compile_and_run("var:int 'x' [32 bit] = '7'.\n\
             loop:var:int 'i' = math { 1 to 1 } {\n\
                 var:deci 'x' = '1.5'.\n\
                 print[('x')].\n\
             }.\n\
             print[('x')]."
        ),
        "1.5\n7"
    );
}

#[test]
fn a_bare_array_reference_sums_even_on_its_own() {
    assert_eq!(
        compile_and_run("var:vector:int 'a' [4] = {'1','2','3','4'}.\n\
             var:int 's' [64 bit] = math { ('a') }.\n\
             print[('s')]."
        ),
        "10"
    );
}

#[test]
fn native_a_selector_addresses_a_dimension_not_the_flat_buffer() {
    let src = "var:matrix:int 'm' [3,4] = {{'1','2','3','4'},{'5','6','7','8'},{'9','10','11','12'}}.\n\
               var:vector:int 'row' [4] = ('m'):2;.\n\
               var:int 'cell' [64 bit] = ('m'):2;:3;.\n\
               print[('row')].\nprint[('cell')].";
    assert_eq!(compile_and_run(src), "{5, 6, 7, 8}\n7");
}

#[test]
fn an_elementwise_unary_keeps_the_array() {
    assert_eq!(
        compile_and_run("var:vector:int 'a' [3] = {'1','2','3'}.\n\
             var:vector:int 'b' [3] = math { -('a'):all; }.\n\
             print[('b')]."
        ),
        "{-1, -2, -3}"
    );
}

#[test]
fn integers_are_128_bit_natively() {
    assert_eq!(
        compile_and_run("var:int 'a' [128 bit] = '9223372036854775807'.\n\
             var:int 'b' [128 bit] = math { ('a') + ('a') }.\n\
             print[('b')]."
        ),
        "18446744073709551614"
    );
    assert_eq!(
        compile_and_run("var:int 'a' [128 bit] = '99999999999'.\n\
             var:int 'b' [128 bit] = math { ('a') x ('a') }.\n\
             print[('b')]."
        ),
        "9999999999800000000001"
    );
}

#[test]
fn a_literal_may_use_the_whole_int_range() {
    assert_eq!(
        compile_and_run("var:int 'm' [128 bit] = '170141183460469231731687303715884105727'.\nprint[('m')]."
        ),
        "170141183460469231731687303715884105727"
    );
}

#[test]
fn elementwise_comparison_compares_the_operands_not_the_result() {
    assert_eq!(
        compile_and_run("var:vector:int 'a' [3] = {'1','2','3'}.\n\
             var:vector:bool 'b' [3] = math { ('a'):all; > 2 }.\n\
             print[('b')]."
        ),
        "{false, false, true}"
    );
}

#[test]
fn parse_reads_a_fraction_when_asked() {
    assert_eq!(
        compile_and_run("var:rat 'r' [64 bit] = parse[\"2/6\" fraction].\nprint[('r')]."
        ),
        "1/3"
    );
}

// ── the two agree ───────────────────────────────────────────────────────────

/// What the interpreter and the lowered code print is the same.
fn agree(name: &str, source: &str) {
    clean(source);
    let a = interpreted(source);
    let b = compile_and_run(source);
    assert_eq!(a, b, "{name}: the two disagree");
}

/// Programs chosen to cross the seams where the two could drift apart: each exact type,
/// arrays and their operators, selectors on rank above one, the value-forms, and the
/// arithmetic whose rounding rules are easy to get subtly wrong.
const CASES: &[(&str, &str)] = &[
    (
        "exact_decimals",
        "var:deci 'a' = '0.1', 'b' = '0.2'.\n\
         var:deci 's' = math { ('a') + ('b') }.\n\
         var:bool 'exact' = math { ('s') = '0.3' }.\n\
         print[('s')].\nprint[('exact')].",
    ),
    (
        "exact_rationals",
        "var:rat 'a' = math { 1 / 3 }.\n\
         var:rat 't' = math { ('a') + ('a') + ('a') }.\n\
         var:rat 'sq' = math { ('a') x ('a') }.\n\
         print[('a')].\nprint[('t')].\nprint[('sq')].",
    ),
    (
        "euclidean_division",
        "var:int 'a' [32 bit] = math { 0 - 17 }.\n\
         var:int 'b' [32 bit] = '5'.\n\
         var:int 'q' [32 bit] = math { ('a') // ('b') }.\n\
         var:int 'r' [32 bit] = math { ('a') mod ('b') }.\n\
         print[('q')].\nprint[('r')].",
    ),
    (
        "text_and_comparison",
        "var:str 'n' = \"Alice\".\n\
         var:bool 'same' = math { ('n') = \"Alice\" }.\n\
         var:bool 'before' = math { ('n') < \"Bob\" }.\n\
         print[('n')].\nprint[('same')].\nprint[('before')].",
    ),
    (
        "array_operators",
        "var:vector:int 'u' [3] = {'1','2','3'}.\n\
         var:vector:int 'v' [3] = {'4','5','6'}.\n\
         var:int 'dot' [64 bit] = math { ('u') · ('v') }.\n\
         var:vector:int 'had' [3] = math { ('u') ⊙ ('v') }.\n\
         var:vector:int 'crs' [3] = math { ('u') × ('v') }.\n\
         print[('dot')].\nprint[('had')].\nprint[('crs')].",
    ),
    (
        "matrix_selectors",
        "var:matrix:int 'm' [3,4] = {{'1','2','3','4'},{'5','6','7','8'},{'9','10','11','12'}}.\n\
         var:vector:int 'row' [4] = ('m'):2;.\n\
         var:int 'cell' [64 bit] = ('m'):2;:3;.\n\
         var:vector:int 'shp' = ('m'):shape;.\n\
         var:int 'len' [64 bit] = ('m'):length;.\n\
         print[('row')].\nprint[('cell')].\nprint[('shp')].\nprint[('len')].",
    ),
    (
        "rule_a_reduction",
        "var:vector:int 'a' [4] = {'1','2','3','4'}.\n\
         var:int 's' [64 bit] = math { ('a') }.\n\
         var:vector:int 'd' [4] = math { -('a'):all; }.\n\
         print[('s')].\nprint[('d')].",
    ),
    (
        "loop_counter_in_exact_context",
        "loop:var:int 'i' = math { 1 to 4 } {\n\
             var:deci 'x' = math { ('i') / 8 }.\n\
             print[('x')].\n\
         }.",
    ),
    (
        "loop_as_a_value",
        "var:vector:int 'squares' = loop:var:int 'i' = math { 1 to 5 } {\n\
             handback math { ('i') x ('i') }.\n\
         }.\n\
         print[('squares')].",
    ),
    (
        "functions_and_recursion",
        "func:int 'fact' [var:int 'n' [32 bit]] {\n\
             if math { ('n') <= 1 } { handback '1'. }, else {\n\
                 handback math { ('n') x 'fact'[math { ('n') - 1 }] }.\n\
             }.\n\
         }.\n\
         var:int 'f' [64 bit] = 'fact'['10'].\n\
         print[('f')].",
    ),
    (
        "handback_ends_the_iteration",
        "var:vector:int 'v' = loop:var:int 'i' = math { 1 to 4 } {\n\
             if math { ('i') > 2 } {\n\
                 handback ('i').\n\
             }.\n\
             print[\"tail\"].\n\
         }.\n\
         print[('v')].",
    ),
    (
        "handback_from_a_while_loop",
        "var:int 'n' [32 bit] = '3'.\n\
         var:vector:int 'v' = loop:while math { ('n') > 0 } {\n\
             change:var:int 'n' = math { ('n') - 1 }.\n\
             handback ('n').\n\
         }.\n\
         print[('v')].",
    ),
    (
        "large_integers",
        "var:int 'a' [128 bit] = '9223372036854775807'.\n\
         var:int 'b' [128 bit] = math { ('a') + ('a') }.\n\
         var:int 'c' [128 bit] = '99999999999'.\n\
         var:int 'd' [128 bit] = math { ('c') x ('c') }.\n\
         var:int 'e' [128 bit] = math { 10 xx 30 }.\n\
         var:int 'm' [128 bit] = '170141183460469231731687303715884105727'.\n\
         print[('b')].\nprint[('d')].\nprint[('e')].\nprint[('m')].",
    ),
    (
        "nna_text_arrays",
        "var:nna 'names' = {\"hello\", \"John Doe\", \"Lol😂\"}.\n\
         print[('names')].",
    ),
    (
        "elementwise_comparison",
        "var:vector:int 'a' [3] = {'1','2','3'}.\n\
         var:vector:bool 'big' [3] = math { ('a'):all; > 2 }.\n\
         var:vector:bool 'small' [3] = math { ('a'):all; <= 2 }.\n\
         var:vector:int 'b' [3] = {'1','9','3'}.\n\
         var:vector:bool 'same' [3] = math { ('a'):all; = ('b'):all; }.\n\
         print[('big')].\nprint[('small')].\nprint[('same')].",
    ),
    (
        "parse_fractions",
        "var:rat 'a' [64 bit] = parse[\"2/6\" fraction].\n\
         var:rat 'b' [64 bit] = parse[\"7/2\" fraction].\n\
         var:rat 'c' [64 bit] = parse[\"0.5\"].\n\
         print[('a')].\nprint[('b')].\nprint[('c')].",
    ),
    (
        "chained_element_assignment",
        "var:matrix:int 'm' [2,3] = {{'1','2','3'},{'4','5','6'}}.\n\
         change:var:int 'm':2;:1; = '99'.\n\
         change:var:int 'm':1;:3; = '7'.\n\
         print[('m')].",
    ),
    (
        "powers_stay_exact",
        "var:deci 'a' = '1.1'.\n\
         var:deci 'p' = math { ('a') xx 20 }.\n\
         print[('p')].",
    ),
    (
        "parsing_options",
        "var:int 'a' [32 bit] = parse[\"1,234\" group:\",\"].\n\
         var:deci 'b' [64 bit] = parse[\"  3.25  \" trim].\n\
         var:int 'c' [32 bit] = parse[\"0xff\" hex].\n\
         print[('a')].\nprint[('b')].\nprint[('c')].",
    ),
];

#[test]
fn the_two_implementations_agree_across_the_language() {
    for (name, source) in CASES {
        agree(name, source);
    }
}

#[test]
fn names_mangle_into_legal_symbols() {
    assert_eq!(mangle("area"), "ahpcl_area");
    assert!(mangle("my variable").chars().all(|c| c.is_ascii_alphanumeric() || c == '_'));
    assert!(mangle("😂").chars().all(|c| c.is_ascii_alphanumeric() || c == '_'));
    assert_ne!(mangle("a b"), mangle("ab"), "mangling stays unambiguous");
}

// ── reports ─────────────────────────────────────────────────────────────────

fn reported(name: &str, text: &str, errors: Vec<Error>) -> Report {
    let source = SourceFile::new(name.to_string(), text.to_string());
    let lexed = Lexed { tokens: 4, errors, time: "2ns".to_string() };
    let parsed = Parsed { program: parse_source(text), errors: Vec::new(), time: "1.5ms".to_string() };
    Report::parsed(source, lexed, parsed)
}

#[test]
fn a_clean_file_reports_nothing() {
    let mut r = reported("t.ahpcl", "print[\"Hello, World!\"].\n", Vec::new());
    assert!(r.typecheck());
    assert!(r.ok(), "{}", r.errors_text());
    assert_eq!(r.errors_text(), "");
    assert_eq!(r.program.statements.len(), 1);
}

#[test]
fn a_report_says_what_was_done_and_how_long_it_took() {
    let mut r = reported("t.ahpcl", "print[\"a\"].\nprint[\"b\"].\n", Vec::new());
    assert!(r.typecheck());
    r.note_check_time("3ms");
    assert_eq!(
        r.informer_text(),
        "AHPCL Informer:\n\
         informer: lexed 2 lines into 4 tokens in 2ns\n\
         informer: parsed 2 statements in 1.5ms\n\
         informer: type-checked in 3ms\n"
    );
}

#[test]
fn types_are_not_checked_behind_a_syntax_error() {
    let broken = Error::new(
        Code::new(Category::Syn, 1),
        Span::new(0, 3),
        "something is missing.".to_string(),
        "add it.".to_string(),
    );
    let mut r = reported("t.ahpcl", "var:int 'n' = '0.5'.\n", vec![broken]);
    assert!(!r.typecheck());
    assert!(!r.ok());
    assert_eq!(r.errors.len(), 1);
    assert!(r.errors_text().contains("something is missing."));
    let mut r = reported("t.ahpcl", "var:int 'n' = '0.5'.\n", Vec::new());
    assert!(r.typecheck());
    assert_eq!(r.errors[0].code.render(), "AHPCL-TYPE-0002");
}

// ── asking the world outside ────────────────────────────────────────────────

#[test]
fn a_program_stops_where_an_answer_is_missing_and_goes_on_with_it() {
    let program = parse_source("print[\"before\"].\nvar:deci 't' = clock[].\nprint[('t')].");
    let out = run(&program);
    assert_eq!(out.lines, vec!["before"]);
    assert!(out.error.is_none());
    assert!(matches!(out.request, Some(Request::Clock)));
    let out = run_with(&program, &vec![Answer::Number(Decimal::parse("12.5"))]);
    assert_eq!(out.lines, vec!["before", "12.5"]);
    assert!(out.request.is_none());
}

#[test]
fn further_answers_change_nothing_for_a_program_that_does_not_ask() {
    let program = parse_source("print[math { 1 + 1 }].");
    assert_eq!(run_with(&program, &vec![Answer::Text("x".to_string())]).lines, run(&program).lines);
}

#[test]
fn functions_without_an_exact_answer_are_asked_for() {
    assert_eq!(interpreted("var:deci 'a' [6 digits] = math { cos '0' }.\nprint[('a')]."), "1");
    assert_eq!(interpreted("var:deci 'a' [6 digits] = math { log '100' }.\nprint[('a')]."), "2");
    assert_eq!(interpreted("var:deci 'a' [4 digits] = math { '2' xx '0.5' }.\nprint[('a')]."), "1.4142");
}

#[test]
fn a_file_that_cannot_be_read_is_an_error() {
    assert_eq!(interpreted("var:str 't' = read[\"read-me.txt\"].\nprint[('t')]."), "hello from a file");
    let program = parse_source("var:str 't' = read[\"gone.txt\"].\nprint[('t')].");
    let out = run_with(&program, &vec![Answer::Unreadable("no such file".to_string())]);
    let e = out.error.expect("an error");
    assert_eq!(e.code.render(), "AHPCL-RUN-0001");
    assert!(e.what_went_wrong.contains("gone.txt could not be read"), "{}", e.what_went_wrong);
}

#[test]
fn text_that_is_no_number_is_quoted_back() {
    let out = run(&parse_source("var:int 'n' = parse[\"12 \\ apples\"].\nprint[('n')]."));
    let e = out.error.expect("an error");
    assert_eq!(e.code.render(), "AHPCL-RUN-0004");
    assert_eq!(e.what_went_wrong, "\"12 \\\\ apples\" is not a number AHPCL can read.");
}

#[test]
fn parse_reads_what_its_options_allow() {
    assert_eq!(one("var:deci 'a' = parse[\"1.5e2\" scientific].\nprint[('a')]."), "150");
    assert_eq!(one("var:int 'a' = parse[\"٤٢\" unicode-digits].\nprint[('a')]."), "42");
    assert_eq!(one("var:deci 'a' = parse[\"1.234,5\" group:\".\" decimal:\",\"].\nprint[('a')]."), "1234.5");
    assert_eq!(one("var:int 'a' = parse[\"0xff\" hex].\nprint[('a')]."), "255");
    assert_eq!(fails("var:int 'a' = parse[\"5x\"].\nprint[('a')]."), "AHPCL-RUN-0004");
}

// ── running ─────────────────────────────────────────────────────────────────

#[test]
fn names_and_functions_must_exist_when_they_are_used() {
    assert_eq!(fails("print[('nothing')]."), "AHPCL-RUN-0001");
    assert_eq!(fails("var:int 'a' = 'f'['1'].\nprint[('a')]."), "AHPCL-RUN-0001");
    assert_eq!(fails("var:int 'a' = '1'.\nchange:var:int 'a':1; = '2'."), "AHPCL-RUN-0001");
}

#[test]
fn promises_are_checked_as_a_program_runs() {
    assert_eq!(fails("var:+int 'n' = math { 0 - 5 }."), "AHPCL-SIGN-0004");
    assert_eq!(fails("var:int 'n' [8 bit] = math { 100 + 100 }."), "AHPCL-PREC-0004");
}

#[test]
fn a_change_inside_a_block_reaches_the_variable_outside() {
    assert_eq!(
        one("var:int 'x' = '1'.\n\
             if math { ('x') = 1 } { change:var:int 'x' = '2'. var:int 'y' = '3'. }.\n\
             print[('x')]."),
        "2"
    );
}

#[test]
fn a_loop_with_a_step_of_zero_is_refused() {
    assert_eq!(fails("loop:var:int 'i' = math { 1 to 3 by 0 } { print[('i')]. }."), "AHPCL-RUN-0001");
    let (r, _) = execute("loop:var:int 'i' = math { 1 to 3 by 0 } { print[('i')]. }.");
    assert_eq!(r.unwrap_err().0, "AHPCL-RUN-0001");
}

#[test]
fn a_loop_that_reaches_the_last_number_ends() {
    let src = "loop:var:int 'i' = math { 170141183460469231731687303715884105726 to \
               170141183460469231731687303715884105727 } { print[('i')]. }.";
    let lines = "170141183460469231731687303715884105726\n170141183460469231731687303715884105727";
    assert_eq!(one(src), lines);
    assert_eq!(compile_and_run(src), lines);
}

#[test]
fn array_operators_need_matching_shapes() {
    let m = "var:matrix:int 'a' [2, 3] = {{'1','2','3'},{'4','5','6'}}.\n\
             var:matrix:int 'b' [3, 2] = {{'1','2'},{'3','4'},{'5','6'}}.\n\
             var:vector:int 'u' [2] = {'1','2'}.\nvar:vector:int 'v' [1] = {'3'}.\n";
    for op in ["math { ('a') ⊙ ('b') }", "math { ('u') · ('v') }"] {
        let src = format!("{m}print[{op}].");
        assert_eq!(fails(&src), "AHPCL-RUN-0001");
        assert_eq!(execute(&src).0.unwrap_err().0, "AHPCL-RUN-0002");
    }
}

#[test]
fn a_selection_addresses_dimensions() {
    let m = "var:matrix:int 'm' [3, 4] = {{'1','2','3','4'},{'5','6','7','8'},{'9','10','11','12'}}.\n";
    for (selector, shown) in [
        ("('m'):1,3;", "{1, 2, 3, 4, 9, 10, 11, 12}"),
        ("('m'):all;:2 to 4 by 2;", "{2, 4, 6, 8, 10, 12}"),
        ("('m'):3;:4 to 1 by -1;", "{12, 11, 10, 9}"),
        ("('m'):1,3;:shape;", "{2, 4}"),
    ] {
        let src = format!("{m}print[{selector}].");
        assert_eq!(one(&src), shown, "{selector}");
        assert_eq!(compile_and_run(&src), shown, "{selector}");
    }
    assert_eq!(fails(&format!("{m}print[('m'):4;].")), "AHPCL-RUN-0003");
    assert_eq!(fails(&format!("{m}print[('m'):1;:1;:1;].")), "AHPCL-RUN-0001");
    assert_eq!(fails(&format!("{m}print[('m'):1 to 2 by 0;].")), "AHPCL-RUN-0001");
}

// ── native code ─────────────────────────────────────────────────────────────

#[test]
fn native_failures_carry_their_codes() {
    let big = "var:int 'm' [128 bit] = '170141183460469231731687303715884105727'.\n";
    for (src, code) in [
        (format!("{big}print[math {{ ('m') + 1 }}]."), "AHPCL-PREC-0004"),
        (format!("{big}print[math {{ 0 - ('m') - 2 }}]."), "AHPCL-PREC-0004"),
        (format!("{big}print[math {{ ('m') x 2 }}]."), "AHPCL-PREC-0004"),
        (format!("{big}print[math {{ ('m') xx 2 }}]."), "AHPCL-PREC-0004"),
        (format!("{big}var:int 'l' = math {{ -('m') - 1 }}.\nprint[math {{ -('l') }}]."), "AHPCL-PREC-0004"),
        (format!("{big}var:int 'l' = math {{ -('m') - 1 }}.\nprint[math {{ |('l')| }}]."), "AHPCL-PREC-0004"),
        ("print[math { 2 xx -1 }].".to_string(), "AHPCL-PREC-0004"),
        ("print[math { 1 xx 4294967296 }].".to_string(), "AHPCL-PREC-0004"),
        ("print[math { 1 // 0 }].".to_string(), "AHPCL-RUN-0002"),
        ("print[math { 1 mod 0 }].".to_string(), "AHPCL-RUN-0002"),
        ("var:vector:int 'a' [2] = {'1','2'}.\nprint[('a'):3;].".to_string(), "AHPCL-RUN-0003"),
        ("var:vector:int 'a' [2] = {'1','2'}.\nchange:var:int 'a':0; = '5'.".to_string(), "AHPCL-RUN-0003"),
    ] {
        let (r, _) = execute(&src);
        assert_eq!(r.expect_err(&src).0, code, "{src}");
    }
}

#[test]
fn exponents_are_limited_alike() {
    for src in ["print[math { 2 xx -1 }].", "print[math { 1 xx 4294967296 }]."] {
        assert_eq!(fails(src), "AHPCL-PREC-0004");
    }
    assert_eq!(one("print[math { 2 xx 10 }]."), "1024");
    assert_eq!(compile_and_run("print[math { 2 xx 10 }]."), "1024");
}

#[test]
fn negation_and_absolute_value_compile() {
    assert_eq!(compile_and_run("var:int 'a' = '7'.\nprint[math { -('a') }].\nprint[math { |-('a')| }]."), "-7\n7");
    assert_eq!(
        compile_and_run("var:rat 'a' = math { 1 / 3 }.\nvar:rat 'b' = math { -('a') }.\nprint[('b')]."),
        "-1/3"
    );
    assert_eq!(
        compile_and_run("var:deci 'a' = '2.5'.\nvar:int 'f' = math { floor ('a') }.\nprint[('f')]."),
        "2"
    );
}

#[test]
fn what_cannot_be_compiled_is_named() {
    for (src, what) in [
        ("var:tensor:int 't' = '1'.", "a tensor whose rank is not written — give it a shape, as in [2,2,2]"),
        ("var:int 'x'.", "a declaration with no value"),
        ("var:int 'x' = ('y').", "the variable 'y'"),
        ("var:int 'x' = 'f'['1'].", "the function 'f'"),
        ("var:blob 'x' = '1'.", "the type 'blob'"),
        ("var:int 'x' = 'oops'.", "the literal 'oops'"),
        ("change:var:int 'x' = '1'.", "changing unknown 'x'"),
        ("var:int 'x' = '1'.\nchange:var:int 'x':1; = '2'.", "a selector on a value that is not an array"),
        ("var:int 'x' = '1'.\nprint[('x'):1;].", "selectors on a value that is not an array"),
        ("var:vector:int 'a' [2] = {'1','2'}.\nchange:var:int 'a':1,2; = '3'.", "writing to several elements at once"),
        ("var:vector:int 'a' [2] = {'1','2'}.\nchange:var:int 'a':all; = '3'.", "this form of element assignment"),
        ("func:none 'f' [var:none 'x'] { print[\"a\"]. }.", "a parameter of type none"),
        ("func:int 'f' [var:int 'x'] { hb ('x'). }.\nvar:int 'y' = 'f'['1' '2'].", "too many arguments"),
        ("func:none 'f' [var:int 'x'] { print[\"a\"]. }.\nvar:int 'y' = 'f'['1'].", "using a none-producing call as a value"),
        ("var:str 's' = \"a\".\nprint[math { ('s') + ('s') }].", "Add on text"),
        ("print[math { 1 / 2 }].", "division between integers, whose result is a decimal or rational"),
        ("var:vector:int 'a' [2] = {'1','2'}.\nvar:vector:int 'b' [2] = math { ('a'):all; xx 2 }.", "Pow on arrays"),
        ("var:infnum 'x' [40 digits] = math { pi }.", "a constant to 40 places, which is more than the 36 AHPCL knows"),
        ("var:infnum 'x' [30 digits] = math { sqrt 2 }.", "a square root to 30 places, which is more than the 18 AHPCL computes"),
        ("var:int 'x' = math { 1 to 3 }.", "a range outside a loop"),
        ("var:int 'x' = parse[].", "parse without a value"),
        ("var:int 'x' = parse[\"1\" loudly].", "the parse option 'loudly'"),
        ("var:int 'x' = parse[\"1\" group].", "'group' without a value"),
        ("loop:var:int 'i' = '3' { print[('i')]. }.", "a counted loop without a range"),
        ("var:bool 'b' = 'true'.\nvar:rat 'r' = ('b').", "converting Bool to Rat"),
        ("var:int 'x' = \"text\".", "generated invalid LLVM IR: a value of the wrong kind"),
        ("hb '1'.", "generated invalid LLVM IR: a value of the wrong kind"),
    ] {
        assert_eq!(declines(src), what, "{src}");
    }
}

#[test]
fn the_first_refusal_is_the_one_reported() {
    assert_eq!(declines("var:int 'x' = ('y').\nvar:int 'z' = ('w')."), "the variable 'y'");
}

fn slicing_loop(iterations: u64) -> String {
    format!(
        "var:vector:int 'data' [10] = loop:var:int 'i' = math {{ 1 to 10 }} {{ handback ('i'). }}.\n\
         var:int 't' [64 bit] = '0'.\n\
         loop:var:int 'p' = math {{ 1 to {iterations} }} {{\n\
             var:vector:int 'w' [3] = ('data'):1 to 3;.\n\
             change:var:int 't' = math {{ ('t') + ('w') }}.\n\
         }}.\n\
         print[('t')]."
    )
}

#[test]
fn a_loop_holds_no_more_after_many_rounds() {
    let (small, a) = execute(&slicing_loop(2));
    let (large, b) = execute(&slicing_loop(80));
    assert!(small.is_ok() && large.is_ok());
    assert_eq!(a.peak, b.peak);
    assert_eq!((a.live(), b.live()), (0, 0));
    assert_eq!(b.out, "480\n");
}

#[test]
fn reading_one_element_makes_no_array() {
    let (r, m) = execute("var:vector:int 'a' [3] = {'4','5','6'}.\nprint[('a'):2;].");
    assert!(r.is_ok());
    assert_eq!(m.out, "5\n");
    assert_eq!(m.peak, 1);
}

#[test]
fn nested_loops_collect_rows_natively() {
    let src = "var:matrix:int 't' [2, 3] = loop:var:int 'i' = math { 1 to 2 } {\n\
                   handback loop:var:int 'j' = math { 1 to 3 } { handback math { ('i') x ('j') }. }.\n\
               }.\n\
               print[('t')].\nprint[('t'):shape;].\nprint[('t'):2;:3;].";
    assert_eq!(compile_and_run(src), "{1, 2, 3, 2, 4, 6}\n{2, 3}\n6");
    assert_eq!(one(src), "{1, 2, 3, 2, 4, 6}\n{2, 3}\n6");
}

#[test]
fn conditions_texts_and_tagged_values_compile() {
    let src = "var:bool 'p' = 'true'.\nvar:bool 'q' = math { not ('p') or ('p') and ('p') }.\nprint[('q')].\n\
               var:str 's' = if ('q') { hb \"yes\". }, else { hb \"no\". }.\nprint[('s')].\n\
               var:num 'n' = '1.5'.\nvar:num 'm' = math { ('n') + 1 }.\nprint[('m')].\n\
               var:bool 'more' = math { ('m') > ('n') }.\nprint[('more')].";
    assert_eq!(compile_and_run(src), "true\nyes\n2.5\ntrue");
    assert_eq!(one(src), "true\nyes\n2.5\ntrue");
}

#[test]
fn a_function_releases_its_locals_and_falls_off_its_end() {
    let src = "func:none 'show' [var:int 'n'] { var:vector:int 'a' [2] = {'1','2'}. print[('a') \" \" ('n')]. }.\n\
               func:int 'zero' [var:int 'n'] { var:vector:int 'a' [1] = {'9'}. }.\n\
               'show'['7'].\nvar:int 'z' = 'zero'['1'].\nprint[('z')].";
    assert_eq!(compile_and_run(src), "{1, 2} 7\n0");
}

#[test]
fn the_runtime_is_declared_once_each() {
    let symbols: Vec<&str> = declared_runtime().into_iter().map(|f| f.symbol()).collect();
    let mut unique = symbols.clone();
    unique.sort();
    unique.dedup();
    assert_eq!(unique.len(), symbols.len());
    assert!(symbols.iter().all(|s| s.starts_with("ahpcl_")));
    assert_eq!(Rt::DeciDiv.takes(), vec![Kind::Ptr, Kind::Ptr, Kind::Ptr, Kind::Small]);
    assert_eq!(Rt::IntDiv.gives(), Some(Kind::Word));
    assert_eq!(Rt::PrintNewline.gives(), None);
}

#[test]
fn mangled_names_spell_out_what_is_not_a_letter() {
    assert_eq!(mangle("a b"), "ahpcl_a_20_b");
    assert_eq!(mangle("😂"), "ahpcl__1f602_");
    assert_eq!(mangle(""), "ahpcl_");
    assert_eq!(mangle("a_b"), "ahpcl_a_5f_b");
    assert_ne!(mangle("a b"), mangle("a_20b"));
    assert_ne!(mangle("a b"), mangle("a_20_b"));
}

// ── more analysis ───────────────────────────────────────────────────────────

#[test]
fn a_condition_narrows_what_a_branch_can_hold() {
    let (errors, notes) = verified(
        "var:int 'x' = '5'.\n\
         loop:while math { ('x') > 0 } { change:var:int 'x' = math { ('x') - 1 }. }.\n\
         var:+int 'y' = '3'.",
    );
    assert!(errors.is_empty(), "{errors:?}");
    assert!(notes.contains("'y'"), "{notes}");
}

#[test]
fn each_checker_error_is_reported_where_it_stands() {
    for (src, code) in [
        ("var:int 'x'.", "AHPCL-TYPE-0005"),
        ("var:int 'x' = '1'.\nvar:int 'v' = ('x'):1;.", "AHPCL-SHAPE-0001"),
    ] {
        let program = parse_source(src);
        let mut informer = Informer::new();
        let errors = check(&program, &mut informer).errors;
        assert!(errors.iter().all(|e| e.primary.end.0 <= src.len()), "{src}");
        assert!(!errors.is_empty(), "{src}: expected {code}");
    }
}

#[test]
fn whole_number_programs_print_the_same_compiled() {
    let src = "var:int 'n' = '7'.\n\
               var:bool 'odd' = math { ('n') > 3 }.\n\
               loop:var:int 'i' = math { 1 to 10 by 3 } {\n\
                   if math { ('i') > 4 } {\n\
                       print[\"big \" ('i')].\n\
                   }, else {\n\
                       change:var:int 'n' = math { ('n') - ('i') x 2 }.\n\
                   }.\n\
               }.\n\
               loop:while math { ('n') < 0 } {\n\
                   change:var:int 'n' = math { ('n') + 1 }.\n\
               }.\n\
               print[('n') \" \" ('odd')].";
    assert_eq!(interpreted(src), "big 7\nbig 10\n0 true");
    assert_eq!(compile_and_run(src), "big 7\nbig 10\n0 true");
}

#[test]
fn what_a_loop_collects_is_the_same_compiled() {
    let src = "var:vector:int 'v' = loop:var:int 'i' = math { 5 to 1 by -2 } {\n\
                   if math { ('i') > 4 } { print[\"none\"]. }, else { handback math { ('i') x 10 }. }.\n\
                   print[\"tail \" ('i')].\n\
               }.\n\
               print[('v')].";
    assert_eq!(interpreted(src), "none\ntail 5\n{30, 10}");
    assert_eq!(compile_and_run(src), "none\ntail 5\n{30, 10}");
}

#[test]
fn what_is_known_behind_a_block_is_true_there() {
    let src = "var:int 'x' = '5'.\n\
               var:int 'y' = '0'.\n\
               if math { ('x') > 3 } { change:var:int 'y' = '4'. }, else { change:var:int 'y' = '9'. }.\n\
               change:var:int 'y' = math { ('y') + 1 }.\n\
               var:+int 'z' = math { ('y') }.\n\
               print[('z')].";
    let (errors, notes) = verified(src);
    assert!(errors.is_empty(), "{errors:?}");
    assert!(notes.contains("'z'"), "{notes}");
    assert_eq!(interpreted(src), "5");
}

#[test]
fn parse_takes_nothing_around_a_number() {
    assert_eq!(fails("var:int 'a' = parse[\" 5 \"].\nprint[('a')]."), "AHPCL-RUN-0004");
    assert_eq!(one("var:int 'a' = parse[\" 5 \" trim].\nprint[('a')]."), "5");
    assert_eq!(fails("var:int 'a' = parse[\"12\\ \" hex].\nprint[('a')]."), "AHPCL-RUN-0004");
    assert_eq!(fails("var:int 'a' = parse[\"xyz\" hex].\nprint[('a')]."), "AHPCL-RUN-0004");
    let src = "var:int 'a' [32 bit] = parse[\"1,2;3\" group:\",;\"].\nprint[('a')].";
    assert_eq!(fails(src), "AHPCL-RUN-0004");
    let src = "var:int 'a' [32 bit] = parse[\"1,2,3\" group:\",;\"].\nprint[('a')].";
    assert_eq!(one(src), "123");
    assert_eq!(compile_and_run(src), "123");
}

#[test]
fn functions_print_the_same_compiled() {
    let src = "func:int 'fact' [var:int 'n'] {\n\
                   if math { ('n') < 2 } { handback '1'. }, else { handback math { ('n') x 'fact'[math { ('n') - 1 }] }. }.\n\
               }.\n\
               func:none 'show' [var:deci 'd', var:str 's'] { print[('s') \" \" ('d')]. }.\n\
               var:int 'p' = math { 2 xx 10 }.\n\
               var:int 'q' = math { |0 - 7| }.\n\
               var:rat 'r' = math { 1 / 3 }.\n\
               var:rat 't' = math { ('r') - ('r') / 2 }.\n\
               var:int 'b' = if math { ('p') > 1000 } { handback ('q'). }, else { handback '0'. }.\n\
               'show'['1.50' \"half\"].\n\
               print['fact'['5'] \" \" ('p') \" \" ('t') \" \" ('b')].";
    let want = "half 1.5\n120 1024 1/6 7";
    assert_eq!(interpreted(src), want);
    assert_eq!(compile_and_run(src), want);
}

#[test]
fn a_negative_power_of_a_fraction_turns_it_over() {
    let src = "var:rat 'r' = math { 2 / 3 }.\nvar:rat 's' = math { ('r') xx -2 }.\nprint[('s')].";
    assert_eq!(interpreted(src), "9/4");
    assert_eq!(compile_and_run(src), "9/4");
}

#[test]
fn a_loop_with_a_condition_collects_the_same_compiled() {
    let src = "var:int 'i' = '0'.\n\
               var:vector:int 'a' = loop:while math { ('i') < 3 } {\n\
                   change:var:int 'i' = math { ('i') + 1 }.\n\
                   handback math { ('i') x ('i') }.\n\
               }.\n\
               print[('a')].";
    assert_eq!(interpreted(src), "{1, 4, 9}");
    assert_eq!(compile_and_run(src), "{1, 4, 9}");
}

#[test]
fn a_list_of_numbers_prints_the_same_compiled() {
    let src = "var:int 'k' = '4'.\n\
               var:vector:int 'a' [3] = {'7', math { ('k') x 2 }, ('k')}.\n\
               print[('a')].";
    assert_eq!(interpreted(src), "{7, 8, 4}");
    assert_eq!(compile_and_run(src), "{7, 8, 4}");
}

#[test]
fn arrays_mixed_with_functions_agree() {
    agree(
        "arrays_and_functions",
        "func:int 'twice' [var:int 'x'] { handback math { ('x') + ('x') }. }.\n\
         var:vector:int 'a' [3] = {'1','2','3'}.\n\
         var:vector:int 'b' [3] = {'4','5','6'}.\n\
         var:vector:deci 'd' [2] = {'0.5','1.25'}.\n\
         var:vector:str 't' [2] = {\"pi\",\"tau\"}.\n\
         var:int 'p' = math { ('a') · ('b') }.\n\
         var:vector:int 'c' [3] = math { ('a') × ('b') }.\n\
         var:vector:int 'h' [3] = math { ('a'):all; x ('b'):all; }.\n\
         var:vector:int 'u' [3] = math { ('a'):all; + 1 }.\n\
         var:vector:int 'm' [3] = math { -('a'):all; }.\n\
         var:vector:bool 'q' [3] = math { ('a'):all; > 1 }.\n\
         var:int 'z' = 'twice'['21'].\n\
         var:int 'n' = ('a'):length;.\n\
         var:int 'e' = ('b'):2;.\n\
         print[('n')].\nprint[('e')].\nprint[('p')].\nprint[('c')].\nprint[('h')].\nprint[('u')].\nprint[('m')].\nprint[('q')].\n\
         print[('d')].\nprint[('t')].\nprint[('z')].",
    );
}
