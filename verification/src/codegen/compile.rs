//! Lowering a program.

use vstd::prelude::*;
use vstd::string::*;

use crate::ast::{
    Binding, ChangeStmt, ChangeTarget, Expr, ExprKind, FuncDecl, IfChain, LoopKind, LoopStmt, Param,
    Precision, Program, Selector, Stmt, UnOp, VarDecl,
};
use crate::codegen::lowering::{
    args_made, arms_made, binding_made, bindings_made, block_made, bound_stored, bounds_made, builtin_made,
    call_made, checked_function, counted_made, default_made, described, effect_made, expr_made, fresh,
    function_made, function_view, functions_made, handback_made, left_empty, push_made, return_made,
    store_made, if_made, if_value, index_made, indices_made, item_made, items_made, joined, loop_entered,
    loop_left, loop_made, loop_value, lowered, main_made, next_index, params_made, params_native, picks_made,
    places_wanted, prints_made, range_made, ret_kind, run_described, run_made, scoped_made, selected,
    selector_made, signature, signatures, single_made, step_made, stmt_made, target_made, targets_made,
    temps_forgotten, value_arms, whole_bound, with_continue, with_digits, with_handback, without_continue,
    without_handback, write_checked, Bounds, CompiledView, Described, FunctionView, LoopBlocks, RunLists,
};
use crate::codegen::native::{
    count_singles, literal_shape, mangle, native_base, native_base_shaped, Native, Unsupported,
    DEFAULT_DIGITS,
};
use crate::codegen::runtime::{Kind, Rt};
use crate::codegen::steps::{
    native_of_side, wants_of_unary, way_of_binary, way_of_side, way_of_unary, BinaryWay, Side, UnaryWay,
};
use crate::codegen::work::{
    sigs_view, strings_view, CheckedOp, FnSig, Handback, Inst, Operand, Relation, SigView, Work,
};
use crate::codegen::wellformed::{check_code, kinds_of};
use crate::eval::eval::is_bare_ref;
use crate::text::{cat3, same_text};

verus! {

/// One lowered function.
#[derive(Debug)]
pub struct Function {
    pub symbol: String,
    pub params: Vec<Native>,
    pub ret: Native,
    pub code: Vec<Inst>,
    /// The constant texts the code refers to.
    pub texts: Vec<String>,
}

impl View for Function {
    type V = FunctionView;

    open spec fn view(&self) -> FunctionView {
        FunctionView {
            symbol: self.symbol@,
            params: self.params@,
            ret: self.ret,
            code: self.code@,
            texts: strings_view(self.texts@),
        }
    }
}

pub open spec fn functions_view(fs: Seq<Function>) -> Seq<FunctionView> {
    Seq::new(fs.len(), |i: int| fs[i]@)
}

/// A lowered program: its functions, then its top level, which is `main` and returns 0.
#[derive(Debug)]
pub struct Compiled {
    pub functions: Vec<Function>,
    pub main: Function,
}

impl View for Compiled {
    type V = CompiledView;

    open spec fn view(&self) -> CompiledView {
        CompiledView { functions: functions_view(self.functions@), main: self.main@ }
    }
}

pub open spec fn compiled_view(r: Result<Compiled, Unsupported>) -> Result<CompiledView, Seq<char>> {
    match r {
        Ok(c) => Ok(c@),
        Err(u) => Err(u@),
    }
}

fn next_element(n: u64) -> (r: u64)
    ensures
        r == next_index(n),
{
    if n == u64::MAX {
        0
    } else {
        n + 1
    }
}

impl<'a> Work<'a> {
    fn push_handback(&mut self, h: Handback)
        ensures
            final(self)@ == with_handback(old(self)@, h),
    {
        self.handbacks.push(h);
    }

    fn pop_handback(&mut self)
        ensures
            final(self)@ == without_handback(old(self)@),
    {
        let _ = self.handbacks.pop();
    }

    fn push_continue(&mut self, block: usize)
        ensures
            final(self)@ == with_continue(old(self)@, block),
    {
        self.continues.push(block);
    }

    fn pop_continue(&mut self)
        ensures
            final(self)@ == without_continue(old(self)@),
    {
        let _ = self.continues.pop();
    }

    fn set_digits(&mut self, digits: u32)
        ensures
            final(self)@ == with_digits(old(self)@, digits),
    {
        self.digits = digits;
    }

    fn forget_temporaries(&mut self, mark: usize)
        ensures
            final(self)@ == temps_forgotten(old(self)@, mark as nat),
    {
        self.temps.truncate(mark);
    }

    fn join(&mut self, left: bool, block: usize)
        ensures
            final(self)@ == joined(old(self)@, left, block),
    {
        if !left {
            let _ = self.put(Inst::Jump(block));
        }
    }

    // ── expressions ─────────────────────────────────────────────────────────

    #[verifier::spinoff_prover]
    pub fn expr(&mut self, e: &Expr, want: Native) -> (r: Operand)
        ensures
            (final(self)@, r) == expr_made(old(self)@, *e, want),
        decreases e, 1nat,
    {
        proof {
            reveal(expr_made);
        }
        match &e.kind {
            ExprKind::Math(inner) => self.expr(inner, want),
            ExprKind::Number(t) => self.literal(t.as_str(), want),
            ExprKind::Literal(t) => self.literal(t.as_str(), want),
            ExprKind::Ref { name, selectors } => match self.lookup(name.as_str()) {
                None => self.decline(cat3("the variable '", name.as_str(), "'")),
                Some((slot, held)) => {
                    let loaded: Operand = self.make(Inst::Load { kind: held.kind(), from: slot }, held.kind());
                    if held.is_array() {
                        let out: Operand = self.array_selectors(
                            selectors,
                            0,
                            0,
                            loaded,
                            held.rank(),
                            held.element(),
                            want,
                        );
                        if selectors.len() == 0 && !want.is_array() && want != Native::Nothing {
                            let total: Operand = self.call1(Rt::ArraySum, out);
                            return self.convert(total, Native::Num, want);
                        }
                        out
                    } else if selectors.len() > 0 {
                        self.decline_text("selectors on a value that is not an array")
                    } else {
                        self.convert(loaded, held, want)
                    }
                },
            },
            ExprKind::Unary { op, operand } => {
                if *op == UnOp::Not {
                    let v: Operand = self.expr(operand, Native::Bool);
                    self.expect(v, Kind::Bit);
                    return self.make(Inst::Not(v.at), Kind::Bit);
                }
                let held: Native = self.value_repr(operand);
                let way: UnaryWay = way_of_unary(*op, held, is_bare_ref(operand));
                self.check_root(*op);
                let v: Operand = self.expr(operand, wants_of_unary(way, held));
                self.unary_exact(*op, way, v, want)
            },
            ExprKind::Binary { op, lhs, rhs } => {
                let l: Native = self.value_repr(lhs);
                let r: Native = self.value_repr(rhs);
                let way: BinaryWay = way_of_binary(*op, l, r, is_bare_ref(lhs), is_bare_ref(rhs), want);
                let left: Side = way_of_side(*op, way, true, l, want);
                let right: Side = way_of_side(*op, way, false, r, want);
                self.check_texts(*op, way);
                let x: Operand = self.expr(lhs, native_of_side(left));
                let a: Operand = self.side(left, x);
                let y: Operand = self.expr(rhs, native_of_side(right));
                let b: Operand = self.side(right, y);
                self.binary(*op, way, a, b, want)
            },
            ExprKind::Call { name, args } => {
                let (v, ret) = self.function_call(name.as_str(), args, true);
                if ret == Native::Nothing {
                    self.decline_text("using a none-producing call as a value")
                } else {
                    self.convert(v, ret, want)
                }
            },
            ExprKind::Builtin { name, args } => self.builtin(name.as_str(), args, want),
            ExprKind::ArrayLit(items) => {
                let elem: Native = if want.is_array() {
                    want.element()
                } else {
                    want
                };
                let dims: Vec<u64> = literal_shape(items);
                let array: Operand = self.array_new(elem, &dims);
                let _ = self.array_items(items, elem, array, 1);
                array
            },
            ExprKind::If(chain) => self.if_value(chain, want),
            ExprKind::Loop(l) => self.loop_value(l, want),
            ExprKind::Constant(c) => self.constant(*c, want),
            ExprKind::Str(t) => self.text(t.as_str()),
            ExprKind::Range { .. } => self.decline_text("a range outside a loop"),
            ExprKind::Option { .. } => self.decline_text("builtin options"),
        }
    }

    #[verifier::spinoff_prover]
    fn function_args(&mut self, args: &Vec<Expr>, params: &Vec<Native>, strict: bool) -> (r: Vec<Operand>)
        ensures
            (final(self)@, r@) == args_made(old(self)@, *args, 0, params@, strict, Seq::empty()),
        decreases args, args@.len(),
    {
        proof {
            reveal(args_made);
        }
        let mut vs: Vec<Operand> = Vec::new();
        let mut i: usize = 0;
        while i < args.len()
            invariant
                i <= args@.len(),
                args_made(old(self)@, *args, 0, params@, strict, Seq::empty()) == args_made(
                    self@,
                    *args,
                    i as nat,
                    params@,
                    strict,
                    vs@,
                ),
            decreases args@.len() - i,
        {
            proof {
                reveal(args_made);
            }
            if strict && i >= params.len() {
                self.refuse_text("too many arguments");
            }
            let want: Native = if i < params.len() {
                params[i]
            } else {
                Native::Int
            };
            let v: Operand = self.expr(&args[i], want);
            vs.push(v);
            i = i + 1;
        }
        vs
    }

    #[verifier::spinoff_prover]
    fn function_call(&mut self, name: &str, args: &Vec<Expr>, strict: bool) -> (r: (Operand, Native))
        ensures
            (final(self)@, r.0, r.1) == call_made(old(self)@, name@, *args, strict),
        decreases args, args@.len() + 1,
    {
        proof {
            reveal(call_made);
        }
        let fns: &'a Vec<FnSig> = self.fns;
        match self.function(name) {
            None => {
                self.refuse(cat3("the function '", name, "'"));
                (Operand { at: 0, kind: Kind::Word }, Native::Int)
            },
            Some(i) => {
                assert(self@.fns[i as int] == fns@[i as int]@);
                let sig: &FnSig = &fns[i];
                let vs: Vec<Operand> = self.function_args(args, &sig.params, strict);
                let want: Vec<Kind> = kinds_of(&sig.params);
                self.expect_all(&vs, &want);
                self.args(&vs);
                let gives: Option<Kind> = match sig.ret {
                    Native::Nothing => None,
                    _ => Some(sig.ret.kind()),
                };
                let v: Operand = self.make(Inst::CallFn { index: i, gives }, sig.ret.kind());
                (v, sig.ret)
            },
        }
    }

    #[verifier::spinoff_prover]
    fn builtin(&mut self, name: &str, args: &Vec<Expr>, want: Native) -> (r: Operand)
        ensures
            (final(self)@, r) == builtin_made(old(self)@, name@, *args, want),
        decreases args, args@.len() + 1,
    {
        proof {
            reveal(builtin_made);
        }
        if same_text(name, "read") {
            let path: Operand = if args.len() > 0 {
                self.expr(&args[0], Native::Str)
            } else {
                self.text("")
            };
            return self.read(path);
        }
        if same_text(name, "parse") {
            if args.len() == 0 {
                return self.decline_text("parse without a value");
            }
            let text: Operand = self.expr(&args[0], Native::Str);
            return self.parse(text, args, want);
        }
        if same_text(name, "clock") {
            let none: Vec<Operand> = Vec::new();
            return self.call_into(Rt::Clock, none, Kind::Deci);
        }
        self.decline(cat3("the builtin '", name, "'"))
    }

    #[verifier::spinoff_prover]
    fn array_items(&mut self, items: &Vec<Expr>, elem: Native, array: Operand, next: u64) -> (r: u64)
        ensures
            (final(self)@, r) == items_made(old(self)@, *items, 0, elem, array, next),
        decreases items, items@.len(),
    {
        proof {
            reveal(items_made);
        }
        let mut n: u64 = next;
        let mut i: usize = 0;
        while i < items.len()
            invariant
                i <= items@.len(),
                items_made(old(self)@, *items, 0, elem, array, next) == items_made(
                    self@,
                    *items,
                    i as nat,
                    elem,
                    array,
                    n,
                ),
            decreases items@.len() - i,
        {
            proof {
                reveal(items_made);
            }
            n = self.array_item(&items[i], elem, array, n);
            i = i + 1;
        }
        n
    }

    #[verifier::spinoff_prover]
    fn array_item(&mut self, item: &Expr, elem: Native, array: Operand, next: u64) -> (r: u64)
        ensures
            (final(self)@, r) == item_made(old(self)@, *item, elem, array, next),
        decreases item, 2nat,
    {
        proof {
            reveal(item_made);
        }
        match &item.kind {
            ExprKind::ArrayLit(inner) => self.array_items(inner, elem, array, next),
            _ => {
                let v: Operand = self.expr(item, elem);
                // AHPCL indexes from 1, and so does the runtime.
                let index: Operand = self.make(Inst::Word(next as i128), Kind::Word);
                self.array_store(array, index, v, elem);
                next_element(next)
            },
        }
    }

    // ── selectors ───────────────────────────────────────────────────────────

    #[verifier::spinoff_prover]
    fn array_selectors(
        &mut self,
        sels: &Vec<Selector>,
        from: usize,
        i: usize,
        current: Operand,
        rank: u32,
        elem: Native,
        want: Native,
    ) -> (r: Operand)
        requires
            from <= i <= sels@.len(),
        ensures
            (final(self)@, r) == selected(
                old(self)@,
                *sels,
                from as nat,
                i as nat,
                current,
                rank,
                elem,
                want,
            ),
        decreases sels, sels@.len() + 2 + (sels@.len() - i),
    {
        proof {
            reveal(selected);
        }
        let n: usize = sels.len();
        assert(n == sels@.len());
        if i >= n {
            let one: usize = count_singles(sels, from);
            if from < n && one == n - from && (n - from) as u64 == rank as u64 && !want.is_array() {
                let index: Operand = self.element_index(sels, from, current);
                let v: Operand = self.array_load(current, index, elem);
                return self.convert(v, elem, want);
            }
            return self.apply_run(sels, from, n, current);
        }
        match &sels[i] {
            Selector::Length => {
                let array: Operand = self.apply_run(sels, from, i, current);
                let len: Operand = self.call1(Rt::ArrayLen, array);
                self.convert(len, Native::Int, want)
            },
            Selector::Shape => {
                let array: Operand = self.apply_run(sels, from, i, current);
                let shape: Operand = self.call1(Rt::ArrayShape, array);
                self.array_selectors(sels, i + 1, i + 1, shape, 1, elem, want)
            },
            _ => self.array_selectors(sels, from, i + 1, current, rank, elem, want),
        }
    }

    #[verifier::spinoff_prover]
    fn single_index(&mut self, sel: &Selector) -> (r: Operand)
        ensures
            (final(self)@, r) == single_made(old(self)@, *sel),
        decreases sel, 0nat,
    {
        proof {
            reveal(single_made);
        }
        match sel {
            Selector::Indices(ix) => {
                if ix.len() > 0 {
                    return self.expr(&ix[0], Native::Int);
                }
                Operand { at: 0, kind: Kind::Word }
            },
            _ => Operand { at: 0, kind: Kind::Word },
        }
    }

    #[verifier::spinoff_prover]
    fn element_index(&mut self, sels: &Vec<Selector>, from: usize, array: Operand) -> (r: Operand)
        requires
            from < sels@.len(),
        ensures
            (final(self)@, r) == index_made(old(self)@, *sels, from as nat, array),
        decreases sels, sels@.len() + 1,
    {
        proof {
            reveal(index_made);
            reveal(picks_made);
        }
        let len: usize = sels.len();
        assert(len == sels@.len());
        if len - from == 1 {
            return self.single_index(&sels[from]);
        }
        let n: u128 = (len - from) as u128;
        let buffer: Operand = self.make(Inst::Slots { kind: Kind::Word, count: n }, Kind::Ptr);
        let mut k: usize = from;
        let ghost start = self@;
        while k < sels.len()
            invariant
                from <= k <= sels@.len(),
                picks_made(start, *sels, from as nat, from as nat, buffer.at) == picks_made(
                    self@,
                    *sels,
                    from as nat,
                    k as nat,
                    buffer.at,
                ),
            decreases sels@.len() - k,
        {
            proof {
                reveal(index_made);
                reveal(picks_made);
            }
            let v: Operand = self.single_index(&sels[k]);
            self.store_at(buffer.at, Kind::Word, (k - from) as u128, v);
            k = k + 1;
        }
        let count: Operand = self.make(Inst::Word(n as i128), Kind::Word);
        self.call3(Rt::ArrayOffset, array, buffer, count)
    }

    #[verifier::spinoff_prover]
    fn store_bound(&mut self, bounds: usize, index: u128, v: Option<Operand>)
        ensures
            final(self)@ == bound_stored(old(self)@, bounds, index, v),
    {
        let o: Operand = match v {
            Some(o) => o,
            None => self.make(Inst::Word(0), Kind::Word),
        };
        self.store_at(bounds, Kind::Word, index, o);
    }

    #[verifier::spinoff_prover]
    fn describe(&mut self, d: Described, k: usize, lists: RunLists)
        ensures
            final(self)@ == described(old(self)@, d, k as u128, lists),
    {
        proof {
            reveal(described);
        }
        let at: u128 = k as u128;
        let tag: Operand = self.make(Inst::Small(d.tag), Kind::Small);
        self.store_at(lists.kinds, Kind::Small, at, tag);
        self.store_bound(lists.bounds, at * 3, d.from);
        self.store_bound(lists.bounds, at * 3 + 1, d.to);
        self.store_bound(lists.bounds, at * 3 + 2, d.by);
        let buffer: Operand = match d.buffer {
            Some(o) => o,
            None => self.make(Inst::Null, Kind::Ptr),
        };
        self.store_at(lists.buffers, Kind::Ptr, at, buffer);
        let count: Operand = self.make(Inst::Long(d.count), Kind::Long);
        self.store_at(lists.counts, Kind::Long, at, count);
    }

    #[verifier::spinoff_prover]
    fn index_list(&mut self, ix: &Vec<Expr>, list: usize)
        ensures
            final(self)@ == indices_made(old(self)@, *ix, 0, list),
        decreases ix, ix@.len(),
    {
        proof {
            reveal(indices_made);
        }
        let mut j: usize = 0;
        while j < ix.len()
            invariant
                j <= ix@.len(),
                indices_made(old(self)@, *ix, 0, list) == indices_made(self@, *ix, j as nat, list),
            decreases ix@.len() - j,
        {
            proof {
                reveal(indices_made);
            }
            let v: Operand = self.expr(&ix[j], Native::Int);
            self.store_at(list, Kind::Word, j as u128, v);
            j = j + 1;
        }
    }

    #[verifier::spinoff_prover]
    fn step(&mut self, by: &Option<Box<Expr>>) -> (r: Operand)
        ensures
            (final(self)@, r) == step_made(old(self)@, *by),
        decreases by, 0nat,
    {
        proof {
            reveal(step_made);
        }
        match by {
            Some(e) => self.expr(e, Native::Int),
            None => self.make(Inst::Word(1), Kind::Word),
        }
    }

    #[verifier::spinoff_prover]
    fn selector(&mut self, sel: &Selector) -> (r: Described)
        ensures
            (final(self)@, r) == selector_made(old(self)@, *sel),
        decreases sel, 0nat,
    {
        proof {
            reveal(selector_made);
        }
        match sel {
            Selector::Indices(ix) => {
                assert(ix@.len() == ix.len());
                let list: Operand = self.make(Inst::Slots { kind: Kind::Word, count: ix.len() as u128 }, Kind::Ptr);
                self.index_list(ix, list.at);
                Described { tag: 1, from: None, to: None, by: None, buffer: Some(list), count: ix.len() as u64 }
            },
            Selector::Range { from, to, by } => {
                let f: Operand = self.expr(from, Native::Int);
                let t: Operand = self.expr(to, Native::Int);
                let b: Operand = self.step(by);
                Described { tag: 2, from: Some(f), to: Some(t), by: Some(b), buffer: None, count: 0 }
            },
            _ => Described { tag: 0, from: None, to: None, by: None, buffer: None, count: 0 },
        }
    }

    /// One run of dimension selectors, described to the runtime as parallel lists.
    #[verifier::spinoff_prover]
    fn apply_run(&mut self, sels: &Vec<Selector>, from: usize, to: usize, current: Operand) -> (r: Operand)
        requires
            from <= to <= sels@.len(),
        ensures
            (final(self)@, r) == run_made(old(self)@, *sels, from as nat, to as nat, current),
        decreases sels, sels@.len() + 1,
    {
        proof {
            reveal(run_made);
            reveal(run_described);
        }
        if from >= to {
            return current;
        }
        let n: u128 = (to - from) as u128;
        let kinds: Operand = self.make(Inst::Slots { kind: Kind::Small, count: n }, Kind::Ptr);
        let bounds: Operand = self.make(Inst::Slots { kind: Kind::Word, count: n * 3 }, Kind::Ptr);
        let buffers: Operand = self.make(Inst::Slots { kind: Kind::Ptr, count: n }, Kind::Ptr);
        let counts: Operand = self.make(Inst::Slots { kind: Kind::Long, count: n }, Kind::Ptr);
        let lists: RunLists = RunLists {
            kinds: kinds.at,
            bounds: bounds.at,
            buffers: buffers.at,
            counts: counts.at,
        };
        let mut k: usize = from;
        let ghost start = self@;
        while k < to
            invariant
                from <= k <= to <= sels@.len(),
                run_described(start, *sels, from as nat, from as nat, to as nat, lists) == run_described(
                    self@,
                    *sels,
                    from as nat,
                    k as nat,
                    to as nat,
                    lists,
                ),
            decreases to - k,
        {
            proof {
                reveal(run_made);
                reveal(run_described);
            }
            let d: Described = self.selector(&sels[k]);
            self.describe(d, k - from, lists);
            k = k + 1;
        }
        let count: Operand = self.make(Inst::Word(n as i128), Kind::Word);
        let all: Vec<Operand> = vec![current, kinds, bounds, buffers, counts, count];
        assert(all@ =~= seq![current, kinds, bounds, buffers, counts, count]);
        self.call(Rt::ArraySelectRun, all)
    }

    // ── conditionals ────────────────────────────────────────────────────────

    #[verifier::spinoff_prover]
    fn if_arms(&mut self, chain: &IfChain, merge: usize) -> (r: bool)
        ensures
            (final(self)@, r) == arms_made(old(self)@, *chain, 0, merge, true),
        decreases chain, chain.arms@.len(),
    {
        proof {
            reveal(arms_made);
        }
        let mut all: bool = true;
        let mut i: usize = 0;
        while i < chain.arms.len()
            invariant
                i <= chain.arms@.len(),
                arms_made(old(self)@, *chain, 0, merge, true) == arms_made(self@, *chain, i as nat, merge, all),
            decreases chain.arms@.len() - i,
        {
            proof {
                reveal(arms_made);
            }
            match &chain.arms[i].condition {
                Some(c) => {
                    let test: Operand = self.expr(c, Native::Bool);
                    let yes: usize = self.block();
                    let no: usize = self.block();
                    self.fork(test, yes, no);
                    let _ = self.put(Inst::At(yes));
                    let left: bool = self.scoped(&chain.arms[i].body);
                    self.join(left, merge);
                    let _ = self.put(Inst::At(no));
                    all = all && left;
                },
                None => {
                    let left: bool = self.scoped(&chain.arms[i].body);
                    self.join(left, merge);
                    all = all && left;
                },
            }
            i = i + 1;
        }
        all
    }

    #[verifier::spinoff_prover]
    fn if_chain(&mut self, chain: &IfChain) -> (r: bool)
        ensures
            (final(self)@, r) == if_made(old(self)@, *chain),
        decreases chain, chain.arms@.len() + 1,
    {
        proof {
            reveal(if_made);
        }
        let merge: usize = self.block();
        let all: bool = self.if_arms(chain, merge);
        // Whatever block is left over falls through to the merge.
        let closed: bool = !self.open;
        self.join(closed, merge);
        let _ = self.put(Inst::At(merge));
        if all && closed {
            // Nothing reaches the merge; it still has to end.
            let _ = self.put(Inst::Unreachable);
            return true;
        }
        false
    }

    #[verifier::spinoff_prover]
    fn value_arms(&mut self, chain: &IfChain, slot: usize, want: Native, merge: usize)
        ensures
            final(self)@ == value_arms(old(self)@, *chain, 0, slot, want, merge),
        decreases chain, chain.arms@.len(),
    {
        proof {
            reveal(value_arms);
        }
        let mut i: usize = 0;
        while i < chain.arms.len()
            invariant
                i <= chain.arms@.len(),
                value_arms(old(self)@, *chain, 0, slot, want, merge) == value_arms(
                    self@,
                    *chain,
                    i as nat,
                    slot,
                    want,
                    merge,
                ),
            decreases chain.arms@.len() - i,
        {
            proof {
                reveal(value_arms);
            }
            let body: usize = self.block();
            let next: usize = self.block();
            match &chain.arms[i].condition {
                Some(c) => {
                    let test: Operand = self.expr(c, Native::Bool);
                    self.fork(test, body, next);
                },
                None => {
                    let _ = self.put(Inst::Jump(body));
                },
            }
            let _ = self.put(Inst::At(body));
            self.push_handback(Handback::Store { slot, native: want, merge });
            let left: bool = self.scoped(&chain.arms[i].body);
            self.pop_handback();
            self.join(left, merge);
            let _ = self.put(Inst::At(next));
            i = i + 1;
        }
    }

    #[verifier::spinoff_prover]
    fn if_value(&mut self, chain: &IfChain, want: Native) -> (r: Operand)
        ensures
            (final(self)@, r) == if_value(old(self)@, *chain, want),
        decreases chain, chain.arms@.len() + 1,
    {
        proof {
            reveal(if_value);
        }
        let slot: Operand = self.make(Inst::Slot(want.kind()), Kind::Ptr);
        let merge: usize = self.block();
        self.value_arms(chain, slot.at, want, merge);
        // With no matching arm the merge point still has to be reached.
        let _ = self.put(Inst::Jump(merge));
        let _ = self.put(Inst::At(merge));
        self.make(Inst::Load { kind: want.kind(), from: slot.at }, want.kind())
    }

    // ── loops ───────────────────────────────────────────────────────────────

    fn check_bound(&mut self, v: Operand)
        ensures
            final(self)@ == whole_bound(old(self)@, v),
    {
        if v.kind != Kind::Word {
            self.refuse_text("a loop bound that is not a whole number");
        }
    }

    #[verifier::spinoff_prover]
    fn range(&mut self, e: &Expr) -> (r: Bounds)
        ensures
            (final(self)@, r) == range_made(old(self)@, *e),
        decreases e, 1nat,
    {
        proof {
            reveal(range_made);
        }
        match &e.kind {
            ExprKind::Range { from, to, by } => {
                let start: Operand = self.expr(from, Native::Int);
                self.check_bound(start);
                let end: Operand = self.expr(to, Native::Int);
                self.check_bound(end);
                let step: Operand = self.step(by);
                self.check_bound(step);
                Bounds { start, end, step }
            },
            _ => {
                self.refuse_text("a counted loop without a range");
                let v: Operand = Operand { at: 0, kind: Kind::Word };
                Bounds { start: v, end: v, step: v }
            },
        }
    }

    #[verifier::spinoff_prover]
    fn bounds(&mut self, range: &Expr) -> (r: Bounds)
        ensures
            (final(self)@, r) == bounds_made(old(self)@, *range),
        decreases range, 2nat,
    {
        proof {
            reveal(bounds_made);
        }
        match &range.kind {
            ExprKind::Math(inner) => self.range(inner),
            _ => self.range(range),
        }
    }

    #[verifier::spinoff_prover]
    fn enter_loop(&mut self, b: Bounds) -> (r: LoopBlocks)
        ensures
            (final(self)@, r) == loop_entered(old(self)@, b),
    {
        proof {
            reveal(loop_entered);
        }
        let zero: Operand = self.make(Inst::Word(0), Kind::Word);
        let still: Operand = self.relate(Relation::Equal, b.step, zero);
        let bad: usize = self.block();
        let ok: usize = self.block();
        self.fork(still, bad, ok);
        let _ = self.put(Inst::At(bad));
        self.fail("AHPCL-RUN-0001", "a loop step of 0 would never finish");
        let _ = self.put(Inst::At(ok));
        let slot: Operand = self.make(Inst::Slot(Kind::Word), Kind::Ptr);
        self.store(slot.at, b.start, Kind::Word);
        let cond: usize = self.block();
        let body: usize = self.block();
        let done: usize = self.block();
        let _ = self.put(Inst::Jump(cond));
        let _ = self.put(Inst::At(cond));
        let i: Operand = self.make(Inst::Load { kind: Kind::Word, from: slot.at }, Kind::Word);
        let up: Operand = self.relate(Relation::Greater, b.step, zero);
        let le: Operand = self.relate(Relation::LessEqual, i, b.end);
        let ge: Operand = self.relate(Relation::GreaterEqual, i, b.end);
        let more: Operand = self.make(
            Inst::Select { kind: Kind::Bit, test: up.at, yes: le.at, no: ge.at },
            Kind::Bit,
        );
        self.fork(more, body, done);
        let step: usize = self.block();
        let _ = self.put(Inst::At(body));
        LoopBlocks { cond, body, done, step, slot: slot.at }
    }

    #[verifier::spinoff_prover]
    fn leave_loop(&mut self, b: Bounds, l: LoopBlocks)
        ensures
            final(self)@ == loop_left(old(self)@, b, l),
    {
        proof {
            reveal(loop_left);
        }
        let _ = self.put(Inst::At(l.step));
        let cur: Operand = self.make(Inst::Load { kind: Kind::Word, from: l.slot }, Kind::Word);
        self.expect(b.step, Kind::Word);
        let pair: Operand = self.make(
            Inst::Checked { op: CheckedOp::Add, lhs: cur.at, rhs: b.step.at },
            Kind::Word,
        );
        let next: Operand = self.make(Inst::CheckedValue(pair.at), Kind::Word);
        let over: Operand = self.make(Inst::Overflowed(pair.at), Kind::Bit);
        let again: usize = self.block();
        self.fork(over, l.done, again);
        let _ = self.put(Inst::At(again));
        self.store(l.slot, next, Kind::Word);
        let _ = self.put(Inst::Jump(l.cond));
        let _ = self.put(Inst::At(l.done));
    }

    #[verifier::spinoff_prover]
    fn counted_loop(&mut self, var: &str, b: Bounds, body: &Vec<Stmt>)
        ensures
            final(self)@ == counted_made(old(self)@, var@, b, *body),
        decreases body, body@.len() + 2,
    {
        proof {
            reveal(counted_made);
        }
        let l: LoopBlocks = self.enter_loop(b);
        self.push_frame();
        self.declare(var, l.slot, Native::Int);
        self.push_continue(l.step);
        let left: bool = self.block_stmts(body);
        self.pop_continue();
        self.release_scope();
        self.pop_frame();
        self.join(left, l.step);
        self.leave_loop(b, l);
    }

    #[verifier::spinoff_prover]
    fn loop_stmt(&mut self, l: &LoopStmt)
        ensures
            final(self)@ == loop_made(old(self)@, *l),
        decreases l, 0nat,
    {
        proof {
            reveal(loop_made);
        }
        match &l.kind {
            LoopKind::Counted { var, range, .. } => {
                let b: Bounds = self.bounds(range);
                self.counted_loop(var.as_str(), b, &l.body);
            },
            LoopKind::While { condition } => {
                let cond: usize = self.block();
                let body: usize = self.block();
                let done: usize = self.block();
                let _ = self.put(Inst::Jump(cond));
                let _ = self.put(Inst::At(cond));
                let mark: usize = self.temps.len();
                let test: Operand = self.expr(condition, Native::Bool);
                self.release_temporaries(mark);
                self.fork(test, body, done);
                let _ = self.put(Inst::At(body));
                self.push_continue(cond);
                let left: bool = self.scoped(&l.body);
                self.pop_continue();
                self.join(left, cond);
                let _ = self.put(Inst::At(done));
            },
        }
    }

    #[verifier::spinoff_prover]
    fn loop_value(&mut self, l: &LoopStmt, want: Native) -> (r: Operand)
        ensures
            (final(self)@, r) == loop_value(old(self)@, *l, want),
        decreases l, 1nat,
    {
        proof {
            reveal(loop_value);
        }
        let elem: Native = if want.is_array() {
            want.peel()
        } else {
            Native::Num
        };
        let kind: Operand = self.make(Inst::Small(elem.kind_tag()), Kind::Small);
        let array: Operand = self.call1(Rt::ArrayEmpty, kind);
        self.push_handback(Handback::Push { array, elem });
        self.loop_stmt(l);
        self.pop_handback();
        array
    }

    // ── statements ──────────────────────────────────────────────────────────

    /// The statements of a block, and whether it was left, so that nothing may follow.
    #[verifier::spinoff_prover]
    pub fn block_stmts(&mut self, stmts: &Vec<Stmt>) -> (r: bool)
        ensures
            (final(self)@, r) == block_made(old(self)@, *stmts, 0),
        decreases stmts, stmts@.len(),
    {
        proof {
            reveal(block_made);
        }
        let mut i: usize = 0;
        while i < stmts.len()
            invariant
                i <= stmts@.len(),
                block_made(old(self)@, *stmts, 0) == block_made(self@, *stmts, i as nat),
            decreases stmts@.len() - i,
        {
            proof {
                reveal(block_made);
            }
            let mark: usize = self.temps.len();
            let left: bool = self.statement(&stmts[i]);
            if left {
                self.forget_temporaries(mark);
                return true;
            }
            self.release_temporaries(mark);
            i = i + 1;
        }
        false
    }

    #[verifier::spinoff_prover]
    fn scoped(&mut self, stmts: &Vec<Stmt>) -> (r: bool)
        ensures
            (final(self)@, r) == scoped_made(old(self)@, *stmts),
        decreases stmts, stmts@.len() + 1,
    {
        proof {
            reveal(scoped_made);
        }
        self.push_frame();
        let left: bool = self.block_stmts(stmts);
        self.release_scope();
        self.pop_frame();
        left
    }

    #[verifier::spinoff_prover]
    fn statement(&mut self, stmt: &Stmt) -> (r: bool)
        ensures
            (final(self)@, r) == stmt_made(old(self)@, *stmt),
        decreases stmt, 0nat,
    {
        proof {
            reveal(stmt_made);
        }
        match stmt {
            Stmt::Func(_) => false,
            Stmt::Var(v) => {
                self.declaration(v);
                false
            },
            Stmt::Change(c) => {
                self.change(c);
                false
            },
            Stmt::Print { args, .. } => {
                self.print(args);
                let none: Vec<Operand> = Vec::new();
                let _ = self.call(Rt::PrintNewline, none);
                false
            },
            Stmt::If(chain) => self.if_chain(chain),
            Stmt::Loop(l) => {
                self.loop_stmt(l);
                false
            },
            Stmt::Handback { value, .. } => self.handback(value),
            Stmt::Expr(e) => {
                self.effect(e);
                false
            },
        }
    }

    #[verifier::spinoff_prover]
    fn effect(&mut self, e: &Expr)
        ensures
            final(self)@ == effect_made(old(self)@, *e),
        decreases e, 2nat,
    {
        proof {
            reveal(effect_made);
        }
        match &e.kind {
            ExprKind::Call { name, args } => match self.function(name.as_str()) {
                Some(i) => {
                    assert(self@.fns[i as int] == self.fns@[i as int]@);
                    if self.fns[i].ret == Native::Nothing {
                        let _ = self.function_call(name.as_str(), args, false);
                    } else {
                        let _ = self.expr(e, Native::Int);
                    }
                },
                None => {
                    let _ = self.expr(e, Native::Int);
                },
            },
            _ => {
                let _ = self.expr(e, Native::Int);
            },
        }
    }

    #[verifier::spinoff_prover]
    fn declaration(&mut self, v: &VarDecl)
        ensures
            final(self)@ == bindings_made(old(self)@, *v, 0),
        decreases v, v.bindings@.len(),
    {
        proof {
            reveal(bindings_made);
        }
        let mut i: usize = 0;
        while i < v.bindings.len()
            invariant
                i <= v.bindings@.len(),
                bindings_made(old(self)@, *v, 0) == bindings_made(self@, *v, i as nat),
            decreases v.bindings@.len() - i,
        {
            proof {
                reveal(bindings_made);
            }
            let b: &Binding = &v.bindings[i];
            match native_base_shaped(&v.ty, &b.shape) {
                Err(u) => {
                    self.refuse(u.what);
                },
                Ok(native) => {
                    self.binding(b, native, places(b.precision, v.ty.precision));
                },
            }
            i = i + 1;
        }
    }

    #[verifier::spinoff_prover]
    fn binding(&mut self, b: &Binding, native: Native, digits: u32)
        ensures
            final(self)@ == binding_made(old(self)@, *b, native, digits),
        decreases b, 0nat,
    {
        proof {
            reveal(binding_made);
        }
        match &b.value {
            None => {
                self.refuse_text("a declaration with no value");
            },
            Some(value) => {
                self.set_digits(digits);
                let v: Operand = self.expr(value, native);
                let slot: Operand = self.make(Inst::Slot(native.kind()), Kind::Ptr);
                self.keep(v, native);
                self.store(slot.at, v, native.kind());
                self.declare(b.name.as_str(), slot.at, native);
                self.set_digits(DEFAULT_DIGITS);
            },
        }
    }

    #[verifier::spinoff_prover]
    fn change(&mut self, c: &ChangeStmt)
        ensures
            final(self)@ == targets_made(old(self)@, *c, 0),
        decreases c, c.targets@.len(),
    {
        proof {
            reveal(targets_made);
        }
        match native_base(&c.ty) {
            Err(u) => {
                self.refuse(u.what);
                return;
            },
            Ok(_) => {},
        }
        let mut i: usize = 0;
        while i < c.targets.len()
            invariant
                i <= c.targets@.len(),
                crate::codegen::native::native_of(c.ty, None) is Ok,
                targets_made(old(self)@, *c, 0) == targets_made(self@, *c, i as nat),
            decreases c.targets@.len() - i,
        {
            proof {
                reveal(targets_made);
            }
            self.target(&c.targets[i]);
            i = i + 1;
        }
    }

    #[verifier::spinoff_prover]
    fn check_write(&mut self, sels: &Vec<Selector>)
        ensures
            final(self)@ == write_checked(old(self)@, sels@, 0),
    {
        let mut i: usize = 0;
        while i < sels.len()
            invariant
                i <= sels@.len(),
                write_checked(old(self)@, sels@, 0) == write_checked(self@, sels@, i as nat),
            decreases sels@.len() - i,
        {
            match &sels[i] {
                Selector::Indices(ix) => {
                    if ix.len() != 1 {
                        self.refuse_text("writing to several elements at once");
                        return;
                    }
                },
                _ => {
                    self.refuse_text("this form of element assignment");
                    return;
                },
            }
            i = i + 1;
        }
    }

    #[verifier::spinoff_prover]
    fn target(&mut self, t: &ChangeTarget)
        ensures
            final(self)@ == target_made(old(self)@, *t),
        decreases t, 0nat,
    {
        proof {
            reveal(target_made);
        }
        match self.lookup(t.name.as_str()) {
            None => {
                self.refuse(cat3("changing unknown '", t.name.as_str(), "'"));
            },
            Some((slot, held)) => {
                if t.selectors.len() > 0 {
                    if !held.is_array() {
                        self.refuse_text("a selector on a value that is not an array");
                        return;
                    }
                    self.check_write(&t.selectors);
                    let array: Operand = self.make(Inst::Load { kind: Kind::Ptr, from: slot }, Kind::Ptr);
                    let index: Operand = self.element_index(&t.selectors, 0, array);
                    let v: Operand = self.expr(&t.value, held.element());
                    self.array_store(array, index, v, held.element());
                    return;
                }
                let v: Operand = self.expr(&t.value, held);
                if held.is_counted() {
                    let before: Operand = self.make(Inst::Load { kind: held.kind(), from: slot }, held.kind());
                    self.keep(v, held);
                    self.store(slot, v, held.kind());
                    self.release(before, held);
                } else {
                    self.store(slot, v, held.kind());
                }
            },
        }
    }

    #[verifier::spinoff_prover]
    fn print(&mut self, args: &Vec<Expr>)
        ensures
            final(self)@ == prints_made(old(self)@, *args, 0),
        decreases args, args@.len(),
    {
        proof {
            reveal(prints_made);
        }
        let mut i: usize = 0;
        while i < args.len()
            invariant
                i <= args@.len(),
                prints_made(old(self)@, *args, 0) == prints_made(self@, *args, i as nat),
            decreases args@.len() - i,
        {
            proof {
                reveal(prints_made);
            }
            let e: &Expr = &args[i];
            match &e.kind {
                ExprKind::Str(t) => {
                    let text: Operand = self.chars(t.as_str());
                    let _ = self.call1(Rt::PrintStr, text);
                },
                _ => {
                    let want: Native = self.value_repr(e);
                    let v: Operand = self.expr(e, want);
                    self.print_value(v, want);
                },
            }
            i = i + 1;
        }
    }

    #[verifier::spinoff_prover]
    fn handback_store(&mut self, value: &Expr, slot: usize, native: Native, merge: usize)
        ensures
            final(self)@ == store_made(old(self)@, *value, slot, native, merge),
        decreases value, 2nat,
    {
        proof {
            reveal(store_made);
        }
        let mark: usize = self.temps.len();
        let v: Operand = self.expr(value, native);
        self.keep(v, native);
        self.store(slot, v, native.kind());
        self.release_temporaries(mark);
        self.release_scope();
        let _ = self.put(Inst::Jump(merge));
    }

    #[verifier::spinoff_prover]
    fn handback_push(&mut self, value: &Expr, array: Operand, elem: Native) -> (r: bool)
        ensures
            (final(self)@, r) == push_made(old(self)@, *value, array, elem),
        decreases value, 2nat,
    {
        proof {
            reveal(push_made);
        }
        let mark: usize = self.temps.len();
        let v: Operand = self.expr(value, elem);
        self.array_push(array, v, elem);
        self.release_temporaries(mark);
        self.release_scope();
        let k: usize = self.continues.len();
        if k > 0 {
            let step: usize = self.continues[k - 1];
            let _ = self.put(Inst::Jump(step));
            return true;
        }
        false
    }

    #[verifier::spinoff_prover]
    fn leave_empty(&mut self)
        ensures
            final(self)@ == left_empty(old(self)@),
    {
        proof {
            reveal(left_empty);
        }
        let mark: usize = self.temps.len();
        self.release_temporaries(mark);
        self.release_all_scopes();
        let _ = self.put(Inst::ReturnNothing);
    }

    #[verifier::spinoff_prover]
    fn hand_back(&mut self, value: &Expr, ret: Native)
        ensures
            final(self)@ == return_made(old(self)@, *value, ret),
        decreases value, 2nat,
    {
        proof {
            reveal(return_made);
        }
        let mark: usize = self.temps.len();
        let v: Operand = self.expr(value, ret);
        self.keep(v, ret);
        self.release_temporaries(mark);
        self.release_all_scopes();
        self.expect(v, ret.kind());
        let _ = self.put(Inst::Return(v.at));
    }

    #[verifier::spinoff_prover]
    fn handback(&mut self, value: &Expr) -> (r: bool)
        ensures
            (final(self)@, r) == handback_made(old(self)@, *value),
        decreases value, 3nat,
    {
        proof {
            reveal(handback_made);
        }
        let n: usize = self.handbacks.len();
        if n > 0 {
            return match self.handbacks[n - 1] {
                Handback::Store { slot, native, merge } => {
                    self.handback_store(value, slot, native, merge);
                    true
                },
                Handback::Push { array, elem } => self.handback_push(value, array, elem),
            };
        }
        if self.top {
            self.refuse_text("generated invalid LLVM IR: a value of the wrong kind");
            return true;
        }
        let ret: Native = self.ret;
        if ret == Native::Nothing {
            self.leave_empty();
        } else {
            self.hand_back(value, ret);
        }
        true
    }

    // ── functions ───────────────────────────────────────────────────────────

    fn new(fns: &'a Vec<FnSig>, ret: Native, top: bool) -> (r: Work<'a>)
        ensures
            r@ == fresh(sigs_view(fns@), ret, top),
    {
        let w: Work<'a> = Work {
            code: Vec::new(),
            texts: Vec::new(),
            frames: Vec::new(),
            handbacks: Vec::new(),
            continues: Vec::new(),
            temps: Vec::new(),
            digits: DEFAULT_DIGITS,
            owned_from: 0,
            ret,
            top,
            open: true,
            refusal: None,
            fns,
        };
        assert(w@ =~= fresh(sigs_view(fns@), ret, top));
        w
    }

    #[verifier::spinoff_prover]
    fn params(&mut self, params: &Vec<Param>, natives: &Vec<Native>)
        ensures
            final(self)@ == params_made(old(self)@, params@, natives@, 0),
    {
        let mut i: usize = 0;
        while i < params.len() && i < natives.len()
            invariant
                i <= params@.len(),
                params_made(old(self)@, params@, natives@, 0) == params_made(
                    self@,
                    params@,
                    natives@,
                    i as nat,
                ),
            decreases params@.len() - i,
        {
            let kind: Kind = natives[i].kind();
            let v: Operand = self.make(Inst::Param { index: i, kind }, kind);
            let slot: Operand = self.make(Inst::Slot(kind), Kind::Ptr);
            self.store(slot.at, v, kind);
            self.declare(params[i].name.as_str(), slot.at, natives[i]);
            i = i + 1;
        }
    }

    #[verifier::spinoff_prover]
    fn hand_back_default(&mut self, ret: Native)
        ensures
            final(self)@ == default_made(old(self)@, ret),
    {
        let v: Operand = match ret {
            Native::Nothing => {
                let _ = self.put(Inst::ReturnNothing);
                return;
            },
            Native::Int => self.make(Inst::Word(0), Kind::Word),
            Native::Bool => self.make(Inst::Bool(false), Kind::Bit),
            Native::Deci => self.make(Inst::Deci { mantissa: 0, scale: 0 }, Kind::Deci),
            Native::Rat => self.make(Inst::Rat { num: 0, den: 1 }, Kind::Rat),
            Native::Str => self.text(""),
            _ => self.make(Inst::Null, Kind::Ptr),
        };
        let _ = self.put(Inst::Return(v.at));
    }

    fn finished(
        self,
        fns: &Vec<FnSig>,
        symbol: String,
        params: Vec<Native>,
        ret: Native,
        returned: Option<Kind>,
    ) -> (r: Result<Function, Unsupported>)
        ensures
            function_result(r) == checked_function(
                sigs_view(fns@),
                self@,
                function_view(self@, symbol@, params@, ret),
                returned,
            ),
    {
        match self.refusal {
            Some(what) => Err(Unsupported { what }),
            None => {
                if !check_code(&self.code, self.texts.len(), &params, returned, fns) {
                    return Err(
                        Unsupported { what: "generated invalid LLVM IR: a value of the wrong kind".to_owned() },
                    );
                }
                Ok(Function { symbol, params, ret, code: self.code, texts: self.texts })
            },
        }
    }
}

fn places(binding: Option<Precision>, ty: Option<Precision>) -> (r: u32)
    ensures
        r == places_wanted(binding, ty),
{
    let chosen: Option<Precision> = match binding {
        Some(p) => Some(p),
        None => ty,
    };
    match chosen {
        Some(Precision::Digits(n)) => n,
        _ => DEFAULT_DIGITS,
    }
}

fn copied(ns: &Vec<Native>) -> (r: Vec<Native>)
    ensures
        r@ == ns@,
{
    let mut out: Vec<Native> = Vec::new();
    let mut i: usize = 0;
    while i < ns.len()
        invariant
            i <= ns@.len(),
            out@ =~= ns@.take(i as int),
        decreases ns@.len() - i,
    {
        out.push(ns[i]);
        i = i + 1;
    }
    assert(ns@.take(ns@.len() as int) =~= ns@);
    out
}

pub open spec fn natives_result(r: Result<Vec<Native>, Unsupported>) -> Result<Seq<Native>, Seq<char>> {
    match r {
        Ok(v) => Ok(v@),
        Err(u) => Err(u@),
    }
}

/// What the parameters in front of the `i`-th come to, put before the rest.
pub open spec fn params_from(params: Seq<Param>, i: nat, acc: Seq<Native>) -> Result<Seq<Native>, Seq<char>> {
    match params_native(params, i) {
        Err(what) => Err(what),
        Ok(rest) => Ok(acc + rest),
    }
}

fn param_natives(params: &Vec<Param>) -> (r: Result<Vec<Native>, Unsupported>)
    ensures
        natives_result(r) == params_native(params@, 0),
{
    let mut out: Vec<Native> = Vec::new();
    let mut i: usize = 0;
    proof {
        match params_native(params@, 0) {
            Ok(rest) => {
                assert(out@ + rest =~= rest);
            },
            Err(_) => {},
        }
    }
    while i < params.len()
        invariant
            i <= params@.len(),
            params_native(params@, 0) == params_from(params@, i as nat, out@),
        decreases params@.len() - i,
    {
        match native_base_shaped(&params[i].ty, &params[i].shape) {
            Err(u) => {
                return Err(u);
            },
            Ok(n) => {
                if n == Native::Nothing {
                    return Err(Unsupported { what: "a parameter of type none".to_owned() });
                }
                proof {
                    match params_native(params@, i as nat + 1) {
                        Ok(rest) => {
                            assert(out@ + (seq![n] + rest) =~= out@.push(n) + rest);
                        },
                        Err(_) => {},
                    }
                }
                out.push(n);
            },
        }
        i = i + 1;
    }
    assert(out@ + Seq::<Native>::empty() =~= out@);
    Ok(out)
}

pub open spec fn sig_result(r: Result<FnSig, Unsupported>) -> Result<SigView, Seq<char>> {
    match r {
        Ok(s) => Ok(s@),
        Err(u) => Err(u@),
    }
}

fn declare_function(f: &FuncDecl) -> (r: Result<FnSig, Unsupported>)
    ensures
        sig_result(r) == signature(*f),
{
    let ret: Native = match native_base(&f.returns) {
        Err(u) => {
            return Err(u);
        },
        Ok(n) => n,
    };
    match param_natives(&f.params) {
        Err(u) => Err(u),
        Ok(params) => Ok(FnSig { name: f.name.clone(), params, ret }),
    }
}

pub open spec fn sigs_result(r: Result<Vec<FnSig>, Unsupported>) -> Result<Seq<SigView>, Seq<char>> {
    match r {
        Ok(s) => Ok(sigs_view(s@)),
        Err(u) => Err(u@),
    }
}

proof fn lemma_signatures_stop(stmts: Seq<Stmt>, i: nat, n: nat)
    requires
        i <= n,
        signatures(stmts, i) is Err,
    ensures
        signatures(stmts, n) == signatures(stmts, i),
    decreases n,
{
    if i < n {
        lemma_signatures_stop(stmts, i, (n - 1) as nat);
    }
}

/// How many functions the first `n` statements declare.
pub open spec fn function_count(stmts: Seq<Stmt>, n: nat) -> nat
    decreases n,
{
    if n == 0 {
        0
    } else {
        function_count(stmts, (n - 1) as nat) + (if stmts[n - 1] is Func {
            1nat
        } else {
            0
        })
    }
}

proof fn lemma_function_count(stmts: Seq<Stmt>, n: nat, m: nat)
    requires
        n <= m,
    ensures
        function_count(stmts, n) <= function_count(stmts, m),
    decreases m,
{
    if n < m {
        lemma_function_count(stmts, n, (m - 1) as nat);
    }
}

fn declare_functions(stmts: &Vec<Stmt>) -> (r: Result<Vec<FnSig>, Unsupported>)
    ensures
        sigs_result(r) == signatures(stmts@, stmts@.len()),
        r matches Ok(s) ==> s@.len() == function_count(stmts@, stmts@.len()),
{
    let mut out: Vec<FnSig> = Vec::new();
    let mut i: usize = 0;
    assert(sigs_view(out@) =~= Seq::<SigView>::empty());
    while i < stmts.len()
        invariant
            i <= stmts@.len(),
            signatures(stmts@, i as nat) == Ok::<Seq<SigView>, Seq<char>>(sigs_view(out@)),
            out@.len() == function_count(stmts@, i as nat),
        decreases stmts@.len() - i,
    {
        match &stmts[i] {
            Stmt::Func(f) => match declare_function(f) {
                Err(u) => {
                    proof {
                        lemma_signatures_stop(stmts@, i as nat + 1, stmts@.len());
                    }
                    return Err(u);
                },
                Ok(s) => {
                    let ghost before = out@;
                    out.push(s);
                    assert(sigs_view(out@) =~= sigs_view(before).push(s@));
                },
            },
            _ => {},
        }
        i = i + 1;
    }
    Ok(out)
}

pub open spec fn function_result(r: Result<Function, Unsupported>) -> Result<FunctionView, Seq<char>> {
    match r {
        Ok(f) => Ok(f@),
        Err(u) => Err(u@),
    }
}

fn function_body(fns: &Vec<FnSig>, f: &FuncDecl, sig: &FnSig) -> (r: Result<Function, Unsupported>)
    ensures
        ({
            let w = function_made(sigs_view(fns@), *f, sig@);
            function_result(r) == checked_function(
                sigs_view(fns@),
                w,
                function_view(w, crate::codegen::native::mangled(f.name@), sig@.params, sig@.ret),
                ret_kind(sig@.ret),
            )
        }),
{
    proof {
        reveal(function_made);
    }
    let mut w: Work = Work::new(fns, sig.ret, false);
    w.push_frame();
    w.params(&f.params, &sig.params);
    // Parameters live in the frame just pushed; the body gets its own. Only the body's
    // frame is this function's to release.
    w.push_frame();
    w.owned_from = 1;
    let left: bool = w.block_stmts(&f.body);
    if !left {
        w.release_scope();
        w.hand_back_default(sig.ret);
    }
    let returned: Option<Kind> = match sig.ret {
        Native::Nothing => None,
        _ => Some(sig.ret.kind()),
    };
    w.finished(fns, mangle(f.name.as_str()), copied(&sig.params), sig.ret, returned)
}

fn main_body(fns: &Vec<FnSig>, program: &Program) -> (r: Result<Function, Unsupported>)
    ensures
        ({
            let w = main_made(sigs_view(fns@), *program);
            function_result(r) == checked_function(
                sigs_view(fns@),
                w,
                function_view(w, "main"@, Seq::empty(), Native::Nothing),
                Some(Kind::Small),
            )
        }),
{
    proof {
        reveal(main_made);
    }
    let mut w: Work = Work::new(fns, Native::Nothing, true);
    w.push_frame();
    let left: bool = w.block_stmts(&program.statements);
    if !left {
        w.release_scope();
        let zero: Operand = w.make(Inst::Small(0), Kind::Small);
        let _ = w.put(Inst::Return(zero.at));
    }
    let none: Vec<Native> = Vec::new();
    w.finished(fns, "main".to_owned(), none, Native::Nothing, Some(Kind::Small))
}

/// What the functions from the `i`-th statement on come to, behind those in `acc`.
pub open spec fn functions_from(
    fns: Seq<SigView>,
    stmts: Seq<Stmt>,
    i: nat,
    k: nat,
    acc: Seq<FunctionView>,
) -> Result<Seq<FunctionView>, Seq<char>> {
    match functions_made(fns, stmts, i, k) {
        Err(what) => Err(what),
        Ok(rest) => Ok(acc + rest),
    }
}

pub open spec fn functions_result(r: Result<Vec<Function>, Unsupported>) -> Result<Seq<FunctionView>, Seq<char>> {
    match r {
        Ok(f) => Ok(functions_view(f@)),
        Err(u) => Err(u@),
    }
}

fn function_bodies(fns: &Vec<FnSig>, stmts: &Vec<Stmt>) -> (r: Result<Vec<Function>, Unsupported>)
    requires
        fns@.len() == function_count(stmts@, stmts@.len()),
    ensures
        functions_result(r) == functions_made(sigs_view(fns@), stmts@, 0, 0),
{
    let ghost sigs = sigs_view(fns@);
    let mut out: Vec<Function> = Vec::new();
    let mut i: usize = 0;
    let mut k: usize = 0;
    proof {
        match functions_made(sigs, stmts@, 0, 0) {
            Ok(rest) => {
                assert(functions_view(out@) + rest =~= rest);
            },
            Err(_) => {},
        }
    }
    while i < stmts.len()
        invariant
            i <= stmts@.len(),
            k == function_count(stmts@, i as nat),
            fns@.len() == function_count(stmts@, stmts@.len()),
            sigs == sigs_view(fns@),
            functions_made(sigs, stmts@, 0, 0) == functions_from(
                sigs,
                stmts@,
                i as nat,
                k as nat,
                functions_view(out@),
            ),
        decreases stmts@.len() - i,
    {
        match &stmts[i] {
            Stmt::Func(f) => {
                proof {
                    lemma_function_count(stmts@, i as nat + 1, stmts@.len());
                }
                assert(sigs[k as int] == fns@[k as int]@);
                match function_body(fns, f, &fns[k]) {
                    Err(u) => {
                        return Err(u);
                    },
                    Ok(x) => {
                        let ghost before = functions_view(out@);
                        let ghost view = x@;
                        out.push(x);
                        assert(functions_view(out@) =~= before.push(view));
                        proof {
                            match functions_made(sigs, stmts@, i as nat + 1, k as nat + 1) {
                                Ok(rest) => {
                                    assert(before + (seq![view] + rest) =~= before.push(view) + rest);
                                },
                                Err(_) => {},
                            }
                        }
                        assert(k < fns@.len() && fns@.len() == fns.len());
                        k = k + 1;
                    },
                }
            },
            _ => {},
        }
        i = i + 1;
    }
    assert(functions_view(out@) + Seq::<FunctionView>::empty() =~= functions_view(out@));
    Ok(out)
}

/// Lower a program, or say what in it cannot be compiled natively.
pub fn compile(program: &Program) -> (r: Result<Compiled, Unsupported>)
    ensures
        compiled_view(r) == lowered(*program),
{
    let fns: Vec<FnSig> = match declare_functions(&program.statements) {
        Err(u) => {
            return Err(u);
        },
        Ok(fns) => fns,
    };
    let functions: Vec<Function> = match function_bodies(&fns, &program.statements) {
        Err(u) => {
            return Err(u);
        },
        Ok(fs) => fs,
    };
    match main_body(&fns, program) {
        Err(u) => Err(u),
        Ok(main) => Ok(Compiled { functions, main }),
    }
}

} // verus!
