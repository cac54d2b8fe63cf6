//! The names that evaluating something may change.

use vstd::prelude::*;

use crate::ast::{
    Binding, ChangeStmt, ChangeTarget, Expr, ExprKind, IfArm, IfChain, LoopKind, LoopStmt, Selector, Stmt,
    VarDecl,
};
use crate::sema::analysis::{
    calmed, own_touched, stirred, touched_arms, touched_bindings, touched_block, touched_by_functions,
    touched_conditions, touched_expr, touched_exprs, touched_head, touched_loop, touched_maybe,
    touched_selector, touched_selectors, touched_statement, touched_targets, untouched, without, Touched,
};
use crate::sema::interval::State;
use crate::text::same_text;

verus! {

pub open spec fn texts_in(names: Seq<String>) -> Seq<Seq<char>> {
    Seq::new(names.len(), |i: int| names[i]@)
}

pub struct Touch {
    pub names: Vec<String>,
    pub calls: bool,
}

impl View for Touch {
    type V = Touched;

    open spec fn view(&self) -> Touched {
        Touched { names: texts_in(self.names@), calls: self.calls }
    }
}

fn has_name(names: &Vec<String>, name: &str) -> (r: bool)
    ensures
        r == texts_in(names@).contains(name@),
{
    let mut i: usize = 0;
    while i < names.len()
        invariant
            i <= names.len(),
            forall|j: int| 0 <= j < i ==> (#[trigger] names@[j])@ != name@,
        decreases names.len() - i,
    {
        if same_text(names[i].as_str(), name) {
            assert(texts_in(names@)[i as int] == name@);
            return true;
        }
        i = i + 1;
    }
    proof {
        if texts_in(names@).contains(name@) {
            let k = texts_in(names@).index_of(name@);
            assert(names@[k]@ == name@);
        }
    }
    false
}

/// Forget some names.
fn forget(state: &mut State, names: &Vec<String>)
    ensures
        final(state)@ == without(old(state)@, texts_in(names@), names@.len()),
{
    let mut i: usize = 0;
    while i < names.len()
        invariant
            i <= names.len(),
            state@ == without(old(state)@, texts_in(names@), i as nat),
        decreases names.len() - i,
    {
        state.remove(names[i].as_str());
        i = i + 1;
    }
}

impl Touch {
    pub fn new() -> (r: Touch)
        ensures
            r@ == untouched(),
    {
        let t: Touch = Touch { names: Vec::new(), calls: false };
        assert(t@ =~= untouched());
        t
    }

    /// Forget what may have changed; `functions` are the names that functions change.
    pub fn calm(&self, functions: &Vec<String>, state: &mut State)
        ensures
            final(state)@ == calmed(texts_in(functions@), old(state)@, self@),
    {
        forget(state, &self.names);
        if self.calls {
            forget(state, functions);
        }
    }

    /// Whether a variable may have changed.
    pub fn stirs(&self, functions: &Vec<String>, name: &str) -> (r: bool)
        ensures
            r == stirred(texts_in(functions@), name@, self@),
    {
        has_name(&self.names, name) || (self.calls && has_name(functions, name))
    }

    fn push(&mut self, name: &str)
        ensures
            final(self)@ == (Touched { names: old(self)@.names.push(name@), calls: old(self)@.calls }),
    {
        let ghost before = self@.names;
        self.names.push(name.to_owned());
        assert(self@.names =~= before.push(name@));
    }

    pub fn expr(&mut self, e: &Expr)
        ensures
            final(self)@ == touched_expr(*e, old(self)@),
        decreases e, 1nat,
    {
        match &e.kind {
            ExprKind::Math(inner) => self.expr(inner),
            ExprKind::Ref { selectors, .. } => self.selectors(selectors),
            ExprKind::Binary { lhs, rhs, .. } => {
                self.expr(lhs);
                self.expr(rhs);
            },
            ExprKind::Unary { operand, .. } => self.expr(operand),
            ExprKind::ArrayLit(items) => self.exprs(items),
            ExprKind::If(chain) => self.arms(chain),
            ExprKind::Loop(l) => self.loop_stmt(l),
            ExprKind::Range { from, to, by } => {
                self.expr(from);
                self.expr(to);
                self.maybe(by);
            },
            ExprKind::Call { args, .. } => {
                self.calls = true;
                self.exprs(args);
            },
            ExprKind::Builtin { args, .. } => self.exprs(args),
            _ => {},
        }
    }

    pub fn exprs(&mut self, items: &Vec<Expr>)
        ensures
            final(self)@ == touched_exprs(*items, 0, old(self)@),
        decreases items, items@.len(),
    {
        let mut i: usize = 0;
        while i < items.len()
            invariant
                i <= items.len(),
                touched_exprs(*items, 0, old(self)@) == touched_exprs(*items, i as nat, self@),
            decreases items.len() - i,
        {
            self.expr(&items[i]);
            i = i + 1;
        }
    }

    fn maybe(&mut self, e: &Option<Box<Expr>>)
        ensures
            final(self)@ == touched_maybe(*e, old(self)@),
        decreases e, 0nat,
    {
        if let Some(x) = e {
            self.expr(x);
        }
    }

    fn selector(&mut self, sel: &Selector)
        ensures
            final(self)@ == touched_selector(*sel, old(self)@),
        decreases sel, 0nat,
    {
        match sel {
            Selector::Indices(items) => self.exprs(items),
            Selector::Range { from, to, by } => {
                self.expr(from);
                self.expr(to);
                self.maybe(by);
            },
            _ => {},
        }
    }

    pub fn selectors(&mut self, sels: &Vec<Selector>)
        ensures
            final(self)@ == touched_selectors(*sels, 0, old(self)@),
        decreases sels, sels@.len(),
    {
        let mut i: usize = 0;
        while i < sels.len()
            invariant
                i <= sels.len(),
                touched_selectors(*sels, 0, old(self)@) == touched_selectors(*sels, i as nat, self@),
            decreases sels.len() - i,
        {
            self.selector(&sels[i]);
            i = i + 1;
        }
    }

    fn bindings(&mut self, v: &VarDecl)
        ensures
            final(self)@ == touched_bindings(*v, 0, old(self)@),
        decreases v, v.bindings@.len(),
    {
        let mut i: usize = 0;
        while i < v.bindings.len()
            invariant
                i <= v.bindings.len(),
                touched_bindings(*v, 0, old(self)@) == touched_bindings(*v, i as nat, self@),
            decreases v.bindings.len() - i,
        {
            let b: &Binding = &v.bindings[i];
            if let Some(e) = &b.value {
                self.expr(e);
            }
            i = i + 1;
        }
    }

    fn targets(&mut self, c: &ChangeStmt, names: bool)
        ensures
            final(self)@ == touched_targets(*c, 0, names, old(self)@),
        decreases c, c.targets@.len(),
    {
        let mut i: usize = 0;
        while i < c.targets.len()
            invariant
                i <= c.targets.len(),
                touched_targets(*c, 0, names, old(self)@) == touched_targets(*c, i as nat, names, self@),
            decreases c.targets.len() - i,
        {
            let t: &ChangeTarget = &c.targets[i];
            self.selectors(&t.selectors);
            self.expr(&t.value);
            if names {
                self.push(t.name.as_str());
            }
            i = i + 1;
        }
    }

    fn conditions(&mut self, chain: &IfChain)
        ensures
            final(self)@ == touched_conditions(*chain, 0, old(self)@),
        decreases chain, chain.arms@.len(),
    {
        let mut i: usize = 0;
        while i < chain.arms.len()
            invariant
                i <= chain.arms.len(),
                touched_conditions(*chain, 0, old(self)@) == touched_conditions(*chain, i as nat, self@),
            decreases chain.arms.len() - i,
        {
            let arm: &IfArm = &chain.arms[i];
            if let Some(e) = &arm.condition {
                self.expr(e);
            }
            i = i + 1;
        }
    }

    fn arms(&mut self, chain: &IfChain)
        ensures
            final(self)@ == touched_arms(*chain, 0, old(self)@),
        decreases chain, chain.arms@.len(),
    {
        let mut i: usize = 0;
        while i < chain.arms.len()
            invariant
                i <= chain.arms.len(),
                touched_arms(*chain, 0, old(self)@) == touched_arms(*chain, i as nat, self@),
            decreases chain.arms.len() - i,
        {
            let arm: &IfArm = &chain.arms[i];
            if let Some(e) = &arm.condition {
                self.expr(e);
            }
            self.block(&arm.body);
            i = i + 1;
        }
    }

    fn head(&mut self, l: &LoopStmt)
        ensures
            final(self)@ == touched_head(*l, old(self)@),
        decreases l, 0nat,
    {
        match &l.kind {
            LoopKind::Counted { range, .. } => self.expr(range),
            LoopKind::While { condition } => self.expr(condition),
        }
    }

    fn loop_stmt(&mut self, l: &LoopStmt)
        ensures
            final(self)@ == touched_loop(*l, old(self)@),
        decreases l, 1nat,
    {
        self.head(l);
        self.block(&l.body);
    }

    fn statement(&mut self, stmt: &Stmt)
        ensures
            final(self)@ == touched_statement(*stmt, old(self)@),
        decreases stmt, 0nat,
    {
        match stmt {
            Stmt::Var(v) => self.bindings(v),
            Stmt::Change(c) => self.targets(c, true),
            Stmt::Func(_) => {},
            Stmt::If(chain) => self.arms(chain),
            Stmt::Loop(l) => self.loop_stmt(l),
            Stmt::Print { args, .. } => self.exprs(args),
            Stmt::Handback { value, .. } => self.expr(value),
            Stmt::Expr(e) => self.expr(e),
        }
    }

    fn block(&mut self, stmts: &Vec<Stmt>)
        ensures
            final(self)@ == touched_block(*stmts, 0, old(self)@),
        decreases stmts, stmts@.len(),
    {
        let mut i: usize = 0;
        while i < stmts.len()
            invariant
                i <= stmts.len(),
                touched_block(*stmts, 0, old(self)@) == touched_block(*stmts, i as nat, self@),
            decreases stmts.len() - i,
        {
            self.statement(&stmts[i]);
            i = i + 1;
        }
    }

    /// What a statement's own expressions touch.
    pub fn own(stmt: &Stmt) -> (r: Touch)
        ensures
            r@ == own_touched(*stmt),
    {
        let mut t: Touch = Touch::new();
        match stmt {
            Stmt::Var(v) => t.bindings(v),
            Stmt::Change(c) => t.targets(c, false),
            Stmt::Func(_) => {},
            Stmt::If(chain) => t.conditions(chain),
            Stmt::Loop(l) => t.head(l),
            Stmt::Print { args, .. } => t.exprs(args),
            Stmt::Handback { value, .. } => t.expr(value),
            Stmt::Expr(e) => t.expr(e),
        }
        t
    }

    /// What the functions of a program touch.
    pub fn functions(stmts: &Vec<Stmt>) -> (r: Touch)
        ensures
            r@ == touched_by_functions(stmts@, stmts@.len()),
    {
        let mut t: Touch = Touch::new();
        let mut i: usize = 0;
        while i < stmts.len()
            invariant
                i <= stmts.len(),
                t@ == touched_by_functions(stmts@, i as nat),
            decreases stmts.len() - i,
        {
            if let Stmt::Func(f) = &stmts[i] {
                t.block(&f.body);
            }
            i = i + 1;
        }
        t
    }
}

} // verus!
