//! Programs on whole numbers, and what lowering them leaves alone.

use vstd::prelude::*;

use crate::ast::{
    BinOp, Binding, ChangeStmt, ChangeTarget, Expr, ExprKind, IfChain, LoopKind, LoopStmt, Stmt, TypeRef,
    UnOp, VarDecl,
};
use crate::codegen::laws::{extended, lemma_block, step, stride};
use crate::codegen::lowering::{
    arms_made, binding_made, bindings_made, block_made, bounds_made, counted_made, expr_made, if_made, joined,
    loop_entered, loop_left, loop_made, places_wanted, prints_made, range_made, scoped_made, step_made,
    stmt_made, target_made, targets_made, with_continue, with_digits, without_continue, Bounds, CompiledView,
    LoopBlocks,
};
use crate::codegen::machine::{slot, steps};
use crate::codegen::native::{kind_of, native_of, Native};
use crate::codegen::runtime::{Kind, Rt};
use crate::codegen::simulation::{
    has_name, lemma_extended_then, lemma_first_local, lemma_local, lemma_natural, literal_typed, made_binary,
    made_unary, quiet, sees, typed, lemma_quiet_then, is_whole_operation,
};
use crate::codegen::steps::{converted, literal_made, printed, relation_of, words_made};
use crate::codegen::work::{
    called, checked_made, chars_made, declared, expecting_all, failing, forked, found, frame_released,
    frame_released_at, kept, kinds, local_index, looked_up, made, natural, opened, put, related,
    scope_released, stored, temps_released, with_args, with_frame, with_local, without_frame, CheckedOp, Inst,
    LocalView, Operand, WorkView,
};

verus! {

// ── programs on whole numbers ───────────────────────────────────────────────

/// What the names of a scope stand for.
pub type Scope = Map<Seq<char>, Native>;

/// What a name stands for among the first `n` scopes, the innermost first.
pub open spec fn known(s: Seq<Scope>, name: Seq<char>, n: nat) -> Option<Native>
    decreases n,
{
    if n == 0 {
        None
    } else if s[n - 1].dom().contains(name) {
        Some(s[n - 1][name])
    } else {
        known(s, name, (n - 1) as nat)
    }
}

/// An expression on whole numbers and truth values that comes to the wanted one of them.
pub open spec fn whole_expr(s: Seq<Scope>, e: Expr, want: Native) -> bool
    decreases e,
{
    match e.kind {
        ExprKind::Math(inner) => whole_expr(s, *inner, want),
        ExprKind::Number(t) => literal_typed(t@, want),
        ExprKind::Literal(t) => literal_typed(t@, want),
        ExprKind::Ref { name, selectors } => {
            &&& selectors@.len() == 0
            &&& want is Int || want is Bool
            &&& known(s, name@, s.len()) == Some(want)
        },
        ExprKind::Unary { op, operand } => if want is Int {
            op == UnOp::Neg && whole_expr(s, *operand, Native::Int)
        } else {
            want is Bool && op == UnOp::Not && whole_expr(s, *operand, Native::Bool)
        },
        ExprKind::Binary { op, lhs, rhs } => if want is Int {
            is_whole_operation(op) && whole_expr(s, *lhs, Native::Int) && whole_expr(s, *rhs, Native::Int)
        } else if op == BinOp::And || op == BinOp::Or {
            want is Bool && whole_expr(s, *lhs, Native::Bool) && whole_expr(s, *rhs, Native::Bool)
        } else {
            want is Bool && relation_of(op) is Some && whole_expr(s, *lhs, Native::Int) && whole_expr(
                s,
                *rhs,
                Native::Int,
            )
        },
        _ => false,
    }
}

/// The representation of a whole number or a truth value, where a type is one of them.
pub open spec fn whole_type(ty: TypeRef) -> Option<Native> {
    if ty.rank is Some {
        None
    } else if ty.base@ == "int"@ {
        Some(Native::Int)
    } else if ty.base@ == "bool"@ {
        Some(Native::Bool)
    } else {
        None
    }
}

pub open spec fn with_name(s: Seq<Scope>, name: Seq<char>, n: Native) -> Seq<Scope> {
    s.update(s.len() - 1, s.last().insert(name, n))
}

/// The scopes behind the first `n` bindings of a declaration.
pub open spec fn with_bindings(s: Seq<Scope>, v: VarDecl, n: nat) -> Seq<Scope>
    decreases n,
{
    if n == 0 || n > v.bindings@.len() || whole_type(v.ty) is None {
        s
    } else {
        with_name(with_bindings(s, v, (n - 1) as nat), v.bindings@[n - 1].name@, whole_type(v.ty)->0)
    }
}

/// The scopes behind a statement.
pub open spec fn scopes_after(s: Seq<Scope>, stmt: Stmt) -> Seq<Scope> {
    match stmt {
        Stmt::Var(v) => with_bindings(s, v, v.bindings@.len()),
        _ => s,
    }
}

pub open spec fn whole_binding(s: Seq<Scope>, v: VarDecl, i: int, fixed: Set<Seq<char>>) -> bool {
    let b = v.bindings@[i];
    &&& b.value matches Some(e) && whole_type(v.ty) matches Some(n) && whole_expr(s, e, n)
    &&& !fixed.contains(b.name@)
}

pub open spec fn whole_target(s: Seq<Scope>, t: ChangeTarget, fixed: Set<Seq<char>>) -> bool {
    &&& t.selectors@.len() == 0
    &&& !fixed.contains(t.name@)
    &&& known(s, t.name@, s.len()) matches Some(n) && whole_expr(s, t.value, n)
}

/// An expression that prints as a truth value.
pub open spec fn shows_truth(e: Expr) -> bool
    decreases e,
{
    match e.kind {
        ExprKind::Math(inner) => shows_truth(*inner),
        ExprKind::Ref { .. } => true,
        ExprKind::Unary { op, .. } => op == UnOp::Not,
        _ => false,
    }
}

/// The name of an array, by itself.
pub open spec fn names_array(s: Seq<Scope>, e: Expr) -> bool {
    e.kind matches ExprKind::Ref { name, selectors } && {
        &&& selectors@.len() == 0
        &&& known(s, name@, s.len()) matches Some(n) && n is Array
    }
}

/// What can be printed: text as it is written, whole numbers, truth values and arrays.
pub open spec fn whole_print(s: Seq<Scope>, e: Expr) -> bool {
    ||| e.kind is Str
    ||| names_array(s, e)
    ||| whole_expr(s, e, Native::Int)
    ||| whole_expr(s, e, Native::Bool) && shows_truth(e)
}

pub open spec fn whole_step(s: Seq<Scope>, by: Option<Box<Expr>>) -> bool {
    by matches Some(e) ==> whole_expr(s, *e, Native::Int)
}

pub open spec fn whole_range(s: Seq<Scope>, e: Expr) -> bool {
    e.kind matches ExprKind::Range { from, to, by } && whole_expr(s, *from, Native::Int) && whole_expr(
        s,
        *to,
        Native::Int,
    ) && whole_step(s, by)
}

/// The range of a counted loop, with or without `math { }` around it.
pub open spec fn whole_bounds(s: Seq<Scope>, range: Expr) -> bool {
    match range.kind {
        ExprKind::Math(inner) => whole_range(s, *inner),
        _ => whole_range(s, range),
    }
}

/// A statement on whole numbers: it declares, changes, prints, decides and repeats, hands
/// nothing back and calls nothing. It neither declares nor changes a fixed name, which the
/// counter of a loop around it is.
pub open spec fn whole_stmt(s: Seq<Scope>, stmt: Stmt, fixed: Set<Seq<char>>) -> bool
    decreases stmt, 0nat,
{
    match stmt {
        Stmt::Func(_) => true,
        Stmt::Var(v) => forall|i: int|
            #![trigger v.bindings@[i]]
            0 <= i < v.bindings@.len() ==> whole_binding(with_bindings(s, v, i as nat), v, i, fixed),
        Stmt::Change(c) => {
            &&& whole_type(c.ty) is Some
            &&& forall|i: int| #![trigger c.targets@[i]] 0 <= i < c.targets@.len() ==> whole_target(s, c.targets@[i], fixed)
        },
        Stmt::Print { args, .. } => forall|i: int| 0 <= i < args@.len() ==> whole_print(s, #[trigger] args@[i]),
        Stmt::If(chain) => whole_arms(s, chain, 0, fixed),
        Stmt::Loop(l) => whole_loop(s, l, fixed),
        _ => false,
    }
}

/// The arms of a conditional from the `i`-th on.
pub open spec fn whole_arms(s: Seq<Scope>, chain: IfChain, i: nat, fixed: Set<Seq<char>>) -> bool
    decreases chain, chain.arms@.len() - i,
{
    i >= chain.arms@.len() || {
        let arm = chain.arms@[i as int];
        &&& arm.condition matches Some(e) ==> whole_expr(s, e, Native::Bool)
        &&& arm.condition is None ==> i + 1 == chain.arms@.len()
        &&& whole_block(s.push(Map::empty()), arm.body, 0, fixed)
        &&& whole_arms(s, chain, i + 1, fixed)
    }
}

pub open spec fn whole_loop(s: Seq<Scope>, l: LoopStmt, fixed: Set<Seq<char>>) -> bool
    decreases l, 0nat,
{
    match l.kind {
        LoopKind::Counted { var, range, .. } => {
            &&& whole_bounds(s, range)
            &&& !fixed.contains(var@)
            &&& whole_block(with_name(s.push(Map::empty()), var@, Native::Int), l.body, 0, fixed.insert(var@))
        },
        LoopKind::While { condition } => {
            &&& whole_expr(s, condition, Native::Bool)
            &&& whole_block(s.push(Map::empty()), l.body, 0, fixed)
        },
    }
}

/// The statements of a block from the `i`-th on.
pub open spec fn whole_block(s: Seq<Scope>, stmts: Vec<Stmt>, i: nat, fixed: Set<Seq<char>>) -> bool
    decreases stmts, stmts@.len() - i,
{
    i >= stmts@.len() || {
        &&& whole_stmt(s, stmts@[i as int], fixed)
        &&& whole_block(scopes_after(s, stmts@[i as int]), stmts, i + 1, fixed)
    }
}

// ── the scopes of the lowering ──────────────────────────────────────────────

/// Whether the lowering takes names for what the scopes say.
pub open spec fn knows(w: WorkView, s: Seq<Scope>) -> bool {
    &&& w.frames.len() == s.len()
    &&& s.len() > 0
    &&& forall|i: int, name: Seq<char>|
        0 <= i < s.len() ==> (#[trigger] has_name(w.frames[i], name) <==> s[i].dom().contains(name))
    &&& forall|i: int, j: int|
        #![trigger w.frames[i][j]]
        0 <= i < s.len() && 0 <= j < w.frames[i].len() ==> {
            let l = w.frames[i][j];
            &&& s[i].dom().contains(l.name)
            &&& s[i][l.name] == l.native
            &&& held_native(l.native)
            &&& local_index(w.frames[i], l.name) == j
        }
}

/// The representations of variables: whole numbers, truth values and arrays.
pub open spec fn held_native(n: Native) -> bool {
    n is Int || n is Bool || n is Array
}

/// A scope with nothing that the runtime counts.
pub open spec fn plain(s: Seq<Scope>) -> bool {
    forall|name: Seq<char>| #[trigger] s.last().dom().contains(name) ==> s.last()[name] is Int || s.last()[name] is Bool
}

pub(crate) proof fn lemma_known(w: WorkView, s: Seq<Scope>, name: Seq<char>, n: nat)
    requires
        knows(w, s),
        n <= s.len(),
    ensures
        match found(w.frames, name, n) {
            Some((_, native)) => known(s, name, n) == Some(native) && held_native(native),
            None => known(s, name, n) is None,
        },
    decreases n,
{
    if n > 0 {
        let f = w.frames[n - 1];
        assert(has_name(f, name) <==> s[n - 1].dom().contains(name));
        lemma_local(f, name);
        let i = local_index(f, name);
        if i < f.len() {
            let l = w.frames[n - 1][i as int];
            assert(l.name == name);
        } else {
            lemma_known(w, s, name, (n - 1) as nat);
        }
    }
}

pub(crate) proof fn lemma_typed(w: WorkView, s: Seq<Scope>, e: Expr, want: Native)
    requires
        knows(w, s),
        whole_expr(s, e, want),
    ensures
        typed(w, e, want),
    decreases e,
{
    match e.kind {
        ExprKind::Math(inner) => {
            lemma_typed(w, s, *inner, want);
        },
        ExprKind::Ref { name, .. } => {
            reveal(looked_up);
            lemma_known(w, s, name@, s.len());
        },
        ExprKind::Unary { op, operand } => {
            lemma_typed(w, s, *operand, want);
        },
        ExprKind::Binary { op, lhs, rhs } => {
            let side = if op == BinOp::And || op == BinOp::Or {
                Native::Bool
            } else {
                Native::Int
            };
            lemma_typed(w, s, *lhs, side);
            lemma_typed(w, s, *rhs, side);
        },
        _ => {},
    }
}

/// What lowering an expression on whole numbers leaves alone.
#[verifier::spinoff_prover]
pub(crate) proof fn lemma_expr_quiet(w: WorkView, e: Expr, want: Native)
    requires
        typed(w, e, want),
    ensures
        quiet(w, expr_made(w, e, want).0),
        expr_made(w, e, want).1.kind == kind_of(want),
        want is Int || want is Bool,
    decreases e,
{
    let (wf, r) = expr_made(w, e, want);
    let c = CompiledView {
        functions: Seq::empty(),
        main: crate::codegen::lowering::FunctionView {
            symbol: Seq::empty(),
            params: Seq::empty(),
            ret: Native::Nothing,
            code: wf.code,
            texts: wf.texts,
        },
    };
    assert(sees(c, wf));
    match e.kind {
        ExprKind::Math(inner) => {
            lemma_expr_quiet(w, *inner, want);
            reveal_with_fuel(expr_made, 2);
        },
        ExprKind::Number(t) => {
            reveal(expr_made);
            lemma_literal_quiet(w, t@, want);
        },
        ExprKind::Literal(t) => {
            reveal(expr_made);
            lemma_literal_quiet(w, t@, want);
        },
        ExprKind::Ref { .. } => {
            reveal(expr_made);
            reveal(converted);
        },
        ExprKind::Unary { op, operand } => {
            made_unary(c, w, e, want);
            lemma_expr_quiet(w, *operand, want);
            let (w1, x) = expr_made(w, *operand, want);
            if want is Bool {
                lemma_quiet_then(w, w1, wf);
            } else {
                let (w2, zero) = made(w1, Inst::Word(0), Kind::Word);
                lemma_checked_quiet(w2, CheckedOp::Sub, zero, x);
                lemma_quiet_then(w, w1, w2);
                lemma_quiet_then(w, w2, wf);
            }
        },
        ExprKind::Binary { op, lhs, rhs } => {
            let side = if op == BinOp::And || op == BinOp::Or {
                Native::Bool
            } else {
                Native::Int
            };
            made_binary(c, w, e, want, side);
            let (w1, a) = expr_made(w, *lhs, side);
            let (w2, b) = expr_made(w1, *rhs, side);
            lemma_expr_quiet(w, *lhs, side);
            lemma_expr_quiet(w1, *rhs, side);
            lemma_quiet_then(w, w1, w2);
            if side is Int {
                lemma_words_quiet(w2, op, a, b);
            }
            lemma_quiet_then(w, w2, wf);
        },
        _ => {},
    }
}

pub(crate) proof fn lemma_literal_quiet(w: WorkView, t: Seq<char>, want: Native)
    requires
        literal_typed(t, want),
    ensures
        quiet(w, literal_made(w, t, want).0),
        literal_made(w, t, want).1.kind == kind_of(want),
        want is Int || want is Bool,
{
    reveal(literal_made);
    reveal_strlit("true");
    reveal_strlit("false");
}

pub(crate) proof fn lemma_checked_quiet(w: WorkView, op: CheckedOp, a: Operand, b: Operand)
    requires
        a.kind == Kind::Word,
        b.kind == Kind::Word,
    ensures
        quiet(w, checked_made(w, op, a, b).0),
        checked_made(w, op, a, b).1.kind == Kind::Word,
{
    reveal(checked_made);
    reveal(forked);
    let w3 = put(put(put(w, Inst::Checked { op, lhs: a.at, rhs: b.at }), Inst::CheckedValue(w.code.len() as usize)), Inst::Overflowed(w.code.len() as usize));
    let w5 = put(put(w3, Inst::Block), Inst::Block);
    let bad = w3.code.len() as usize;
    let i = Inst::Fork { test: (w.code.len() + 2) as usize, yes: bad, no: (w3.code.len() + 1) as usize };
    let w6 = put(put(w5, i), Inst::At(bad));
    let name = crate::codegen::work::checked_name(op);
    let f = failing(w6, "AHPCL-PREC-0004"@, name);
    crate::codegen::simulation::lemma_failing(w6, "AHPCL-PREC-0004"@, name);
    let wf = checked_made(w, op, a, b).0;
    assert(extended(w.code, w6.code));
    lemma_extended_then(w.code, w6.code, f.code);
    lemma_extended_then(w.code, f.code, wf.code);
}

pub(crate) proof fn lemma_words_quiet(w: WorkView, op: BinOp, a: Operand, b: Operand)
    requires
        is_whole_operation(op) || relation_of(op) is Some,
        a.kind == Kind::Word,
        b.kind == Kind::Word,
    ensures
        quiet(w, words_made(w, op, a, b).0),
        words_made(w, op, a, b).1.kind == (if is_whole_operation(op) {
            Kind::Word
        } else {
            Kind::Bit
        }),
{
    if relation_of(op) is Some {
        reveal(related);
    } else if op == BinOp::Add {
        lemma_checked_quiet(w, CheckedOp::Add, a, b);
    } else if op == BinOp::Sub {
        lemma_checked_quiet(w, CheckedOp::Sub, a, b);
    } else if op == BinOp::Mul {
        lemma_checked_quiet(w, CheckedOp::Mul, a, b);
    } else {
        lemma_called_quiet(w, if op == BinOp::IntDiv { Rt::IntDiv } else { Rt::IntMod }, seq![a, b]);
    }
}

pub(crate) proof fn lemma_called_quiet(w: WorkView, f: Rt, args: Seq<Operand>)
    requires
        args.len() <= 2,
        crate::codegen::native::allocated_by(f) is None,
        kinds(args) =~= crate::codegen::runtime::takes(f),
    ensures
        quiet(w, called(w, f, args).0),
        called(w, f, args).1.kind == match crate::codegen::runtime::gives(f) {
            Some(k) => k,
            None => Kind::Ptr,
        },
{
    reveal(called);
    reveal(expecting_all);
    reveal_with_fuel(with_args, 4);
}

// ── what lowering statements leaves alone ───────────────────────────────────

/// Whether the lowering goes on behind a statement with the scopes that the statement leaves.
pub open spec fn calm(w: WorkView, w1: WorkView, s1: Seq<Scope>) -> bool {
    &&& w1.temps == w.temps
    &&& w1.refusal == w.refusal
    &&& w.open ==> w1.open
    &&& knows(w1, s1)
}

pub(crate) proof fn lemma_declared_knows(w: WorkView, s: Seq<Scope>, name: Seq<char>, at: usize, native: Native)
    requires
        knows(w, s),
        held_native(native),
    ensures
        knows(declared(w, name, at, native), with_name(s, name, native)),
{
    reveal(declared);
    let l = LocalView { name, slot: at, native };
    let f = w.frames.last();
    let g = with_local(f, l);
    let s1 = with_name(s, name, native);
    let w1 = declared(w, name, at, native);
    let k = s.len() - 1;
    lemma_local(f, name);
    assert(f == w.frames[k]);
    assert forall|j: int| 0 <= j < g.len() implies {
        let x = #[trigger] g[j];
        &&& s1[k].dom().contains(x.name)
        &&& s1[k][x.name] == x.native
        &&& held_native(x.native)
        &&& local_index(g, x.name) == j
    } by {
        if j < f.len() {
            assert(local_index(f, w.frames[k][j].name) == j);
            lemma_local(f, f[j].name);
        }
        assert forall|h: int| 0 <= h < j implies (#[trigger] g[h]).name != g[j].name by {
            assert(h < f.len());
            assert(f[h].name == g[h].name || g[h].name == name);
            assert(local_index(f, w.frames[k][h].name) == h);
            if j < f.len() {
                assert(local_index(f, w.frames[k][j].name) == j);
            }
        }
        lemma_first_local(g, g[j].name, j as nat);
    }
    assert forall|i: int, other: Seq<char>| 0 <= i < s1.len() implies (#[trigger] has_name(w1.frames[i], other)
        <==> s1[i].dom().contains(other)) by {
        assert(has_name(w.frames[i], other) <==> s[i].dom().contains(other));
        if i == k {
            assert(w1.frames[i] == g);
            lemma_local(g, other);
            lemma_local(f, other);
            if has_name(f, other) {
                let h = local_index(f, other);
                assert(g[h as int].name == other);
            }
            if other == name {
                let h = local_index(f, name);
                assert(g[h as int].name == name);
            }
            if has_name(g, other) {
                let h = local_index(g, other) as int;
                assert(g[h].name == other);
            }
        }
    }
    assert forall|i: int, j: int|
        #![trigger w1.frames[i][j]]
        0 <= i < s1.len() && 0 <= j < w1.frames[i].len() implies {
        let x = w1.frames[i][j];
        &&& s1[i].dom().contains(x.name)
        &&& s1[i][x.name] == x.native
        &&& held_native(x.native)
        &&& local_index(w1.frames[i], x.name) == j
    } by {
        if i == k {
            assert(w1.frames[i][j] == g[j]);
        } else {
            assert(w1.frames[i][j] == w.frames[i][j]);
        }
    }
}

pub(crate) proof fn lemma_knows_frames(w: WorkView, w1: WorkView, s: Seq<Scope>)
    requires
        knows(w, s),
        w1.frames == w.frames,
    ensures
        knows(w1, s),
{
}

pub(crate) proof fn lemma_with_frame_knows(w: WorkView, s: Seq<Scope>)
    requires
        knows(w, s),
    ensures
        knows(with_frame(w), s.push(Map::empty())),
{
    reveal(with_frame);
    let w1 = with_frame(w);
    let s1 = s.push(Map::<Seq<char>, Native>::empty());
    assert forall|i: int, name: Seq<char>| 0 <= i < s1.len() implies (#[trigger] has_name(w1.frames[i], name)
        <==> s1[i].dom().contains(name)) by {
        if i < s.len() {
            assert(has_name(w.frames[i], name) <==> s[i].dom().contains(name));
        }
    }
    assert forall|i: int, j: int|
        #![trigger w1.frames[i][j]]
        0 <= i < s1.len() && 0 <= j < w1.frames[i].len() implies {
        let l = w1.frames[i][j];
        &&& s1[i].dom().contains(l.name)
        &&& s1[i][l.name] == l.native
        &&& held_native(l.native)
        &&& local_index(w1.frames[i], l.name) == j
    } by {
        assert(w1.frames[i][j] == w.frames[i][j]);
    }
}

/// A scope with nothing that the runtime counts needs no release.
pub(crate) proof fn lemma_nothing_released(w: WorkView, s: Seq<Scope>)
    requires
        knows(w, s),
        plain(s),
    ensures
        scope_released(w) == w,
{
    reveal(scope_released);
    reveal(frame_released_at);
    let k = w.frames.len() - 1;
    if w.open {
        lemma_frame_released(w, k, s, 0);
    }
}

pub(crate) proof fn lemma_frame_released(w: WorkView, k: int, s: Seq<Scope>, i: nat)
    requires
        knows(w, s),
        plain(s),
        k == w.frames.len() - 1,
    ensures
        frame_released(w, w.frames[k], i) == w,
    decreases w.frames[k].len() - i,
{
    if i < w.frames[k].len() {
        let l = w.frames[k][i as int];
        assert(s.last().dom().contains(l.name));
        lemma_frame_released(w, k, s, i + 1);
    }
}

pub(crate) proof fn lemma_no_temps(w: WorkView, mark: nat)
    requires
        w.temps.len() == mark,
    ensures
        temps_released(w, mark) == w,
{
    reveal(temps_released);
}

pub(crate) proof fn lemma_whole_type(ty: TypeRef, shape: Option<Vec<crate::ast::Dim>>)
    requires
        whole_type(ty) is Some,
    ensures
        native_of(ty, shape) == Ok::<Native, Seq<char>>(whole_type(ty)->0),
        whole_type(ty)->0 is Int || whole_type(ty)->0 is Bool,
{
    reveal_strlit("int");
    reveal_strlit("bool");
}

/// The parts of a declaration.
pub(crate) proof fn made_binding(w: WorkView, s: Seq<Scope>, v: VarDecl, i: nat, fixed: Set<Seq<char>>)
    requires
        i < v.bindings@.len(),
        whole_binding(s, v, i as int, fixed),
        knows(w, s),
    ensures
        ({
            let b = v.bindings@[i as int];
            let native = whole_type(v.ty)->0;
            let digits = places_wanted(b.precision, v.ty.precision);
            let w0 = with_digits(w, digits);
            let (w1, r) = expr_made(w0, b.value->0, native);
            let at = w1.code.len() as usize;
            let w2 = put(w1, Inst::Slot(kind_of(native)));
            let w3 = put(w2, Inst::Store { into: at, value: r.at });
            let wf = with_digits(declared(w3, b.name@, at, native), crate::eval::numeric::DEFAULT_DIGITS);
            &&& native is Int || native is Bool
            &&& typed(w0, b.value->0, native)
            &&& quiet(w0, w1)
            &&& r.kind == kind_of(native)
            &&& bindings_made(w, v, i) == bindings_made(wf, v, i + 1)
            &&& calm(w, wf, with_name(s, b.name@, native))
            &&& extended(w1.code, wf.code)
            &&& extended(w1.texts, wf.texts)
        }),
{
    reveal(declared);
    let b = v.bindings@[i as int];
    lemma_whole_type(v.ty, b.shape);
    let native = whole_type(v.ty)->0;
    let digits = places_wanted(b.precision, v.ty.precision);
    let w0 = with_digits(w, digits);
    lemma_knows_frames(w, w0, s);
    lemma_typed(w0, s, b.value->0, native);
    lemma_expr_quiet(w0, b.value->0, native);
    let (w1, r) = expr_made(w0, b.value->0, native);
    let at = w1.code.len() as usize;
    let w2 = put(w1, Inst::Slot(kind_of(native)));
    let w3 = put(w2, Inst::Store { into: at, value: r.at });
    let w4 = declared(w3, b.name@, at, native);
    let wf = with_digits(w4, crate::eval::numeric::DEFAULT_DIGITS);
    lemma_knows_frames(w, w3, s);
    lemma_declared_knows(w3, s, b.name@, at, native);
    lemma_knows_frames(w4, wf, with_name(s, b.name@, native));
    lemma_binding_parts(w, b, native, digits);
    lemma_bindings_next(w, v, i, native);
}

#[verifier::spinoff_prover]
pub(crate) proof fn lemma_binding_parts(w: WorkView, b: Binding, native: Native, digits: u32)
    requires
        b.value is Some,
        native is Int || native is Bool,
        expr_made(with_digits(w, digits), b.value->0, native).1.kind == kind_of(native),
    ensures
        ({
            let (w1, r) = expr_made(with_digits(w, digits), b.value->0, native);
            let at = w1.code.len() as usize;
            let w2 = put(w1, Inst::Slot(kind_of(native)));
            let w3 = put(w2, Inst::Store { into: at, value: r.at });
            binding_made(w, b, native, digits) == with_digits(
                declared(w3, b.name@, at, native),
                crate::eval::numeric::DEFAULT_DIGITS,
            )
        }),
{
    reveal(binding_made);
    reveal(kept);
    reveal(stored);
}

#[verifier::spinoff_prover]
pub(crate) proof fn lemma_bindings_next(w: WorkView, v: VarDecl, i: nat, native: Native)
    requires
        i < v.bindings@.len(),
        native_of(v.ty, v.bindings@[i as int].shape) == Ok::<Native, Seq<char>>(native),
    ensures
        bindings_made(w, v, i) == bindings_made(
            binding_made(w, v.bindings@[i as int], native, places_wanted(v.bindings@[i as int].precision, v.ty.precision)),
            v,
            i + 1,
        ),
{
    reveal(bindings_made);
}

#[verifier::spinoff_prover]
pub(crate) proof fn lemma_target_parts(w: WorkView, t: ChangeTarget, at: usize, native: Native)
    requires
        looked_up(w, t.name@) == Some((at, native)),
        t.selectors@.len() == 0,
        native is Int || native is Bool,
        expr_made(w, t.value, native).1.kind == kind_of(native),
    ensures
        target_made(w, t) == put(
            expr_made(w, t.value, native).0,
            Inst::Store { into: at, value: expr_made(w, t.value, native).1.at },
        ),
{
    reveal(target_made);
    reveal(stored);
}

#[verifier::spinoff_prover]
pub(crate) proof fn lemma_targets_next(w: WorkView, c: ChangeStmt, i: nat, native: Native)
    requires
        native_of(c.ty, None) == Ok::<Native, Seq<char>>(native),
    ensures
        i < c.targets@.len() ==> targets_made(w, c, i) == targets_made(target_made(w, c.targets@[i as int]), c, i + 1),
        i >= c.targets@.len() ==> targets_made(w, c, i) == w,
{
    reveal(targets_made);
}

#[verifier::spinoff_prover]
pub(crate) proof fn lemma_prints_next(w: WorkView, args: Vec<Expr>, i: nat)
    ensures
        i < args@.len() ==> prints_made(w, args, i) == prints_made(print_made(w, args@[i as int]), args, i + 1),
        i >= args@.len() ==> prints_made(w, args, i) == w,
{
    reveal(prints_made);
}

#[verifier::spinoff_prover]
pub(crate) proof fn bindings_end(w: WorkView, v: VarDecl, i: nat)
    requires
        i >= v.bindings@.len(),
    ensures
        bindings_made(w, v, i) == w,
{
    reveal(bindings_made);
}

pub(crate) proof fn calm_bindings(w: WorkView, s: Seq<Scope>, v: VarDecl, i: nat, fixed: Set<Seq<char>>)
    requires
        i <= v.bindings@.len(),
        forall|j: int|
            #![trigger v.bindings@[j]]
            0 <= j < v.bindings@.len() ==> whole_binding(with_bindings(s, v, j as nat), v, j, fixed),
        knows(w, with_bindings(s, v, i)),
    ensures
        calm(w, bindings_made(w, v, i), with_bindings(s, v, v.bindings@.len())),
    decreases v.bindings@.len() - i,
{
    if i < v.bindings@.len() {
        let b = v.bindings@[i as int];
        made_binding(w, with_bindings(s, v, i), v, i, fixed);
        let native = whole_type(v.ty)->0;
        let w0 = with_digits(w, places_wanted(b.precision, v.ty.precision));
        let (w1, r) = expr_made(w0, b.value->0, native);
        let at = w1.code.len() as usize;
        let w3 = put(put(w1, Inst::Slot(kind_of(native))), Inst::Store { into: at, value: r.at });
        let wf = with_digits(declared(w3, b.name@, at, native), crate::eval::numeric::DEFAULT_DIGITS);
        calm_bindings(wf, s, v, i + 1, fixed);
    } else {
        reveal(bindings_made);
    }
}

/// The parts of a change.
pub(crate) proof fn made_target(w: WorkView, s: Seq<Scope>, t: ChangeTarget, fixed: Set<Seq<char>>)
    requires
        whole_target(s, t, fixed),
        knows(w, s),
    ensures
        looked_up(w, t.name@) is Some,
        ({
            let (at, native) = looked_up(w, t.name@)->0;
            let (w1, r) = expr_made(w, t.value, native);
            let wf = put(w1, Inst::Store { into: at, value: r.at });
            &&& typed(w, t.value, native)
            &&& native is Int || native is Bool
            &&& target_made(w, t) == wf
            &&& quiet(w, w1)
            &&& quiet(w, wf)
            &&& r.kind == kind_of(native)
        }),
{
    reveal(looked_up);
    lemma_known(w, s, t.name@, s.len());
    let (at, native) = looked_up(w, t.name@)->0;
    lemma_typed(w, s, t.value, native);
    lemma_expr_quiet(w, t.value, native);
    let (w1, r) = expr_made(w, t.value, native);
    let wf = put(w1, Inst::Store { into: at, value: r.at });
    lemma_target_parts(w, t, at, native);
    lemma_quiet_then(w, w1, wf);
}

pub(crate) proof fn calm_targets(w: WorkView, s: Seq<Scope>, c: ChangeStmt, i: nat, fixed: Set<Seq<char>>)
    requires
        whole_type(c.ty) is Some,
        forall|j: int| #![trigger c.targets@[j]] 0 <= j < c.targets@.len() ==> whole_target(s, c.targets@[j], fixed),
        knows(w, s),
    ensures
        quiet(w, targets_made(w, c, i)),
        i < c.targets@.len() ==> targets_made(w, c, i) == targets_made(target_made(w, c.targets@[i as int]), c, i + 1),
        i >= c.targets@.len() ==> targets_made(w, c, i) == w,
    decreases c.targets@.len() - i,
{
    lemma_whole_type(c.ty, None);
    lemma_targets_next(w, c, i, whole_type(c.ty)->0);
    if i < c.targets@.len() {
        let t = c.targets@[i as int];
        made_target(w, s, t, fixed);
        let w1 = target_made(w, t);
        lemma_knows_frames(w, w1, s);
        calm_targets(w1, s, c, i + 1, fixed);
        lemma_quiet_then(w, w1, targets_made(w, c, i));
    }
}

/// What an expression prints as.
pub open spec fn shown(s: Seq<Scope>, e: Expr) -> Native {
    if whole_expr(s, e, Native::Int) {
        Native::Int
    } else {
        Native::Bool
    }
}

pub(crate) proof fn lemma_shown(w: WorkView, s: Seq<Scope>, e: Expr)
    requires
        whole_print(s, e),
        !(e.kind is Str),
        !names_array(s, e),
        knows(w, s),
    ensures
        natural(w, e) == shown(s, e),
        typed(w, e, shown(s, e)),
{
    if whole_expr(s, e, Native::Int) {
        lemma_typed(w, s, e, Native::Int);
        lemma_natural(w, e, Native::Int);
    } else {
        lemma_typed(w, s, e, Native::Bool);
        lemma_shows_truth(w, e);
    }
}

pub(crate) proof fn lemma_shows_truth(w: WorkView, e: Expr)
    requires
        typed(w, e, Native::Bool),
        shows_truth(e),
    ensures
        natural(w, e) is Bool,
    decreases e,
{
    if let ExprKind::Math(inner) = e.kind {
        lemma_shows_truth(w, *inner);
    }
}

/// One thing printed.
pub open spec fn print_made(w: WorkView, e: Expr) -> WorkView {
    match e.kind {
        ExprKind::Str(t) => {
            let (w1, text) = chars_made(w, t@);
            called(w1, Rt::PrintStr, seq![text]).0
        },
        _ => {
            let (w1, v) = expr_made(w, e, natural(w, e));
            printed(w1, v, natural(w, e))
        },
    }
}

/// The code that prints an array.
#[verifier::spinoff_prover]
pub(crate) proof fn array_print_parts(w: WorkView, s: Seq<Scope>, e: Expr) -> (r: (WorkView, Operand))
    requires
        names_array(s, e),
        knows(w, s),
    ensures
        looked_up(w, e.kind->Ref_name@) matches Some((at, n)) && n is Array && r == made(
            w,
            Inst::Load { kind: Kind::Ptr, from: at },
            Kind::Ptr,
        ) && print_made(w, e) == called(r.0, Rt::PrintArray, seq![r.1]).0,
{
    let name = e.kind->Ref_name;
    assert(looked_up(w, name@) == found(w.frames, name@, w.frames.len())) by {
        reveal(looked_up);
    }
    lemma_known(w, s, name@, s.len());
    let (at, n) = looked_up(w, name@)->0;
    let r = made(w, Inst::Load { kind: Kind::Ptr, from: at }, Kind::Ptr);
    array_ref_parts(w, e, at, n);
    reveal(printed);
    r
}

#[verifier::spinoff_prover]
pub(crate) proof fn array_ref_parts(w: WorkView, e: Expr, at: usize, n: Native)
    requires
        e.kind is Ref,
        e.kind->Ref_selectors@.len() == 0,
        looked_up(w, e.kind->Ref_name@) == Some((at, n)),
        n is Array,
    ensures
        natural(w, e) == n,
        expr_made(w, e, n) == made(w, Inst::Load { kind: Kind::Ptr, from: at }, Kind::Ptr),
{
    reveal(expr_made);
    reveal(crate::codegen::lowering::selected);
    reveal(crate::codegen::lowering::run_made);
    let sels = e.kind->Ref_selectors;
    let (w1, loaded) = made(w, Inst::Load { kind: Kind::Ptr, from: at }, Kind::Ptr);
    let rank = crate::codegen::native::rank_of(n);
    let elem = crate::codegen::native::element_of(n);
    assert(crate::codegen::lowering::run_made(w1, sels, 0, 0, loaded) == (w1, loaded));
    assert(crate::codegen::lowering::selected(w1, sels, 0, 0, loaded, rank, elem, n) == (w1, loaded));
}

pub(crate) proof fn calm_print(w: WorkView, s: Seq<Scope>, e: Expr)
    requires
        whole_print(s, e),
        knows(w, s),
    ensures
        quiet(w, print_made(w, e)),
{
    match e.kind {
        ExprKind::Str(t) => {
            reveal(chars_made);
            let (w1, text) = chars_made(w, t@);
            lemma_called_quiet(w1, Rt::PrintStr, seq![text]);
            lemma_quiet_then(w, w1, print_made(w, e));
        },
        _ => if names_array(s, e) {
            let (w1, v) = array_print_parts(w, s, e);
            lemma_called_quiet(w1, Rt::PrintArray, seq![v]);
            lemma_quiet_then(w, w1, print_made(w, e));
        } else {
            lemma_shown(w, s, e);
            let n = shown(s, e);
            lemma_expr_quiet(w, e, n);
            let (w1, v) = expr_made(w, e, n);
            reveal(printed);
            if n is Bool {
                let (w2, b) = crate::codegen::steps::as_byte(w1, v);
                lemma_called_quiet(w2, Rt::PrintBool, seq![b]);
                lemma_quiet_then(w1, w2, print_made(w, e));
            } else {
                lemma_called_quiet(w1, Rt::PrintInt, seq![v]);
            }
            lemma_quiet_then(w, w1, print_made(w, e));
        },
    }
}

pub(crate) proof fn calm_prints(w: WorkView, s: Seq<Scope>, args: Vec<Expr>, i: nat)
    requires
        forall|j: int| 0 <= j < args@.len() ==> whole_print(s, #[trigger] args@[j]),
        knows(w, s),
    ensures
        quiet(w, prints_made(w, args, i)),
        i < args@.len() ==> prints_made(w, args, i) == prints_made(print_made(w, args@[i as int]), args, i + 1),
        i >= args@.len() ==> prints_made(w, args, i) == w,
    decreases args@.len() - i,
{
    lemma_prints_next(w, args, i);
    if i < args@.len() {
        let w1 = print_made(w, args@[i as int]);
        calm_print(w, s, args@[i as int]);
        lemma_knows_frames(w, w1, s);
        calm_prints(w1, s, args, i + 1);
        lemma_quiet_then(w, w1, prints_made(w, args, i));
    }
}

// ── blocks, conditionals and loops ──────────────────────────────────────────

#[verifier::spinoff_prover]
pub(crate) proof fn block_next(w: WorkView, stmts: Vec<Stmt>, i: nat)
    ensures
        i >= stmts@.len() ==> block_made(w, stmts, i) == (w, false),
        i < stmts@.len() && !stmt_made(w, stmts@[i as int]).1 ==> block_made(w, stmts, i) == block_made(
            temps_released(stmt_made(w, stmts@[i as int]).0, w.temps.len()),
            stmts,
            i + 1,
        ),
{
    reveal(block_made);
}

#[verifier::spinoff_prover]
pub(crate) proof fn scoped_parts(w: WorkView, stmts: Vec<Stmt>)
    ensures
        ({
            let (w1, left) = block_made(with_frame(w), stmts, 0);
            scoped_made(w, stmts) == (without_frame(scope_released(w1)), left)
        }),
{
    reveal(scoped_made);
}

/// The lowering behind an arm's condition: at the arm, and at what follows where it fails.
pub open spec fn arm_entered(w: WorkView, c: Expr) -> WorkView {
    let (w1, test) = expr_made(w, c, Native::Bool);
    let (w2, yes) = opened(w1);
    let (w3, no) = opened(w2);
    put(forked(w3, test, yes, no), Inst::At(yes))
}

pub open spec fn arm_passed(w: WorkView, c: Expr, body: Vec<Stmt>, merge: usize) -> WorkView {
    let no = (expr_made(w, c, Native::Bool).0.code.len() + 1) as usize;
    let (w5, left) = scoped_made(arm_entered(w, c), body);
    put(joined(w5, left, merge), Inst::At(no))
}

#[verifier::spinoff_prover]
pub(crate) proof fn arms_next(w: WorkView, chain: IfChain, i: nat, merge: usize, all: bool)
    ensures
        i >= chain.arms@.len() ==> arms_made(w, chain, i, merge, all) == (w, all),
        i < chain.arms@.len() ==> {
            let body = chain.arms@[i as int].body;
            match chain.arms@[i as int].condition {
                Some(c) => arms_made(w, chain, i, merge, all) == arms_made(
                    arm_passed(w, c, body, merge),
                    chain,
                    i + 1,
                    merge,
                    all && scoped_made(arm_entered(w, c), body).1,
                ),
                None => {
                    let (w1, left) = scoped_made(w, body);
                    arms_made(w, chain, i, merge, all) == arms_made(
                        joined(w1, left, merge),
                        chain,
                        i + 1,
                        merge,
                        all && left,
                    )
                },
            }
        },
{
    reveal(arms_made);
}

#[verifier::spinoff_prover]
pub(crate) proof fn if_parts(w: WorkView, chain: IfChain)
    ensures
        ({
            let merge = w.code.len() as usize;
            let (w2, all) = arms_made(put(w, Inst::Block), chain, 0, merge, true);
            let w3 = put(joined(w2, !w2.open, merge), Inst::At(merge));
            !(all && !w2.open) ==> if_made(w, chain) == (w3, false)
        }),
{
    reveal(if_made);
}

/// The lowering inside a counted loop.
pub open spec fn counted_inside(w: WorkView, var: Seq<char>, b: Bounds) -> WorkView {
    let (w1, l) = loop_entered(w, b);
    with_continue(declared(with_frame(w1), var, l.slot, Native::Int), l.step)
}

#[verifier::spinoff_prover]
pub(crate) proof fn counted_parts(w: WorkView, var: Seq<char>, b: Bounds, body: Vec<Stmt>)
    ensures
        ({
            let l = loop_entered(w, b).1;
            let (w3, left) = block_made(counted_inside(w, var, b), body, 0);
            let w4 = without_frame(scope_released(without_continue(w3)));
            counted_made(w, var, b, body) == loop_left(joined(w4, left, l.step), b, l)
        }),
{
    reveal(counted_made);
}

/// The lowering in front of the condition of a loop.
pub open spec fn while_asked(w: WorkView) -> WorkView {
    let cond = w.code.len() as usize;
    put(put(put(put(put(w, Inst::Block), Inst::Block), Inst::Block), Inst::Jump(cond)), Inst::At(cond))
}

/// The lowering inside a loop with a condition.
pub open spec fn while_inside(w: WorkView, condition: Expr) -> WorkView {
    let cond = w.code.len() as usize;
    let body = (w.code.len() + 1) as usize;
    let done = (w.code.len() + 2) as usize;
    let w4 = while_asked(w);
    let (w5, test) = expr_made(w4, condition, Native::Bool);
    let w6 = forked(temps_released(w5, w4.temps.len()), test, body, done);
    with_continue(put(w6, Inst::At(body)), cond)
}

#[verifier::spinoff_prover]
pub(crate) proof fn loop_parts(w: WorkView, l: LoopStmt)
    ensures
        match l.kind {
            LoopKind::Counted { var, range, .. } => loop_made(w, l) == counted_made(
                bounds_made(w, range).0,
                var@,
                bounds_made(w, range).1,
                l.body,
            ),
            LoopKind::While { condition } => {
                let (w8, left) = scoped_made(while_inside(w, condition), l.body);
                let cond = w.code.len() as usize;
                let done = (w.code.len() + 2) as usize;
                loop_made(w, l) == put(joined(without_continue(w8), left, cond), Inst::At(done))
            },
        },
{
    reveal(loop_made);
}

#[verifier::spinoff_prover]
pub(crate) proof fn stmt_parts(w: WorkView, stmt: Stmt)
    ensures
        match stmt {
            Stmt::Func(_) => stmt_made(w, stmt) == (w, false),
            Stmt::Var(v) => stmt_made(w, stmt) == (bindings_made(w, v, 0), false),
            Stmt::Change(c) => stmt_made(w, stmt) == (targets_made(w, c, 0), false),
            Stmt::Print { args, .. } => stmt_made(w, stmt) == (
                called(prints_made(w, args, 0), Rt::PrintNewline, Seq::empty()).0,
                false,
            ),
            Stmt::If(chain) => stmt_made(w, stmt) == if_made(w, chain),
            Stmt::Loop(l) => stmt_made(w, stmt) == (loop_made(w, l), false),
            _ => true,
        },
{
    reveal(stmt_made);
}

/// The parts of a range.
#[verifier::spinoff_prover]
pub(crate) proof fn range_parts(w: WorkView, range: Expr, from: Expr, to: Expr, by: Option<Box<Expr>>)
    requires
        ({
            let inside = match range.kind {
                ExprKind::Math(inner) => *inner,
                _ => range,
            };
            inside.kind == (ExprKind::Range { from: Box::new(from), to: Box::new(to), by })
        }),
        expr_made(w, from, Native::Int).1.kind == Kind::Word,
        expr_made(expr_made(w, from, Native::Int).0, to, Native::Int).1.kind == Kind::Word,
        step_made(expr_made(expr_made(w, from, Native::Int).0, to, Native::Int).0, by).1.kind == Kind::Word,
    ensures
        ({
            let (w1, start) = expr_made(w, from, Native::Int);
            let (w2, end) = expr_made(w1, to, Native::Int);
            let (w3, step) = step_made(w2, by);
            bounds_made(w, range) == (w3, Bounds { start, end, step })
        }),
{
    reveal(bounds_made);
    reveal(range_made);
}

#[verifier::spinoff_prover]
pub(crate) proof fn step_parts(w: WorkView, by: Option<Box<Expr>>)
    ensures
        by matches Some(e) ==> step_made(w, by) == expr_made(w, *e, Native::Int),
        by is None ==> step_made(w, by) == made(w, Inst::Word(1), Kind::Word),
{
    reveal(step_made);
}

pub(crate) proof fn calm_step(w: WorkView, s: Seq<Scope>, by: Option<Box<Expr>>)
    requires
        whole_step(s, by),
        knows(w, s),
    ensures
        quiet(w, step_made(w, by).0),
        step_made(w, by).1.kind == Kind::Word,
        by matches Some(e) ==> typed(w, *e, Native::Int) && step_made(w, by) == expr_made(w, *e, Native::Int),
        by is None ==> step_made(w, by) == made(w, Inst::Word(1), Kind::Word),
{
    step_parts(w, by);
    if let Some(e) = by {
        lemma_typed(w, s, *e, Native::Int);
        lemma_expr_quiet(w, *e, Native::Int);
    }
}

pub(crate) proof fn calm_bounds(
    w: WorkView,
    s: Seq<Scope>,
    range: Expr,
    from: Expr,
    to: Expr,
    by: Option<Box<Expr>>,
)
    requires
        ({
            let inside = match range.kind {
                ExprKind::Math(inner) => *inner,
                _ => range,
            };
            inside.kind == (ExprKind::Range { from: Box::new(from), to: Box::new(to), by })
        }),
        whole_expr(s, from, Native::Int),
        whole_expr(s, to, Native::Int),
        whole_step(s, by),
        knows(w, s),
    ensures
        ({
            let (w1, start) = expr_made(w, from, Native::Int);
            let (w2, end) = expr_made(w1, to, Native::Int);
            let (w3, step) = step_made(w2, by);
            &&& bounds_made(w, range) == (w3, Bounds { start, end, step })
            &&& start.kind == Kind::Word && end.kind == Kind::Word && step.kind == Kind::Word
            &&& typed(w, from, Native::Int)
            &&& typed(w1, to, Native::Int)
            &&& quiet(w, w1)
            &&& quiet(w1, w2)
            &&& quiet(w2, w3)
            &&& quiet(w, w3)
        }),
{
    lemma_typed(w, s, from, Native::Int);
    lemma_expr_quiet(w, from, Native::Int);
    let (w1, start) = expr_made(w, from, Native::Int);
    lemma_knows_frames(w, w1, s);
    lemma_typed(w1, s, to, Native::Int);
    lemma_expr_quiet(w1, to, Native::Int);
    let (w2, end) = expr_made(w1, to, Native::Int);
    lemma_knows_frames(w, w2, s);
    calm_step(w2, s, by);
    range_parts(w, range, from, to, by);
    lemma_quiet_then(w, w1, w2);
    lemma_quiet_then(w, w2, step_made(w2, by).0);
}

/// The code in front of a counted loop's body; `q` is where it goes on with a step that is
/// not 0.
#[verifier::spinoff_prover]
pub(crate) proof fn entered_parts(w: WorkView, b: Bounds) -> (q: int)
    requires
        b.start.kind == Kind::Word,
        b.end.kind == Kind::Word,
        b.step.kind == Kind::Word,
    ensures
        ({
            let (w1, l) = loop_entered(w, b);
            let p = w.code.len() as int;
            let code = w1.code;
            &&& quiet(w, w1)
            &&& w1.open
            &&& p + 5 < q
            &&& code.len() == q + 16
            &&& l == (LoopBlocks {
                cond: (q + 3) as usize,
                body: (q + 4) as usize,
                done: (q + 5) as usize,
                step: (q + 14) as usize,
                slot: (q + 1) as usize,
            })
            &&& code[p] == Inst::Word(0)
            &&& code[p + 1] == (Inst::Relate {
                relation: crate::codegen::work::Relation::Equal,
                kind: Kind::Word,
                lhs: b.step.at,
                rhs: p as usize,
            })
            &&& code[p + 2] == Inst::Block
            &&& code[p + 3] == Inst::Block
            &&& code[p + 4] == (Inst::Fork { test: (p + 1) as usize, yes: (p + 2) as usize, no: (p + 3) as usize })
            &&& code[q] == Inst::At((p + 3) as usize)
            &&& code[q + 1] == Inst::Slot(Kind::Word)
            &&& code[q + 2] == (Inst::Store { into: (q + 1) as usize, value: b.start.at })
            &&& code[q + 3] == Inst::Block
            &&& code[q + 4] == Inst::Block
            &&& code[q + 5] == Inst::Block
            &&& code[q + 6] == Inst::Jump((q + 3) as usize)
            &&& code[q + 7] == Inst::At((q + 3) as usize)
            &&& code[q + 8] == (Inst::Load { kind: Kind::Word, from: (q + 1) as usize })
            &&& code[q + 9] == (Inst::Relate {
                relation: crate::codegen::work::Relation::Greater,
                kind: Kind::Word,
                lhs: b.step.at,
                rhs: p as usize,
            })
            &&& code[q + 10] == (Inst::Relate {
                relation: crate::codegen::work::Relation::LessEqual,
                kind: Kind::Word,
                lhs: (q + 8) as usize,
                rhs: b.end.at,
            })
            &&& code[q + 11] == (Inst::Relate {
                relation: crate::codegen::work::Relation::GreaterEqual,
                kind: Kind::Word,
                lhs: (q + 8) as usize,
                rhs: b.end.at,
            })
            &&& code[q + 12] == (Inst::Select {
                kind: Kind::Bit,
                test: (q + 9) as usize,
                yes: (q + 10) as usize,
                no: (q + 11) as usize,
            })
            &&& code[q + 13] == (Inst::Fork { test: (q + 12) as usize, yes: (q + 4) as usize, no: (q + 5) as usize })
            &&& code[q + 14] == Inst::Block
            &&& code[q + 15] == Inst::At((q + 4) as usize)
        }),
{
    reveal(loop_entered);
    reveal(related);
    reveal(forked);
    reveal(stored);
    let p = w.code.len() as int;
    let w2 = put(
        put(w, Inst::Word(0)),
        Inst::Relate {
            relation: crate::codegen::work::Relation::Equal,
            kind: Kind::Word,
            lhs: b.step.at,
            rhs: p as usize,
        },
    );
    let w4 = put(put(w2, Inst::Block), Inst::Block);
    let bad = (p + 2) as usize;
    let ok = (p + 3) as usize;
    let w5 = put(put(w4, Inst::Fork { test: (p + 1) as usize, yes: bad, no: ok }), Inst::At(bad));
    let f = failing(w5, "AHPCL-RUN-0001"@, "a loop step of 0 would never finish"@);
    crate::codegen::simulation::lemma_failing(w5, "AHPCL-RUN-0001"@, "a loop step of 0 would never finish"@);
    let q = f.code.len() as int;
    let (w1, l) = loop_entered(w, b);
    let code = w1.code;
    assert(code.len() == q + 16);
    assert(extended(f.code, code));
    lemma_extended_then(w5.code, f.code, code);
    assert(extended(w.code, w5.code));
    lemma_extended_then(w.code, w5.code, code);
    lemma_extended_then(w.texts, f.texts, w1.texts);
    assert(code[p] == w5.code[p] && code[p + 1] == w5.code[p + 1] && code[p + 2] == w5.code[p + 2]);
    assert(code[p + 3] == w5.code[p + 3] && code[p + 4] == w5.code[p + 4]);
    q
}

/// The code behind a counted loop's body.
#[verifier::spinoff_prover]
pub(crate) proof fn left_parts(w: WorkView, b: Bounds, l: LoopBlocks)
    requires
        b.step.kind == Kind::Word,
    ensures
        ({
            let w1 = loop_left(w, b, l);
            let r = w.code.len() as int;
            let code = w1.code;
            &&& w1 == (WorkView { code, open: true, ..w })
            &&& extended(w.code, code)
            &&& code.len() == r + 11
            &&& code[r] == Inst::At(l.step)
            &&& code[r + 1] == (Inst::Load { kind: Kind::Word, from: l.slot })
            &&& code[r + 2] == (Inst::Checked { op: CheckedOp::Add, lhs: (r + 1) as usize, rhs: b.step.at })
            &&& code[r + 3] == Inst::CheckedValue((r + 2) as usize)
            &&& code[r + 4] == Inst::Overflowed((r + 2) as usize)
            &&& code[r + 5] == Inst::Block
            &&& code[r + 6] == (Inst::Fork { test: (r + 4) as usize, yes: l.done, no: (r + 5) as usize })
            &&& code[r + 7] == Inst::At((r + 5) as usize)
            &&& code[r + 8] == (Inst::Store { into: l.slot, value: (r + 3) as usize })
            &&& code[r + 9] == Inst::Jump(l.cond)
            &&& code[r + 10] == Inst::At(l.done)
        }),
{
    reveal(loop_left);
    reveal(forked);
    reveal(stored);
}

// ── statements leave the lowering as they found it ──────────────────────────

/// Whole numbers and truth values need no release.
pub(crate) proof fn lemma_plain(s: Seq<Scope>, v: VarDecl, n: nat)
    requires
        s.len() > 0,
    ensures
        with_bindings(s, v, n).len() == s.len(),
        plain(s) ==> plain(with_bindings(s, v, n)),
    decreases n,
{
    if n > 0 && n <= v.bindings@.len() && whole_type(v.ty) is Some {
        lemma_plain(s, v, (n - 1) as nat);
        let b = with_bindings(s, v, (n - 1) as nat);
        let name = v.bindings@[n - 1].name@;
        assert(with_bindings(s, v, n).last() == b.last().insert(name, whole_type(v.ty)->0));
    }
}

/// Behind a scope, the lowering is where it was before it.
pub(crate) proof fn closed_knows(w: WorkView, w1: WorkView, s: Seq<Scope>)
    requires
        knows(w, s),
        stride(with_frame(w), w1),
    ensures
        without_frame(w1).frames == w.frames,
        without_frame(w1).temps == w1.temps,
        without_frame(w1).refusal == w1.refusal,
        without_frame(w1).open == w1.open,
        without_frame(w1).code == w1.code,
        without_frame(w1).texts == w1.texts,
{
    reveal(with_frame);
    reveal(without_frame);
    reveal(stride);
    let a = without_frame(w1).frames;
    assert forall|i: int| 0 <= i < a.len() implies a[i] == w.frames[i] by {
        assert(w1.frames[i] == with_frame(w).frames[i]);
    }
    assert(a =~= w.frames);
}

#[verifier::spinoff_prover]
pub(crate) proof fn calm_block(
    w: WorkView,
    s: Seq<Scope>,
    stmts: Vec<Stmt>,
    i: nat,
    fixed: Set<Seq<char>>,
) -> (s1: Seq<Scope>)
    requires
        whole_block(s, stmts, i, fixed),
        knows(w, s),
        w.open,
    ensures
        calm(w, block_made(w, stmts, i).0, s1),
        !block_made(w, stmts, i).1,
        plain(s) ==> plain(s1),
    decreases stmts, stmts@.len() - i,
{
    block_next(w, stmts, i);
    if i < stmts@.len() {
        let w1 = stmt_made(w, stmts@[i as int]).0;
        calm_stmt(w, s, stmts@[i as int], fixed);
        lemma_no_temps(w1, w.temps.len());
        if let Stmt::Var(v) = stmts@[i as int] {
            lemma_plain(s, v, v.bindings@.len());
        }
        calm_block(w1, scopes_after(s, stmts@[i as int]), stmts, i + 1, fixed)
    } else {
        s
    }
}

#[verifier::spinoff_prover]
pub(crate) proof fn calm_scoped(w: WorkView, s: Seq<Scope>, stmts: Vec<Stmt>, fixed: Set<Seq<char>>)
    requires
        whole_block(s.push(Map::empty()), stmts, 0, fixed),
        knows(w, s),
        w.open,
    ensures
        calm(w, scoped_made(w, stmts).0, s),
        !scoped_made(w, stmts).1,
        scoped_made(w, stmts).0 == without_frame(block_made(with_frame(w), stmts, 0).0),
        scoped_made(w, stmts).0.frames == w.frames,
    decreases stmts, stmts@.len() + 1,
{
    scoped_parts(w, stmts);
    lemma_with_frame_knows(w, s);
    assert(with_frame(w).open && with_frame(w).temps == w.temps && with_frame(w).refusal == w.refusal) by {
        reveal(with_frame);
    }
    let w1 = block_made(with_frame(w), stmts, 0).0;
    let s1 = calm_block(with_frame(w), s.push(Map::empty()), stmts, 0, fixed);
    lemma_nothing_released(w1, s1);
    lemma_block(with_frame(w), stmts, 0);
    closed_knows(w, w1, s);
    lemma_knows_frames(w, scoped_made(w, stmts).0, s);
}

#[verifier::spinoff_prover]
pub(crate) proof fn calm_entered(w: WorkView, s: Seq<Scope>, c: Expr)
    requires
        whole_expr(s, c, Native::Bool),
        knows(w, s),
    ensures
        typed(w, c, Native::Bool),
        calm(w, arm_entered(w, c), s),
        arm_entered(w, c).frames == w.frames,
        expr_made(w, c, Native::Bool).1.kind == Kind::Bit,
        quiet(w, expr_made(w, c, Native::Bool).0),
{
    lemma_typed(w, s, c, Native::Bool);
    lemma_expr_quiet(w, c, Native::Bool);
    reveal(forked);
    lemma_knows_frames(w, arm_entered(w, c), s);
}

#[verifier::spinoff_prover]
pub(crate) proof fn calm_arms(
    w: WorkView,
    s: Seq<Scope>,
    chain: IfChain,
    i: nat,
    merge: usize,
    all: bool,
    fixed: Set<Seq<char>>,
)
    requires
        whole_arms(s, chain, i, fixed),
        knows(w, s),
        i < chain.arms@.len() ==> w.open,
    ensures
        arms_made(w, chain, i, merge, all).0.temps == w.temps,
        arms_made(w, chain, i, merge, all).0.refusal == w.refusal,
        knows(arms_made(w, chain, i, merge, all).0, s),
        i < chain.arms@.len() ==> !arms_made(w, chain, i, merge, all).1,
        i >= chain.arms@.len() || !all ==> arms_made(w, chain, i, merge, all).1 == all,
    decreases chain, chain.arms@.len() - i,
{
    arms_next(w, chain, i, merge, all);
    if i < chain.arms@.len() {
        let body = chain.arms@[i as int].body;
        match chain.arms@[i as int].condition {
            Some(c) => {
                calm_entered(w, s, c);
                calm_scoped(arm_entered(w, c), s, body, fixed);
                let w1 = arm_passed(w, c, body, merge);
                lemma_knows_frames(w, w1, s);
                calm_arms(w1, s, chain, i + 1, merge, false, fixed);
            },
            None => {
                calm_scoped(w, s, body, fixed);
                let w1 = joined(scoped_made(w, body).0, false, merge);
                lemma_knows_frames(w, w1, s);
                calm_arms(w1, s, chain, i + 1, merge, false, fixed);
            },
        }
    }
}

#[verifier::spinoff_prover]
pub(crate) proof fn calm_if(w: WorkView, s: Seq<Scope>, chain: IfChain, fixed: Set<Seq<char>>)
    requires
        whole_arms(s, chain, 0, fixed),
        knows(w, s),
        w.open,
    ensures
        calm(w, if_made(w, chain).0, s),
        if_made(w, chain).1 == false,
        ({
            let merge = w.code.len() as usize;
            let (w2, all) = arms_made(put(w, Inst::Block), chain, 0, merge, true);
            if_made(w, chain).0 == put(joined(w2, !w2.open, merge), Inst::At(merge))
        }),
    decreases chain, chain.arms@.len() + 1,
{
    if_parts(w, chain);
    let w1 = put(w, Inst::Block);
    let merge = w.code.len() as usize;
    lemma_knows_frames(w, w1, s);
    calm_arms(w1, s, chain, 0, merge, true, fixed);
    arms_next(w1, chain, 0, merge, true);
    let w2 = arms_made(w1, chain, 0, merge, true).0;
    let w3 = put(joined(w2, !w2.open, merge), Inst::At(merge));
    lemma_knows_frames(w2, w3, s);
}

/// Inside a counted loop, its counter is known.
#[verifier::spinoff_prover]
pub(crate) proof fn inside_knows(w: WorkView, s: Seq<Scope>, var: Seq<char>, b: Bounds)
    requires
        knows(w, s),
        b.start.kind == Kind::Word,
        b.end.kind == Kind::Word,
        b.step.kind == Kind::Word,
    ensures
        ({
            let w2 = counted_inside(w, var, b);
            let w1 = loop_entered(w, b).0;
            &&& knows(w2, with_name(s.push(Map::empty()), var, Native::Int))
            &&& w2.temps == w.temps
            &&& w2.refusal == w.refusal
            &&& w2.open
            &&& w2.code == w1.code
            &&& w2.texts == w1.texts
            &&& w2.frames.drop_last() == w.frames
            &&& w2.frames.last() == seq![LocalView { name: var, slot: loop_entered(w, b).1.slot, native: Native::Int }]
        }),
{
    let q = entered_parts(w, b);
    let (w1, l) = loop_entered(w, b);
    lemma_knows_frames(w, w1, s);
    lemma_with_frame_knows(w1, s);
    let w2 = with_frame(w1);
    lemma_declared_knows(w2, s.push(Map::empty()), var, l.slot, Native::Int);
    let w3 = declared(w2, var, l.slot, Native::Int);
    reveal(with_frame);
    reveal(declared);
    lemma_knows_frames(w3, counted_inside(w, var, b), with_name(s.push(Map::empty()), var, Native::Int));
    assert(w3.frames.drop_last() =~= w.frames);
    assert(w3.frames.last() =~= seq![LocalView { name: var, slot: l.slot, native: Native::Int }]);
}

#[verifier::spinoff_prover]
pub(crate) proof fn calm_counted(
    w: WorkView,
    s: Seq<Scope>,
    var: Seq<char>,
    b: Bounds,
    body: Vec<Stmt>,
    fixed: Set<Seq<char>>,
) -> (s1: Seq<Scope>)
    requires
        whole_block(with_name(s.push(Map::empty()), var, Native::Int), body, 0, fixed),
        knows(w, s),
        b.start.kind == Kind::Word,
        b.end.kind == Kind::Word,
        b.step.kind == Kind::Word,
    ensures
        calm(w, counted_made(w, var, b, body), s),
        counted_made(w, var, b, body).frames == w.frames,
        ({
            let l = loop_entered(w, b).1;
            let w2 = counted_inside(w, var, b);
            let (w3, left) = block_made(w2, body, 0);
            let w4 = without_frame(without_continue(w3));
            &&& calm(w2, w3, s1)
            &&& w3.open
            &&& stride(w2, w3)
            &&& w4.code == w3.code
            &&& w4.texts == w3.texts
            &&& counted_made(w, var, b, body) == loop_left(put(w4, Inst::Jump(l.step)), b, l)
        }),
    decreases body, body@.len() + 2,
{
    counted_parts(w, var, b, body);
    inside_knows(w, s, var, b);
    let l = loop_entered(w, b).1;
    let w2 = counted_inside(w, var, b);
    let s1 = calm_block(w2, with_name(s.push(Map::empty()), var, Native::Int), body, 0, fixed);
    let w3 = block_made(w2, body, 0).0;
    lemma_block(w2, body, 0);
    lemma_knows_frames(w3, without_continue(w3), s1);
    lemma_nothing_released(without_continue(w3), s1);
    let w4 = without_frame(without_continue(w3));
    assert(w4.frames == w.frames && w4.code == w3.code && w4.texts == w3.texts && w4.temps == w3.temps && w4.refusal
        == w3.refusal) by {
        reveal(without_frame);
        reveal(stride);
        assert(w4.frames.len() == w.frames.len());
        assert forall|i: int| 0 <= i < w.frames.len() implies w4.frames[i] == w.frames[i] by {
            assert(w3.frames[i] == w2.frames[i]);
            assert(w2.frames[i] == w2.frames.drop_last()[i]);
        }
        assert(w4.frames =~= w.frames);
    }
    let w5 = put(w4, Inst::Jump(l.step));
    left_parts(w5, b, l);
    lemma_knows_frames(w, counted_made(w, var, b, body), s);
    s1
}

#[verifier::spinoff_prover]
pub(crate) proof fn calm_while(
    w: WorkView,
    s: Seq<Scope>,
    condition: Expr,
    body: Vec<Stmt>,
    fixed: Set<Seq<char>>,
)
    requires
        whole_expr(s, condition, Native::Bool),
        whole_block(s.push(Map::empty()), body, 0, fixed),
        knows(w, s),
    ensures
        ({
            let w4 = while_asked(w);
            let (w5, test) = expr_made(w4, condition, Native::Bool);
            let at = (w.code.len() + 1) as usize;
            let i = Inst::Fork { test: test.at, yes: at, no: (w.code.len() + 2) as usize };
            let w7 = while_inside(w, condition);
            let w8 = scoped_made(w7, body).0;
            let wf = put(put(without_continue(w8), Inst::Jump(w.code.len() as usize)), Inst::At((w.code.len() + 2) as usize));
            &&& knows(w4, s)
            &&& w4.open
            &&& w4.frames == w.frames
            &&& typed(w4, condition, Native::Bool)
            &&& quiet(w4, w5)
            &&& test.kind == Kind::Bit
            &&& w7 == with_continue(put(put(w5, i), Inst::At(at)), w.code.len() as usize)
            &&& knows(w7, s)
            &&& w7.open
            &&& w7.frames == w.frames
            &&& calm(w7, w8, s)
            &&& !scoped_made(w7, body).1
            &&& w8.frames == w.frames
            &&& calm(w, wf, s)
            &&& wf.frames == w.frames
        }),
    decreases body, body@.len() + 2,
{
    let w4 = while_asked(w);
    lemma_knows_frames(w, w4, s);
    lemma_typed(w4, s, condition, Native::Bool);
    lemma_expr_quiet(w4, condition, Native::Bool);
    let w5 = expr_made(w4, condition, Native::Bool).0;
    lemma_no_temps(w5, w4.temps.len());
    reveal(forked);
    let w7 = while_inside(w, condition);
    lemma_knows_frames(w, w7, s);
    calm_scoped(w7, s, body, fixed);
    let w8 = scoped_made(w7, body).0;
    let wf = put(put(without_continue(w8), Inst::Jump(w.code.len() as usize)), Inst::At((w.code.len() + 2) as usize));
    lemma_knows_frames(w, wf, s);
}

#[verifier::spinoff_prover]
pub(crate) proof fn calm_loop(w: WorkView, s: Seq<Scope>, l: LoopStmt, fixed: Set<Seq<char>>)
    requires
        whole_loop(s, l, fixed),
        knows(w, s),
    ensures
        calm(w, loop_made(w, l), s),
    decreases l, 0nat,
{
    loop_parts(w, l);
    match l.kind {
        LoopKind::Counted { var, range, .. } => {
            let inside = match range.kind {
                ExprKind::Math(inner) => *inner,
                _ => range,
            };
            calm_bounds(w, s, range, *inside.kind->Range_from, *inside.kind->Range_to, inside.kind->Range_by);
            let (w1, b) = bounds_made(w, range);
            lemma_knows_frames(w, w1, s);
            let _ = calm_counted(w1, s, var@, b, l.body, fixed.insert(var@));
        },
        LoopKind::While { condition } => {
            calm_while(w, s, condition, l.body, fixed);
        },
    }
}

#[verifier::spinoff_prover]
pub(crate) proof fn calm_stmt(w: WorkView, s: Seq<Scope>, stmt: Stmt, fixed: Set<Seq<char>>)
    requires
        whole_stmt(s, stmt, fixed),
        knows(w, s),
        w.open,
    ensures
        calm(w, stmt_made(w, stmt).0, scopes_after(s, stmt)),
        !stmt_made(w, stmt).1,
    decreases stmt, 0nat,
{
    stmt_parts(w, stmt);
    match stmt {
        Stmt::Var(v) => {
            calm_bindings(w, s, v, 0, fixed);
        },
        Stmt::Change(c) => {
            calm_targets(w, s, c, 0, fixed);
            lemma_knows_frames(w, targets_made(w, c, 0), s);
        },
        Stmt::Print { args, .. } => {
            calm_prints(w, s, args, 0);
            let w1 = prints_made(w, args, 0);
            lemma_called_quiet(w1, Rt::PrintNewline, Seq::empty());
            lemma_knows_frames(w, stmt_made(w, stmt).0, s);
        },
        Stmt::If(chain) => {
            calm_if(w, s, chain, fixed);
        },
        Stmt::Loop(l) => {
            calm_loop(w, s, l, fixed);
        },
        _ => {},
    }
}

} // verus!
