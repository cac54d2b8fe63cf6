//! Where the lowering, the interpreter and the machine stand together.

use vstd::prelude::*;

use crate::ast::{Expr, ExprKind, FuncDecl};
use crate::codegen::agreement::guarded;
use crate::codegen::boxes::{heap_but, heap_grown, holdable, lemma_still_stands, stands_for};
use crate::codegen::machine::{slot, Datum, Machine};
use crate::codegen::native::{selected_native, Native};
use crate::codegen::simulation::{has_name, keeps_below, lemma_first_local, lemma_local, top};
use crate::codegen::whole::{known, with_name, Scope};
use crate::codegen::work::{
    binary_native, declared, found, function_named, local_index, looked_up, natural, number_native,
    unary_native, with_frame, with_local, FrameView, LocalView, SigView, WorkView,
};
use crate::codegen::native::literal_dims;
use crate::eval::semantics;
use crate::eval::semantics::{assigned, bare, closed_scope, defined, holder, opened, World};
use crate::eval::value::Val;

verus! {

// ── what names stand for ────────────────────────────────────────────────────

/// What the lowering knows: the scopes, the functions and the places asked for.
pub struct Env {
    pub s: Seq<Scope>,
    pub fns: Seq<SigView>,
    pub functions: Seq<FuncDecl>,
    pub digits: u32,
}

/// Whether the lowering takes names for what the environment says.
pub open spec fn attuned(w: WorkView, env: Env) -> bool {
    &&& w.fns == env.fns
    &&& w.digits == env.digits
    &&& names_fit(w, env.s)
}

pub open spec fn names_fit(w: WorkView, s: Seq<Scope>) -> bool {
    &&& w.frames.len() == s.len()
    &&& s.len() > 0
    &&& forall|i: int, name: Seq<char>|
        0 <= i < s.len() ==> (#[trigger] has_name(w.frames[i], name) <==> s[i].dom().contains(name))
    &&& forall|i: int, j: int|
        #![trigger w.frames[i][j]]
        0 <= i < s.len() && 0 <= j < w.frames[i].len() ==> {
            let l = w.frames[i][j];
            &&& s[i].dom().contains(l.name)
            &&& s[i][l.name] == l.native
            &&& holdable(l.native)
            &&& local_index(w.frames[i], l.name) == j
        }
}

pub(crate) proof fn lemma_known(w: WorkView, s: Seq<Scope>, name: Seq<char>, n: nat)
    requires
        names_fit(w, s),
        n <= s.len(),
    ensures
        match found(w.frames, name, n) {
            Some((_, native)) => known(s, name, n) == Some(native) && holdable(native),
            None => known(s, name, n) is None,
        },
    decreases n,
{
    if n > 0 {
        let f = w.frames[n - 1];
        assert(has_name(f, name) <==> s[n - 1].dom().contains(name));
        lemma_local(f, name);
        let i = local_index(f, name);
        if i < f.len() {
            let l = w.frames[n - 1][i as int];
            assert(l.name == name);
        } else {
            lemma_known(w, s, name, (n - 1) as nat);
        }
    }
}

/// Which representation an expression naturally produces.
pub open spec fn nat_of(env: Env, e: Expr) -> Native
    decreases e,
{
    match e.kind {
        ExprKind::Ref { name, selectors } => selected_native(
            match known(env.s, name@, env.s.len()) {
                Some(n) => n,
                None => Native::Int,
            },
            selectors@,
        ),
        ExprKind::Math(inner) => nat_of(env, *inner),
        ExprKind::Number(t) => number_native(t@),
        ExprKind::Literal(t) => number_native(t@),
        ExprKind::Constant(_) => Native::Deci,
        ExprKind::Unary { op, operand } => unary_native(op, nat_of(env, *operand), bare(*operand)),
        ExprKind::Str(_) => Native::Str,
        ExprKind::Builtin { name, .. } => if name@ == "read"@ {
            Native::Str
        } else {
            Native::Int
        },
        ExprKind::ArrayLit(items) => Native::Array(0, literal_dims(items).len() as u32),
        ExprKind::Loop(_) => Native::Array(5, 1),
        ExprKind::Binary { op, lhs, rhs } => binary_native(
            op,
            nat_of(env, *lhs),
            nat_of(env, *rhs),
            bare(*lhs),
            bare(*rhs),
        ),
        ExprKind::Call { name, .. } => match function_named(env.fns, name@, env.fns.len()) {
            Some(i) => env.fns[i as int].ret,
            None => Native::Int,
        },
        _ => Native::Int,
    }
}

pub(crate) proof fn lemma_natural(w: WorkView, env: Env, e: Expr)
    requires
        attuned(w, env),
    ensures
        natural(w, e) == nat_of(env, e),
    decreases e,
{
    match e.kind {
        ExprKind::Ref { name, .. } => {
            reveal(looked_up);
            lemma_known(w, env.s, name@, env.s.len());
        },
        ExprKind::Math(inner) => {
            lemma_natural(w, env, *inner);
        },
        ExprKind::Unary { operand, .. } => {
            lemma_natural(w, env, *operand);
        },
        ExprKind::Binary { lhs, rhs, .. } => {
            lemma_natural(w, env, *lhs);
            lemma_natural(w, env, *rhs);
        },
        _ => {},
    }
}

pub(crate) proof fn lemma_attuned(w: WorkView, w1: WorkView, env: Env)
    requires
        attuned(w, env),
        w1.frames == w.frames,
        w1.fns == w.fns,
        w1.digits == w.digits,
    ensures
        attuned(w1, env),
{
}

pub(crate) proof fn lemma_declared_fits(w: WorkView, s: Seq<Scope>, name: Seq<char>, at: usize, native: Native)
    requires
        names_fit(w, s),
        holdable(native),
    ensures
        names_fit(declared(w, name, at, native), with_name(s, name, native)),
{
    reveal(declared);
    let l = LocalView { name, slot: at, native };
    let f = w.frames.last();
    let g = with_local(f, l);
    let s1 = with_name(s, name, native);
    let w1 = declared(w, name, at, native);
    let k = s.len() - 1;
    lemma_local(f, name);
    assert(f == w.frames[k]);
    assert forall|j: int| 0 <= j < g.len() implies {
        let x = #[trigger] g[j];
        &&& s1[k].dom().contains(x.name)
        &&& s1[k][x.name] == x.native
        &&& holdable(x.native)
        &&& local_index(g, x.name) == j
    } by {
        if j < f.len() {
            assert(local_index(f, w.frames[k][j].name) == j);
            lemma_local(f, f[j].name);
        }
        assert forall|h: int| 0 <= h < j implies (#[trigger] g[h]).name != g[j].name by {
            assert(h < f.len());
            assert(f[h].name == g[h].name || g[h].name == name);
            assert(local_index(f, w.frames[k][h].name) == h);
            if j < f.len() {
                assert(local_index(f, w.frames[k][j].name) == j);
            }
        }
        lemma_first_local(g, g[j].name, j as nat);
    }
    assert forall|i: int, other: Seq<char>| 0 <= i < s1.len() implies (#[trigger] has_name(w1.frames[i], other)
        <==> s1[i].dom().contains(other)) by {
        assert(has_name(w.frames[i], other) <==> s[i].dom().contains(other));
        if i == k {
            assert(w1.frames[i] == g);
            lemma_local(g, other);
            lemma_local(f, other);
            if has_name(f, other) {
                let h = local_index(f, other);
                assert(g[h as int].name == other);
            }
            if other == name {
                let h = local_index(f, name);
                assert(g[h as int].name == name);
            }
            if has_name(g, other) {
                let h = local_index(g, other) as int;
                assert(g[h].name == other);
            }
        }
    }
    assert forall|i: int, j: int|
        #![trigger w1.frames[i][j]]
        0 <= i < s1.len() && 0 <= j < w1.frames[i].len() implies {
        let x = w1.frames[i][j];
        &&& s1[i].dom().contains(x.name)
        &&& s1[i][x.name] == x.native
        &&& holdable(x.native)
        &&& local_index(w1.frames[i], x.name) == j
    } by {
        if i == k {
            assert(w1.frames[i][j] == g[j]);
        } else {
            assert(w1.frames[i][j] == w.frames[i][j]);
        }
    }
}

pub(crate) proof fn lemma_with_frame_fits(w: WorkView, s: Seq<Scope>)
    requires
        names_fit(w, s),
    ensures
        names_fit(with_frame(w), s.push(Map::empty())),
{
    reveal(with_frame);
    let w1 = with_frame(w);
    let s1 = s.push(Map::<Seq<char>, Native>::empty());
    assert forall|i: int, name: Seq<char>| 0 <= i < s1.len() implies (#[trigger] has_name(w1.frames[i], name)
        <==> s1[i].dom().contains(name)) by {
        if i < s.len() {
            assert(has_name(w.frames[i], name) <==> s[i].dom().contains(name));
        }
    }
    assert forall|i: int, j: int|
        #![trigger w1.frames[i][j]]
        0 <= i < s1.len() && 0 <= j < w1.frames[i].len() implies {
        let l = w1.frames[i][j];
        &&& s1[i].dom().contains(l.name)
        &&& s1[i][l.name] == l.native
        &&& holdable(l.native)
        &&& local_index(w1.frames[i], l.name) == j
    } by {
        assert(w1.frames[i][j] == w.frames[i][j]);
    }
}

// ── what names hold ─────────────────────────────────────────────────────────

pub open spec fn mirrored(w: WorkView, names: Map<Seq<char>, Val>, m: Machine, l: LocalView) -> bool {
    &&& l.slot < w.code.len()
    &&& names.dom().contains(l.name)
    &&& stands_for(m.heap, slot(top(m).slots, l.slot as int, 0), names[l.name], l.native)
}

/// Whether no two variables share an array.
pub open spec fn unshared(w: WorkView, m: Machine) -> bool {
    forall|i: int, j: int, k: int, l: int|
        #![trigger w.frames[i][j], w.frames[k][l]]
        0 <= i < w.frames.len() && 0 <= j < w.frames[i].len() && 0 <= k < w.frames.len() && 0 <= l < w.frames[k].len()
            && w.frames[i][j].native is Array && w.frames[k][l].native is Array && slot(
            top(m).slots,
            w.frames[i][j].slot as int,
            0,
        ) == slot(top(m).slots, w.frames[k][l].slot as int, 0) ==> i == k && j == l
}

/// Whether the arrays of the variables are no older than a point of the run.
pub open spec fn no_older(w: WorkView, m: Machine, floor: nat) -> bool {
    forall|i: int, j: int|
        #![trigger w.frames[i][j]]
        0 <= i < w.frames.len() && 0 <= j < w.frames[i].len() && w.frames[i][j].native is Array ==> (slot(
            top(m).slots,
            w.frames[i][j].slot as int,
            0,
        ) matches Datum::Object(o) && o >= floor)
}

/// Whether the machine's slots hold what the interpreter's names hold, scope by scope.
pub open spec fn mirrors(w: WorkView, frames: Seq<Map<Seq<char>, Val>>, m: Machine) -> bool {
    &&& w.frames.len() == frames.len()
    &&& w.frames.len() > 0
    &&& forall|i: int, name: Seq<char>|
        0 <= i < w.frames.len() ==> (#[trigger] has_name(w.frames[i], name) <==> frames[i].dom().contains(name))
    &&& forall|i: int, j: int|
        #![trigger w.frames[i][j]]
        0 <= i < w.frames.len() && 0 <= j < w.frames[i].len() ==> {
            &&& mirrored(w, frames[i], m, w.frames[i][j])
            &&& local_index(w.frames[i], w.frames[i][j].name) == j
        }
    &&& forall|i: int, j: int, k: int, l: int|
        #![trigger w.frames[i][j], w.frames[k][l]]
        0 <= i < w.frames.len() && 0 <= j < w.frames[i].len() && 0 <= k < w.frames.len() && 0 <= l
            < w.frames[k].len() && w.frames[i][j].slot == w.frames[k][l].slot ==> i == k && j == l
    &&& unshared(w, m)
}

/// The frames as the interpreter has them, seen from inside a function: those of its callers
/// left out, and its parameters apart from what its body declares.
pub struct Framing {
    pub base: nat,
    pub params: Set<Seq<char>>,
    pub split: bool,
    /// The heap values below this one are not the function's own.
    pub floor: nat,
}

pub open spec fn main_framing() -> Framing {
    Framing { base: 0, params: Set::empty(), split: false, floor: 0 }
}

pub open spec fn seen(frames: Seq<Map<Seq<char>, Val>>, f: Framing) -> Seq<Map<Seq<char>, Val>> {
    if f.split {
        let own = frames[f.base as int];
        seq![own.restrict(f.params), own.remove_keys(f.params)] + frames.skip(f.base as int + 1)
    } else {
        frames.skip(f.base as int)
    }
}

/// Work that touched no variable leaves the mirror whole.
pub(crate) proof fn lemma_still_mirrors(
    w: WorkView,
    w1: WorkView,
    frames: Seq<Map<Seq<char>, Val>>,
    m: Machine,
    m1: Machine,
)
    requires
        mirrors(w, frames, m),
        w1.frames == w.frames,
        w.code.len() <= w1.code.len(),
        keeps_below(w.code.len() as int, top(m), top(m1)),
        heap_grown(m.heap, m1.heap),
    ensures
        mirrors(w1, frames, m1),
        forall|floor: nat| #[trigger] no_older(w, m, floor) ==> no_older(w1, m1, floor),
{
    assert forall|i: int, j: int|
        #![trigger w1.frames[i][j]]
        0 <= i < w1.frames.len() && 0 <= j < w1.frames[i].len() implies slot(
        top(m1).slots,
        w1.frames[i][j].slot as int,
        0,
    ) == slot(top(m).slots, w.frames[i][j].slot as int, 0) by {
        assert(mirrored(w, frames[i], m, w.frames[i][j]));
    }
    assert(unshared(w1, m1)) by {
        assert forall|i: int, j: int, k: int, l: int|
            #![trigger w1.frames[i][j], w1.frames[k][l]]
            0 <= i < w1.frames.len() && 0 <= j < w1.frames[i].len() && 0 <= k < w1.frames.len() && 0 <= l
                < w1.frames[k].len() && w1.frames[i][j].native is Array && w1.frames[k][l].native is Array && slot(
                top(m1).slots,
                w1.frames[i][j].slot as int,
                0,
            ) == slot(top(m1).slots, w1.frames[k][l].slot as int, 0) implies i == k && j == l by {
            assert(w.frames[i][j] == w1.frames[i][j] && w.frames[k][l] == w1.frames[k][l]);
        }
    }
    assert forall|floor: nat| #[trigger] no_older(w, m, floor) implies no_older(w1, m1, floor) by {
        assert forall|i: int, j: int|
            #![trigger w1.frames[i][j]]
            0 <= i < w1.frames.len() && 0 <= j < w1.frames[i].len() && w1.frames[i][j].native is Array implies (slot(
            top(m1).slots,
            w1.frames[i][j].slot as int,
            0,
        ) matches Datum::Object(o) && o >= floor) by {
            assert(w.frames[i][j] == w1.frames[i][j]);
        }
    }
    assert forall|i: int, j: int|
        #![trigger w1.frames[i][j]]
        0 <= i < w1.frames.len() && 0 <= j < w1.frames[i].len() implies {
        &&& mirrored(w1, frames[i], m1, w1.frames[i][j])
        &&& local_index(w1.frames[i], w1.frames[i][j].name) == j
    } by {
        assert(mirrored(w, frames[i], m, w.frames[i][j]));
        let l = w.frames[i][j];
        lemma_still_stands(m.heap, m1.heap, slot(top(m).slots, l.slot as int, 0), frames[i][l.name], l.native);
    }
}

/// A name is found in the same place on both sides, and holds the same.
pub(crate) proof fn lemma_found(w: WorkView, frames: Seq<Map<Seq<char>, Val>>, m: Machine, name: Seq<char>, n: nat)
    requires
        mirrors(w, frames, m),
        n <= w.frames.len(),
        found(w.frames, name, n) is Some,
    ensures
        ({
            let (at, native) = found(w.frames, name, n)->0;
            &&& holder(frames, name, n) matches Some(i) && {
                let j = local_index(w.frames[i], name);
                &&& 0 <= i < n
                &&& j < w.frames[i].len()
                &&& w.frames[i][j as int] == (LocalView { name, slot: at, native })
                &&& mirrored(w, frames[i], m, w.frames[i][j as int])
            }
        }),
    decreases n,
{
    if n > 0 {
        let f = w.frames[n - 1];
        assert(has_name(f, name) <==> frames[n - 1].dom().contains(name));
        let i = local_index(f, name);
        if i < f.len() {
            lemma_local(f, name);
            assert(mirrored(w, frames[n - 1], m, w.frames[n - 1][i as int]));
        } else {
            lemma_found(w, frames, m, name, (n - 1) as nat);
        }
    }
}

/// What is found from inside a function is found from outside it.
pub(crate) proof fn lemma_seen_holder(frames: Seq<Map<Seq<char>, Val>>, f: Framing, name: Seq<char>, n: nat)
    requires
        f.base < frames.len(),
        n <= seen(frames, f).len(),
        f.split ==> n >= 2,
        holder(seen(frames, f), name, n) is Some,
    ensures
        ({
            let i = holder(seen(frames, f), name, n)->0;
            let shift: int = if f.split { 1 } else { 0 };
            let k = if f.split && i < 2 { f.base as int } else { f.base + i - shift };
            &&& 0 <= i < n
            &&& holder(frames, name, (f.base + n - shift) as nat) == Some(k)
            &&& f.split && i < 2 ==> (i == 0 <==> f.params.contains(name))
            &&& frames[k].dom().contains(name)
            &&& frames[k][name] == seen(frames, f)[i][name]
        }),
    decreases n,
{
    let v = seen(frames, f);
    let shift: int = if f.split { 1 } else { 0 };
    if f.split && n == 2 {
        let own = frames[f.base as int];
        assert(v[0] == own.restrict(f.params) && v[1] == own.remove_keys(f.params));
        reveal_with_fuel(holder, 3);
    } else if n > 0 {
        assert(v[n - 1] == frames[f.base + n - 1 - shift]);
        if !v[n - 1].dom().contains(name) {
            lemma_seen_holder(frames, f, name, (n - 1) as nat);
        }
    }
}

pub(crate) proof fn lemma_seen_value(world: World, f: Framing, name: Seq<char>)
    requires
        f.base < world.frames.len(),
        holder(seen(world.frames, f), name, seen(world.frames, f).len()) is Some,
    ensures
        ({
            let v = seen(world.frames, f);
            semantics::looked_up(world, name) == Some(v[holder(v, name, v.len())->0][name])
        }),
{
    lemma_seen_holder(world.frames, f, name, seen(world.frames, f).len());
}

/// Declaring, changing, opening and closing look the same from inside.
pub(crate) proof fn lemma_seen_defined(world: World, f: Framing, name: Seq<char>, v: Val)
    requires
        f.base < world.frames.len(),
        f.split ==> !f.params.contains(name),
    ensures
        seen(defined(world, name, v).frames, f) == ({
            let old = seen(world.frames, f);
            old.update(old.len() - 1, old[old.len() - 1].insert(name, v))
        }),
        defined(world, name, v).frames.len() == world.frames.len(),
        defined(world, name, v).frames.take(f.base as int) == world.frames.take(f.base as int),
{
    let a = world.frames;
    let b = defined(world, name, v).frames;
    let old = seen(a, f);
    let top = a.len() - 1;
    let new = old.update(old.len() - 1, old[old.len() - 1].insert(name, v));
    assert(b.take(f.base as int) =~= a.take(f.base as int));
    if f.split {
        let x = a[f.base as int];
        if top == f.base {
            assert(x.insert(name, v).restrict(f.params) =~= x.restrict(f.params));
            assert(x.insert(name, v).remove_keys(f.params) =~= x.remove_keys(f.params).insert(name, v));
        }
    }
    assert(seen(b, f) =~= new);
}

pub(crate) proof fn lemma_seen_assigned(world: World, f: Framing, name: Seq<char>, v: Val)
    requires
        f.base < world.frames.len(),
        holder(seen(world.frames, f), name, seen(world.frames, f).len()) is Some,
    ensures
        seen(assigned(world, name, v).frames, f) == ({
            let old = seen(world.frames, f);
            let i = holder(old, name, old.len())->0;
            old.update(i, old[i].insert(name, v))
        }),
        assigned(world, name, v).frames.len() == world.frames.len(),
        assigned(world, name, v).frames.take(f.base as int) == world.frames.take(f.base as int),
{
    let a = world.frames;
    let old = seen(a, f);
    lemma_seen_holder(a, f, name, old.len());
    let i = holder(old, name, old.len())->0;
    let b = assigned(world, name, v).frames;
    let new = old.update(i, old[i].insert(name, v));
    assert(b.take(f.base as int) =~= a.take(f.base as int));
    if f.split {
        let x = a[f.base as int];
        if i == 0 {
            assert(x.insert(name, v).restrict(f.params) =~= x.restrict(f.params).insert(name, v));
            assert(x.insert(name, v).remove_keys(f.params) =~= x.remove_keys(f.params));
        } else if i == 1 {
            assert(x.insert(name, v).restrict(f.params) =~= x.restrict(f.params));
            assert(x.insert(name, v).remove_keys(f.params) =~= x.remove_keys(f.params).insert(name, v));
        }
    }
    assert(seen(b, f) =~= new);
}

pub(crate) proof fn lemma_seen_opened(world: World, f: Framing)
    requires
        f.base < world.frames.len(),
    ensures
        seen(opened(world).frames, f) == seen(world.frames, f).push(Map::empty()),
        opened(world).frames.take(f.base as int) == world.frames.take(f.base as int),
{
    assert(opened(world).frames.take(f.base as int) =~= world.frames.take(f.base as int));
    assert(seen(opened(world).frames, f) =~= seen(world.frames, f).push(Map::empty()));
}

pub(crate) proof fn lemma_seen_closed(world: World, f: Framing)
    requires
        f.base + 1 < world.frames.len(),
    ensures
        seen(closed_scope(world).frames, f) == seen(world.frames, f).drop_last(),
        closed_scope(world).frames.take(f.base as int) == world.frames.take(f.base as int),
{
    assert(closed_scope(world).frames.take(f.base as int) =~= world.frames.take(f.base as int));
    assert(seen(closed_scope(world).frames, f) =~= seen(world.frames, f).drop_last());
}

// ── declaring, changing, opening and closing ────────────────────────────────

pub type Frames = Seq<Map<Seq<char>, Val>>;

pub open spec fn declared_in(frames: Frames, name: Seq<char>, v: Val) -> Frames {
    frames.update(frames.len() - 1, frames[frames.len() - 1].insert(name, v))
}

pub open spec fn changed_in(frames: Frames, name: Seq<char>, v: Val) -> Frames {
    let i = holder(frames, name, frames.len())->0;
    frames.update(i, frames[i].insert(name, v))
}

/// A name declared on both sides.
pub(crate) proof fn lemma_declares(
    w: WorkView,
    wf: WorkView,
    frames: Frames,
    m: Machine,
    m1: Machine,
    name: Seq<char>,
    at: usize,
    native: Native,
    v: Val,
    fixed: Set<Seq<char>>,
    guard: Set<int>,
)
    requires
        mirrors(w, frames, m),
        wf.frames == declared(w, name, at, native).frames,
        w.code.len() <= at < wf.code.len(),
        stands_for(m1.heap, slot(top(m1).slots, at as int, 0), v, native),
        native is Array ==> (slot(top(m1).slots, at as int, 0) matches Datum::Object(o) && o >= m.heap.len()),
        heap_grown(m.heap, m1.heap),
        forall|k: int| 0 <= k < w.code.len() ==> #[trigger] slot(top(m1).slots, k, 0) == slot(top(m).slots, k, 0),
        guarded(w, fixed, guard),
    ensures
        mirrors(wf, declared_in(frames, name, v), m1),
        guarded(wf, fixed, guard),
        forall|floor: nat| #[trigger] no_older(w, m, floor) && floor <= m.heap.len() ==> no_older(wf, m1, floor),
{
    reveal(declared);
    let l = LocalView { name, slot: at, native };
    let k = w.frames.len() - 1;
    let f = w.frames[k];
    let g = with_local(f, l);
    let frames1 = declared_in(frames, name, v);
    let p = local_index(f, name) as int;
    lemma_local(f, name);
    assert(w.frames.last() == f);
    assert(wf.frames[k] == g);
    assert(frames1[k] == frames[k].insert(name, v));
    assert forall|j: int| 0 <= j < f.len() && j != p implies (#[trigger] g[j]) == f[j] && f[j].name != name by {
        assert(local_index(f, w.frames[k][j].name) == j);
    }
    assert(g[p] == l);
    assert forall|i: int, j: int|
        #![trigger wf.frames[i][j]]
        0 <= i < wf.frames.len() && 0 <= j < wf.frames[i].len() implies {
        &&& mirrored(wf, frames1[i], m1, wf.frames[i][j])
        &&& local_index(wf.frames[i], wf.frames[i][j].name) == j
        &&& wf.frames[i][j].slot < w.code.len() || (i == k && j == p)
        &&& guard.contains(wf.frames[i][j].slot as int) ==> fixed.contains(wf.frames[i][j].name)
    } by {
        if i == k {
            assert(wf.frames[i][j] == g[j]);
            if j != p {
                assert(g[j] == f[j]);
                assert(mirrored(w, frames[k], m, w.frames[k][j]));
                assert(local_index(f, w.frames[k][j].name) == j);
                let x = w.frames[k][j];
                lemma_still_stands(m.heap, m1.heap, slot(top(m).slots, x.slot as int, 0), frames[k][x.name], x.native);
            }
            assert forall|h: int| 0 <= h < j implies (#[trigger] g[h]).name != g[j].name by {
                assert(local_index(f, w.frames[k][h].name) == h);
                if j < f.len() {
                    assert(local_index(f, w.frames[k][j].name) == j);
                }
                lemma_local(f, f[h].name);
            }
            lemma_first_local(g, g[j].name, j as nat);
        } else {
            assert(wf.frames[i][j] == w.frames[i][j]);
            assert(mirrored(w, frames[i], m, w.frames[i][j]));
            let x = w.frames[i][j];
            lemma_still_stands(m.heap, m1.heap, slot(top(m).slots, x.slot as int, 0), frames[i][x.name], x.native);
        }
    }
    assert forall|i: int, j: int|
        #![trigger wf.frames[i][j]]
        0 <= i < wf.frames.len() && 0 <= j < wf.frames[i].len() && !(i == k && j == p) implies {
        &&& j < w.frames[i].len()
        &&& wf.frames[i][j] == w.frames[i][j]
        &&& slot(top(m1).slots, wf.frames[i][j].slot as int, 0) == slot(top(m).slots, w.frames[i][j].slot as int, 0)
        &&& w.frames[i][j].native is Array ==> (slot(top(m).slots, w.frames[i][j].slot as int, 0) matches Datum::Object(o) && o
            < m.heap.len())
    } by {
        if i == k {
            assert(wf.frames[i][j] == g[j]);
        }
        assert(mirrored(w, frames[i], m, w.frames[i][j]));
    }
    assert(unshared(wf, m1)) by {
        assert forall|i: int, j: int, x: int, y: int|
            #![trigger wf.frames[i][j], wf.frames[x][y]]
            0 <= i < wf.frames.len() && 0 <= j < wf.frames[i].len() && 0 <= x < wf.frames.len() && 0 <= y
                < wf.frames[x].len() && wf.frames[i][j].native is Array && wf.frames[x][y].native is Array && slot(
                top(m1).slots,
                wf.frames[i][j].slot as int,
                0,
            ) == slot(top(m1).slots, wf.frames[x][y].slot as int, 0) implies i == x && j == y by {
            if !(i == k && j == p) && !(x == k && y == p) {
                assert(w.frames[i][j] == wf.frames[i][j] && w.frames[x][y] == wf.frames[x][y]);
            }
        }
    }
    assert forall|floor: nat| #[trigger] no_older(w, m, floor) && floor <= m.heap.len() implies no_older(wf, m1, floor) by {
        assert forall|i: int, j: int|
            #![trigger wf.frames[i][j]]
            0 <= i < wf.frames.len() && 0 <= j < wf.frames[i].len() && wf.frames[i][j].native is Array implies (slot(
            top(m1).slots,
            wf.frames[i][j].slot as int,
            0,
        ) matches Datum::Object(o) && o >= floor) by {
            if !(i == k && j == p) {
                assert(w.frames[i][j] == wf.frames[i][j]);
            }
        }
    }
    assert forall|i: int, other: Seq<char>| 0 <= i < wf.frames.len() implies (#[trigger] has_name(wf.frames[i], other)
        <==> frames1[i].dom().contains(other)) by {
        assert(has_name(w.frames[i], other) <==> frames[i].dom().contains(other));
        if i == k {
            lemma_local(g, other);
            lemma_local(f, other);
            if has_name(f, other) {
                let h = local_index(f, other) as int;
                assert(g[h].name == other);
            }
            if has_name(g, other) {
                let h = local_index(g, other) as int;
                assert(g[h].name == other);
            }
        }
    }
    assert forall|i: int, j: int, x: int, y: int|
        #![trigger wf.frames[i][j], wf.frames[x][y]]
        0 <= i < wf.frames.len() && 0 <= j < wf.frames[i].len() && 0 <= x < wf.frames.len() && 0 <= y
            < wf.frames[x].len() && wf.frames[i][j].slot == wf.frames[x][y].slot implies i == x && j == y by {
        if !(i == k && j == p) && !(x == k && y == p) {
            assert(wf.frames[i][j] == w.frames[i][j]);
            assert(wf.frames[x][y] == w.frames[x][y]);
        }
    }
}

/// A name changed on both sides.
pub(crate) proof fn lemma_assigns(
    w: WorkView,
    wf: WorkView,
    frames: Frames,
    m: Machine,
    m1: Machine,
    name: Seq<char>,
    v: Val,
)
    requires
        mirrors(w, frames, m),
        looked_up(w, name) is Some,
        wf.frames == w.frames,
        w.code.len() <= wf.code.len(),
        stands_for(m1.heap, slot(top(m1).slots, (looked_up(w, name)->0).0 as int, 0), v, (looked_up(w, name)->0).1),
        (looked_up(w, name)->0).1 is Array ==> {
            let x = slot(top(m).slots, (looked_up(w, name)->0).0 as int, 0);
            let y = slot(top(m1).slots, (looked_up(w, name)->0).0 as int, 0);
            &&& heap_but(m.heap, m1.heap, x)
            &&& y == x || (y matches Datum::Object(o) && o >= m.heap.len())
        },
        !((looked_up(w, name)->0).1 is Array) ==> heap_grown(m.heap, m1.heap),
        forall|k: int|
            0 <= k < w.code.len() && k != (looked_up(w, name)->0).0 ==> #[trigger] slot(top(m1).slots, k, 0) == slot(
                top(m).slots,
                k,
                0,
            ),
    ensures
        mirrors(wf, changed_in(frames, name, v), m1),
        forall|floor: nat| #[trigger] no_older(w, m, floor) && floor <= m.heap.len() ==> no_older(wf, m1, floor),
{
    reveal(looked_up);
    lemma_found(w, frames, m, name, w.frames.len());
    let k = holder(frames, name, frames.len())->0;
    let p = local_index(w.frames[k], name) as int;
    let frames1 = changed_in(frames, name, v);
    let at = w.frames[k][p];
    assert(frames1[k] == frames[k].insert(name, v));
    assert forall|i: int, j: int|
        #![trigger w.frames[i][j]]
        0 <= i < w.frames.len() && 0 <= j < w.frames[i].len() && !(i == k && j == p) implies {
        let l = w.frames[i][j];
        let x = slot(top(m).slots, l.slot as int, 0);
        &&& slot(top(m1).slots, l.slot as int, 0) == x
        &&& stands_for(m1.heap, x, frames[i][l.name], l.native)
        &&& l.native is Array ==> (x matches Datum::Object(o) && o < m.heap.len())
    } by {
        assert(mirrored(w, frames[i], m, w.frames[i][j]));
        assert(w.frames[i][j].slot != w.frames[k][p].slot);
        let l = w.frames[i][j];
        let x = slot(top(m).slots, l.slot as int, 0);
        if l.native is Array {
            if at.native is Array {
                assert(x != slot(top(m).slots, at.slot as int, 0));
            }
            let o = x->Object_0;
            assert(m1.heap[o as int] == m.heap[o as int]);
        }
    }
    assert(unshared(wf, m1)) by {
        assert forall|i: int, j: int, x: int, y: int|
            #![trigger wf.frames[i][j], wf.frames[x][y]]
            0 <= i < wf.frames.len() && 0 <= j < wf.frames[i].len() && 0 <= x < wf.frames.len() && 0 <= y
                < wf.frames[x].len() && wf.frames[i][j].native is Array && wf.frames[x][y].native is Array && slot(
                top(m1).slots,
                wf.frames[i][j].slot as int,
                0,
            ) == slot(top(m1).slots, wf.frames[x][y].slot as int, 0) implies i == x && j == y by {
            assert(w.frames[i][j] == wf.frames[i][j] && w.frames[x][y] == wf.frames[x][y]);
            assert(w.frames[k][p] == at);
        }
    }
    assert forall|floor: nat| #[trigger] no_older(w, m, floor) && floor <= m.heap.len() implies no_older(wf, m1, floor) by {
        assert forall|i: int, j: int|
            #![trigger wf.frames[i][j]]
            0 <= i < wf.frames.len() && 0 <= j < wf.frames[i].len() && wf.frames[i][j].native is Array implies (slot(
            top(m1).slots,
            wf.frames[i][j].slot as int,
            0,
        ) matches Datum::Object(o) && o >= floor) by {
            assert(w.frames[i][j] == wf.frames[i][j]);
        }
    }
    assert forall|i: int, j: int|
        #![trigger wf.frames[i][j]]
        0 <= i < wf.frames.len() && 0 <= j < wf.frames[i].len() implies {
        &&& mirrored(wf, frames1[i], m1, wf.frames[i][j])
        &&& local_index(wf.frames[i], wf.frames[i][j].name) == j
    } by {
        assert(mirrored(w, frames[i], m, w.frames[i][j]));
        if i == k && j == p {
        } else {
            assert(w.frames[i][j].slot != w.frames[k][p].slot);
            if i == k {
                assert(w.frames[i][j].name != name);
            }
        }
    }
    assert forall|i: int, other: Seq<char>| 0 <= i < wf.frames.len() implies (#[trigger] has_name(wf.frames[i], other)
        <==> frames1[i].dom().contains(other)) by {
        assert(has_name(w.frames[i], other) <==> frames[i].dom().contains(other));
    }
}

/// A scope opened on both sides.
pub(crate) proof fn lemma_opens(w: WorkView, frames: Frames, m: Machine, fixed: Set<Seq<char>>, guard: Set<int>)
    requires
        mirrors(w, frames, m),
        guarded(w, fixed, guard),
    ensures
        mirrors(with_frame(w), frames.push(Map::empty()), m),
        guarded(with_frame(w), fixed, guard),
        with_frame(w).code == w.code,
        with_frame(w).texts == w.texts,
        with_frame(w).open == w.open,
        with_frame(w).temps == w.temps,
        forall|floor: nat| #[trigger] no_older(w, m, floor) ==> no_older(with_frame(w), m, floor),
{
    reveal(with_frame);
    assert forall|floor: nat| #[trigger] no_older(w, m, floor) implies no_older(with_frame(w), m, floor) by {
        let w1 = with_frame(w);
        assert forall|i: int, j: int|
            #![trigger w1.frames[i][j]]
            0 <= i < w1.frames.len() && 0 <= j < w1.frames[i].len() && w1.frames[i][j].native is Array implies (slot(
            top(m).slots,
            w1.frames[i][j].slot as int,
            0,
        ) matches Datum::Object(o) && o >= floor) by {
            assert(w.frames[i][j] == w1.frames[i][j]);
        }
    }
    let w1 = with_frame(w);
    let frames1 = frames.push(Map::empty());
    assert forall|i: int, j: int|
        #![trigger w1.frames[i][j]]
        0 <= i < w1.frames.len() && 0 <= j < w1.frames[i].len() implies {
        &&& mirrored(w1, frames1[i], m, w1.frames[i][j])
        &&& local_index(w1.frames[i], w1.frames[i][j].name) == j
        &&& guard.contains(w1.frames[i][j].slot as int) ==> fixed.contains(w1.frames[i][j].name)
    } by {
        assert(w1.frames[i][j] == w.frames[i][j]);
        assert(mirrored(w, frames[i], m, w.frames[i][j]));
    }
    assert forall|i: int, name: Seq<char>| 0 <= i < w1.frames.len() implies (#[trigger] has_name(w1.frames[i], name)
        <==> frames1[i].dom().contains(name)) by {
        if i < w.frames.len() {
            assert(has_name(w.frames[i], name) <==> frames[i].dom().contains(name));
        }
    }
    assert forall|i: int, j: int, x: int, y: int|
        #![trigger w1.frames[i][j], w1.frames[x][y]]
        0 <= i < w1.frames.len() && 0 <= j < w1.frames[i].len() && 0 <= x < w1.frames.len() && 0 <= y
            < w1.frames[x].len() && w1.frames[i][j].slot == w1.frames[x][y].slot implies i == x && j == y by {
        assert(w1.frames[i][j] == w.frames[i][j]);
        assert(w1.frames[x][y] == w.frames[x][y]);
    }
}

/// Whether the arrays of a frame, and no others, may have been let go.
pub open spec fn frame_freed(frame: FrameView, m: Machine, m1: Machine) -> bool {
    &&& m1.heap.len() == m.heap.len()
    &&& forall|o: int|
        0 <= o < m.heap.len() && (forall|x: int|
            0 <= x < frame.len() && frame[x].native is Array ==> slot(top(m).slots, (#[trigger] frame[x]).slot as int, 0)
                != Datum::Object(o as nat)) ==> #[trigger] m1.heap[o] == m.heap[o]
}

/// A scope closed on both sides, its arrays let go.
pub(crate) proof fn lemma_closes(
    w: WorkView,
    w1: WorkView,
    frames: Frames,
    m: Machine,
    m1: Machine,
    fixed: Set<Seq<char>>,
    guard: Set<int>,
)
    requires
        mirrors(w, frames, m),
        w1.frames == w.frames.drop_last(),
        w1.frames.len() > 0,
        w.code.len() <= w1.code.len(),
        keeps_below(w.code.len() as int, top(m), top(m1)),
        frame_freed(w.frames[w.frames.len() - 1], m, m1),
        forall|k: int| #[trigger] guard.contains(k) ==> 0 <= k < w1.code.len(),
        forall|i: int, j: int|
            #![trigger w1.frames[i][j]]
            0 <= i < w1.frames.len() && 0 <= j < w1.frames[i].len() && guard.contains(w1.frames[i][j].slot as int)
                ==> fixed.contains(w1.frames[i][j].name),
    ensures
        mirrors(w1, frames.drop_last(), m1),
        guarded(w1, fixed, guard),
        forall|floor: nat| #[trigger] no_older(w, m, floor) ==> no_older(w1, m1, floor),
{
    let frames1 = frames.drop_last();
    let k = w.frames.len() - 1;
    assert forall|i: int, j: int|
        #![trigger w1.frames[i][j]]
        0 <= i < w1.frames.len() && 0 <= j < w1.frames[i].len() implies {
        &&& w1.frames[i][j] == w.frames[i][j]
        &&& slot(top(m1).slots, w1.frames[i][j].slot as int, 0) == slot(top(m).slots, w.frames[i][j].slot as int, 0)
        &&& mirrored(w1, frames1[i], m1, w1.frames[i][j])
        &&& local_index(w1.frames[i], w1.frames[i][j].name) == j
    } by {
        assert(w1.frames[i][j] == w.frames[i][j]);
        assert(mirrored(w, frames[i], m, w.frames[i][j]));
        let l = w.frames[i][j];
        let x = slot(top(m).slots, l.slot as int, 0);
        if l.native is Array {
            let o = x->Object_0;
            assert forall|y: int| 0 <= y < w.frames[k].len() && w.frames[k][y].native is Array implies slot(
                top(m).slots,
                (#[trigger] w.frames[k][y]).slot as int,
                0,
            ) != Datum::Object(o) by {
                assert(w.frames[i][j].native is Array);
            }
            assert(m1.heap[o as int] == m.heap[o as int]);
        }
    }
    assert(unshared(w1, m1)) by {
        assert forall|i: int, j: int, x: int, y: int|
            #![trigger w1.frames[i][j], w1.frames[x][y]]
            0 <= i < w1.frames.len() && 0 <= j < w1.frames[i].len() && 0 <= x < w1.frames.len() && 0 <= y
                < w1.frames[x].len() && w1.frames[i][j].native is Array && w1.frames[x][y].native is Array && slot(
                top(m1).slots,
                w1.frames[i][j].slot as int,
                0,
            ) == slot(top(m1).slots, w1.frames[x][y].slot as int, 0) implies i == x && j == y by {
            assert(w.frames[i][j] == w1.frames[i][j] && w.frames[x][y] == w1.frames[x][y]);
        }
    }
    assert forall|floor: nat| #[trigger] no_older(w, m, floor) implies no_older(w1, m1, floor) by {
        assert forall|i: int, j: int|
            #![trigger w1.frames[i][j]]
            0 <= i < w1.frames.len() && 0 <= j < w1.frames[i].len() && w1.frames[i][j].native is Array implies (slot(
            top(m1).slots,
            w1.frames[i][j].slot as int,
            0,
        ) matches Datum::Object(o) && o >= floor) by {
            assert(w.frames[i][j] == w1.frames[i][j]);
        }
    }
    assert forall|i: int, name: Seq<char>| 0 <= i < w1.frames.len() implies (#[trigger] has_name(w1.frames[i], name)
        <==> frames1[i].dom().contains(name)) by {
        assert(has_name(w.frames[i], name) <==> frames[i].dom().contains(name));
    }
    assert forall|i: int, j: int, x: int, y: int|
        #![trigger w1.frames[i][j], w1.frames[x][y]]
        0 <= i < w1.frames.len() && 0 <= j < w1.frames[i].len() && 0 <= x < w1.frames.len() && 0 <= y
            < w1.frames[x].len() && w1.frames[i][j].slot == w1.frames[x][y].slot implies i == x && j == y by {
        assert(w1.frames[i][j] == w.frames[i][j]);
        assert(w1.frames[x][y] == w.frames[x][y]);
    }
}

/// What holds with more code emitted holds of the names alone, all of which are older.
pub(crate) proof fn lemma_back(
    w: WorkView,
    w1: WorkView,
    frames: Frames,
    m: Machine,
    m1: Machine,
    fixed: Set<Seq<char>>,
    guard: Set<int>,
)
    requires
        mirrors(w1, frames, m1),
        w1.frames == w.frames,
        guarded(w, fixed, guard),
        forall|i: int, j: int|
            #![trigger w.frames[i][j]]
            0 <= i < w.frames.len() && 0 <= j < w.frames[i].len() ==> w.frames[i][j].slot < w.code.len(),
    ensures
        mirrors(w, frames, m1),
        forall|floor: nat| #[trigger] no_older(w1, m1, floor) ==> no_older(w, m1, floor),
{
    assert(unshared(w, m1)) by {
        assert forall|i: int, j: int, x: int, y: int|
            #![trigger w.frames[i][j], w.frames[x][y]]
            0 <= i < w.frames.len() && 0 <= j < w.frames[i].len() && 0 <= x < w.frames.len() && 0 <= y
                < w.frames[x].len() && w.frames[i][j].native is Array && w.frames[x][y].native is Array && slot(
                top(m1).slots,
                w.frames[i][j].slot as int,
                0,
            ) == slot(top(m1).slots, w.frames[x][y].slot as int, 0) implies i == x && j == y by {
            assert(w.frames[i][j] == w1.frames[i][j] && w.frames[x][y] == w1.frames[x][y]);
        }
    }
    assert forall|floor: nat| #[trigger] no_older(w1, m1, floor) implies no_older(w, m1, floor) by {
        assert forall|i: int, j: int|
            #![trigger w.frames[i][j]]
            0 <= i < w.frames.len() && 0 <= j < w.frames[i].len() && w.frames[i][j].native is Array implies (slot(
            top(m1).slots,
            w.frames[i][j].slot as int,
            0,
        ) matches Datum::Object(o) && o >= floor) by {
            assert(w.frames[i][j] == w1.frames[i][j]);
        }
    }
    assert forall|i: int, j: int|
        #![trigger w.frames[i][j]]
        0 <= i < w.frames.len() && 0 <= j < w.frames[i].len() implies {
        &&& mirrored(w, frames[i], m1, w.frames[i][j])
        &&& local_index(w.frames[i], w.frames[i][j].name) == j
    } by {
        assert(mirrored(w1, frames[i], m1, w1.frames[i][j]));
    }
}

/// The slot of a name that is not fixed is not guarded.
pub(crate) proof fn lemma_slot_free(
    w: WorkView,
    frames: Frames,
    m: Machine,
    name: Seq<char>,
    fixed: Set<Seq<char>>,
    guard: Set<int>,
)
    requires
        mirrors(w, frames, m),
        looked_up(w, name) is Some,
        guarded(w, fixed, guard),
        !fixed.contains(name),
    ensures
        !guard.contains((looked_up(w, name)->0).0 as int),
{
    reveal(looked_up);
    lemma_found(w, frames, m, name, w.frames.len());
    let k = holder(frames, name, frames.len())->0;
    let p = local_index(w.frames[k], name) as int;
    assert(w.frames[k][p].name == name);
}

} // verus!
