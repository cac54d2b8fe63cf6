//! Scopes.
//!
//! Blocks create a scope: a variable declared inside `{ … }` exists from its
//! declaration to the closing brace and no further. Shadowing is legal and reported by
//! the Informer, because AHPCL names may contain spaces, emoji and lookalike
//! characters, which makes accidental shadowing easier here than in most languages.

use vstd::prelude::*;
use vstd::string::*;

use crate::diagnostics::position::{BytePos, Span};
use crate::eval::ops::{order_texts, text_order};
use crate::sema::types::{Type, TypeView};
use crate::table::Table;
use crate::text::chars_of;

verus! {

#[derive(Debug)]
pub struct Variable {
    pub ty: Type,
    pub declared_at: Span,
    /// Loop counters are read-only inside the body, which is what makes a counted
    /// loop provably terminating.
    pub read_only: bool,
}

#[verifier::ext_equal]
pub struct VariableView {
    pub ty: TypeView,
    pub declared_at: Span,
    pub read_only: bool,
}

impl View for Variable {
    type V = VariableView;

    open spec fn view(&self) -> VariableView {
        VariableView { ty: self.ty@, declared_at: self.declared_at, read_only: self.read_only }
    }
}

#[derive(Debug)]
pub struct Function {
    pub params: Vec<Type>,
    pub param_names: Vec<String>,
    pub returns: Type,
    pub declared_at: Span,
}

#[verifier::ext_equal]
pub struct FunctionView {
    pub params: Seq<TypeView>,
    pub param_names: Seq<Seq<char>>,
    pub returns: TypeView,
    pub declared_at: Span,
}

impl View for Function {
    type V = FunctionView;

    open spec fn view(&self) -> FunctionView {
        FunctionView {
            params: Seq::new(self.params@.len(), |i: int| self.params@[i]@),
            param_names: Seq::new(self.param_names@.len(), |i: int| self.param_names@[i]@),
            returns: self.returns@,
            declared_at: self.declared_at,
        }
    }
}

#[derive(Debug)]
pub struct Scopes {
    pub frames: Vec<Table<Variable>>,
    pub functions: Table<Function>,
}

/// The open scopes, the innermost last, and the functions.
#[verifier::ext_equal]
pub struct ScopesView {
    pub frames: Seq<Map<Seq<char>, VariableView>>,
    pub functions: Map<Seq<char>, FunctionView>,
}

pub open spec fn variables_in(t: Table<Variable>) -> Map<Seq<char>, VariableView> {
    t.map().map_values(|v: Variable| v@)
}

pub open spec fn functions_of(t: Table<Function>) -> Map<Seq<char>, FunctionView> {
    t.map().map_values(|f: Function| f@)
}

impl View for Scopes {
    type V = ScopesView;

    open spec fn view(&self) -> ScopesView {
        ScopesView {
            frames: Seq::new(self.frames@.len(), |i: int| variables_in(self.frames@[i])),
            functions: functions_of(self.functions),
        }
    }
}

/// What happened when a name was declared.
#[derive(Debug)]
pub enum Declared {
    Fresh,
    /// The new declaration hides one from an enclosing scope.
    Shadows { previous: Span },
}

/// The variable that a name stands for, looked for in the first `n` scopes from the
/// innermost outwards.
pub open spec fn found_in(frames: Seq<Map<Seq<char>, VariableView>>, name: Seq<char>, n: nat) -> Option<VariableView>
    decreases n,
{
    if n == 0 {
        None
    } else if frames[n - 1].dom().contains(name) {
        Some(frames[n - 1][name])
    } else {
        found_in(frames, name, (n - 1) as nat)
    }
}

/// The variable that a name stands for.
pub open spec fn found(s: ScopesView, name: Seq<char>) -> Option<VariableView> {
    found_in(s.frames, name, s.frames.len())
}

pub open spec fn pushed(s: ScopesView) -> ScopesView {
    ScopesView { frames: s.frames.push(Map::empty()), ..s }
}

pub open spec fn popped(s: ScopesView) -> ScopesView {
    ScopesView {
        frames: if s.frames.len() > 0 {
            s.frames.drop_last()
        } else {
            s.frames
        },
        ..s
    }
}

pub open spec fn with_variable(s: ScopesView, name: Seq<char>, v: VariableView) -> ScopesView {
    let top = s.frames.len() - 1;
    ScopesView { frames: s.frames.update(top, s.frames[top].insert(name, v)), ..s }
}

/// What a declaration hides: the variable of that name in an enclosing scope.
pub open spec fn hidden(s: ScopesView, name: Seq<char>) -> Option<Span> {
    match found_in(s.frames, name, (s.frames.len() - 1) as nat) {
        Some(v) => Some(v.declared_at),
        None => None,
    }
}

/// Whether a name is declared in some open scope.
pub open spec fn is_visible(s: ScopesView, name: Seq<char>) -> bool {
    exists|i: int| 0 <= i < s.frames.len() && #[trigger] s.frames[i].dom().contains(name)
}

pub proof fn lemma_variable_insert(m: Map<Seq<char>, Variable>, name: Seq<char>, v: Variable)
    ensures
        m.insert(name, v).map_values(|v: Variable| v@) == m.map_values(|v: Variable| v@).insert(name, v@),
{
    assert(m.insert(name, v).map_values(|v: Variable| v@) =~= m.map_values(|v: Variable| v@).insert(name, v@));
}

impl Scopes {
    pub fn new() -> (r: Self)
        ensures
            r@ == (ScopesView { frames: seq![Map::empty()], functions: Map::empty() }),
    {
        let mut frames: Vec<Table<Variable>> = Vec::new();
        frames.push(Table::new());
        let r: Scopes = Scopes { frames, functions: Table::new() };
        proof {
            assert(variables_in(r.frames@[0]) =~= Map::empty());
            assert(r@.frames =~= seq![Map::empty()]);
            assert(r@.functions =~= Map::empty());
        }
        r
    }

    pub fn push(&mut self)
        ensures
            final(self)@ == pushed(old(self)@),
    {
        let ghost before = self@;
        self.frames.push(Table::new());
        proof {
            assert(variables_in(self.frames@[before.frames.len() as int]) =~= Map::empty());
            assert(self@.frames =~= before.frames.push(Map::empty()));
        }
    }

    pub fn pop(&mut self)
        ensures
            final(self)@ == popped(old(self)@),
    {
        let ghost before = self@;
        let _ = self.frames.pop();
        assert(self@.frames =~= popped(before).frames);
    }

    pub fn declare(&mut self, name: &str, var: Variable) -> (r: Declared)
        requires
            old(self)@.frames.len() > 0,
        ensures
            final(self)@ == with_variable(old(self)@, name@, var@),
            match r {
                Declared::Fresh => hidden(old(self)@, name@) is None,
                Declared::Shadows { previous } => hidden(old(self)@, name@) == Some(previous),
            },
    {
        let ghost before = self@;
        let top: usize = self.frames.len() - 1;
        let shadowed: Option<Span> = match self.look(name, top) {
            Some(v) => Some(v.declared_at),
            None => None,
        };
        proof {
            lemma_variable_insert(self.frames@[top as int].map(), name@, var);
        }
        self.frames[top].insert(name, var);
        assert(self@.frames =~= with_variable(before, name@, var@).frames);
        match shadowed {
            Some(previous) => Declared::Shadows { previous },
            None => Declared::Fresh,
        }
    }

    fn look(&self, name: &str, n: usize) -> (r: Option<&Variable>)
        requires
            n <= self.frames.len(),
        ensures
            match r {
                Some(v) => found_in(self@.frames, name@, n as nat) == Some(v@),
                None => found_in(self@.frames, name@, n as nat) is None,
            },
    {
        let mut i: usize = n;
        while i > 0
            invariant
                i <= n <= self.frames.len(),
                found_in(self@.frames, name@, n as nat) == found_in(self@.frames, name@, i as nat),
            decreases i,
        {
            i = i - 1;
            match self.frames[i].get(name) {
                Some(v) => {
                    return Some(v);
                },
                None => {},
            }
        }
        None
    }

    pub fn lookup(&self, name: &str) -> (r: Option<&Variable>)
        ensures
            match r {
                Some(v) => found(self@, name@) == Some(v@),
                None => found(self@, name@) is None,
            },
    {
        self.look(name, self.frames.len())
    }

    /// Names currently in scope, for "did you mean" suggestions.
    pub fn visible_names(&self) -> (r: Vec<&str>)
        ensures
            strictly_ordered(str_texts(r@)),
            forall|name: Seq<char>| is_visible(self@, name) <==> str_texts(r@).contains(name),
    {
        let mut out: Vec<&str> = Vec::new();
        let mut i: usize = 0;
        while i < self.frames.len()
            invariant
                i <= self.frames.len(),
                strictly_ordered(str_texts(out@)),
                forall|name: Seq<char>| #[trigger]
                    str_texts(out@).contains(name) <==> exists|k: int|
                        0 <= k < i && #[trigger] self@.frames[k].dom().contains(name),
            decreases self.frames.len() - i,
        {
            let ghost before = str_texts(out@);
            let t: &Table<Variable> = &self.frames[i];
            let mut j: usize = 0;
            while j < t.entries.len()
                invariant
                    i < self.frames.len(),
                    t == &self.frames@[i as int],
                    j <= t.entries.len(),
                    strictly_ordered(str_texts(out@)),
                    forall|name: Seq<char>| #[trigger]
                        str_texts(out@).contains(name) <==> before.contains(name) || exists|k: int|
                            0 <= k < j && #[trigger] t.entries@[k].name@ == name,
                decreases t.entries.len() - j,
            {
                let ghost mid = str_texts(out@);
                insert_ordered(&mut out, t.entries[j].name.as_str());
                proof {
                    assert forall|name: Seq<char>| #[trigger]
                        str_texts(out@).contains(name) <==> before.contains(name) || exists|k: int|
                            0 <= k < j + 1 && #[trigger] t.entries@[k].name@ == name by {
                        if mid.contains(name) {
                        } else if name == t.entries@[j as int].name@ {
                        }
                    }
                }
                j = j + 1;
            }
            proof {
                assert forall|name: Seq<char>| #[trigger]
                    str_texts(out@).contains(name) <==> exists|k: int|
                        0 <= k < i + 1 && #[trigger] self@.frames[k].dom().contains(name) by {
                    if str_texts(out@).contains(name) {
                        if before.contains(name) {
                            let k = choose|k: int| 0 <= k < i && #[trigger] self@.frames[k].dom().contains(name);
                            assert(self@.frames[k].dom().contains(name));
                        } else {
                            let k = choose|k: int| 0 <= k < t.entries.len() && #[trigger] t.entries@[k].name@ == name;
                            t.lemma_has(k);
                            assert(self@.frames[i as int].dom().contains(name));
                        }
                    }
                    if exists|k: int| 0 <= k < i + 1 && #[trigger] self@.frames[k].dom().contains(name) {
                        let k = choose|k: int| 0 <= k < i + 1 && #[trigger] self@.frames[k].dom().contains(name);
                        if k == i {
                            t.lemma_named(name);
                        } else {
                            assert(before.contains(name));
                        }
                    }
                }
            }
            i = i + 1;
        }
        out
    }
}

// ── names in order ──────────────────────────────────────────────────────────

pub open spec fn str_texts(names: Seq<&str>) -> Seq<Seq<char>> {
    Seq::new(names.len(), |i: int| names[i]@)
}

/// Texts in order, none of them twice.
pub open spec fn strictly_ordered(names: Seq<Seq<char>>) -> bool {
    forall|i: int, j: int| 0 <= i < j < names.len() ==> text_order(#[trigger] names[i], #[trigger] names[j]) < 0
}

/// Swapping the texts turns the order round, and only equal texts are in neither order.
pub proof fn lemma_text_order(a: Seq<char>, b: Seq<char>)
    ensures
        text_order(a, b) == -text_order(b, a),
        text_order(a, b) == 0 <==> a == b,
        -1 <= text_order(a, b) <= 1,
    decreases a.len(),
{
    if a.len() > 0 && b.len() > 0 {
        lemma_text_order(a.skip(1), b.skip(1));
        if a[0] == b[0] {
            assert(a =~= seq![a[0]] + a.skip(1));
            assert(b =~= seq![b[0]] + b.skip(1));
        }
        if a == b {
            lemma_text_order_same(a);
        }
    } else if a.len() == 0 && b.len() == 0 {
        assert(a =~= b);
    }
}

proof fn lemma_text_order_same(a: Seq<char>)
    ensures
        text_order(a, a) == 0,
    decreases a.len(),
{
    if a.len() > 0 {
        lemma_text_order_same(a.skip(1));
    }
}

pub proof fn lemma_text_order_transitive(a: Seq<char>, b: Seq<char>, c: Seq<char>)
    requires
        text_order(a, b) < 0,
        text_order(b, c) < 0,
    ensures
        text_order(a, c) < 0,
    decreases a.len(),
{
    if a.len() > 0 && b.len() > 0 && c.len() > 0 && a[0] == b[0] && b[0] == c[0] {
        lemma_text_order_transitive(a.skip(1), b.skip(1), c.skip(1));
    }
}

/// Put a name where it belongs, unless it is there already.
fn insert_ordered<'a>(names: &mut Vec<&'a str>, name: &'a str)
    requires
        strictly_ordered(str_texts(old(names)@)),
    ensures
        strictly_ordered(str_texts(final(names)@)),
        forall|n: Seq<char>| #[trigger]
            str_texts(final(names)@).contains(n) <==> str_texts(old(names)@).contains(n) || n == name@,
{
    let ghost before = str_texts(names@);
    let mut i: usize = 0;
    while i < names.len()
        invariant
            i <= names.len(),
            names@ == old(names)@,
            before == str_texts(names@),
            strictly_ordered(before),
            forall|j: int| 0 <= j < i ==> text_order(#[trigger] before[j], name@) < 0,
        decreases names.len() - i,
    {
        let o: i32 = order_texts(names[i], name);
        proof {
            lemma_text_order(names@[i as int]@, name@);
        }
        if o == 0 {
            assert(before[i as int] == name@);
            assert(before.contains(name@));
            return ;
        }
        if o > 0 {
            names.insert(i, name);
            proof {
                let after = str_texts(names@);
                assert(after =~= before.insert(i as int, name@));
                assert forall|a: int, b: int| 0 <= a < b < after.len() implies text_order(
                    #[trigger] after[a],
                    #[trigger] after[b],
                ) < 0 by {
                    lemma_text_order(name@, before[i as int]);
                    let x = if a < i { a } else { a - 1 };
                    let y = if b < i { b } else { b - 1 };
                    if a == i {
                        if y > i {
                            lemma_text_order_transitive(name@, before[i as int], before[y]);
                        }
                    } else if b == i {
                        assert(text_order(before[a], name@) < 0);
                    } else {
                        assert(after[a] == before[x] && after[b] == before[y]);
                    }
                }
                lemma_insert_contains(before, i as int, name@);
            }
            return ;
        }
        i = i + 1;
    }
    names.push(name);
    proof {
        let after = str_texts(names@);
        assert(after =~= before.push(name@));
        assert forall|n: Seq<char>| #[trigger] after.contains(n) <==> before.contains(n) || n == name@ by {
            if before.contains(n) {
                let k = choose|k: int| 0 <= k < before.len() && before[k] == n;
                assert(after[k] == n);
            }
            if n == name@ {
                assert(after[before.len() as int] == n);
            }
            if after.contains(n) {
                let k = choose|k: int| 0 <= k < after.len() && after[k] == n;
                if k < before.len() {
                    assert(before[k] == n);
                }
            }
        }
    }
}

proof fn lemma_insert_contains(s: Seq<Seq<char>>, i: int, x: Seq<char>)
    requires
        0 <= i <= s.len(),
    ensures
        forall|n: Seq<char>| #[trigger] s.insert(i, x).contains(n) <==> s.contains(n) || n == x,
{
    let t = s.insert(i, x);
    assert forall|n: Seq<char>| #[trigger] t.contains(n) <==> s.contains(n) || n == x by {
        if s.contains(n) {
            let k = choose|k: int| 0 <= k < s.len() && s[k] == n;
            if k < i {
                assert(t[k] == n);
            } else {
                assert(t[k + 1] == n);
            }
        }
        if n == x {
            assert(t[i] == n);
        }
        if t.contains(n) {
            let k = choose|k: int| 0 <= k < t.len() && t[k] == n;
            if k < i {
                assert(s[k] == n);
            } else if k > i {
                assert(s[k - 1] == n);
            }
        }
    }
}

/// The names in a table, in order.
pub fn ordered_names<T>(t: &Table<T>) -> (r: Vec<&str>)
    ensures
        strictly_ordered(str_texts(r@)),
        forall|name: Seq<char>| #[trigger] t.map().dom().contains(name) <==> str_texts(r@).contains(name),
{
    let mut out: Vec<&str> = Vec::new();
    let mut j: usize = 0;
    while j < t.entries.len()
        invariant
            j <= t.entries.len(),
            strictly_ordered(str_texts(out@)),
            forall|name: Seq<char>| #[trigger]
                str_texts(out@).contains(name) <==> exists|k: int| 0 <= k < j && #[trigger] t.entries@[k].name@ == name,
        decreases t.entries.len() - j,
    {
        let ghost mid = str_texts(out@);
        insert_ordered(&mut out, t.entries[j].name.as_str());
        proof {
            assert forall|name: Seq<char>| #[trigger]
                str_texts(out@).contains(name) <==> exists|k: int|
                    0 <= k < j + 1 && #[trigger] t.entries@[k].name@ == name by {
                if mid.contains(name) {
                } else if name == t.entries@[j as int].name@ {
                }
            }
        }
        j = j + 1;
    }
    proof {
        assert forall|name: Seq<char>| #[trigger]
            t.map().dom().contains(name) <==> str_texts(out@).contains(name) by {
            if t.map().dom().contains(name) {
                t.lemma_named(name);
            }
            if str_texts(out@).contains(name) {
                let k = choose|k: int| 0 <= k < t.entries.len() && #[trigger] t.entries@[k].name@ == name;
                t.lemma_has(k);
            }
        }
    }
    out
}

// ── closeness ───────────────────────────────────────────────────────────────

pub open spec fn least_of(a: nat, b: nat, c: nat) -> nat {
    if a <= b && a <= c {
        a
    } else if b <= c {
        b
    } else {
        c
    }
}

/// The fewest insertions, deletions and replacements that turn the first `i` characters of
/// one text into the first `j` of another.
pub open spec fn edits(a: Seq<char>, i: nat, b: Seq<char>, j: nat) -> nat
    decreases i + j,
{
    if i == 0 {
        j
    } else if j == 0 {
        i
    } else {
        least_of(
            edits(a, (i - 1) as nat, b, j) + 1,
            edits(a, i, b, (j - 1) as nat) + 1,
            edits(a, (i - 1) as nat, b, (j - 1) as nat) + (if a[i - 1] != b[j - 1] {
                1nat
            } else {
                0nat
            }),
        )
    }
}

/// How many edits lie between two texts.
pub open spec fn distance(a: Seq<char>, b: Seq<char>) -> nat {
    edits(a, a.len(), b, b.len())
}

proof fn lemma_edits_bound(a: Seq<char>, i: nat, b: Seq<char>, j: nat)
    ensures
        edits(a, i, b, j) <= if i >= j { i } else { j },
    decreases i + j,
{
    if i > 0 && j > 0 {
        lemma_edits_bound(a, (i - 1) as nat, b, (j - 1) as nat);
    }
}

pub fn edit_distance(a: &str, b: &str) -> (r: u128)
    ensures
        r == distance(a@, b@),
{
    let x: Vec<char> = chars_of(a);
    let y: Vec<char> = chars_of(b);
    let mut prev: Vec<u128> = Vec::new();
    let mut j: usize = 0;
    while j < y.len()
        invariant
            j <= y.len(),
            prev@.len() == j,
            forall|k: int| 0 <= k < j ==> #[trigger] prev@[k] == edits(x@, 0, y@, k as nat),
        decreases y.len() - j,
    {
        prev.push(j as u128);
        j = j + 1;
    }
    prev.push(y.len() as u128);
    let mut i: usize = 0;
    while i < x.len()
        invariant
            i <= x.len(),
            prev@.len() == y@.len() + 1,
            forall|k: int| 0 <= k <= y@.len() ==> #[trigger] prev@[k] == edits(x@, i as nat, y@, k as nat),
        decreases x.len() - i,
    {
        let mut cur: Vec<u128> = Vec::new();
        cur.push(i as u128 + 1);
        let mut j: usize = 0;
        while j < y.len()
            invariant
                i < x.len(),
                j <= y.len(),
                prev@.len() == y@.len() + 1,
                forall|k: int| 0 <= k <= y@.len() ==> #[trigger] prev@[k] == edits(x@, i as nat, y@, k as nat),
                cur@.len() == j + 1,
                forall|k: int| 0 <= k <= j ==> #[trigger] cur@[k] == edits(x@, (i + 1) as nat, y@, k as nat),
            decreases y.len() - j,
        {
            let cost: u128 = if x[i] != y[j] {
                1
            } else {
                0
            };
            proof {
                assert(prev@[j as int] == edits(x@, i as nat, y@, j as nat));
                assert(prev@[j as int + 1] == edits(x@, i as nat, y@, (j + 1) as nat));
                assert(cur@[j as int] == edits(x@, (i + 1) as nat, y@, j as nat));
                lemma_edits_bound(x@, i as nat, y@, j as nat);
                lemma_edits_bound(x@, i as nat, y@, (j + 1) as nat);
                lemma_edits_bound(x@, (i + 1) as nat, y@, j as nat);
                assert(x@.len() == x.len() && y@.len() == y.len());
            }
            let p: u128 = prev[j + 1] + 1;
            let q: u128 = cur[j] + 1;
            let s: u128 = prev[j] + cost;
            let m: u128 = if p <= q && p <= s {
                p
            } else if q <= s {
                q
            } else {
                s
            };
            cur.push(m);
            j = j + 1;
        }
        prev = cur;
        i = i + 1;
    }
    prev[y.len()]
}

/// How far a name may be from what was written to be suggested.
pub open spec fn reach(target: Seq<char>) -> nat {
    if target.len() / 2 >= 1 {
        (target.len() / 2) as nat
    } else {
        1
    }
}

/// A rough closeness measure, for suggesting the name someone probably meant: the first of
/// the closest candidates, where one is close enough.
pub fn closest<'a>(target: &str, candidates: &Vec<&'a str>) -> (r: Option<&'a str>)
    ensures
        match r {
            Some(c) => exists|i: int|
                0 <= i < candidates@.len() && #[trigger] candidates@[i] == c && distance(target@, c@) <= reach(
                    target@,
                ) && (forall|j: int| 0 <= j < candidates@.len() ==> distance(target@, c@) <= distance(
                    target@,
                    #[trigger] candidates@[j]@,
                )) && (forall|j: int| 0 <= j < i ==> distance(target@, c@) < distance(
                    target@,
                    #[trigger] candidates@[j]@,
                )),
            None => forall|j: int|
                0 <= j < candidates@.len() ==> distance(target@, #[trigger] candidates@[j]@) > reach(target@),
        },
{
    let half: usize = target.unicode_len() / 2;
    let limit: u128 = if half >= 1 {
        half as u128
    } else {
        1
    };
    let mut best: Option<&'a str> = None;
    let mut best_distance: u128 = 0;
    let ghost mut at: int = 0;
    let mut i: usize = 0;
    while i < candidates.len()
        invariant
            i <= candidates.len(),
            limit == reach(target@),
            match best {
                Some(c) => {
                    &&& 0 <= at < i
                    &&& candidates@[at] == c
                    &&& best_distance == distance(target@, c@)
                    &&& best_distance <= limit
                    &&& forall|j: int| 0 <= j < i ==> best_distance <= distance(target@, #[trigger] candidates@[j]@)
                    &&& forall|j: int| 0 <= j < at ==> best_distance < distance(target@, #[trigger] candidates@[j]@)
                },
                None => forall|j: int| 0 <= j < i ==> distance(target@, #[trigger] candidates@[j]@) > limit,
            },
        decreases candidates.len() - i,
    {
        let c: &'a str = candidates[i];
        let d: u128 = edit_distance(target, c);
        let closer: bool = match best {
            Some(_) => d < best_distance,
            None => true,
        };
        if d <= limit && closer {
            best = Some(c);
            best_distance = d;
            proof {
                at = i as int;
            }
        }
        i = i + 1;
    }
    best
}

/// Whether a name is the one to suggest out of a set of them: close enough, none closer,
/// and the first in order of those as close.
pub open spec fn is_suggestion(target: Seq<char>, names: spec_fn(Seq<char>) -> bool, s: Seq<char>) -> bool {
    &&& names(s)
    &&& distance(target, s) <= reach(target)
    &&& forall|n: Seq<char>| #[trigger]
        names(n) ==> distance(target, s) < distance(target, n) || (distance(target, s) == distance(target, n)
            && text_order(s, n) <= 0)
}

/// The name to suggest out of a set of them, if any is close enough.
pub open spec fn suggestion(target: Seq<char>, names: spec_fn(Seq<char>) -> bool) -> Option<Seq<char>> {
    if exists|s: Seq<char>| is_suggestion(target, names, s) {
        Some(choose|s: Seq<char>| is_suggestion(target, names, s))
    } else {
        None
    }
}

proof fn lemma_suggestion_unique(target: Seq<char>, names: spec_fn(Seq<char>) -> bool, s: Seq<char>)
    requires
        is_suggestion(target, names, s),
    ensures
        suggestion(target, names) == Some(s),
{
    let t = choose|t: Seq<char>| is_suggestion(target, names, t);
    assert(is_suggestion(target, names, t));
    assert(names(s) && names(t));
    lemma_text_order(s, t);
}

/// The closest of names in order, each of them once, is the one to suggest.
pub(crate) fn suggest<'a>(target: &str, candidates: &Vec<&'a str>, Ghost(names): Ghost<spec_fn(Seq<char>) -> bool>) -> (r: Option<
    &'a str,
>)
    requires
        strictly_ordered(str_texts(candidates@)),
        forall|n: Seq<char>| #[trigger] names(n) <==> str_texts(candidates@).contains(n),
    ensures
        match r {
            Some(s) => suggestion(target@, names) == Some(s@),
            None => suggestion(target@, names) is None,
        },
{
    let r: Option<&'a str> = closest(target, candidates);
    proof {
        let texts = str_texts(candidates@);
        match r {
            Some(s) => {
                let i = choose|i: int|
                    0 <= i < candidates@.len() && #[trigger] candidates@[i] == s && distance(target@, s@) <= reach(
                        target@,
                    ) && (forall|j: int| 0 <= j < candidates@.len() ==> distance(target@, s@) <= distance(
                        target@,
                        #[trigger] candidates@[j]@,
                    )) && (forall|j: int| 0 <= j < i ==> distance(target@, s@) < distance(
                        target@,
                        #[trigger] candidates@[j]@,
                    ));
                assert(texts[i] == s@);
                assert(names(s@));
                assert forall|n: Seq<char>| #[trigger] names(n) implies distance(target@, s@) < distance(target@, n)
                    || (distance(target@, s@) == distance(target@, n) && text_order(s@, n) <= 0) by {
                    let j = choose|j: int| 0 <= j < texts.len() && texts[j] == n;
                    assert(candidates@[j]@ == n);
                    lemma_text_order(s@, n);
                    if i < j {
                        assert(text_order(texts[i], texts[j]) < 0);
                    }
                }
                lemma_suggestion_unique(target@, names, s@);
            },
            None => {
                if exists|s: Seq<char>| is_suggestion(target@, names, s) {
                    let s = choose|s: Seq<char>| is_suggestion(target@, names, s);
                    assert(names(s));
                    let j = choose|j: int| 0 <= j < texts.len() && texts[j] == s;
                    assert(candidates@[j]@ == s);
                }
            },
        }
    }
    r
}

/// Convenience for reporting a position without a full span.
pub fn pos_of(span: Span) -> (r: BytePos)
    ensures
        r == span.start,
{
    span.start
}

// ── laws ────────────────────────────────────────────────────────────────────

/// Opening a scope, declaring in it and closing it again leaves every scope as it was: a
/// variable does not outlive its block.
pub proof fn a_block_leaves_no_trace(s: ScopesView, name: Seq<char>, v: VariableView)
    ensures
        popped(with_variable(pushed(s), name, v)) == s,
        found(with_variable(pushed(s), name, v), name) == Some(v),
{
    assert(popped(with_variable(pushed(s), name, v)).frames =~= s.frames);
}

/// Declaring one name leaves every other name as it was.
pub proof fn a_declaration_touches_one_name(s: ScopesView, name: Seq<char>, v: VariableView, other: Seq<char>)
    requires
        s.frames.len() > 0,
        name != other,
    ensures
        found(with_variable(s, name, v), name) == Some(v),
        found(with_variable(s, name, v), other) == found(s, other),
{
    let t = with_variable(s, name, v);
    let n = (s.frames.len() - 1) as nat;
    lemma_found_same(s.frames, t.frames, other, n);
}

proof fn lemma_found_same(
    a: Seq<Map<Seq<char>, VariableView>>,
    b: Seq<Map<Seq<char>, VariableView>>,
    name: Seq<char>,
    n: nat,
)
    requires
        n <= a.len(),
        n <= b.len(),
        forall|i: int| 0 <= i < n ==> #[trigger] a[i] == b[i],
    ensures
        found_in(a, name, n) == found_in(b, name, n),
    decreases n,
{
    if n > 0 {
        lemma_found_same(a, b, name, (n - 1) as nat);
    }
}

/// What is visible is what a lookup finds.
pub proof fn visible_names_are_found(s: ScopesView, name: Seq<char>)
    ensures
        is_visible(s, name) <==> found(s, name) is Some,
{
    lemma_visible(s.frames, name, s.frames.len());
}

proof fn lemma_visible(frames: Seq<Map<Seq<char>, VariableView>>, name: Seq<char>, n: nat)
    requires
        n <= frames.len(),
    ensures
        (exists|i: int| 0 <= i < n && #[trigger] frames[i].dom().contains(name)) <==> found_in(frames, name, n) is Some,
    decreases n,
{
    if n > 0 {
        lemma_visible(frames, name, (n - 1) as nat);
        if exists|i: int| 0 <= i < n && #[trigger] frames[i].dom().contains(name) {
            let i = choose|i: int| 0 <= i < n && #[trigger] frames[i].dom().contains(name);
            if i < n - 1 {
                assert(exists|k: int| 0 <= k < n - 1 && #[trigger] frames[k].dom().contains(name));
            }
        }
        if frames[n - 1].dom().contains(name) {
            assert(exists|k: int| 0 <= k < n && #[trigger] frames[k].dom().contains(name));
        } else if found_in(frames, name, (n - 1) as nat) is Some {
            let i = choose|i: int| 0 <= i < n - 1 && #[trigger] frames[i].dom().contains(name);
            assert(frames[i].dom().contains(name));
        }
    }
}

/// No edits lie between a text and itself, and some between any two different ones.
pub proof fn only_equal_texts_are_at_no_distance(a: Seq<char>, b: Seq<char>)
    ensures
        distance(a, b) == 0 <==> a == b,
{
    if a == b {
        lemma_same_edits(a, a.len());
    } else if distance(a, b) == 0 {
        lemma_no_edits(a, a.len(), b, b.len());
        assert(a =~= b);
    }
}

proof fn lemma_same_edits(a: Seq<char>, i: nat)
    requires
        i <= a.len(),
    ensures
        edits(a, i, a, i) == 0,
    decreases i,
{
    if i > 0 {
        lemma_same_edits(a, (i - 1) as nat);
    }
}

proof fn lemma_no_edits(a: Seq<char>, i: nat, b: Seq<char>, j: nat)
    requires
        i <= a.len(),
        j <= b.len(),
        edits(a, i, b, j) == 0,
    ensures
        i == j,
        forall|k: int| 0 <= k < i ==> a[k] == b[k],
    decreases i + j,
{
    if i > 0 && j > 0 {
        lemma_no_edits(a, (i - 1) as nat, b, (j - 1) as nat);
    }
}

/// The distance from one text to another is the distance back.
pub proof fn distance_is_symmetric(a: Seq<char>, b: Seq<char>)
    ensures
        distance(a, b) == distance(b, a),
{
    lemma_edits_symmetric(a, a.len(), b, b.len());
}

proof fn lemma_edits_symmetric(a: Seq<char>, i: nat, b: Seq<char>, j: nat)
    ensures
        edits(a, i, b, j) == edits(b, j, a, i),
    decreases i + j,
{
    if i > 0 && j > 0 {
        lemma_edits_symmetric(a, (i - 1) as nat, b, j);
        lemma_edits_symmetric(a, i, b, (j - 1) as nat);
        lemma_edits_symmetric(a, (i - 1) as nat, b, (j - 1) as nat);
    }
}

proof fn lemma_same_prefix(a: Seq<char>, b: Seq<char>, n: nat)
    requires
        n <= a.len(),
        n <= b.len(),
        forall|i: int| 0 <= i < n ==> a[i] == b[i],
    ensures
        edits(a, n, b, n) == 0,
    decreases n,
{
    if n > 0 {
        lemma_same_prefix(a, b, (n - 1) as nat);
    }
}

proof fn lemma_same_suffix(a: Seq<char>, i: nat, b: Seq<char>, j: nat, n: nat)
    requires
        i + n <= a.len(),
        j + n <= b.len(),
        a.subrange(i as int, (i + n) as int) == b.subrange(j as int, (j + n) as int),
    ensures
        edits(a, i + n, b, j + n) <= edits(a, i, b, j),
    decreases n,
{
    if n > 0 {
        let x = a.subrange(i as int, (i + n) as int);
        let y = b.subrange(j as int, (j + n) as int);
        assert(a.subrange(i as int, i + n - 1) =~= x.drop_last());
        assert(b.subrange(j as int, j + n - 1) =~= y.drop_last());
        lemma_same_suffix(a, i, b, j, (n - 1) as nat);
        assert(x[n - 1] == a[i + n - 1]);
        assert(y[n - 1] == b[j + n - 1]);
    }
}

/// A character put in, taken out or replaced is one edit.
pub proof fn one_edit_is_one_away(front: Seq<char>, c: char, d: char, back: Seq<char>)
    ensures
        distance(front + back, front + seq![c] + back) == 1,
        distance(front + seq![c] + back, front + back) == 1,
        c != d ==> distance(front + seq![c] + back, front + seq![d] + back) == 1,
{
    let a = front + back;
    let b = front + seq![c] + back;
    let e = front + seq![d] + back;
    let p = front.len();
    let n = back.len();
    lemma_same_prefix(a, b, p);
    assert(edits(a, p, b, p + 1) <= 1);
    assert(a.subrange(p as int, (p + n) as int) =~= back);
    assert(b.subrange((p + 1) as int, (p + 1 + n) as int) =~= back);
    lemma_same_suffix(a, p, b, p + 1, n);
    lemma_same_prefix(b, e, p);
    assert(edits(b, p + 1, e, p + 1) <= 1);
    assert(e.subrange((p + 1) as int, (p + 1 + n) as int) =~= back);
    lemma_same_suffix(b, p + 1, e, p + 1, n);
    assert(a.len() != b.len());
    only_equal_texts_are_at_no_distance(a, b);
    distance_is_symmetric(a, b);
    if c != d {
        assert(b[p as int] == c && e[p as int] == d);
        only_equal_texts_are_at_no_distance(b, e);
    }
}

/// What is suggested is one of the names, no further than half of what was written, and none
/// is nearer.
pub proof fn a_suggestion_is_the_nearest_name(target: Seq<char>, names: spec_fn(Seq<char>) -> bool, n: Seq<char>)
    requires
        names(n),
    ensures
        suggestion(target, names) matches Some(s) ==> names(s) && (2 * distance(target, s) <= target.len() || distance(target, s) <= 1)
            && distance(target, s) <= distance(target, n),
{
    if let Some(s) = suggestion(target, names) {
        assert(is_suggestion(target, names, s));
    }
}

} // verus!
