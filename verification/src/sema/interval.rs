//! Interval analysis: the second layer of verification.
//!
//! Tracks the range a value can take, rather than its exact value. That is enough to
//! prove a refinement without a theorem prover:
//!
//! ```text
//! enter loop:        n ∈ [100, 100]
//! condition n > 1:   n ∈ [2, 100]
//! body n = n - 1:    n ∈ [1, 99]
//! back to top:       n ∈ [1, 100]      ← stable, fixed point reached
//! ⇒ n is never 0 or negative. +int verified.
//! ```
//!
//! Its known limit is honest and predictable: each variable is tracked on its own, so
//! relationships *between* variables cannot be expressed. When it cannot prove
//! something it says so, which is the safe direction to fail in.

use vstd::prelude::*;
use vstd::string::*;

use crate::table::Table;
use crate::text::{cat5, fits, i128_text, int_text};

verus! {

/// A closed range. `None` on either end means unbounded in that direction.
#[derive(Debug, Clone, Copy, PartialEq, Eq, Structural)]
pub struct Interval {
    pub lo: Option<i128>,
    pub hi: Option<i128>,
}

/// Whether a number lies in a range.
pub open spec fn within(i: Interval, v: int) -> bool {
    &&& (i.lo matches Some(l) ==> v >= l)
    &&& (i.hi matches Some(h) ==> v <= h)
}

/// The range of everything.
pub open spec fn anything() -> Interval {
    Interval { lo: None, hi: None }
}

/// A bound, where it fits.
pub open spec fn bound(v: int) -> Option<i128> {
    if fits(v) {
        Some(v as i128)
    } else {
        None
    }
}

pub open spec fn smaller_of(a: i128, b: i128) -> i128 {
    if a <= b {
        a
    } else {
        b
    }
}

pub open spec fn larger_of(a: i128, b: i128) -> i128 {
    if a >= b {
        a
    } else {
        b
    }
}

/// Everything either range can hold.
pub open spec fn joined(a: Interval, b: Interval) -> Interval {
    Interval {
        lo: match (a.lo, b.lo) {
            (Some(x), Some(y)) => Some(smaller_of(x, y)),
            _ => None,
        },
        hi: match (a.hi, b.hi) {
            (Some(x), Some(y)) => Some(larger_of(x, y)),
            _ => None,
        },
    }
}

/// What both ranges allow.
pub open spec fn met(a: Interval, b: Interval) -> Interval {
    Interval {
        lo: match (a.lo, b.lo) {
            (Some(x), Some(y)) => Some(larger_of(x, y)),
            (Some(x), None) => Some(x),
            (None, y) => y,
        },
        hi: match (a.hi, b.hi) {
            (Some(x), Some(y)) => Some(smaller_of(x, y)),
            (Some(x), None) => Some(x),
            (None, y) => y,
        },
    }
}

/// The next range, unbounded on each end that moved outward.
pub open spec fn widened(a: Interval, next: Interval) -> Interval {
    Interval {
        lo: match (a.lo, next.lo) {
            (Some(x), Some(y)) => if y < x {
                None
            } else {
                Some(y)
            },
            (_, y) => y,
        },
        hi: match (a.hi, next.hi) {
            (Some(x), Some(y)) => if y > x {
                None
            } else {
                Some(y)
            },
            (_, y) => y,
        },
    }
}

pub open spec fn range_sum(a: Interval, b: Interval) -> Interval {
    Interval {
        lo: match (a.lo, b.lo) {
            (Some(x), Some(y)) => bound(x + y),
            _ => None,
        },
        hi: match (a.hi, b.hi) {
            (Some(x), Some(y)) => bound(x + y),
            _ => None,
        },
    }
}

pub open spec fn range_difference(a: Interval, b: Interval) -> Interval {
    Interval {
        lo: match (a.lo, b.hi) {
            (Some(x), Some(y)) => bound(x - y),
            _ => None,
        },
        hi: match (a.hi, b.lo) {
            (Some(x), Some(y)) => bound(x - y),
            _ => None,
        },
    }
}

/// The smallest range that holds the four products of the ends; everything where an end is
/// open or a product does not fit.
pub open spec fn range_product(a: Interval, b: Interval) -> Interval {
    match (a.lo, a.hi, b.lo, b.hi) {
        (Some(al), Some(ah), Some(bl), Some(bh)) => if fits(al * bl) && fits(al * bh) && fits(ah * bl) && fits(ah * bh) {
            Interval {
                lo: Some(
                    smaller_of(
                        smaller_of((al * bl) as i128, (al * bh) as i128),
                        smaller_of((ah * bl) as i128, (ah * bh) as i128),
                    ),
                ),
                hi: Some(
                    larger_of(
                        larger_of((al * bl) as i128, (al * bh) as i128),
                        larger_of((ah * bl) as i128, (ah * bh) as i128),
                    ),
                ),
            }
        } else {
            anything()
        },
        _ => anything(),
    }
}

pub open spec fn range_negation(a: Interval) -> Interval {
    Interval {
        lo: match a.hi {
            Some(v) => bound(-v),
            None => None,
        },
        hi: match a.lo {
            Some(v) => bound(-v),
            None => None,
        },
    }
}

pub open spec fn range_above(a: Interval, b: i128) -> Interval {
    met(a, Interval { lo: bound(b + 1), hi: None })
}

pub open spec fn range_below(a: Interval, b: i128) -> Interval {
    met(a, Interval { lo: None, hi: bound(b - 1) })
}

pub open spec fn range_at_least(a: Interval, b: i128) -> Interval {
    met(a, Interval { lo: Some(b), hi: None })
}

pub open spec fn range_at_most(a: Interval, b: i128) -> Interval {
    met(a, Interval { lo: None, hi: Some(b) })
}

/// The one number a range holds, where its ends coincide.
pub open spec fn only_value(a: Interval) -> Option<i128> {
    match (a.lo, a.hi) {
        (Some(x), Some(y)) => if x == y {
            Some(x)
        } else {
            None
        },
        _ => None,
    }
}

/// A range as it is shown: `[1, 10]`, `[-∞, 5]`.
pub open spec fn range_text(a: Interval) -> Seq<char> {
    "["@ + (match a.lo {
        Some(v) => int_text(v as int),
        None => "-∞"@,
    }) + ", "@ + (match a.hi {
        Some(v) => int_text(v as int),
        None => "∞"@,
    }) + "]"@
}

fn least(a: i128, b: i128) -> (r: i128)
    ensures
        r == smaller_of(a, b),
{
    if a <= b {
        a
    } else {
        b
    }
}

fn greatest(a: i128, b: i128) -> (r: i128)
    ensures
        r == larger_of(a, b),
{
    if a >= b {
        a
    } else {
        b
    }
}

impl Interval {
    /// The range of everything.
    pub fn unknown() -> (r: Interval)
        ensures
            r == anything(),
    {
        Interval { lo: None, hi: None }
    }

    pub fn exact(v: i128) -> (r: Interval)
        ensures
            r == (Interval { lo: Some(v), hi: Some(v) }),
    {
        Interval { lo: Some(v), hi: Some(v) }
    }

    pub fn new(lo: i128, hi: i128) -> (r: Interval)
        ensures
            r == (Interval { lo: Some(lo), hi: Some(hi) }),
    {
        Interval { lo: Some(lo), hi: Some(hi) }
    }

    pub fn is_known(&self) -> (r: bool)
        ensures
            r == (self.lo is Some && self.hi is Some),
    {
        self.lo.is_some() && self.hi.is_some()
    }

    /// The single value, when the range has collapsed to one.
    pub fn singleton(&self) -> (r: Option<i128>)
        ensures
            r == only_value(*self),
    {
        match (self.lo, self.hi) {
            (Some(a), Some(b)) => if a == b {
                Some(a)
            } else {
                None
            },
            _ => None,
        }
    }

    pub fn contains(&self, v: i128) -> (r: bool)
        ensures
            r == within(*self, v as int),
    {
        let above: bool = match self.lo {
            Some(l) => v >= l,
            None => true,
        };
        let below: bool = match self.hi {
            Some(h) => v <= h,
            None => true,
        };
        above && below
    }

    /// Everything either range can hold. Used where two paths meet.
    pub fn join(self, other: Interval) -> (r: Interval)
        ensures
            r == joined(self, other),
    {
        Interval {
            lo: match (self.lo, other.lo) {
                (Some(a), Some(b)) => Some(least(a, b)),
                _ => None,
            },
            hi: match (self.hi, other.hi) {
                (Some(a), Some(b)) => Some(greatest(a, b)),
                _ => None,
            },
        }
    }

    /// What both ranges allow. Used to apply a condition, which narrows.
    pub fn meet(self, other: Interval) -> (r: Interval)
        ensures
            r == met(self, other),
    {
        Interval {
            lo: match (self.lo, other.lo) {
                (Some(a), Some(b)) => Some(greatest(a, b)),
                (Some(a), None) => Some(a),
                (None, b) => b,
            },
            hi: match (self.hi, other.hi) {
                (Some(a), Some(b)) => Some(least(a, b)),
                (Some(a), None) => Some(a),
                (None, b) => b,
            },
        }
    }

    /// Whether the range is empty, which means a branch is unreachable.
    pub fn is_empty(&self) -> (r: bool)
        ensures
            r == !exists|v: int| within(*self, v),
    {
        let empty: bool = match (self.lo, self.hi) {
            (Some(a), Some(b)) => a > b,
            _ => false,
        };
        proof {
            if !empty {
                let w: int = match (self.lo, self.hi) {
                    (Some(a), _) => a as int,
                    (None, Some(b)) => b as int,
                    _ => 0,
                };
                assert(within(*self, w));
            }
        }
        empty
    }

    /// The trick that makes the analysis terminate.
    ///
    /// Without it, a counter climbing `[0,1]`, `[0,2]`, `[0,3]` … would iterate
    /// forever. When an endpoint keeps moving outward, jump straight to unbounded.
    pub fn widen(self, next: Interval) -> (r: Interval)
        ensures
            r == widened(self, next),
    {
        Interval {
            lo: match (self.lo, next.lo) {
                (Some(a), Some(b)) => if b < a {
                    None
                } else {
                    Some(b)
                },
                (_, b) => b,
            },
            hi: match (self.hi, next.hi) {
                (Some(a), Some(b)) => if b > a {
                    None
                } else {
                    Some(b)
                },
                (_, b) => b,
            },
        }
    }

    pub fn add(self, o: Interval) -> (r: Interval)
        ensures
            r == range_sum(self, o),
    {
        Interval {
            lo: match (self.lo, o.lo) {
                (Some(a), Some(b)) => a.checked_add(b),
                _ => None,
            },
            hi: match (self.hi, o.hi) {
                (Some(a), Some(b)) => a.checked_add(b),
                _ => None,
            },
        }
    }

    pub fn sub(self, o: Interval) -> (r: Interval)
        ensures
            r == range_difference(self, o),
    {
        Interval {
            lo: match (self.lo, o.hi) {
                (Some(a), Some(b)) => a.checked_sub(b),
                _ => None,
            },
            hi: match (self.hi, o.lo) {
                (Some(a), Some(b)) => a.checked_sub(b),
                _ => None,
            },
        }
    }

    /// Multiplication has to consider every corner, because signs flip the ordering.
    pub fn mul(self, o: Interval) -> (r: Interval)
        ensures
            r == range_product(self, o),
    {
        match (self.lo, self.hi, o.lo, o.hi) {
            (Some(al), Some(ah), Some(bl), Some(bh)) => {
                match (al.checked_mul(bl), al.checked_mul(bh), ah.checked_mul(bl), ah.checked_mul(bh)) {
                    (Some(p), Some(q), Some(s), Some(t)) => Interval {
                        lo: Some(least(least(p, q), least(s, t))),
                        hi: Some(greatest(greatest(p, q), greatest(s, t))),
                    },
                    _ => Interval::unknown(),
                }
            },
            _ => Interval::unknown(),
        }
    }

    pub fn neg(self) -> (r: Interval)
        ensures
            r == range_negation(self),
    {
        Interval {
            lo: match self.hi {
                Some(v) => (0i128).checked_sub(v),
                None => None,
            },
            hi: match self.lo {
                Some(v) => (0i128).checked_sub(v),
                None => None,
            },
        }
    }

    /// Strictly greater than `bound`.
    pub fn above(self, bound: i128) -> (r: Interval)
        ensures
            r == range_above(self, bound),
    {
        self.meet(Interval { lo: bound.checked_add(1), hi: None })
    }

    /// Strictly less than `bound`.
    pub fn below(self, bound: i128) -> (r: Interval)
        ensures
            r == range_below(self, bound),
    {
        self.meet(Interval { lo: None, hi: bound.checked_sub(1) })
    }

    pub fn at_least(self, bound: i128) -> (r: Interval)
        ensures
            r == range_at_least(self, bound),
    {
        self.meet(Interval { lo: Some(bound), hi: None })
    }

    pub fn at_most(self, bound: i128) -> (r: Interval)
        ensures
            r == range_at_most(self, bound),
    {
        self.meet(Interval { lo: None, hi: Some(bound) })
    }

    pub fn render(&self) -> (r: String)
        ensures
            r@ == range_text(*self),
    {
        let l: String = match self.lo {
            Some(v) => i128_text(v),
            None => "-∞".to_owned(),
        };
        let h: String = match self.hi {
            Some(v) => i128_text(v),
            None => "∞".to_owned(),
        };
        cat5("[", l.as_str(), ", ", h.as_str(), "]")
    }
}

// ── states ──────────────────────────────────────────────────────────────────

/// What each variable can hold at one point in the program.
#[derive(Debug)]
pub struct State {
    pub vars: Table<Interval>,
}

/// What a variable can hold; anything where nothing is known of it.
pub open spec fn range_in(s: Map<Seq<char>, Interval>, name: Seq<char>) -> Interval {
    if s.dom().contains(name) {
        s[name]
    } else {
        anything()
    }
}

/// Where two paths meet, a variable can hold whatever either path allowed.
pub open spec fn joined_states(a: Map<Seq<char>, Interval>, b: Map<Seq<char>, Interval>) -> Map<Seq<char>, Interval> {
    Map::new(
        |name: Seq<char>| a.dom().contains(name) || b.dom().contains(name),
        |name: Seq<char>| joined(range_in(a, name), range_in(b, name)),
    )
}

pub open spec fn widened_states(a: Map<Seq<char>, Interval>, b: Map<Seq<char>, Interval>) -> Map<Seq<char>, Interval> {
    Map::new(
        |name: Seq<char>| a.dom().contains(name) || b.dom().contains(name),
        |name: Seq<char>|
            if a.dom().contains(name) {
                widened(a[name], range_in(b, name))
            } else {
                b[name]
            },
    )
}

/// Whether a range allows all that another does.
pub open spec fn wider(b: Interval, a: Interval) -> bool {
    &&& b.lo matches Some(x) ==> a.lo matches Some(y) && x <= y
    &&& b.hi matches Some(x) ==> a.hi matches Some(y) && x >= y
}

/// Whether one state allows all that another does.
pub open spec fn stays(a: Map<Seq<char>, Interval>, b: Map<Seq<char>, Interval>) -> bool {
    forall|x: Seq<char>| #![trigger range_in(b, x)] wider(range_in(b, x), range_in(a, x))
}

impl View for State {
    type V = Map<Seq<char>, Interval>;

    open spec fn view(&self) -> Map<Seq<char>, Interval> {
        self.vars.map()
    }
}

impl Default for State {
    fn default() -> (r: State)
        ensures
            r@ == Map::<Seq<char>, Interval>::empty(),
    {
        State::new()
    }
}

impl State {
    pub fn new() -> (r: State)
        ensures
            r@ == Map::<Seq<char>, Interval>::empty(),
    {
        State { vars: Table::new() }
    }

    pub fn get(&self, name: &str) -> (r: Interval)
        ensures
            r == range_in(self@, name@),
    {
        match self.vars.get(name) {
            Some(i) => *i,
            None => Interval::unknown(),
        }
    }

    pub fn set(&mut self, name: &str, i: Interval)
        ensures
            final(self)@ == old(self)@.insert(name@, i),
    {
        self.vars.insert(name, i);
    }

    /// Where two paths meet, a variable can hold whatever either path allowed.
    pub fn join(&self, other: &State) -> (r: State)
        ensures
            r@ == joined_states(self@, other@),
    {
        self.combined(other, false)
    }

    /// Widen every variable, so loop analysis reaches a fixed point.
    pub fn widen(&self, next: &State) -> (r: State)
        ensures
            r@ == widened_states(self@, next@),
    {
        self.combined(next, true)
    }

    fn combined(&self, other: &State, widening: bool) -> (r: State)
        ensures
            r@ == if widening { widened_states(self@, other@) } else { joined_states(self@, other@) },
    {
        let ghost goal = if widening {
            widened_states(self@, other@)
        } else {
            joined_states(self@, other@)
        };
        let mut out: State = State::new();
        let mut i: usize = 0;
        while i < self.vars.entries.len()
            invariant
                i <= self.vars.entries.len(),
                goal == (if widening { widened_states(self@, other@) } else { joined_states(self@, other@) }),
                out@.dom().subset_of(goal.dom()),
                forall|name: Seq<char>| #[trigger] out@.dom().contains(name) ==> out@[name] == goal[name],
                forall|j: int| 0 <= j < i ==> out@.dom().contains(#[trigger] self.vars.entries@[j].name@),
            decreases self.vars.entries.len() - i,
        {
            let name: &str = self.vars.entries[i].name.as_str();
            proof {
                self.vars.lemma_has(i as int);
            }
            let a: Interval = self.get(name);
            let b: Interval = other.get(name);
            let both: Interval = if widening {
                a.widen(b)
            } else {
                a.join(b)
            };
            out.set(name, both);
            i = i + 1;
        }
        let mut k: usize = 0;
        while k < other.vars.entries.len()
            invariant
                k <= other.vars.entries.len(),
                goal == (if widening { widened_states(self@, other@) } else { joined_states(self@, other@) }),
                out@.dom().subset_of(goal.dom()),
                forall|name: Seq<char>| #[trigger] out@.dom().contains(name) ==> out@[name] == goal[name],
                forall|j: int|
                    0 <= j < self.vars.entries.len() ==> out@.dom().contains(#[trigger] self.vars.entries@[j].name@),
                forall|j: int| 0 <= j < k ==> out@.dom().contains(#[trigger] other.vars.entries@[j].name@),
            decreases other.vars.entries.len() - k,
        {
            let name: &str = other.vars.entries[k].name.as_str();
            proof {
                other.vars.lemma_has(k as int);
            }
            if self.vars.get(name).is_none() {
                let b: Interval = other.get(name);
                let one: Interval = if widening {
                    b
                } else {
                    Interval::unknown()
                };
                out.set(name, one);
            } else {
                proof {
                    self.vars.lemma_named(name@);
                }
            }
            k = k + 1;
        }
        proof {
            assert forall|name: Seq<char>| goal.dom().contains(name) implies out@.dom().contains(name) by {
                if self@.dom().contains(name) {
                    self.vars.lemma_named(name);
                } else {
                    other.vars.lemma_named(name);
                }
            }
            assert(out@ =~= goal);
        }
        out
    }

    /// Another state that says the same.
    pub fn copied(&self) -> (r: State)
        ensures
            r@ == self@,
    {
        let mut out: State = State::new();
        let mut i: usize = 0;
        while i < self.vars.entries.len()
            invariant
                i <= self.vars.entries.len(),
                out@ == crate::table::entries_map(self.vars.entries@, i as nat),
            decreases self.vars.entries.len() - i,
        {
            out.set(self.vars.entries[i].name.as_str(), self.vars.entries[i].value);
            i = i + 1;
        }
        out
    }

    /// Whether two states say the same.
    pub fn same(&self, other: &State) -> (r: bool)
        ensures
            r == (self@ == other@),
    {
        if self.covers(other) && other.covers(self) {
            proof {
                assert(self@ =~= other@) by {
                    assert forall|name: Seq<char>| self@.dom().contains(name) == other@.dom().contains(name) by {}
                }
            }
            true
        } else {
            false
        }
    }

    /// Whether everything the other state says is said here too.
    fn covers(&self, other: &State) -> (r: bool)
        ensures
            r == (forall|name: Seq<char>| #[trigger]
                other@.dom().contains(name) ==> self@.dom().contains(name) && self@[name] == other@[name]),
    {
        let mut i: usize = 0;
        while i < other.vars.entries.len()
            invariant
                i <= other.vars.entries.len(),
                forall|j: int|
                    0 <= j < i ==> {
                        let n = #[trigger] other.vars.entries@[j].name@;
                        self@.dom().contains(n) && self@[n] == other@[n]
                    },
            decreases other.vars.entries.len() - i,
        {
            let name: &str = other.vars.entries[i].name.as_str();
            proof {
                other.vars.lemma_has(i as int);
            }
            let here: Option<&Interval> = self.vars.get(name);
            let there: Interval = other.get(name);
            match here {
                Some(v) => {
                    if *v != there {
                        assert(other@.dom().contains(name@) && self@[name@] != other@[name@]);
                        return false;
                    }
                },
                None => {
                    assert(other@.dom().contains(name@) && !self@.dom().contains(name@));
                    return false;
                },
            }
            i = i + 1;
        }
        proof {
            assert forall|name: Seq<char>| #[trigger] other@.dom().contains(name) implies self@.dom().contains(name)
                && self@[name] == other@[name] by {
                other.vars.lemma_named(name);
            }
        }
        true
    }

    /// Whether this state allows all that another does.
    pub fn allows(&self, other: &State) -> (r: bool)
        ensures
            r == stays(other@, self@),
    {
        let mut i: usize = 0;
        while i < self.vars.entries.len()
            invariant
                i <= self.vars.entries.len(),
                forall|j: int|
                    0 <= j < i ==> {
                        let n = #[trigger] self.vars.entries@[j].name@;
                        wider(range_in(self@, n), range_in(other@, n))
                    },
            decreases self.vars.entries.len() - i,
        {
            let name: &str = self.vars.entries[i].name.as_str();
            let here: Interval = self.get(name);
            let there: Interval = other.get(name);
            let below: bool = match (here.lo, there.lo) {
                (Some(x), Some(y)) => x <= y,
                (Some(_), None) => false,
                (None, _) => true,
            };
            let above: bool = match (here.hi, there.hi) {
                (Some(x), Some(y)) => x >= y,
                (Some(_), None) => false,
                (None, _) => true,
            };
            if !below || !above {
                assert(!wider(range_in(self@, name@), range_in(other@, name@)));
                return false;
            }
            i = i + 1;
        }
        proof {
            assert forall|x: Seq<char>| #![trigger range_in(self@, x)] wider(range_in(self@, x), range_in(other@, x)) by {
                if self@.dom().contains(x) {
                    self.vars.lemma_named(x);
                }
            }
        }
        true
    }

    /// Forget what is known of a variable.
    pub fn remove(&mut self, name: &str)
        ensures
            final(self)@ == old(self)@.remove(name@),
    {
        self.vars.remove(name);
    }
}

// ── laws ────────────────────────────────────────────────────────────────────

/// A join holds everything that either range holds.
pub proof fn join_holds_both(a: Interval, b: Interval, v: int)
    requires
        within(a, v) || within(b, v),
    ensures
        within(joined(a, b), v),
{
}

/// A join is the least range that holds both.
pub proof fn a_join_is_the_least(a: Interval, b: Interval, c: Interval)
    requires
        wider(c, a),
        wider(c, b),
    ensures
        wider(c, joined(a, b)),
        wider(joined(a, b), a),
        wider(joined(a, b), b),
{
}

/// A meet holds exactly what both ranges hold.
pub proof fn meet_holds_what_both_hold(a: Interval, b: Interval, v: int)
    ensures
        within(met(a, b), v) <==> within(a, v) && within(b, v),
{
}

/// Widening loses nothing of the next range.
pub proof fn widening_loses_nothing(a: Interval, next: Interval, v: int)
    requires
        within(next, v),
    ensures
        within(widened(a, next), v),
{
}

/// Widening by a join goes at most twice round: an end either stays or opens for good.
pub proof fn widening_settles(a: Interval, b: Interval, c: Interval, d: Interval)
    ensures
        ({
            let one = widened(a, joined(a, b));
            let two = widened(one, joined(one, c));
            let three = widened(two, joined(two, d));
            three == two || two == one || (three.lo is None && three.hi is None)
        }),
{
}

/// The sum of two numbers lies in the sum of their ranges.
pub proof fn range_sum_is_sound(a: Interval, b: Interval, x: int, y: int)
    requires
        within(a, x),
        within(b, y),
    ensures
        within(range_sum(a, b), x + y),
{
}

/// The difference of two numbers lies in the difference of their ranges.
pub proof fn range_difference_is_sound(a: Interval, b: Interval, x: int, y: int)
    requires
        within(a, x),
        within(b, y),
    ensures
        within(range_difference(a, b), x - y),
{
}

/// The product of two numbers lies in the product of their ranges, whatever their signs.
pub proof fn range_product_is_sound(a: Interval, b: Interval, x: int, y: int)
    requires
        within(a, x),
        within(b, y),
    ensures
        within(range_product(a, b), x * y),
{
    if let (Some(al), Some(ah), Some(bl), Some(bh)) = (a.lo, a.hi, b.lo, b.hi) {
        let (al, ah, bl, bh) = (al as int, ah as int, bl as int, bh as int);
        // x * y lies between al * y and ah * y, and each of those between two corners.
        assert((al * y <= x * y <= ah * y) || (ah * y <= x * y <= al * y)) by (nonlinear_arith)
            requires
                al <= x <= ah,
        ;
        assert((al * bl <= al * y <= al * bh) || (al * bh <= al * y <= al * bl)) by (nonlinear_arith)
            requires
                bl <= y <= bh,
        ;
        assert((ah * bl <= ah * y <= ah * bh) || (ah * bh <= ah * y <= ah * bl)) by (nonlinear_arith)
            requires
                bl <= y <= bh,
        ;
    }
}

/// The opposite of a number lies in the opposite of its range.
pub proof fn range_negation_is_sound(a: Interval, x: int)
    requires
        within(a, x),
    ensures
        within(range_negation(a), -x),
{
}

/// A condition keeps exactly the numbers of a range for which it holds.
pub proof fn conditions_narrow_exactly(a: Interval, b: i128, v: int)
    requires
        fits(v),
    ensures
        b < i128::MAX ==> (within(range_above(a, b), v) <==> within(a, v) && v > b),
        b > i128::MIN ==> (within(range_below(a, b), v) <==> within(a, v) && v < b),
        within(range_at_least(a, b), v) <==> within(a, v) && v >= b,
        within(range_at_most(a, b), v) <==> within(a, v) && v <= b,
{
}

/// A join of states allows what either state allows of every variable.
pub proof fn joined_states_allow_both(
    a: Map<Seq<char>, Interval>,
    b: Map<Seq<char>, Interval>,
    name: Seq<char>,
    v: int,
)
    requires
        within(range_in(a, name), v) || within(range_in(b, name), v),
    ensures
        within(range_in(joined_states(a, b), name), v),
{
}

} // verus!
