//! What it means for lowered code to be well formed, and the check that it is.
//!
//! Malformed code is a bug in this compiler, not in anyone's program: a value of the wrong
//! kind that an unoptimised build lets through becomes a crash the moment an optimiser
//! believes the types. Checking here turns that into a message.

use vstd::prelude::*;

use crate::codegen::lowering::{param_kinds, FunctionView};
use crate::codegen::native::{kind_of, Native};
use crate::codegen::runtime::{gives, takes, Kind};
use crate::codegen::work::{leaves, sigs_view, FnSig, Inst, SigView};

verus! {

/// The kind of value an operation produces, where it produces one.
pub open spec fn result_kind(i: Inst) -> Option<Kind> {
    match i {
        Inst::Param { kind, .. } => Some(kind),
        Inst::Bool(_) | Inst::Not(_) | Inst::And(_, _) | Inst::Or(_, _) | Inst::Relate { .. } | Inst::Overflowed(_) => {
            Some(Kind::Bit)
        },
        Inst::Byte(_) => Some(Kind::Byte),
        Inst::Word(_) | Inst::Neg(_) | Inst::Plus(_, _) | Inst::CheckedValue(_) => Some(Kind::Word),
        Inst::Small(_) => Some(Kind::Small),
        Inst::Long(_) => Some(Kind::Long),
        Inst::Deci { .. } => Some(Kind::Deci),
        Inst::Rat { .. } => Some(Kind::Rat),
        Inst::Null | Inst::Chars(_) | Inst::Slot(_) | Inst::Slots { .. } | Inst::Owner(_) => Some(Kind::Ptr),
        Inst::Text(_) => Some(Kind::Text),
        Inst::Load { kind, .. } | Inst::Select { kind, .. } | Inst::Widen { kind, .. } => Some(kind),
        Inst::CallRt(f) => gives(f),
        Inst::CallFn { gives, .. } => gives,
        _ => None,
    }
}

/// Whether an operand comes from an operation before the `i`-th, and has a kind.
pub open spec fn is_value(code: Seq<Inst>, at: usize, kind: Kind, i: int) -> bool {
    at < i && result_kind(code[at as int]) == Some(kind)
}

pub open spec fn is_block(code: Seq<Inst>, at: usize, i: int) -> bool {
    at < i && code[at as int] is Block
}

/// Whether an operation hands over an argument of a kind.
pub open spec fn hands_over(code: Seq<Inst>, at: int, kind: Kind) -> bool {
    match code[at] {
        Inst::Arg(v) => is_value(code, v, kind, at),
        _ => false,
    }
}

/// Whether the operations before the `i`-th hand over exactly these kinds of arguments.
pub open spec fn handed_over(code: Seq<Inst>, i: int, want: Seq<Kind>) -> bool {
    &&& want.len() <= i
    &&& forall|k: int|
        #![trigger want[k]]
        0 <= k < want.len() ==> hands_over(code, i - want.len() + k, want[k])
    &&& (want.len() < i ==> !(code[i - want.len() - 1] is Arg))
}

/// What a function's code may count on: how many texts it has, its parameters, what it
/// returns, and the functions it can call.
pub struct Surroundings {
    pub texts: nat,
    pub params: Seq<Kind>,
    pub returned: Option<Kind>,
    pub fns: Seq<SigView>,
}

/// Whether the `i`-th operation is in order: each operand is an earlier value of the kind
/// that its place asks for.
pub open spec fn in_order(code: Seq<Inst>, i: int, s: Surroundings) -> bool {
    match code[i] {
        Inst::Param { index, kind } => index < s.params.len() && s.params[index as int] == kind,
        Inst::Chars(t) | Inst::Text(t) => t < s.texts,
        Inst::Load { kind, from } => from < i && code[from as int] == Inst::Slot(kind),
        Inst::Store { into, value } => into < i && (code[into as int] matches Inst::Slot(kind) && is_value(
            code,
            value,
            kind,
            i,
        )),
        Inst::StoreAt { into, kind, index, value } => into < i && (code[into as int] matches Inst::Slots {
            kind: held,
            count,
        } && held == kind && index < count && is_value(code, value, kind, i)),
        Inst::Owner(v) => is_value(code, v, Kind::Text, i),
        Inst::Not(v) => is_value(code, v, Kind::Bit, i),
        Inst::Widen { value, .. } => is_value(code, value, Kind::Bit, i),
        Inst::And(a, b) | Inst::Or(a, b) => is_value(code, a, Kind::Bit, i) && is_value(code, b, Kind::Bit, i),
        Inst::Neg(v) => is_value(code, v, Kind::Word, i),
        Inst::Plus(a, b) => is_value(code, a, Kind::Word, i) && is_value(code, b, Kind::Word, i),
        Inst::Checked { lhs, rhs, .. } => is_value(code, lhs, Kind::Word, i) && is_value(code, rhs, Kind::Word, i),
        Inst::CheckedValue(p) | Inst::Overflowed(p) => p < i && code[p as int] is Checked,
        Inst::Select { kind, test, yes, no } => is_value(code, test, Kind::Bit, i) && is_value(code, yes, kind, i)
            && is_value(code, no, kind, i),
        Inst::Relate { kind, lhs, rhs, .. } => is_value(code, lhs, kind, i) && is_value(code, rhs, kind, i),
        Inst::Arg(_) => i + 1 < code.len() && (code[i + 1] is Arg || code[i + 1] is CallRt || code[i + 1] is CallFn),
        Inst::CallRt(f) => handed_over(code, i, takes(f)),
        Inst::CallFn { index, gives } => index < s.fns.len() && handed_over(
            code,
            i,
            param_kinds(s.fns[index as int].params),
        ) && gives == (if s.fns[index as int].ret is Nothing {
            None
        } else {
            Some(kind_of(s.fns[index as int].ret))
        }),
        Inst::At(b) | Inst::Jump(b) => is_block(code, b, i),
        Inst::Fork { test, yes, no } => is_value(code, test, Kind::Bit, i) && is_block(code, yes, i) && is_block(
            code,
            no,
            i,
        ),
        Inst::Return(v) => s.returned matches Some(kind) && is_value(code, v, kind, i),
        Inst::ReturnNothing => s.returned is None,
        _ => true,
    }
}

/// Whether the block in hand can still take operations behind the first `n`.
pub open spec fn open_after(code: Seq<Inst>, n: nat) -> bool
    decreases n,
{
    if n == 0 {
        true
    } else if leaves(code[n - 1]) {
        false
    } else if code[n - 1] is At {
        true
    } else {
        open_after(code, (n - 1) as nat)
    }
}

/// Whether the `i`-th operation stands in a block that has not been left.
pub open spec fn placed(code: Seq<Inst>, i: int) -> bool {
    code[i] is At || code[i] is Block || open_after(code, i as nat)
}

/// Whether no block is left unfinished where the next one begins.
pub open spec fn finished_before(code: Seq<Inst>, i: int) -> bool {
    code[i] is At ==> !open_after(code, i as nat)
}

/// Whether a block has its place in the code, and only one.
pub open spec fn placed_once(code: Seq<Inst>, b: int) -> bool {
    &&& exists|j: int| 0 <= j < code.len() && code[j] == Inst::At(b as usize)
    &&& forall|j: int, k: int|
        0 <= j < code.len() && 0 <= k < code.len() && code[j] == Inst::At(b as usize) && code[k] == Inst::At(
            b as usize,
        ) ==> j == k
}

/// Well-formed code: every operation is in order and stands in an open block, and every
/// block has one place and is left at its end.
pub open spec fn well_formed(code: Seq<Inst>, s: Surroundings) -> bool {
    &&& forall|i: int|
        #![trigger code[i]]
        0 <= i < code.len() ==> in_order(code, i, s) && placed(code, i) && finished_before(code, i)
    &&& !open_after(code, code.len())
    &&& forall|b: int| #![trigger code[b]] 0 <= b < code.len() && code[b] is Block ==> placed_once(code, b)
}

/// What the code of a function of the program may count on.
pub open spec fn surroundings(f: FunctionView, returned: Option<Kind>, fns: Seq<SigView>) -> Surroundings {
    Surroundings { texts: f.texts.len(), params: param_kinds(f.params), returned, fns }
}

// ── the check ───────────────────────────────────────────────────────────────

fn kind_made(i: Inst) -> (r: Option<Kind>)
    ensures
        r == result_kind(i),
{
    match i {
        Inst::Param { kind, .. } => Some(kind),
        Inst::Bool(_) | Inst::Not(_) | Inst::And(_, _) | Inst::Or(_, _) | Inst::Relate { .. } | Inst::Overflowed(_) => {
            Some(Kind::Bit)
        },
        Inst::Byte(_) => Some(Kind::Byte),
        Inst::Word(_) | Inst::Neg(_) | Inst::Plus(_, _) | Inst::CheckedValue(_) => Some(Kind::Word),
        Inst::Small(_) => Some(Kind::Small),
        Inst::Long(_) => Some(Kind::Long),
        Inst::Deci { .. } => Some(Kind::Deci),
        Inst::Rat { .. } => Some(Kind::Rat),
        Inst::Null | Inst::Chars(_) | Inst::Slot(_) | Inst::Slots { .. } | Inst::Owner(_) => Some(Kind::Ptr),
        Inst::Text(_) => Some(Kind::Text),
        Inst::Load { kind, .. } => Some(kind),
        Inst::Select { kind, .. } => Some(kind),
        Inst::Widen { kind, .. } => Some(kind),
        Inst::CallRt(f) => f.gives(),
        Inst::CallFn { gives, .. } => gives,
        _ => None,
    }
}

fn value_is(code: &Vec<Inst>, at: usize, kind: Kind, i: usize) -> (r: bool)
    requires
        i <= code@.len(),
    ensures
        r == is_value(code@, at, kind, i as int),
{
    if at >= i {
        return false;
    }
    match kind_made(code[at]) {
        Some(k) => k == kind,
        None => false,
    }
}

fn block_is(code: &Vec<Inst>, at: usize, i: usize) -> (r: bool)
    requires
        i <= code@.len(),
    ensures
        r == is_block(code@, at, i as int),
{
    at < i && code[at] == Inst::Block
}

fn args_are(code: &Vec<Inst>, i: usize, want: &Vec<Kind>) -> (r: bool)
    requires
        i <= code@.len(),
    ensures
        r == handed_over(code@, i as int, want@),
{
    let n: usize = want.len();
    if n > i {
        return false;
    }
    let mut k: usize = 0;
    while k < n
        invariant
            n == want@.len(),
            k <= n <= i <= code@.len(),
            forall|j: int|
                #![trigger want@[j]]
                0 <= j < k ==> hands_over(code@, i - n + j, want@[j]),
        decreases n - k,
    {
        let at: usize = i - n + k;
        match code[at] {
            Inst::Arg(v) => {
                if !value_is(code, v, want[k], at) {
                    assert(!hands_over(code@, i - want@.len() + k, want@[k as int]));
                    return false;
                }
            },
            _ => {
                assert(!hands_over(code@, i - want@.len() + k, want@[k as int]));
                return false;
            },
        }
        k = k + 1;
    }
    if n < i {
        match code[i - n - 1] {
            Inst::Arg(_) => {
                return false;
            },
            _ => {},
        }
    }
    true
}

/// The kinds of a function's parameters.
pub fn kinds_of(params: &Vec<Native>) -> (r: Vec<Kind>)
    ensures
        r@ == param_kinds(params@),
{
    let mut out: Vec<Kind> = Vec::new();
    let mut i: usize = 0;
    while i < params.len()
        invariant
            i <= params@.len(),
            out@ =~= param_kinds(params@.take(i as int)),
        decreases params@.len() - i,
    {
        out.push(params[i].kind());
        i = i + 1;
    }
    assert(params@.take(params@.len() as int) =~= params@);
    out
}

fn call_in_order(
    code: &Vec<Inst>,
    i: usize,
    index: usize,
    given: Option<Kind>,
    fns: &Vec<FnSig>,
    Ghost(s): Ghost<Surroundings>,
) -> (r: bool)
    requires
        i < code@.len(),
        code@[i as int] == (Inst::CallFn { index, gives: given }),
        s.fns == sigs_view(fns@),
    ensures
        r == in_order(code@, i as int, s),
{
    if index >= fns.len() {
        return false;
    }
    assert(s.fns[index as int] == fns@[index as int]@);
    let want: Vec<Kind> = kinds_of(&fns[index].params);
    let ret: Native = fns[index].ret;
    let expected: Option<Kind> = match ret {
        Native::Nothing => None,
        _ => Some(ret.kind()),
    };
    let same: bool = match (given, expected) {
        (Some(a), Some(b)) => a == b,
        (None, None) => true,
        _ => false,
    };
    args_are(code, i, &want) && same
}

fn arg_followed(code: &Vec<Inst>, i: usize) -> (r: bool)
    requires
        i < code@.len(),
    ensures
        r == (i + 1 < code@.len() && (code@[i + 1] is Arg || code@[i + 1] is CallRt || code@[i + 1] is CallFn)),
{
    if code.len() - i < 2 {
        return false;
    }
    match code[i + 1] {
        Inst::Arg(_) | Inst::CallRt(_) | Inst::CallFn { .. } => true,
        _ => false,
    }
}

#[verifier::rlimit(60)]
#[verifier::spinoff_prover]
fn inst_in_order(
    code: &Vec<Inst>,
    i: usize,
    texts: usize,
    params: &Vec<Kind>,
    returned: Option<Kind>,
    fns: &Vec<FnSig>,
) -> (r: bool)
    requires
        i < code@.len(),
    ensures
        r == in_order(
            code@,
            i as int,
            (Surroundings { texts: texts as nat, params: params@, returned, fns: sigs_view(fns@) }),
        ),
{
    let ghost s = Surroundings { texts: texts as nat, params: params@, returned, fns: sigs_view(fns@) };
    match code[i] {
        Inst::Param { index, kind } => index < params.len() && params[index] == kind,
        Inst::Chars(t) | Inst::Text(t) => t < texts,
        Inst::Load { kind, from } => from < i && code[from] == Inst::Slot(kind),
        Inst::Store { into, value } => {
            if into >= i {
                return false;
            }
            match code[into] {
                Inst::Slot(kind) => value_is(code, value, kind, i),
                _ => false,
            }
        },
        Inst::StoreAt { into, kind, index, value } => {
            if into >= i {
                return false;
            }
            match code[into] {
                Inst::Slots { kind: held, count } => held == kind && index < count && value_is(code, value, kind, i),
                _ => false,
            }
        },
        Inst::Owner(v) => value_is(code, v, Kind::Text, i),
        Inst::Not(v) => value_is(code, v, Kind::Bit, i),
        Inst::Widen { value, .. } => value_is(code, value, Kind::Bit, i),
        Inst::And(a, b) | Inst::Or(a, b) => value_is(code, a, Kind::Bit, i) && value_is(code, b, Kind::Bit, i),
        Inst::Neg(v) => value_is(code, v, Kind::Word, i),
        Inst::Plus(a, b) => value_is(code, a, Kind::Word, i) && value_is(code, b, Kind::Word, i),
        Inst::Checked { lhs, rhs, .. } => value_is(code, lhs, Kind::Word, i) && value_is(code, rhs, Kind::Word, i),
        Inst::CheckedValue(p) | Inst::Overflowed(p) => {
            if p >= i {
                return false;
            }
            match code[p] {
                Inst::Checked { .. } => true,
                _ => false,
            }
        },
        Inst::Select { kind, test, yes, no } => value_is(code, test, Kind::Bit, i) && value_is(code, yes, kind, i)
            && value_is(code, no, kind, i),
        Inst::Relate { kind, lhs, rhs, .. } => value_is(code, lhs, kind, i) && value_is(code, rhs, kind, i),
        Inst::Arg(_) => arg_followed(code, i),
        Inst::CallRt(f) => {
            let want: Vec<Kind> = f.takes();
            args_are(code, i, &want)
        },
        Inst::CallFn { index, gives } => call_in_order(code, i, index, gives, fns, Ghost(s)),
        Inst::At(b) | Inst::Jump(b) => block_is(code, b, i),
        Inst::Fork { test, yes, no } => value_is(code, test, Kind::Bit, i) && block_is(code, yes, i) && block_is(
            code,
            no,
            i,
        ),
        Inst::Return(v) => match returned {
            Some(kind) => value_is(code, v, kind, i),
            None => false,
        },
        Inst::ReturnNothing => returned.is_none(),
        _ => true,
    }
}

fn leaving(i: Inst) -> (r: bool)
    ensures
        r == leaves(i),
{
    match i {
        Inst::Jump(_) | Inst::Fork { .. } | Inst::Return(_) | Inst::ReturnNothing | Inst::Unreachable => true,
        _ => false,
    }
}

/// Whether every operation is in order, stands in an open block, and follows a block that
/// was left.
fn operations_fine(
    code: &Vec<Inst>,
    texts: usize,
    params: &Vec<Kind>,
    returned: Option<Kind>,
    fns: &Vec<FnSig>,
) -> (r: bool)
    ensures
        ({
            let s = Surroundings { texts: texts as nat, params: params@, returned, fns: sigs_view(fns@) };
            r == ((forall|i: int|
                #![trigger code@[i]]
                0 <= i < code@.len() ==> in_order(code@, i, s) && placed(code@, i) && finished_before(code@, i))
                && !open_after(code@, code@.len()))
        }),
{
    let ghost s = Surroundings { texts: texts as nat, params: params@, returned, fns: sigs_view(fns@) };
    let mut open: bool = true;
    let mut i: usize = 0;
    while i < code.len()
        invariant
            i <= code@.len(),
            s == (Surroundings { texts: texts as nat, params: params@, returned, fns: sigs_view(fns@) }),
            open == open_after(code@, i as nat),
            forall|j: int|
                #![trigger code@[j]]
                0 <= j < i ==> in_order(code@, j, s) && placed(code@, j) && finished_before(code@, j),
        decreases code@.len() - i,
    {
        let begins: bool = match code[i] {
            Inst::At(_) => true,
            _ => false,
        };
        let names: bool = match code[i] {
            Inst::Block => true,
            _ => false,
        };
        let fine: bool = inst_in_order(code, i, texts, params, returned, fns) && (begins || names || open) && !(begins
            && open);
        if !fine {
            assert(!(in_order(code@, i as int, s) && placed(code@, i as int) && finished_before(code@, i as int)));
            assert(code@[i as int] == code@[i as int]);
            return false;
        }
        if leaving(code[i]) {
            open = false;
        } else if begins {
            open = true;
        }
        i = i + 1;
    }
    !open
}

/// Where a block is placed, if it is.
pub open spec fn place_of(code: Seq<Inst>, n: nat, b: int) -> bool {
    exists|j: int| 0 <= j < n && code[j] == Inst::At(b as usize)
}

/// Whether an operation gives a block of this code its place.
pub open spec fn names_block(code: Seq<Inst>, i: Inst) -> bool {
    i matches Inst::At(b) && b < code.len() && code[b as int] is Block
}

/// Whether no block has two places among the first `n` operations.
pub open spec fn once_among(code: Seq<Inst>, n: nat) -> bool {
    forall|j: int, m: int|
        0 <= j < m < n && names_block(code, #[trigger] code[j]) ==> code[j] != #[trigger] code[m]
}

/// Whether every block has one place.
fn blocks_fine(code: &Vec<Inst>) -> (r: bool)
    ensures
        r == forall|b: int| #![trigger code@[b]] 0 <= b < code@.len() && code@[b] is Block ==> placed_once(code@, b),
{
    let len: usize = code.len();
    assert(len == code@.len());
    let mut seen: Vec<bool> = Vec::new();
    let mut k: usize = 0;
    while k < len
        invariant
            k <= len,
            seen@.len() == k,
            forall|b: int| 0 <= b < k ==> !(#[trigger] seen@[b]),
        decreases len - k,
    {
        seen.push(false);
        k = k + 1;
    }
    let mut i: usize = 0;
    while i < len
        invariant
            len == code@.len(),
            i <= len,
            seen@.len() == len,
            forall|b: int|
                #![trigger seen@[b]]
                0 <= b < len && code@[b] is Block ==> seen@[b] == place_of(code@, i as nat, b),
            once_among(code@, i as nat),
        decreases len - i,
    {
        let ghost before = seen@;
        match code[i] {
            Inst::At(b) => {
                if b < len && code[b] == Inst::Block {
                    if seen[b] {
                        proof {
                            assert(place_of(code@, i as nat, b as int));
                            let j = choose|j: int| 0 <= j < i && code@[j] == Inst::At(b as usize);
                            assert(code@[j] == Inst::At(b) && code@[i as int] == Inst::At(b) && j != i);
                            assert(!placed_once(code@, b as int));
                            assert(code@[b as int] is Block);
                        }
                        return false;
                    }
                    seen.set(b, true);
                }
            },
            _ => {},
        }
        proof {
            assert forall|b: int| #![trigger seen@[b]] 0 <= b < len && code@[b] is Block implies seen@[b] == place_of(
                code@,
                (i + 1) as nat,
                b,
            ) by {
                assert(before[b] == place_of(code@, i as nat, b));
                if place_of(code@, i as nat, b) {
                    let j = choose|j: int| 0 <= j < i && code@[j] == Inst::At(b as usize);
                    assert(0 <= j < i + 1 && code@[j] == Inst::At(b as usize));
                }
                if code@[i as int] == Inst::At(b as usize) {
                    assert(0 <= i < i + 1);
                    assert(place_of(code@, (i + 1) as nat, b));
                } else if place_of(code@, (i + 1) as nat, b) {
                    let j = choose|j: int| 0 <= j < i + 1 && code@[j] == Inst::At(b as usize);
                    assert(j < i);
                }
            }
            assert forall|j: int, m: int|
                0 <= j < m < i + 1 && names_block(code@, #[trigger] code@[j]) implies code@[j] != #[trigger] code@[m] by {
                if m == i && code@[j] == code@[m] {
                    let t = code@[j]->At_0 as int;
                    assert(before[t] == place_of(code@, i as nat, t));
                    assert(place_of(code@, i as nat, t));
                }
            }
        }
        i = i + 1;
    }
    let mut b: usize = 0;
    while b < len
        invariant
            len == code@.len(),
            b <= len,
            seen@.len() == len,
            forall|c: int|
                #![trigger seen@[c]]
                0 <= c < len && code@[c] is Block ==> seen@[c] == place_of(code@, len as nat, c),
            once_among(code@, len as nat),
            forall|c: int| #![trigger code@[c]] 0 <= c < b && code@[c] is Block ==> placed_once(code@, c),
        decreases len - b,
    {
        if code[b] == Inst::Block {
            if !seen[b] {
                assert(!place_of(code@, len as nat, b as int));
                assert(!placed_once(code@, b as int));
                return false;
            }
            assert(place_of(code@, len as nat, b as int));
            assert forall|j: int, k: int|
                0 <= j < code@.len() && 0 <= k < code@.len() && code@[j] == Inst::At(b) && code@[k] == Inst::At(
                    b,
                ) implies j == k by {
                if j < k {
                    assert(names_block(code@, code@[j]) && code@[j] == code@[k]);
                } else if k < j {
                    assert(names_block(code@, code@[k]) && code@[k] == code@[j]);
                }
            }
            assert(placed_once(code@, b as int));
        }
        b = b + 1;
    }
    true
}

/// Check lowered code.
pub fn check_code(
    code: &Vec<Inst>,
    texts: usize,
    params: &Vec<Native>,
    returned: Option<Kind>,
    fns: &Vec<FnSig>,
) -> (r: bool)
    ensures
        r == well_formed(
            code@,
            (Surroundings { texts: texts as nat, params: param_kinds(params@), returned, fns: sigs_view(fns@) }),
        ),
{
    let kinds: Vec<Kind> = kinds_of(params);
    let operations: bool = operations_fine(code, texts, &kinds, returned, fns);
    let blocks: bool = blocks_fine(code);
    operations && blocks
}

} // verus!
