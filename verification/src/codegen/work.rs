//! A function under construction: the operations emitted so far, and what is known about
//! the values they produce.

use vstd::prelude::*;
use vstd::string::*;

use crate::ast::{BinOp, Expr, ExprKind, UnOp};
use crate::codegen::native::{
    allocated_by, allocates, array_like, counted, element_of, kind_of, literal_dims, literal_shape, releasing,
    retaining, selected_native, selector_result, Native,
};
use crate::codegen::runtime::{gives, takes, Kind, Rt};
use crate::eval::decimal::first_index;
use crate::eval::eval::is_bare_ref;
use crate::eval::parse::find_char;
use crate::eval::semantics::{bare, is_array_operator};
use crate::text::{chars_of, same_text};

verus! {

#[derive(Debug, Clone, Copy, PartialEq, Eq, Structural)]
pub enum Relation {
    Equal,
    NotEqual,
    Less,
    Greater,
    LessEqual,
    GreaterEqual,
}

#[derive(Debug, Clone, Copy, PartialEq, Eq, Structural)]
pub enum CheckedOp {
    Add,
    Sub,
    Mul,
}

/// One machine operation. An operand is the position of the operation that produced it, and
/// a block is the position of the operation that opened it.
#[derive(Debug, Clone, Copy, PartialEq, Eq, Structural)]
pub enum Inst {
    Param { index: usize, kind: Kind },
    Bool(bool),
    Byte(u8),
    Word(i128),
    Small(u32),
    Long(u64),
    Deci { mantissa: i128, scale: u32 },
    Rat { num: i128, den: i128 },
    Null,
    /// The address of one of the function's texts.
    Chars(usize),
    /// One of the function's texts, as a value that owns nothing.
    Text(usize),
    /// A stack slot, hoisted to the entry of the function.
    Slot(Kind),
    /// Several in a row.
    Slots { kind: Kind, count: u128 },
    Load { kind: Kind, from: usize },
    Store { into: usize, value: usize },
    StoreAt { into: usize, kind: Kind, index: u128, value: usize },
    /// The owner of a text: where its count lives, null for a literal.
    Owner(usize),
    Not(usize),
    And(usize, usize),
    Or(usize, usize),
    Neg(usize),
    /// Addition that wraps.
    Plus(usize, usize),
    Select { kind: Kind, test: usize, yes: usize, no: usize },
    Relate { relation: Relation, kind: Kind, lhs: usize, rhs: usize },
    /// An operation and whether it overflowed, read by the next two.
    Checked { op: CheckedOp, lhs: usize, rhs: usize },
    CheckedValue(usize),
    Overflowed(usize),
    Widen { kind: Kind, value: usize },
    /// One argument of the call that follows.
    Arg(usize),
    CallRt(Rt),
    CallFn { index: usize, gives: Option<Kind> },
    /// A new block.
    Block,
    /// What follows goes into this block.
    At(usize),
    Jump(usize),
    Fork { test: usize, yes: usize, no: usize },
    Return(usize),
    ReturnNothing,
    Unreachable,
}

/// Whether an operation leaves its block.
pub open spec fn leaves(i: Inst) -> bool {
    i is Jump || i is Fork || i is Return || i is ReturnNothing || i is Unreachable
}

/// A value: the operation that produced it, and its machine kind.
#[derive(Debug, Clone, Copy, PartialEq, Eq, Structural)]
pub struct Operand {
    pub at: usize,
    pub kind: Kind,
}

#[derive(Debug)]
pub struct Local {
    pub name: String,
    pub slot: usize,
    pub native: Native,
}

pub struct LocalView {
    pub name: Seq<char>,
    pub slot: usize,
    pub native: Native,
}

impl View for Local {
    type V = LocalView;

    open spec fn view(&self) -> LocalView {
        LocalView { name: self.name@, slot: self.slot, native: self.native }
    }
}

/// Where a `handback` sends its value.
#[derive(Debug, Clone, Copy, PartialEq, Eq, Structural)]
pub enum Handback {
    /// Into a slot, then on to the merge point: a conditional used as a value.
    Store { slot: usize, native: Native, merge: usize },
    /// Appended to a collected array: a loop used as a value.
    Push { array: Operand, elem: Native },
}

/// A heap value that the current statement produced.
#[derive(Debug, Clone, Copy, PartialEq, Eq, Structural)]
pub struct Temp {
    pub value: Operand,
    pub native: Native,
}

/// What a caller needs to know about a function.
#[derive(Debug)]
pub struct FnSig {
    pub name: String,
    pub params: Vec<Native>,
    pub ret: Native,
}

pub struct SigView {
    pub name: Seq<char>,
    pub params: Seq<Native>,
    pub ret: Native,
}

impl View for FnSig {
    type V = SigView;

    open spec fn view(&self) -> SigView {
        SigView { name: self.name@, params: self.params@, ret: self.ret }
    }
}

pub type FrameView = Seq<LocalView>;

/// The state of the work: one frame per scope, because blocks scope. The first refusal is
/// kept; whatever is emitted after it is never used.
#[verifier::ext_equal]
pub struct WorkView {
    pub code: Seq<Inst>,
    pub texts: Seq<Seq<char>>,
    pub frames: Seq<FrameView>,
    pub handbacks: Seq<Handback>,
    pub continues: Seq<usize>,
    pub temps: Seq<Temp>,
    /// How many places to compute an irrational to, from the declaration in hand.
    pub digits: u32,
    /// The first frame the current function owns. The parameters' frame is borrowed from
    /// the caller.
    pub owned_from: nat,
    pub ret: Native,
    pub top: bool,
    /// Whether the block in hand can still take operations.
    pub open: bool,
    pub refusal: Option<Seq<char>>,
    pub fns: Seq<SigView>,
}

#[derive(Debug)]
pub struct Work<'a> {
    pub code: Vec<Inst>,
    pub texts: Vec<String>,
    pub frames: Vec<Vec<Local>>,
    pub handbacks: Vec<Handback>,
    pub continues: Vec<usize>,
    pub temps: Vec<Temp>,
    pub digits: u32,
    pub owned_from: usize,
    pub ret: Native,
    pub top: bool,
    pub open: bool,
    pub refusal: Option<String>,
    pub fns: &'a Vec<FnSig>,
}

pub open spec fn frame_view(f: Seq<Local>) -> FrameView {
    Seq::new(f.len(), |i: int| f[i]@)
}

pub open spec fn frames_view(f: Seq<Vec<Local>>) -> Seq<FrameView> {
    Seq::new(f.len(), |i: int| frame_view(f[i]@))
}

pub open spec fn sigs_view(f: Seq<FnSig>) -> Seq<SigView> {
    Seq::new(f.len(), |i: int| f[i]@)
}

pub open spec fn strings_view(t: Seq<String>) -> Seq<Seq<char>> {
    Seq::new(t.len(), |i: int| t[i]@)
}

impl<'a> View for Work<'a> {
    type V = WorkView;

    open spec fn view(&self) -> WorkView {
        WorkView {
            code: self.code@,
            texts: strings_view(self.texts@),
            frames: frames_view(self.frames@),
            handbacks: self.handbacks@,
            continues: self.continues@,
            temps: self.temps@,
            digits: self.digits,
            owned_from: self.owned_from as nat,
            ret: self.ret,
            top: self.top,
            open: self.open,
            refusal: match self.refusal {
                Some(s) => Some(s@),
                None => None,
            },
            fns: sigs_view(self.fns@),
        }
    }
}

// ── emitting ────────────────────────────────────────────────────────────────

pub open spec fn put(w: WorkView, i: Inst) -> WorkView {
    WorkView {
        code: w.code.push(i),
        open: if leaves(i) {
            false
        } else if i is At {
            true
        } else {
            w.open
        },
        ..w
    }
}

/// An operation that produces a value.
pub open spec fn made(w: WorkView, i: Inst, kind: Kind) -> (WorkView, Operand) {
    (put(w, i), Operand { at: w.code.len() as usize, kind })
}

pub open spec fn refused(w: WorkView, what: Seq<char>) -> WorkView {
    match w.refusal {
        Some(_) => w,
        None => WorkView { refusal: Some(what), ..w },
    }
}

pub open spec fn wrong_kind() -> Seq<char> {
    "generated invalid LLVM IR: a value of the wrong kind"@
}

/// A value must have the kind that its place asks for.
pub open spec fn expecting(w: WorkView, v: Operand, kind: Kind) -> WorkView {
    if v.kind == kind {
        w
    } else {
        refused(w, wrong_kind())
    }
}

pub open spec fn kinds(vs: Seq<Operand>) -> Seq<Kind> {
    Seq::new(vs.len(), |i: int| vs[i].kind)
}

pub open spec fn with_args(w: WorkView, args: Seq<Operand>, i: nat) -> WorkView
    decreases args.len() - i,
{
    if i >= args.len() {
        w
    } else {
        with_args(put(w, Inst::Arg(args[i as int].at)), args, i + 1)
    }
}

/// Anything the runtime allocates belongs to the statement that asked for it.
pub open spec fn recorded(w: WorkView, v: Operand, n: Native) -> WorkView {
    WorkView { temps: w.temps.push(Temp { value: v, native: n }), ..w }
}

#[verifier::opaque]
pub open spec fn expecting_all(w: WorkView, args: Seq<Operand>, want: Seq<Kind>) -> WorkView {
    if kinds(args) == want {
        w
    } else {
        refused(w, wrong_kind())
    }
}

/// A call into the runtime.
#[verifier::opaque]
pub open spec fn called(w: WorkView, f: Rt, args: Seq<Operand>) -> (WorkView, Operand) {
    let ready = with_args(expecting_all(w, args, takes(f)), args, 0);
    let (w1, v) = made(
        ready,
        Inst::CallRt(f),
        match gives(f) {
            Some(k) => k,
            None => Kind::Ptr,
        },
    );
    match allocated_by(f) {
        Some(n) => (recorded(w1, v, n), v),
        None => (w1, v),
    }
}

/// A call that writes its result through a pointer given first.
#[verifier::opaque]
pub open spec fn called_into(w: WorkView, f: Rt, args: Seq<Operand>, kind: Kind) -> (WorkView, Operand) {
    let (w1, out) = made(w, Inst::Slot(kind), Kind::Ptr);
    let (w2, _) = called(w1, f, seq![out] + args);
    made(w2, Inst::Load { kind, from: out.at }, kind)
}

/// Put a value into a stack slot, for its address.
#[verifier::opaque]
pub open spec fn spilled(w: WorkView, v: Operand, kind: Kind) -> (WorkView, Operand) {
    let (w1, slot) = made(w, Inst::Slot(kind), Kind::Ptr);
    (stored(w1, slot.at, v, kind), slot)
}

/// Store a value of the kind that the slot was made for.
#[verifier::opaque]
pub open spec fn stored(w: WorkView, slot: usize, v: Operand, kind: Kind) -> WorkView {
    put(expecting(w, v, kind), Inst::Store { into: slot, value: v.at })
}

#[verifier::opaque]
pub open spec fn stored_at(w: WorkView, slots: usize, kind: Kind, index: u128, v: Operand) -> WorkView {
    put(expecting(w, v, kind), Inst::StoreAt { into: slots, kind, index, value: v.at })
}

pub open spec fn with_text(w: WorkView, t: Seq<char>) -> WorkView {
    WorkView { texts: w.texts.push(t), ..w }
}

/// The address of constant text.
#[verifier::opaque]
pub open spec fn chars_made(w: WorkView, t: Seq<char>) -> (WorkView, Operand) {
    made(with_text(w, t), Inst::Chars(w.texts.len() as usize), Kind::Ptr)
}

/// A string literal. It lives in constant data, so it owns nothing.
#[verifier::opaque]
pub open spec fn text_made(w: WorkView, t: Seq<char>) -> (WorkView, Operand) {
    made(with_text(w, t), Inst::Text(w.texts.len() as usize), Kind::Text)
}

/// Stop the program through the Error Handler.
#[verifier::opaque]
pub open spec fn failing(w: WorkView, code: Seq<char>, message: Seq<char>) -> WorkView {
    let (w1, c) = chars_made(w, code);
    let (w2, m) = chars_made(w1, message);
    let (w3, _) = called(w2, Rt::Fail, seq![c, m]);
    put(w3, Inst::Unreachable)
}

#[verifier::opaque]
pub open spec fn forked(w: WorkView, test: Operand, yes: usize, no: usize) -> WorkView {
    put(expecting(w, test, Kind::Bit), Inst::Fork { test: test.at, yes, no })
}

pub open spec fn opened(w: WorkView) -> (WorkView, usize) {
    (put(w, Inst::Block), w.code.len() as usize)
}

#[verifier::opaque]
pub open spec fn related(w: WorkView, relation: Relation, a: Operand, b: Operand) -> (WorkView, Operand) {
    made(
        expecting(w, b, a.kind),
        Inst::Relate { relation, kind: a.kind, lhs: a.at, rhs: b.at },
        Kind::Bit,
    )
}

pub open spec fn checked_name(op: CheckedOp) -> Seq<char> {
    match op {
        CheckedOp::Add => "this integer addition overflowed"@,
        CheckedOp::Sub => "this integer subtraction overflowed"@,
        CheckedOp::Mul => "this integer multiplication overflowed"@,
    }
}

/// Integer arithmetic that stops rather than wrapping.
#[verifier::opaque]
pub open spec fn checked_made(w: WorkView, op: CheckedOp, a: Operand, b: Operand) -> (WorkView, Operand) {
    let w0 = expecting(expecting(w, a, Kind::Word), b, Kind::Word);
    let (w1, pair) = made(w0, Inst::Checked { op, lhs: a.at, rhs: b.at }, Kind::Word);
    let (w2, v) = made(w1, Inst::CheckedValue(pair.at), Kind::Word);
    let (w3, o) = made(w2, Inst::Overflowed(pair.at), Kind::Bit);
    let (w4, bad) = opened(w3);
    let (w5, ok) = opened(w4);
    let w6 = put(forked(w5, o, bad, ok), Inst::At(bad));
    (put(failing(w6, "AHPCL-PREC-0004"@, checked_name(op)), Inst::At(ok)), v)
}

/// The pointer that retaining and releasing take: an array or a `num` is that pointer, and
/// a text keeps it in its owner.
#[verifier::opaque]
pub open spec fn handle(w: WorkView, v: Operand, n: Native) -> (WorkView, Operand) {
    if n is Str {
        made(expecting(w, v, Kind::Text), Inst::Owner(v.at), Kind::Ptr)
    } else {
        (w, v)
    }
}

/// One more reference to a value that the runtime counts.
#[verifier::opaque]
pub open spec fn kept(w: WorkView, v: Operand, n: Native) -> WorkView {
    if counted(n) {
        let (w1, h) = handle(w, v, n);
        called(w1, retaining(n), seq![h]).0
    } else {
        w
    }
}

#[verifier::opaque]
pub open spec fn let_go(w: WorkView, v: Operand, n: Native) -> WorkView {
    let (w1, h) = handle(w, v, n);
    called(w1, releasing(n), seq![h]).0
}

/// Every temporary recorded since `mark` released, the last one first. A block that has
/// been left has no room for a release.
#[verifier::opaque]
pub open spec fn temps_released(w: WorkView, mark: nat) -> WorkView {
    if !w.open {
        WorkView { temps: if mark < w.temps.len() { w.temps.take(mark as int) } else { w.temps }, ..w }
    } else {
        temps_popped(w, mark, w.temps.len())
    }
}

/// Releases the temporaries at positions from `mark` up to `n`, which is how many there are.
pub open spec fn temps_popped(w: WorkView, mark: nat, n: nat) -> WorkView
    decreases n,
{
    if n <= mark || n == 0 || n > w.temps.len() {
        w
    } else {
        let t = w.temps[n - 1];
        let dropped = WorkView { temps: w.temps.take(n - 1), ..w };
        temps_popped(let_go(dropped, t.value, t.native), mark, (n - 1) as nat)
    }
}

/// The counted variables of a frame released, from the `i`-th on.
pub open spec fn frame_released(w: WorkView, frame: FrameView, i: nat) -> WorkView
    decreases frame.len() - i,
{
    if i >= frame.len() {
        w
    } else {
        let l = frame[i as int];
        if counted(l.native) {
            let (w1, v) = made(w, Inst::Load { kind: kind_of(l.native), from: l.slot }, kind_of(l.native));
            frame_released(let_go(w1, v, l.native), frame, i + 1)
        } else {
            frame_released(w, frame, i + 1)
        }
    }
}

#[verifier::opaque]
pub open spec fn frame_released_at(w: WorkView, depth: int) -> WorkView {
    if !w.open || depth < 0 || depth >= w.frames.len() {
        w
    } else {
        frame_released(w, w.frames[depth], 0)
    }
}

/// The innermost scope released, as it ends.
#[verifier::opaque]
pub open spec fn scope_released(w: WorkView) -> WorkView {
    frame_released_at(w, w.frames.len() - 1)
}

/// Every scope below `depth` that the function owns released, the innermost first.
pub open spec fn scopes_released(w: WorkView, depth: nat) -> WorkView
    decreases depth,
{
    if depth <= w.owned_from || depth == 0 {
        w
    } else {
        scopes_released(frame_released_at(w, depth - 1), (depth - 1) as nat)
    }
}

// ── names ───────────────────────────────────────────────────────────────────

#[verifier::opaque]
pub open spec fn with_frame(w: WorkView) -> WorkView {
    WorkView { frames: w.frames.push(Seq::empty()), ..w }
}

#[verifier::opaque]
pub open spec fn without_frame(w: WorkView) -> WorkView {
    if w.frames.len() > 0 {
        WorkView { frames: w.frames.drop_last(), ..w }
    } else {
        w
    }
}

/// Where a name stands in a frame; its length where it does not.
pub open spec fn local_index(f: FrameView, name: Seq<char>) -> nat
    decreases f.len(),
{
    if f.len() == 0 || f[0].name == name {
        0
    } else {
        local_index(f.skip(1), name) + 1
    }
}

pub open spec fn with_local(f: FrameView, l: LocalView) -> FrameView {
    let i = local_index(f, l.name);
    if i < f.len() {
        f.update(i as int, l)
    } else {
        f.push(l)
    }
}

/// A name declared in the innermost scope.
#[verifier::opaque]
pub open spec fn declared(w: WorkView, name: Seq<char>, slot: usize, native: Native) -> WorkView {
    if w.frames.len() == 0 {
        w
    } else {
        WorkView {
            frames: w.frames.update(
                w.frames.len() - 1,
                with_local(w.frames.last(), LocalView { name, slot, native }),
            ),
            ..w
        }
    }
}

/// What a name stands for among the first `n` frames, the innermost first.
pub open spec fn found(frames: Seq<FrameView>, name: Seq<char>, n: nat) -> Option<(usize, Native)>
    decreases n,
{
    if n == 0 {
        None
    } else {
        let f = frames[n - 1];
        let i = local_index(f, name);
        if i < f.len() {
            Some((f[i as int].slot, f[i as int].native))
        } else {
            found(frames, name, (n - 1) as nat)
        }
    }
}

#[verifier::opaque]
pub open spec fn looked_up(w: WorkView, name: Seq<char>) -> Option<(usize, Native)> {
    found(w.frames, name, w.frames.len())
}

/// The function a name stands for: the last one declared under it.
pub open spec fn function_named(fns: Seq<SigView>, name: Seq<char>, n: nat) -> Option<usize>
    decreases n,
{
    if n == 0 {
        None
    } else if fns[n - 1].name == name {
        Some((n - 1) as usize)
    } else {
        function_named(fns, name, (n - 1) as nat)
    }
}

// ── what an expression naturally produces ───────────────────────────────────

/// Which representation two operands meet in.
pub open spec fn met_native(l: Native, r: Native) -> Native {
    if l is Num || r is Num {
        Native::Num
    } else if l is Rat || r is Rat {
        Native::Rat
    } else if l is Deci || r is Deci {
        Native::Deci
    } else {
        Native::Int
    }
}

/// Which representation an operation produces: a dot product of two vectors collapses to a
/// single value, a bare array reference sums, and an array beside anything stays one.
pub open spec fn binary_native(op: BinOp, l: Native, r: Native, bare_l: bool, bare_r: bool) -> Native {
    if op == BinOp::Dot && array_like(l) && array_like(r) {
        element_of(l)
    } else if !is_array_operator(op) && ((bare_l && array_like(l)) || (bare_r && array_like(r))) {
        Native::Num
    } else if array_like(l) {
        l
    } else if array_like(r) {
        r
    } else {
        met_native(l, r)
    }
}

pub open spec fn unary_native(op: UnOp, held: Native, is_bare: bool) -> Native {
    if array_like(held) && !is_bare && op != UnOp::Not {
        held
    } else {
        match op {
            UnOp::Sqrt | UnOp::Sin | UnOp::Cos | UnOp::Tan | UnOp::Log | UnOp::Ln => Native::Deci,
            UnOp::Floor | UnOp::Ceil => Native::Int,
            UnOp::Not => Native::Bool,
            _ => held,
        }
    }
}

pub open spec fn number_native(t: Seq<char>) -> Native {
    if first_index(t, '.') < t.len() {
        Native::Deci
    } else {
        Native::Int
    }
}

/// Which representation an expression naturally produces.
pub open spec fn natural(w: WorkView, e: Expr) -> Native
    decreases e,
{
    match e.kind {
        ExprKind::Ref { name, selectors } => selected_native(
            match looked_up(w, name@) {
                Some((_, n)) => n,
                None => Native::Int,
            },
            selectors@,
        ),
        ExprKind::Math(inner) => natural(w, *inner),
        ExprKind::Number(t) => number_native(t@),
        ExprKind::Literal(t) => number_native(t@),
        ExprKind::Constant(_) => Native::Deci,
        ExprKind::Unary { op, operand } => unary_native(op, natural(w, *operand), bare(*operand)),
        ExprKind::Str(_) => Native::Str,
        ExprKind::Builtin { name, .. } => if name@ == "read"@ {
            Native::Str
        } else {
            Native::Int
        },
        ExprKind::ArrayLit(items) => Native::Array(0, literal_dims(items).len() as u32),
        ExprKind::Loop(_) => Native::Array(5, 1),
        ExprKind::Binary { op, lhs, rhs } => binary_native(
            op,
            natural(w, *lhs),
            natural(w, *rhs),
            bare(*lhs),
            bare(*rhs),
        ),
        ExprKind::Call { name, .. } => match function_named(w.fns, name@, w.fns.len()) {
            Some(i) => w.fns[i as int].ret,
            None => Native::Int,
        },
        _ => Native::Int,
    }
}

// ── the operations of the builder ───────────────────────────────────────────

impl<'a> Work<'a> {
    pub fn put(&mut self, i: Inst) -> (r: usize)
        ensures
            final(self)@ == put(old(self)@, i),
            r == old(self)@.code.len(),
    {
        let at: usize = self.code.len();
        match i {
            Inst::Jump(_) | Inst::Fork { .. } | Inst::Return(_) | Inst::ReturnNothing | Inst::Unreachable => {
                self.open = false;
            },
            Inst::At(_) => {
                self.open = true;
            },
            _ => {},
        }
        self.code.push(i);
        at
    }

    pub fn make(&mut self, i: Inst, kind: Kind) -> (r: Operand)
        ensures
            (final(self)@, r) == made(old(self)@, i, kind),
    {
        let at: usize = self.put(i);
        Operand { at, kind }
    }

    pub fn refuse(&mut self, what: String)
        ensures
            final(self)@ == refused(old(self)@, what@),
    {
        if self.refusal.is_none() {
            self.refusal = Some(what);
        }
    }

    pub fn refuse_text(&mut self, what: &str)
        ensures
            final(self)@ == refused(old(self)@, what@),
    {
        self.refuse(what.to_owned());
    }

    pub fn expect(&mut self, v: Operand, kind: Kind)
        ensures
            final(self)@ == expecting(old(self)@, v, kind),
    {
        if v.kind != kind {
            self.refuse_text("generated invalid LLVM IR: a value of the wrong kind");
        }
    }

    pub fn expect_all(&mut self, args: &Vec<Operand>, want: &Vec<Kind>)
        ensures
            final(self)@ == expecting_all(old(self)@, args@, want@),
    {
        proof {
            reveal(expecting_all);
        }
        if args.len() != want.len() {
            assert(kinds(args@).len() != want@.len());
            self.refuse_text("generated invalid LLVM IR: a value of the wrong kind");
            return;
        }
        let mut i: usize = 0;
        while i < args.len()
            invariant
                i <= args@.len(),
                args@.len() == want@.len(),
                self@ == old(self)@,
                forall|j: int| 0 <= j < i ==> (#[trigger] args@[j]).kind == want@[j],
            decreases args@.len() - i,
        {
            if args[i].kind != want[i] {
                proof {
                    reveal(expecting_all);
                }
                assert(kinds(args@)[i as int] != want@[i as int]);
                self.refuse_text("generated invalid LLVM IR: a value of the wrong kind");
                return;
            }
            i = i + 1;
        }
        assert(kinds(args@) =~= want@);
    }

    pub fn args(&mut self, args: &Vec<Operand>)
        ensures
            final(self)@ == with_args(old(self)@, args@, 0),
    {
        let mut i: usize = 0;
        while i < args.len()
            invariant
                i <= args@.len(),
                with_args(old(self)@, args@, 0) == with_args(self@, args@, i as nat),
            decreases args@.len() - i,
        {
            let _ = self.put(Inst::Arg(args[i].at));
            i = i + 1;
        }
    }

    pub fn record(&mut self, v: Operand, n: Native)
        ensures
            final(self)@ == recorded(old(self)@, v, n),
    {
        self.temps.push(Temp { value: v, native: n });
    }

    pub fn call(&mut self, f: Rt, args: Vec<Operand>) -> (r: Operand)
        ensures
            (final(self)@, r) == called(old(self)@, f, args@),
    {
        proof {
            reveal(called);
        }
        let want: Vec<Kind> = f.takes();
        self.expect_all(&args, &want);
        self.args(&args);
        let kind: Kind = match f.gives() {
            Some(k) => k,
            None => Kind::Ptr,
        };
        let v: Operand = self.make(Inst::CallRt(f), kind);
        match allocates(f) {
            Some(n) => {
                self.record(v, n);
            },
            None => {},
        }
        v
    }

    pub fn call_into(&mut self, f: Rt, args: Vec<Operand>, kind: Kind) -> (r: Operand)
        ensures
            (final(self)@, r) == called_into(old(self)@, f, args@, kind),
    {
        proof {
            reveal(called_into);
        }
        let out: Operand = self.make(Inst::Slot(kind), Kind::Ptr);
        let mut all: Vec<Operand> = Vec::new();
        all.push(out);
        let mut rest: Vec<Operand> = args;
        all.append(&mut rest);
        assert(all@ =~= seq![out] + args@);
        let _ = self.call(f, all);
        self.make(Inst::Load { kind, from: out.at }, kind)
    }

    pub fn call1(&mut self, f: Rt, a: Operand) -> (r: Operand)
        ensures
            (final(self)@, r) == called(old(self)@, f, seq![a]),
    {
        let args: Vec<Operand> = vec![a];
        assert(args@ =~= seq![a]);
        self.call(f, args)
    }

    pub fn call2(&mut self, f: Rt, a: Operand, b: Operand) -> (r: Operand)
        ensures
            (final(self)@, r) == called(old(self)@, f, seq![a, b]),
    {
        let args: Vec<Operand> = vec![a, b];
        assert(args@ =~= seq![a, b]);
        self.call(f, args)
    }

    pub fn call3(&mut self, f: Rt, a: Operand, b: Operand, c: Operand) -> (r: Operand)
        ensures
            (final(self)@, r) == called(old(self)@, f, seq![a, b, c]),
    {
        let args: Vec<Operand> = vec![a, b, c];
        assert(args@ =~= seq![a, b, c]);
        self.call(f, args)
    }

    pub fn spill(&mut self, v: Operand, kind: Kind) -> (r: Operand)
        ensures
            (final(self)@, r) == spilled(old(self)@, v, kind),
    {
        proof {
            reveal(spilled);
        }
        let slot: Operand = self.make(Inst::Slot(kind), Kind::Ptr);
        self.store(slot.at, v, kind);
        slot
    }

    pub fn store(&mut self, slot: usize, v: Operand, kind: Kind)
        ensures
            final(self)@ == stored(old(self)@, slot, v, kind),
    {
        proof {
            reveal(stored);
        }
        self.expect(v, kind);
        let _ = self.put(Inst::Store { into: slot, value: v.at });
    }

    pub fn store_at(&mut self, slots: usize, kind: Kind, index: u128, v: Operand)
        ensures
            final(self)@ == stored_at(old(self)@, slots, kind, index, v),
    {
        proof {
            reveal(stored_at);
        }
        self.expect(v, kind);
        let _ = self.put(Inst::StoreAt { into: slots, kind, index, value: v.at });
    }

    fn text_index(&mut self, t: &str) -> (r: usize)
        ensures
            final(self)@ == with_text(old(self)@, t@),
            r == old(self)@.texts.len(),
    {
        let n: usize = self.texts.len();
        self.texts.push(t.to_owned());
        assert(self@.texts =~= old(self)@.texts.push(t@));
        n
    }

    pub fn chars(&mut self, t: &str) -> (r: Operand)
        ensures
            (final(self)@, r) == chars_made(old(self)@, t@),
    {
        proof {
            reveal(chars_made);
        }
        let n: usize = self.text_index(t);
        self.make(Inst::Chars(n), Kind::Ptr)
    }

    pub fn text(&mut self, t: &str) -> (r: Operand)
        ensures
            (final(self)@, r) == text_made(old(self)@, t@),
    {
        proof {
            reveal(text_made);
        }
        let n: usize = self.text_index(t);
        self.make(Inst::Text(n), Kind::Text)
    }

    pub fn fail(&mut self, code: &str, message: &str)
        ensures
            final(self)@ == failing(old(self)@, code@, message@),
    {
        proof {
            reveal(failing);
        }
        let c: Operand = self.chars(code);
        let m: Operand = self.chars(message);
        let _ = self.call2(Rt::Fail, c, m);
        let _ = self.put(Inst::Unreachable);
    }

    pub fn fork(&mut self, test: Operand, yes: usize, no: usize)
        ensures
            final(self)@ == forked(old(self)@, test, yes, no),
    {
        proof {
            reveal(forked);
        }
        self.expect(test, Kind::Bit);
        let _ = self.put(Inst::Fork { test: test.at, yes, no });
    }

    pub fn block(&mut self) -> (r: usize)
        ensures
            (final(self)@, r) == opened(old(self)@),
    {
        self.put(Inst::Block)
    }

    pub fn relate(&mut self, relation: Relation, a: Operand, b: Operand) -> (r: Operand)
        ensures
            (final(self)@, r) == related(old(self)@, relation, a, b),
    {
        proof {
            reveal(related);
        }
        self.expect(b, a.kind);
        self.make(Inst::Relate { relation, kind: a.kind, lhs: a.at, rhs: b.at }, Kind::Bit)
    }

    pub fn checked(&mut self, op: CheckedOp, a: Operand, b: Operand) -> (r: Operand)
        ensures
            (final(self)@, r) == checked_made(old(self)@, op, a, b),
    {
        proof {
            reveal(checked_made);
        }
        self.expect(a, Kind::Word);
        self.expect(b, Kind::Word);
        let pair: Operand = self.make(Inst::Checked { op, lhs: a.at, rhs: b.at }, Kind::Word);
        let v: Operand = self.make(Inst::CheckedValue(pair.at), Kind::Word);
        let o: Operand = self.make(Inst::Overflowed(pair.at), Kind::Bit);
        let bad: usize = self.block();
        let ok: usize = self.block();
        self.fork(o, bad, ok);
        let _ = self.put(Inst::At(bad));
        let message: &str = match op {
            CheckedOp::Add => "this integer addition overflowed",
            CheckedOp::Sub => "this integer subtraction overflowed",
            CheckedOp::Mul => "this integer multiplication overflowed",
        };
        self.fail("AHPCL-PREC-0004", message);
        let _ = self.put(Inst::At(ok));
        v
    }

    fn counted_handle(&mut self, v: Operand, n: Native) -> (r: Operand)
        ensures
            (final(self)@, r) == handle(old(self)@, v, n),
    {
        proof {
            reveal(handle);
        }
        match n {
            Native::Str => {
                self.expect(v, Kind::Text);
                self.make(Inst::Owner(v.at), Kind::Ptr)
            },
            _ => v,
        }
    }

    pub fn keep(&mut self, v: Operand, n: Native)
        ensures
            final(self)@ == kept(old(self)@, v, n),
    {
        proof {
            reveal(kept);
        }
        if n.is_counted() {
            let h: Operand = self.counted_handle(v, n);
            let _ = self.call1(n.retain_fn(), h);
        }
    }

    pub fn release(&mut self, v: Operand, n: Native)
        ensures
            final(self)@ == let_go(old(self)@, v, n),
    {
        proof {
            reveal(let_go);
        }
        let h: Operand = self.counted_handle(v, n);
        let _ = self.call1(n.release_fn(), h);
    }

    /// Release every heap value recorded since `mark`.
    pub fn release_temporaries(&mut self, mark: usize)
        ensures
            final(self)@ == temps_released(old(self)@, mark as nat),
    {
        proof {
            reveal(temps_released);
        }
        if !self.open {
            self.temps.truncate(mark);
            return;
        }
        let mut n: usize = self.temps.len();
        while n > mark
            invariant
                n == self@.temps.len(),
                temps_popped(old(self)@, mark as nat, old(self)@.temps.len()) == temps_popped(
                    self@,
                    mark as nat,
                    n as nat,
                ),
            decreases n,
        {
            let ghost before = self@;
            match self.temps.pop() {
                Some(t) => {
                    assert(self@.temps =~= before.temps.take(n - 1));
                    proof {
                        lemma_letting_go(self@, t.value, t.native);
                    }
                    self.release(t.value, t.native);
                },
                None => {},
            }
            n = n - 1;
        }
    }

    fn release_frame(&mut self, depth: usize)
        ensures
            final(self)@ == frame_released_at(old(self)@, depth as int),
    {
        proof {
            reveal(frame_released_at);
        }
        if !self.open || depth >= self.frames.len() {
            return;
        }
        let ghost frame = self@.frames[depth as int];
        let mut i: usize = 0;
        while i < self.frames[depth].len()
            invariant
                depth < self.frames@.len(),
                self@.frames == old(self)@.frames,
                frame == self@.frames[depth as int],
                i <= frame.len(),
                frame_released(old(self)@, frame, 0) == frame_released(self@, frame, i as nat),
            decreases frame.len() - i,
        {
            let slot: usize = self.frames[depth][i].slot;
            let native: Native = self.frames[depth][i].native;
            if native.is_counted() {
                let ghost before = self@;
                let v: Operand = self.make(Inst::Load { kind: native.kind(), from: slot }, native.kind());
                proof {
                    lemma_letting_go(self@, v, native);
                }
                self.release(v, native);
                assert(self@.frames == before.frames);
                assert(self.frames@.len() == self@.frames.len());
            }
            i = i + 1;
        }
    }

    pub fn release_scope(&mut self)
        ensures
            final(self)@ == scope_released(old(self)@),
    {
        proof {
            reveal(scope_released);
            reveal(frame_released_at);
        }
        let n: usize = self.frames.len();
        if n > 0 {
            self.release_frame(n - 1);
        }
    }

    /// Release every live scope, innermost first, for a `handback` that leaves the whole
    /// call rather than one block.
    pub fn release_all_scopes(&mut self)
        ensures
            final(self)@ == scopes_released(old(self)@, old(self)@.frames.len()),
    {
        proof {
            reveal(frame_released_at);
        }
        let mut depth: usize = self.frames.len();
        while depth > self.owned_from
            invariant
                self@.owned_from == old(self)@.owned_from,
                scopes_released(old(self)@, old(self)@.frames.len()) == scopes_released(self@, depth as nat),
            decreases depth,
        {
            depth = depth - 1;
            let ghost before = self@;
            self.release_frame(depth);
            proof {
                reveal(frame_released_at);
                lemma_frame_released(before, before.frames[depth as int], 0);
            }
        }
    }

    pub fn push_frame(&mut self)
        ensures
            final(self)@ == with_frame(old(self)@),
    {
        proof {
            reveal(with_frame);
        }
        self.frames.push(Vec::new());
        assert(frame_view(Seq::<Local>::empty()) =~= Seq::<LocalView>::empty());
        assert(self@.frames =~= with_frame(old(self)@).frames);
    }

    pub fn pop_frame(&mut self)
        ensures
            final(self)@ == without_frame(old(self)@),
    {
        proof {
            reveal(without_frame);
        }
        let _ = self.frames.pop();
        assert(self@.frames =~= without_frame(old(self)@).frames);
    }

    pub fn declare(&mut self, name: &str, slot: usize, native: Native)
        ensures
            final(self)@ == declared(old(self)@, name@, slot, native),
    {
        proof {
            reveal(declared);
        }
        let n: usize = self.frames.len();
        if n == 0 {
            return;
        }
        let i: usize = index_of_local(&self.frames[n - 1], name);
        let l: Local = Local { name: name.to_owned(), slot, native };
        let ghost view = l@;
        let ghost frame = self@.frames.last();
        let mut top: Vec<Local> = Vec::new();
        match self.frames.pop() {
            Some(f) => {
                top = f;
            },
            None => {},
        }
        assert(frame_view(top@) =~= frame);
        if i < top.len() {
            top.set(i, l);
        } else {
            top.push(l);
        }
        assert(frame_view(top@) =~= with_local(frame, view));
        self.frames.push(top);
        assert(self@.frames =~= declared(old(self)@, name@, slot, native).frames);
    }

    pub fn lookup(&self, name: &str) -> (r: Option<(usize, Native)>)
        ensures
            r == looked_up(self@, name@),
    {
        proof {
            reveal(looked_up);
        }
        let mut n: usize = self.frames.len();
        while n > 0
            invariant
                n <= self.frames@.len(),
                looked_up(self@, name@) == found(self@.frames, name@, n as nat),
            decreases n,
        {
            let f: &Vec<Local> = &self.frames[n - 1];
            let i: usize = index_of_local(f, name);
            assert(self@.frames[n - 1] == frame_view(f@));
            if i < f.len() {
                assert(frame_view(f@)[i as int] == f@[i as int]@);
                return Some((f[i].slot, f[i].native));
            }
            n = n - 1;
        }
        None
    }

    pub fn function(&self, name: &str) -> (r: Option<usize>)
        ensures
            r == function_named(self@.fns, name@, self@.fns.len()),
            r matches Some(i) ==> i < self.fns@.len(),
    {
        let mut n: usize = self.fns.len();
        while n > 0
            invariant
                n <= self.fns@.len(),
                function_named(self@.fns, name@, self@.fns.len()) == function_named(self@.fns, name@, n as nat),
            decreases n,
        {
            assert(self@.fns[n - 1] == self.fns@[n - 1]@);
            if same_text(self.fns[n - 1].name.as_str(), name) {
                return Some(n - 1);
            }
            n = n - 1;
        }
        None
    }

    /// Which representation an expression naturally produces.
    #[verifier::truncate]
    pub fn value_repr(&self, e: &Expr) -> (r: Native)
        ensures
            r == natural(self@, *e),
        decreases e,
    {
        match &e.kind {
            ExprKind::Ref { name, selectors } => {
                let held: Native = match self.lookup(name.as_str()) {
                    Some((_, n)) => n,
                    None => Native::Int,
                };
                selector_result(held, selectors)
            },
            ExprKind::Math(inner) => self.value_repr(inner),
            ExprKind::Number(t) => number_repr(t.as_str()),
            ExprKind::Literal(t) => number_repr(t.as_str()),
            ExprKind::Constant(_) => Native::Deci,
            ExprKind::Unary { op, operand } => {
                let held: Native = self.value_repr(operand);
                unary_repr(*op, held, is_bare_ref(operand))
            },
            ExprKind::Str(_) => Native::Str,
            ExprKind::Builtin { name, .. } => if same_text(name.as_str(), "read") {
                Native::Str
            } else {
                Native::Int
            },
            ExprKind::ArrayLit(items) => {
                let dims: Vec<u64> = literal_shape(items);
                Native::Array(0, dims.len() as u32)
            },
            ExprKind::Loop(_) => Native::Array(5, 1),
            ExprKind::Binary { op, lhs, rhs } => {
                let l: Native = self.value_repr(lhs);
                let r: Native = self.value_repr(rhs);
                binary_repr(*op, l, r, is_bare_ref(lhs), is_bare_ref(rhs))
            },
            ExprKind::Call { name, .. } => match self.function(name.as_str()) {
                Some(i) => {
                    assert(self@.fns[i as int] == self.fns@[i as int]@);
                    self.fns[i].ret
                },
                None => Native::Int,
            },
            _ => Native::Int,
        }
    }
}

fn number_repr(t: &str) -> (r: Native)
    ensures
        r == number_native(t@),
{
    let chars: Vec<char> = chars_of(t);
    if find_char(chars.as_slice(), '.') < chars.len() {
        Native::Deci
    } else {
        Native::Int
    }
}

fn unary_repr(op: UnOp, held: Native, bare: bool) -> (r: Native)
    ensures
        r == unary_native(op, held, bare),
{
    if held.is_array() && !bare && op != UnOp::Not {
        return held;
    }
    match op {
        UnOp::Sqrt | UnOp::Sin | UnOp::Cos | UnOp::Tan | UnOp::Log | UnOp::Ln => Native::Deci,
        UnOp::Floor | UnOp::Ceil => Native::Int,
        UnOp::Not => Native::Bool,
        _ => held,
    }
}

/// Whether an operator implies `:all;`.
pub fn implies_all(op: BinOp) -> (r: bool)
    ensures
        r == is_array_operator(op),
{
    match op {
        BinOp::Dot | BinOp::Cross | BinOp::Hadamard | BinOp::Tensor => true,
        _ => false,
    }
}

fn binary_repr(op: BinOp, l: Native, r: Native, bare_l: bool, bare_r: bool) -> (out: Native)
    ensures
        out == binary_native(op, l, r, bare_l, bare_r),
{
    if op == BinOp::Dot && l.is_array() && r.is_array() {
        l.element()
    } else if !implies_all(op) && ((bare_l && l.is_array()) || (bare_r && r.is_array())) {
        Native::Num
    } else if l.is_array() {
        l
    } else if r.is_array() {
        r
    } else if l == Native::Num || r == Native::Num {
        Native::Num
    } else if l == Native::Rat || r == Native::Rat {
        Native::Rat
    } else if l == Native::Deci || r == Native::Deci {
        Native::Deci
    } else {
        Native::Int
    }
}

proof fn lemma_local_index(f: FrameView, name: Seq<char>, k: nat)
    requires
        k <= f.len(),
        forall|j: int| 0 <= j < k ==> (#[trigger] f[j]).name != name,
    ensures
        local_index(f, name) == k + local_index(f.skip(k as int), name),
    decreases k,
{
    if k == 0 {
        assert(f.skip(0) =~= f);
    } else {
        assert(f[0].name != name);
        assert forall|j: int| 0 <= j < k - 1 implies (#[trigger] f.skip(1)[j]).name != name by {
            assert(f[j + 1].name != name);
        }
        lemma_local_index(f.skip(1), name, (k - 1) as nat);
        assert(f.skip(1).skip(k - 1) =~= f.skip(k as int));
    }
}

fn index_of_local(f: &Vec<Local>, name: &str) -> (r: usize)
    ensures
        r == local_index(frame_view(f@), name@),
        r <= f@.len(),
{
    let ghost view = frame_view(f@);
    let mut i: usize = 0;
    while i < f.len()
        invariant
            i <= f@.len(),
            view == frame_view(f@),
            forall|j: int| 0 <= j < i ==> (#[trigger] view[j]).name != name@,
        decreases f@.len() - i,
    {
        assert(view[i as int] == f@[i as int]@);
        if same_text(f[i].name.as_str(), name) {
            proof {
                lemma_local_index(view, name@, i as nat);
            }
            return i;
        }
        i = i + 1;
    }
    proof {
        lemma_local_index(view, name@, i as nat);
    }
    i
}

proof fn lemma_with_args(w: WorkView, args: Seq<Operand>, i: nat)
    ensures
        with_args(w, args, i).temps == w.temps,
        with_args(w, args, i).frames == w.frames,
        with_args(w, args, i).owned_from == w.owned_from,
    decreases args.len() - i,
{
    if i < args.len() {
        lemma_with_args(put(w, Inst::Arg(args[i as int].at)), args, i + 1);
    }
}

/// Releasing a value makes no new one to release, and touches no name.
pub proof fn lemma_letting_go(w: WorkView, v: Operand, n: Native)
    ensures
        let_go(w, v, n).temps == w.temps,
        let_go(w, v, n).frames == w.frames,
        let_go(w, v, n).owned_from == w.owned_from,
{
    reveal(let_go);
    reveal(handle);
    reveal(called);
    reveal(expecting_all);
    let (w1, h) = handle(w, v, n);
    lemma_with_args(expecting_all(w1, seq![h], takes(releasing(n))), seq![h], 0);
}

proof fn lemma_frame_released(w: WorkView, frame: FrameView, i: nat)
    ensures
        frame_released(w, frame, i).owned_from == w.owned_from,
    decreases frame.len() - i,
{
    if i < frame.len() {
        let l = frame[i as int];
        if counted(l.native) {
            let (w1, v) = made(w, Inst::Load { kind: kind_of(l.native), from: l.slot }, kind_of(l.native));
            lemma_letting_go(w1, v, l.native);
            lemma_frame_released(let_go(w1, v, l.native), frame, i + 1);
        } else {
            lemma_frame_released(w, frame, i + 1);
        }
    }
}

} // verus!
