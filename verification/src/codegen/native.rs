//! Which machine representation a value of the language has.

use vstd::prelude::*;
use vstd::string::*;

use crate::ast::{rank_dimensions, BinOp, Dim, Expr, ExprKind, Selector, TypeRef};
use crate::codegen::runtime::{Kind, Rt};
use crate::text::{cat3, cat5, chars_of, nat_text, same_text, u128_text};

verus! {

/// Why a program could not be compiled natively yet.
#[derive(Debug)]
pub struct Unsupported {
    pub what: String,
}

impl View for Unsupported {
    type V = Seq<char>;

    open spec fn view(&self) -> Seq<char> {
        self.what@
    }
}

pub open spec fn outcome<T>(r: Result<T, Unsupported>) -> Result<T, Seq<char>> {
    match r {
        Ok(v) => Ok(v),
        Err(u) => Err(u@),
    }
}

/// How many decimal places a division or an irrational keeps when nothing says
/// otherwise. The interpreter uses the same number, so the two agree digit for digit.
pub const DEFAULT_DIGITS: u32 = 15;

#[derive(Debug, Clone, Copy, PartialEq, Eq, Structural)]
pub enum Native {
    Int,
    Bool,
    /// An exact decimal, held as the runtime's struct and operated on by calls.
    Deci,
    /// An exact rational: numerator and denominator, likewise by-pointer.
    Rat,
    /// Text: a pointer, a byte length and an owner.
    Str,
    /// `num`, the top of the numeric hierarchy: a tagged value holding whichever
    /// exact kind flowed into it, as an opaque pointer to a runtime object.
    Num,
    /// An array, as an opaque pointer to a runtime-managed object. The first tag says
    /// which element type it holds; the second is its rank, which decides whether a run of
    /// selectors collapses to a single value.
    Array(u32, u32),
    Nothing,
}

/// The runtime's element-kind tag for a scalar representation.
pub open spec fn tag_of(n: Native) -> u32 {
    match n {
        Native::Bool => 1,
        Native::Deci => 2,
        Native::Rat => 3,
        Native::Str => 4,
        Native::Num => 5,
        _ => 0,
    }
}

/// The scalar representation an array's elements are read as.
pub open spec fn element_of(n: Native) -> Native {
    match n {
        Native::Array(tag, _) => if tag == 1 {
            Native::Bool
        } else if tag == 2 {
            Native::Deci
        } else if tag == 3 {
            Native::Rat
        } else if tag == 4 {
            Native::Str
        } else if tag == 5 {
            Native::Num
        } else {
            Native::Int
        },
        _ => Native::Int,
    }
}

pub open spec fn array_like(n: Native) -> bool {
    n is Array
}

pub open spec fn rank_of(n: Native) -> u32 {
    match n {
        Native::Array(_, r) => r,
        _ => 0,
    }
}

/// Whether the runtime owns this value on the heap, so it is counted.
pub open spec fn counted(n: Native) -> bool {
    n is Array || n is Num || n is Str
}

/// One step into an array: a rank above one yields an array of one less rank, and a vector
/// yields its element.
pub open spec fn peeled(n: Native) -> Native {
    match n {
        Native::Array(tag, r) => if r > 1 {
            Native::Array(tag, (r - 1) as u32)
        } else {
            element_of(n)
        },
        _ => element_of(n),
    }
}

/// The runtime function that lets go of one reference.
pub open spec fn releasing(n: Native) -> Rt {
    match n {
        Native::Str => Rt::StrRelease,
        Native::Array(_, _) => Rt::ArrayRelease,
        _ => Rt::NumRelease,
    }
}

/// The runtime function that takes one more reference.
pub open spec fn retaining(n: Native) -> Rt {
    match n {
        Native::Str => Rt::StrRetain,
        Native::Array(_, _) => Rt::ArrayRetain,
        _ => Rt::NumRetain,
    }
}

/// The machine kind behind a representation.
pub open spec fn kind_of(n: Native) -> Kind {
    match n {
        Native::Bool => Kind::Bit,
        Native::Deci => Kind::Deci,
        Native::Rat => Kind::Rat,
        Native::Str => Kind::Text,
        Native::Array(_, _) => Kind::Ptr,
        Native::Num => Kind::Ptr,
        _ => Kind::Word,
    }
}

/// How a representation is spelled in messages.
pub open spec fn native_text(n: Native) -> Seq<char> {
    match n {
        Native::Int => "Int"@,
        Native::Bool => "Bool"@,
        Native::Deci => "Deci"@,
        Native::Rat => "Rat"@,
        Native::Str => "Str"@,
        Native::Num => "Num"@,
        Native::Array(tag, rank) => "Array("@ + nat_text(tag as nat) + ", "@ + nat_text(rank as nat) + ")"@,
        Native::Nothing => "None"@,
    }
}

impl Native {
    pub fn is_array(self) -> (r: bool)
        ensures
            r == array_like(self),
    {
        match self {
            Native::Array(_, _) => true,
            _ => false,
        }
    }

    pub fn is_counted(self) -> (r: bool)
        ensures
            r == counted(self),
    {
        match self {
            Native::Array(_, _) => true,
            Native::Num => true,
            Native::Str => true,
            _ => false,
        }
    }

    pub fn release_fn(self) -> (r: Rt)
        ensures
            r == releasing(self),
    {
        match self {
            Native::Str => Rt::StrRelease,
            Native::Array(_, _) => Rt::ArrayRelease,
            _ => Rt::NumRelease,
        }
    }

    pub fn retain_fn(self) -> (r: Rt)
        ensures
            r == retaining(self),
    {
        match self {
            Native::Str => Rt::StrRetain,
            Native::Array(_, _) => Rt::ArrayRetain,
            _ => Rt::NumRetain,
        }
    }

    pub fn peel(self) -> (r: Native)
        ensures
            r == peeled(self),
    {
        match self {
            Native::Array(tag, rank) => if rank > 1 {
                Native::Array(tag, rank - 1)
            } else {
                self.element()
            },
            _ => self.element(),
        }
    }

    pub fn rank(self) -> (r: u32)
        ensures
            r == rank_of(self),
    {
        match self {
            Native::Array(_, rank) => rank,
            _ => 0,
        }
    }

    pub fn kind_tag(self) -> (r: u32)
        ensures
            r == tag_of(self),
    {
        match self {
            Native::Bool => 1,
            Native::Deci => 2,
            Native::Rat => 3,
            Native::Str => 4,
            Native::Num => 5,
            _ => 0,
        }
    }

    pub fn element(self) -> (r: Native)
        ensures
            r == element_of(self),
    {
        match self {
            Native::Array(tag, _) => if tag == 1 {
                Native::Bool
            } else if tag == 2 {
                Native::Deci
            } else if tag == 3 {
                Native::Rat
            } else if tag == 4 {
                Native::Str
            } else if tag == 5 {
                Native::Num
            } else {
                Native::Int
            },
            _ => Native::Int,
        }
    }

    pub fn kind(self) -> (r: Kind)
        ensures
            r == kind_of(self),
    {
        match self {
            Native::Bool => Kind::Bit,
            Native::Deci => Kind::Deci,
            Native::Rat => Kind::Rat,
            Native::Str => Kind::Text,
            Native::Array(_, _) => Kind::Ptr,
            Native::Num => Kind::Ptr,
            _ => Kind::Word,
        }
    }

    pub fn text(self) -> (r: String)
        ensures
            r@ == native_text(self),
    {
        match self {
            Native::Int => "Int".to_owned(),
            Native::Bool => "Bool".to_owned(),
            Native::Deci => "Deci".to_owned(),
            Native::Rat => "Rat".to_owned(),
            Native::Str => "Str".to_owned(),
            Native::Num => "Num".to_owned(),
            Native::Array(tag, rank) => cat5(
                "Array(",
                u128_text(tag as u128).as_str(),
                ", ",
                u128_text(rank as u128).as_str(),
                ")",
            ),
            Native::Nothing => "None".to_owned(),
        }
    }
}

// ── declared types ──────────────────────────────────────────────────────────

/// The representation of a type by its base name alone.
pub open spec fn base_native(base: Seq<char>) -> Result<Native, Seq<char>> {
    if base == "int"@ {
        Ok(Native::Int)
    } else if base == "bool"@ {
        Ok(Native::Bool)
    } else if base == "deci"@ {
        Ok(Native::Deci)
    } else if base == "rat"@ {
        Ok(Native::Rat)
    } else if base == "str"@ {
        Ok(Native::Str)
    } else if base == "nna"@ {
        Ok(Native::Array(4, 1))
    } else if base == "num"@ {
        Ok(Native::Num)
    } else if base == "infnum"@ || base == "∞num"@ {
        Ok(Native::Deci)
    } else if base == "none"@ {
        Ok(Native::Nothing)
    } else {
        Err("the type '"@ + base + "'"@)
    }
}

/// The rank of a declaration: the shape written on the binding, else the one on the type,
/// else what the rank's name says.
pub open spec fn declared_rank(ty: TypeRef, shape: Option<Vec<Dim>>) -> Option<usize> {
    match shape {
        Some(s) => Some(s@.len() as usize),
        None => match ty.shape {
            Some(s) => Some(s@.len() as usize),
            None => match ty.rank {
                Some(r) => rank_dimensions(r),
                None => None,
            },
        },
    }
}

/// Which representation a declared type maps onto, given the shape written on the binding.
///
/// A `tensor` whose rank is not written anywhere is refused: guessing it would make the
/// backend and the runtime disagree about the shape.
pub open spec fn native_of(ty: TypeRef, shape: Option<Vec<Dim>>) -> Result<Native, Seq<char>> {
    if ty.rank is Some {
        match declared_rank(ty, shape) {
            None => Err("a tensor whose rank is not written — give it a shape, as in [2,2,2]"@),
            Some(rank) => match base_native(ty.base@) {
                Ok(n) => Ok(Native::Array(tag_of(n), rank as u32)),
                Err(e) => Err(e),
            },
        }
    } else {
        base_native(ty.base@)
    }
}

fn native_named(base: &str) -> (r: Result<Native, Unsupported>)
    ensures
        outcome(r) == base_native(base@),
{
    if same_text(base, "int") {
        Ok(Native::Int)
    } else if same_text(base, "bool") {
        Ok(Native::Bool)
    } else if same_text(base, "deci") {
        Ok(Native::Deci)
    } else if same_text(base, "rat") {
        Ok(Native::Rat)
    } else if same_text(base, "str") {
        Ok(Native::Str)
    } else if same_text(base, "nna") {
        // An array of text by definition; it has no rank name because it is always
        // one-dimensional.
        Ok(Native::Array(4, 1))
    } else if same_text(base, "num") {
        Ok(Native::Num)
    } else if same_text(base, "infnum") || same_text(base, "∞num") {
        // Exact and backed by the same words, so it shares the decimal representation.
        Ok(Native::Deci)
    } else if same_text(base, "none") {
        Ok(Native::Nothing)
    } else {
        Err(Unsupported { what: cat3("the type '", base, "'") })
    }
}

/// The representation of a declared type.
pub fn native_base(ty: &TypeRef) -> (r: Result<Native, Unsupported>)
    ensures
        outcome(r) == native_of(*ty, None),
{
    native_base_shaped(ty, &None)
}

/// The same, given the shape written on the binding.
#[verifier::truncate]
pub fn native_base_shaped(ty: &TypeRef, shape: &Option<Vec<Dim>>) -> (r: Result<Native, Unsupported>)
    ensures
        outcome(r) == native_of(*ty, *shape),
{
    match ty.rank {
        None => native_named(ty.base.as_str()),
        Some(name) => {
            let rank: Option<usize> = match shape {
                Some(s) => Some(s.len()),
                None => match &ty.shape {
                    Some(s) => Some(s.len()),
                    None => name.dimensions(),
                },
            };
            match rank {
                None => Err(
                    Unsupported {
                        what: "a tensor whose rank is not written — give it a shape, as in [2,2,2]".to_owned(),
                    },
                ),
                Some(k) => match native_named(ty.base.as_str()) {
                    Ok(n) => Ok(Native::Array(n.kind_tag(), k as u32)),
                    Err(e) => Err(e),
                },
            }
        },
    }
}

// ── selectors ───────────────────────────────────────────────────────────────

/// Whether a selector answers a question about the whole array, and so ends a run.
pub open spec fn ends_run(s: Selector) -> bool {
    s is Length || s is Shape
}

/// Whether a selector names one index, so that its dimension disappears.
pub open spec fn single_index(s: Selector) -> bool {
    s matches Selector::Indices(ix) && ix@.len() == 1
}

/// Where the run that reaches up to the `n`-th selector begins.
pub open spec fn run_start(s: Seq<Selector>, n: nat) -> nat
    decreases n,
{
    if n == 0 {
        0
    } else if ends_run(s[n - 1]) {
        n
    } else {
        run_start(s, (n - 1) as nat)
    }
}

/// What the selectors before the last run leave.
pub open spec fn answered(held: Native, s: Seq<Selector>, n: nat) -> Native
    decreases n,
{
    if n == 0 {
        held
    } else if s[n - 1] is Length {
        Native::Int
    } else if s[n - 1] is Shape {
        Native::Array(0, 1)
    } else {
        answered(held, s, (n - 1) as nat)
    }
}

/// How many of the selectors in a range name one index.
pub open spec fn singles(s: Seq<Selector>, from: nat, to: nat) -> nat
    decreases to,
{
    if to <= from {
        0
    } else if single_index(s[to - 1]) {
        singles(s, from, (to - 1) as nat) + 1
    } else {
        singles(s, from, (to - 1) as nat)
    }
}

/// What a chain of selectors produces, given what the variable holds: a dimension addressed
/// by a single index collapses, and only when every dimension does is the result a single
/// value rather than an array.
pub open spec fn selected_native(held: Native, s: Seq<Selector>) -> Native {
    let current = answered(held, s, s.len());
    let from = run_start(s, s.len());
    let one = singles(s, from, s.len());
    let rank = rank_of(current);
    if from >= s.len() || !array_like(current) {
        current
    } else if one == s.len() - from && one == rank {
        element_of(current)
    } else {
        Native::Array(
            tag_of(element_of(current)),
            if rank > one + 1 {
                (rank - one) as u32
            } else {
                1
            },
        )
    }
}

/// Where the last run of a chain begins.
pub fn last_run(sels: &Vec<Selector>) -> (r: usize)
    ensures
        r == run_start(sels@, sels@.len()),
        r <= sels@.len(),
{
    let mut i: usize = sels.len();
    while i > 0
        invariant
            i <= sels@.len(),
            run_start(sels@, sels@.len()) == run_start(sels@, i as nat),
        decreases i,
    {
        match &sels[i - 1] {
            Selector::Length => {
                return i;
            },
            Selector::Shape => {
                return i;
            },
            _ => {},
        }
        i = i - 1;
    }
    0
}

/// How many selectors from `from` on name one index.
pub fn count_singles(sels: &Vec<Selector>, from: usize) -> (r: usize)
    requires
        from <= sels@.len(),
    ensures
        r == singles(sels@, from as nat, sels@.len()),
        r <= sels@.len() - from,
{
    let mut n: usize = 0;
    let mut i: usize = from;
    while i < sels.len()
        invariant
            from <= i <= sels@.len(),
            n == singles(sels@, from as nat, i as nat),
            n <= i - from,
        decreases sels@.len() - i,
    {
        let one: bool = match &sels[i] {
            Selector::Indices(ix) => ix.len() == 1,
            _ => false,
        };
        assert(one == single_index(sels@[i as int]));
        if one {
            n = n + 1;
        }
        i = i + 1;
    }
    n
}

fn before_last_run(held: Native, sels: &Vec<Selector>) -> (r: Native)
    ensures
        r == answered(held, sels@, sels@.len()),
{
    let mut i: usize = sels.len();
    while i > 0
        invariant
            i <= sels@.len(),
            answered(held, sels@, sels@.len()) == answered(held, sels@, i as nat),
        decreases i,
    {
        match &sels[i - 1] {
            Selector::Length => {
                return Native::Int;
            },
            Selector::Shape => {
                return Native::Array(0, 1);
            },
            _ => {},
        }
        i = i - 1;
    }
    held
}

/// What a chain of selectors produces.
#[verifier::truncate]
pub fn selector_result(held: Native, sels: &Vec<Selector>) -> (r: Native)
    ensures
        r == selected_native(held, sels@),
{
    let current: Native = before_last_run(held, sels);
    let from: usize = last_run(sels);
    if from >= sels.len() || !current.is_array() {
        return current;
    }
    let one: usize = count_singles(sels, from);
    let rank: u32 = current.rank();
    if one == sels.len() - from && one as u64 == rank as u64 {
        return current.element();
    }
    let left: u32 = if rank as u64 > one as u64 && rank as u64 - one as u64 > 1 {
        (rank as u64 - one as u64) as u32
    } else {
        1
    };
    Native::Array(current.element().kind_tag(), left)
}

// ── ownership ───────────────────────────────────────────────────────────────

/// Whether a runtime function hands back a freshly allocated value, and of which kind.
///
/// Ownership is decided by the callee, not by where in the expression tree the call
/// happened to be made. The rank of an array is not needed: releasing only reads the count.
pub open spec fn allocated_by(f: Rt) -> Option<Native> {
    match f {
        Rt::ArrayNew | Rt::ArrayEmpty | Rt::ArrayShape | Rt::ArraySelectRun | Rt::ArrayElementwise
        | Rt::ArrayHadamard | Rt::ArrayDot | Rt::ArrayCross | Rt::ArrayTensor | Rt::ArrayRelate
        | Rt::ArrayUnary => Some(Native::Array(0, 1)),
        Rt::NumFromInt | Rt::NumFromDeci | Rt::NumFromRat | Rt::NumFromBool | Rt::NumBinary | Rt::NumUnary
        | Rt::ArraySum | Rt::ArrayGetNum => Some(Native::Num),
        _ => None,
    }
}

pub fn allocates(f: Rt) -> (r: Option<Native>)
    ensures
        r == allocated_by(f),
{
    match f {
        Rt::ArrayNew | Rt::ArrayEmpty | Rt::ArrayShape | Rt::ArraySelectRun | Rt::ArrayElementwise
        | Rt::ArrayHadamard | Rt::ArrayDot | Rt::ArrayCross | Rt::ArrayTensor | Rt::ArrayRelate
        | Rt::ArrayUnary => Some(Native::Array(0, 1)),
        Rt::NumFromInt | Rt::NumFromDeci | Rt::NumFromRat | Rt::NumFromBool | Rt::NumBinary | Rt::NumUnary
        | Rt::ArraySum | Rt::ArrayGetNum => Some(Native::Num),
        _ => None,
    }
}

// ── literals ────────────────────────────────────────────────────────────────

/// The shape a nested literal describes: `{{1,2},{3,4}}` is `[2, 2]`.
pub open spec fn literal_dims(items: Vec<Expr>) -> Seq<u64>
    decreases items,
{
    seq![items@.len() as u64] + (if items@.len() > 0 {
        match items@[0].kind {
            ExprKind::ArrayLit(inner) => literal_dims(inner),
            _ => Seq::<u64>::empty(),
        }
    } else {
        Seq::<u64>::empty()
    })
}

pub fn literal_shape(items: &Vec<Expr>) -> (r: Vec<u64>)
    ensures
        r@ == literal_dims(*items),
    decreases items,
{
    let mut dims: Vec<u64> = Vec::new();
    dims.push(items.len() as u64);
    if items.len() > 0 {
        match &items[0].kind {
            ExprKind::ArrayLit(inner) => {
                let mut more: Vec<u64> = literal_shape(inner);
                dims.append(&mut more);
            },
            _ => {},
        }
    }
    assert(dims@ =~= literal_dims(*items));
    dims
}

// ── names ───────────────────────────────────────────────────────────────────

pub open spec fn operator_text(op: BinOp) -> Seq<char> {
    match op {
        BinOp::Add => "Add"@,
        BinOp::Sub => "Sub"@,
        BinOp::Mul => "Mul"@,
        BinOp::Div => "Div"@,
        BinOp::IntDiv => "IntDiv"@,
        BinOp::Mod => "Mod"@,
        BinOp::Pow => "Pow"@,
        BinOp::Eq => "Eq"@,
        BinOp::NotEq => "NotEq"@,
        BinOp::Less => "Less"@,
        BinOp::Greater => "Greater"@,
        BinOp::LessEq => "LessEq"@,
        BinOp::GreaterEq => "GreaterEq"@,
        BinOp::And => "And"@,
        BinOp::Or => "Or"@,
        BinOp::Dot => "Dot"@,
        BinOp::Cross => "Cross"@,
        BinOp::Hadamard => "Hadamard"@,
        BinOp::Tensor => "Tensor"@,
    }
}

pub fn operator_name(op: BinOp) -> (r: &'static str)
    ensures
        r@ == operator_text(op),
{
    match op {
        BinOp::Add => "Add",
        BinOp::Sub => "Sub",
        BinOp::Mul => "Mul",
        BinOp::Div => "Div",
        BinOp::IntDiv => "IntDiv",
        BinOp::Mod => "Mod",
        BinOp::Pow => "Pow",
        BinOp::Eq => "Eq",
        BinOp::NotEq => "NotEq",
        BinOp::Less => "Less",
        BinOp::Greater => "Greater",
        BinOp::LessEq => "LessEq",
        BinOp::GreaterEq => "GreaterEq",
        BinOp::And => "And",
        BinOp::Or => "Or",
        BinOp::Dot => "Dot",
        BinOp::Cross => "Cross",
        BinOp::Hadamard => "Hadamard",
        BinOp::Tensor => "Tensor",
    }
}

/// A character that may stand in a symbol as it is.
pub open spec fn plain(c: char) -> bool {
    ('a' <= c && c <= 'z') || ('A' <= c && c <= 'Z') || ('0' <= c && c <= '9')
}

/// A character that a symbol may hold.
pub open spec fn legal(c: char) -> bool {
    plain(c) || c == '_'
}

pub open spec fn hex_digit(d: int) -> char {
    if d == 0 {
        '0'
    } else if d == 1 {
        '1'
    } else if d == 2 {
        '2'
    } else if d == 3 {
        '3'
    } else if d == 4 {
        '4'
    } else if d == 5 {
        '5'
    } else if d == 6 {
        '6'
    } else if d == 7 {
        '7'
    } else if d == 8 {
        '8'
    } else if d == 9 {
        '9'
    } else if d == 10 {
        'a'
    } else if d == 11 {
        'b'
    } else if d == 12 {
        'c'
    } else if d == 13 {
        'd'
    } else if d == 14 {
        'e'
    } else {
        'f'
    }
}

/// A number in base sixteen, without leading zeros.
pub open spec fn hex_text(n: nat) -> Seq<char>
    decreases n,
{
    if n < 16 {
        seq![hex_digit(n as int)]
    } else {
        hex_text(n / 16).push(hex_digit((n % 16) as int))
    }
}

pub open spec fn symbol_part(c: char) -> Seq<char> {
    if plain(c) {
        seq![c]
    } else {
        seq!['_'] + hex_text(c as u32 as nat) + seq!['_']
    }
}

pub open spec fn symbol_parts(name: Seq<char>) -> Seq<char>
    decreases name.len(),
{
    if name.len() == 0 {
        Seq::empty()
    } else {
        symbol_parts(name.drop_last()) + symbol_part(name.last())
    }
}

/// The symbol of a function of the program. AHPCL names may contain anything, so whatever is
/// no letter and no digit is spelled out between two `_`.
pub open spec fn mangled(name: Seq<char>) -> Seq<char> {
    "ahpcl_"@ + symbol_parts(name)
}

fn hex_char(d: u32) -> (r: char)
    requires
        d < 16,
    ensures
        r == hex_digit(d as int),
{
    if d == 0 {
        '0'
    } else if d == 1 {
        '1'
    } else if d == 2 {
        '2'
    } else if d == 3 {
        '3'
    } else if d == 4 {
        '4'
    } else if d == 5 {
        '5'
    } else if d == 6 {
        '6'
    } else if d == 7 {
        '7'
    } else if d == 8 {
        '8'
    } else if d == 9 {
        '9'
    } else if d == 10 {
        'a'
    } else if d == 11 {
        'b'
    } else if d == 12 {
        'c'
    } else if d == 13 {
        'd'
    } else if d == 14 {
        'e'
    } else {
        'f'
    }
}

fn push_hex(out: &mut String, n: u32)
    ensures
        final(out)@ == old(out)@ + hex_text(n as nat),
    decreases n,
{
    if n >= 16 {
        push_hex(out, n / 16);
    }
    out.push(hex_char(n % 16));
    assert(out@ =~= old(out)@ + hex_text(n as nat));
}

pub fn mangle(name: &str) -> (r: String)
    ensures
        r@ == mangled(name@),
{
    let chars: Vec<char> = chars_of(name);
    let mut out: String = "ahpcl_".to_owned();
    let mut i: usize = 0;
    assert(out@ + symbol_parts(name@.take(0)) =~= out@);
    while i < chars.len()
        invariant
            i <= chars.len(),
            chars@ == name@,
            out@ == "ahpcl_"@ + symbol_parts(name@.take(i as int)),
        decreases chars.len() - i,
    {
        let c: char = chars[i];
        assert(name@.take(i as int + 1).drop_last() =~= name@.take(i as int));
        if (c >= 'a' && c <= 'z') || (c >= 'A' && c <= 'Z') || (c >= '0' && c <= '9') {
            out.push(c);
        } else {
            out.push('_');
            push_hex(&mut out, c as u32);
            out.push('_');
        }
        assert(out@ =~= "ahpcl_"@ + symbol_parts(name@.take(i as int + 1)));
        i = i + 1;
    }
    assert(name@.take(name@.len() as int) =~= name@);
    out
}

// ── laws ────────────────────────────────────────────────────────────────────

proof fn lemma_hex_is_plain(n: nat)
    ensures
        forall|i: int| 0 <= i < hex_text(n).len() ==> plain(#[trigger] hex_text(n)[i]),
    decreases n,
{
    if n >= 16 {
        lemma_hex_is_plain(n / 16);
        let head = hex_text(n / 16);
        assert forall|i: int| 0 <= i < hex_text(n).len() implies plain(#[trigger] hex_text(n)[i]) by {
            if i < head.len() {
                assert(hex_text(n)[i] == head[i]);
            }
        }
    }
}

proof fn lemma_part_is_legal(c: char)
    ensures
        symbol_part(c).len() > 0,
        forall|i: int| 0 <= i < symbol_part(c).len() ==> legal(#[trigger] symbol_part(c)[i]),
{
    let hex = hex_text(c as u32 as nat);
    lemma_hex_is_plain(c as u32 as nat);
    let part = symbol_part(c);
    assert forall|i: int| 0 <= i < part.len() implies legal(#[trigger] part[i]) by {
        if !plain(c) && 0 < i < part.len() - 1 {
            assert(part[i] == hex[i - 1]);
        }
    }
}

proof fn lemma_parts_are_legal(name: Seq<char>)
    ensures
        forall|i: int| 0 <= i < symbol_parts(name).len() ==> legal(#[trigger] symbol_parts(name)[i]),
    decreases name.len(),
{
    if name.len() > 0 {
        lemma_parts_are_legal(name.drop_last());
        lemma_part_is_legal(name.last());
        let head = symbol_parts(name.drop_last());
        let tail = symbol_part(name.last());
        let all = symbol_parts(name);
        assert forall|i: int| 0 <= i < all.len() implies legal(#[trigger] all[i]) by {
            if i < head.len() {
                assert(all[i] == head[i]);
            } else {
                assert(all[i] == tail[i - head.len()]);
            }
        }
    }
}

/// Whatever a name holds, its symbol is made of letters, digits and `_` alone, and begins
/// as every symbol of the language does.
pub proof fn symbols_are_legal(name: Seq<char>)
    ensures
        forall|i: int| 0 <= i < mangled(name).len() ==> legal(#[trigger] mangled(name)[i]),
        mangled(name).take(6) == "ahpcl_"@,
{
    reveal_strlit("ahpcl_");
    lemma_parts_are_legal(name);
    assert(mangled(name).take(6) =~= "ahpcl_"@);
}

/// The number that a run of digits in base sixteen spells.
spec fn hex_value(s: Seq<char>) -> int
    decreases s.len(),
{
    if s.len() == 0 {
        0
    } else {
        hex_value(s.drop_last()) * 16 + hex_worth(s.last())
    }
}

spec fn hex_worth(c: char) -> int {
    if c <= '9' {
        c as u32 - '0' as u32
    } else {
        c as u32 - 'a' as u32 + 10
    }
}

proof fn lemma_hex_reads_back(n: nat)
    ensures
        hex_value(hex_text(n)) == n,
    decreases n,
{
    if n < 16 {
        let s = hex_text(n);
        assert(s.drop_last() =~= Seq::<char>::empty());
        assert(hex_value(s.drop_last()) == 0);
    } else {
        lemma_hex_reads_back(n / 16);
        assert(hex_text(n).drop_last() =~= hex_text(n / 16));
    }
}

/// How the last character of a symbol tells which part it ends.
proof fn lemma_last_part(a: Seq<char>, x: char, b: Seq<char>, y: char)
    requires
        symbol_parts(a) + symbol_part(x) == symbol_parts(b) + symbol_part(y),
    ensures
        x == y,
        symbol_parts(a) == symbol_parts(b),
{
    let p = symbol_part(x);
    let q = symbol_part(y);
    let u = symbol_parts(a) + p;
    let v = symbol_parts(b) + q;
    let n = u.len() as int;
    lemma_part_is_legal(x);
    lemma_part_is_legal(y);
    assert(u[n - 1] == p[p.len() - 1]);
    assert(v[n - 1] == q[q.len() - 1]);
    if plain(x) {
        assert(p[0] == x);
        if !plain(y) {
            assert(q[q.len() - 1] == '_');
            assert(false);
        }
        assert(q[0] == y);
        assert(u.take(n - 1) =~= symbol_parts(a));
        assert(v.take(n - 1) =~= symbol_parts(b));
    } else {
        assert(p[p.len() - 1] == '_');
        if plain(y) {
            assert(q[0] == y);
            assert(false);
        }
        let h = hex_text(x as u32 as nat);
        let k = hex_text(y as u32 as nat);
        lemma_hex_is_plain(x as u32 as nat);
        lemma_hex_is_plain(y as u32 as nat);
        if h.len() < k.len() {
            assert(u[n - 2 - h.len()] == p[0]);
            assert(v[n - 2 - h.len()] == q[q.len() - 2 - h.len()]);
            assert(q[q.len() - 2 - h.len()] == k[k.len() - 1 - h.len()]);
            assert(plain(k[k.len() - 1 - h.len()]));
            assert(false);
        }
        if k.len() < h.len() {
            assert(v[n - 2 - k.len()] == q[0]);
            assert(u[n - 2 - k.len()] == p[p.len() - 2 - k.len()]);
            assert(p[p.len() - 2 - k.len()] == h[h.len() - 1 - k.len()]);
            assert(plain(h[h.len() - 1 - k.len()]));
            assert(false);
        }
        let m = n - p.len();
        assert(u.skip(m) =~= p);
        assert(v.skip(m) =~= q);
        assert(p.subrange(1, 1 + h.len() as int) =~= h);
        assert(q.subrange(1, 1 + h.len() as int) =~= k);
        lemma_hex_reads_back(x as u32 as nat);
        lemma_hex_reads_back(y as u32 as nat);
        assert(x as u32 == y as u32);
        assert(u.take(m) =~= symbol_parts(a));
        assert(v.take(m) =~= symbol_parts(b));
    }
}

proof fn lemma_parts_keep_apart(a: Seq<char>, b: Seq<char>)
    requires
        symbol_parts(a) == symbol_parts(b),
    ensures
        a == b,
    decreases a.len(),
{
    if a.len() == 0 {
        if b.len() > 0 {
            lemma_part_is_legal(b.last());
            assert(symbol_parts(b).len() > 0);
        }
        assert(a =~= b);
    } else {
        lemma_part_is_legal(a.last());
        assert(symbol_parts(a).len() > 0);
        assert(b.len() > 0);
        lemma_last_part(a.drop_last(), a.last(), b.drop_last(), b.last());
        lemma_parts_keep_apart(a.drop_last(), b.drop_last());
        assert(a =~= a.drop_last().push(a.last()));
        assert(b =~= b.drop_last().push(b.last()));
    }
}

/// Mangling stays unambiguous: names that differ have symbols that differ.
pub proof fn names_keep_apart(a: Seq<char>, b: Seq<char>)
    requires
        a != b,
    ensures
        mangled(a) != mangled(b),
{
    let p = "ahpcl_"@;
    if mangled(a) == mangled(b) {
        assert((p + symbol_parts(a)).skip(p.len() as int) =~= symbol_parts(a));
        assert((p + symbol_parts(b)).skip(p.len() as int) =~= symbol_parts(b));
        lemma_parts_keep_apart(a, b);
    }
}

/// A value read out of an array by one index per dimension is one of its elements, and an
/// array asked for whole stays as it is.
pub proof fn full_indexing_reads_an_element(held: Native, s: Seq<Selector>)
    requires
        array_like(held),
        s.len() == rank_of(held),
        s.len() > 0,
        forall|i: int| 0 <= i < s.len() ==> single_index(#[trigger] s[i]),
    ensures
        selected_native(held, s) == element_of(held),
        selected_native(held, Seq::empty()) == held,
{
    lemma_all_single(held, s, s.len());
}

proof fn lemma_all_single(held: Native, s: Seq<Selector>, n: nat)
    requires
        n <= s.len(),
        forall|i: int| 0 <= i < s.len() ==> single_index(#[trigger] s[i]),
    ensures
        run_start(s, n) == 0,
        answered(held, s, n) == held,
        singles(s, 0, n) == n,
    decreases n,
{
    if n > 0 {
        assert(single_index(s[n - 1]));
        lemma_all_single(held, s, (n - 1) as nat);
    }
}

} // verus!
