//! The type system.
//!
//! The numeric families nest, and a narrower type is accepted where a wider one is
//! expected:
//!
//! ```text
//!         num
//!          |
//!         rat
//!          |
//!         deci
//!          |
//!         int
//! ```
//!
//! It follows the mathematics: every integer is a rational (`5` is `5/1`), every
//! terminating decimal is a rational (`2.5` is `5/2`), but not every rational is a
//! decimal (`1/3` is not). Sign refinements are orthogonal: `+int` is an `int` with an
//! extra promise.

use vstd::prelude::*;
use vstd::string::*;

use crate::ast::{rank_dimensions, Dim, Precision, Rank, Sign, TypeRef};
use crate::eval::value::comma_separated;
use crate::text::{cat2, cat5, nat_text, same_text, u128_text};

verus! {

#[derive(Debug, Clone, Copy, PartialEq, Eq, Structural)]
pub enum Base {
    Num,
    Rat,
    Deci,
    Int,
    /// Arbitrary precision. Spelled `infnum` or `∞num`.
    InfNum,
    Str,
    /// Non-numerical array.
    Nna,
    Bool,
    /// The type of a function that hands nothing back.
    Nothing,
}

pub open spec fn base_named(name: Seq<char>) -> Option<Base> {
    if name == "num"@ {
        Some(Base::Num)
    } else if name == "rat"@ {
        Some(Base::Rat)
    } else if name == "deci"@ {
        Some(Base::Deci)
    } else if name == "int"@ {
        Some(Base::Int)
    } else if name == "infnum"@ || name == "∞num"@ {
        Some(Base::InfNum)
    } else if name == "str"@ {
        Some(Base::Str)
    } else if name == "nna"@ {
        Some(Base::Nna)
    } else if name == "bool"@ {
        Some(Base::Bool)
    } else if name == "none"@ {
        Some(Base::Nothing)
    } else {
        None
    }
}

pub open spec fn base_text(b: Base) -> Seq<char> {
    match b {
        Base::Num => "num"@,
        Base::Rat => "rat"@,
        Base::Deci => "deci"@,
        Base::Int => "int"@,
        Base::InfNum => "infnum"@,
        Base::Str => "str"@,
        Base::Nna => "nna"@,
        Base::Bool => "bool"@,
        Base::Nothing => "none"@,
    }
}

/// Position on the numeric ladder. Lower is narrower, so it fits anywhere wider.
///
/// `infnum` sits alongside `rat`: it is exact and unbounded, so it holds any integer or
/// rational, but not an irrational.
pub open spec fn rung(b: Base) -> Option<u8> {
    match b {
        Base::Int => Some(0),
        Base::Deci => Some(1),
        Base::Rat => Some(2),
        Base::InfNum => Some(2),
        Base::Num => Some(3),
        _ => None,
    }
}

pub open spec fn base_fits(a: Base, b: Base) -> bool {
    a == b || match (rung(a), rung(b)) {
        (Some(x), Some(y)) => x <= y,
        _ => false,
    }
}

/// The narrowest type holding both.
pub open spec fn joined_base(a: Base, b: Base) -> Option<Base> {
    if a == b {
        Some(a)
    } else {
        match (rung(a), rung(b)) {
            (Some(x), Some(y)) => Some(
                if x >= y {
                    a
                } else {
                    b
                },
            ),
            _ => None,
        }
    }
}

impl Base {
    pub fn from_name(name: &str) -> (r: Option<Base>)
        ensures
            r == base_named(name@),
    {
        if same_text(name, "num") {
            Some(Base::Num)
        } else if same_text(name, "rat") {
            Some(Base::Rat)
        } else if same_text(name, "deci") {
            Some(Base::Deci)
        } else if same_text(name, "int") {
            Some(Base::Int)
        } else if same_text(name, "infnum") || same_text(name, "∞num") {
            Some(Base::InfNum)
        } else if same_text(name, "str") {
            Some(Base::Str)
        } else if same_text(name, "nna") {
            Some(Base::Nna)
        } else if same_text(name, "bool") {
            Some(Base::Bool)
        } else if same_text(name, "none") {
            Some(Base::Nothing)
        } else {
            None
        }
    }

    pub fn name(self) -> (r: &'static str)
        ensures
            r@ == base_text(self),
    {
        match self {
            Base::Num => "num",
            Base::Rat => "rat",
            Base::Deci => "deci",
            Base::Int => "int",
            Base::InfNum => "infnum",
            Base::Str => "str",
            Base::Nna => "nna",
            Base::Bool => "bool",
            Base::Nothing => "none",
        }
    }

    pub fn is_numeric(self) -> (r: bool)
        ensures
            r == (rung(self) is Some),
    {
        match self {
            Base::Num => true,
            Base::Rat => true,
            Base::Deci => true,
            Base::Int => true,
            Base::InfNum => true,
            _ => false,
        }
    }

    fn ladder(self) -> (r: Option<u8>)
        ensures
            r == rung(self),
    {
        match self {
            Base::Int => Some(0),
            Base::Deci => Some(1),
            Base::Rat => Some(2),
            Base::InfNum => Some(2),
            Base::Num => Some(3),
            _ => None,
        }
    }

    /// Whether a value of `self` may be used where `target` is expected.
    pub fn fits_in(self, target: Base) -> (r: bool)
        ensures
            r == base_fits(self, target),
    {
        if self == target {
            return true;
        }
        match (self.ladder(), target.ladder()) {
            (Some(a), Some(b)) => a <= b,
            _ => false,
        }
    }

    /// The narrowest type holding both. Used for the result of mixed arithmetic.
    pub fn join(self, other: Base) -> (r: Option<Base>)
        ensures
            r == joined_base(self, other),
    {
        if self == other {
            return Some(self);
        }
        match (self.ladder(), other.ladder()) {
            (Some(a), Some(b)) => Some(
                if a >= b {
                    self
                } else {
                    other
                },
            ),
            _ => None,
        }
    }
}

// ── shapes ──────────────────────────────────────────────────────────────────

/// A shape, one entry per dimension. `Dim::Unknown` is `?`.
#[derive(Debug)]
pub struct Shape(pub Vec<Dim>);

impl View for Shape {
    type V = Seq<Dim>;

    open spec fn view(&self) -> Seq<Dim> {
        self.0@
    }
}

/// The product of the first `n` dimensions, where all of them are known.
pub open spec fn known_product(dims: Seq<Dim>, n: nat) -> Option<nat>
    decreases n,
{
    if n == 0 {
        Some(1)
    } else {
        match (known_product(dims, (n - 1) as nat), dims[n - 1]) {
            (Some(p), Dim::Known(k)) => Some(p * k as nat),
            _ => None,
        }
    }
}

/// Whether two dimensions contradict each other. `?` contradicts nothing.
pub open spec fn dims_agree(a: Dim, b: Dim) -> bool {
    match (a, b) {
        (Dim::Known(x), Dim::Known(y)) => x == y,
        _ => true,
    }
}

/// Two shapes agree when no *known* dimension contradicts the other.
pub open spec fn shapes_agree(a: Seq<Dim>, b: Seq<Dim>) -> bool {
    &&& a.len() == b.len()
    &&& forall|i: int| 0 <= i < a.len() ==> dims_agree(#[trigger] a[i], b[i])
}

pub open spec fn dim_text(d: Dim) -> Seq<char> {
    match d {
        Dim::Known(n) => nat_text(n as nat),
        Dim::Unknown => "?"@,
    }
}

pub open spec fn dim_texts(dims: Seq<Dim>) -> Seq<Seq<char>> {
    Seq::new(dims.len(), |i: int| dim_text(dims[i]))
}

pub open spec fn shape_words(dims: Seq<Dim>) -> Seq<char> {
    "["@ + comma_separated(dim_texts(dims)) + "]"@
}

pub open spec fn shape_rank_text(dims: Seq<Dim>) -> Seq<char> {
    if dims.len() == 1 {
        "vector"@
    } else if dims.len() == 2 {
        "matrix"@
    } else {
        "tensor"@
    }
}

impl Shape {
    pub fn rank(&self) -> (r: usize)
        ensures
            r == self@.len(),
    {
        self.0.len()
    }

    /// Total element count, when every dimension is known; nothing where it does not fit.
    pub fn total(&self) -> (r: Option<u64>)
        ensures
            match known_product(self@, self@.len()) {
                Some(p) => r == if all_products_fit(self@, self@.len()) { Some(p as u64) } else { None },
                None => r is None,
            },
    {
        let mut acc: u64 = 1;
        let mut i: usize = 0;
        while i < self.0.len()
            invariant
                i <= self.0.len(),
                known_product(self@, i as nat) == Some(acc as nat),
                all_products_fit(self@, i as nat),
            decreases self.0.len() - i,
        {
            match self.0[i] {
                Dim::Known(n) => match acc.checked_mul(n) {
                    Some(p) => {
                        acc = p;
                    },
                    None => {
                        proof {
                            lemma_products_stay_unfit(self@, (i + 1) as nat, self@.len());
                        }
                        return None;
                    },
                },
                Dim::Unknown => {
                    proof {
                        lemma_product_stays_unknown(self@, (i + 1) as nat, self@.len());
                    }
                    return None;
                },
            }
            i = i + 1;
        }
        Some(acc)
    }

    /// Two shapes agree when no *known* dimension contradicts the other. `?` matches
    /// anything, which is what makes partial shapes useful.
    pub fn agrees_with(&self, other: &Shape) -> (r: bool)
        ensures
            r == shapes_agree(self@, other@),
    {
        if self.0.len() != other.0.len() {
            return false;
        }
        let mut i: usize = 0;
        while i < self.0.len()
            invariant
                i <= self.0.len(),
                self.0.len() == other.0.len(),
                forall|j: int| 0 <= j < i ==> dims_agree(#[trigger] self@[j], other@[j]),
            decreases self.0.len() - i,
        {
            let same: bool = match (self.0[i], other.0[i]) {
                (Dim::Known(x), Dim::Known(y)) => x == y,
                _ => true,
            };
            if !same {
                assert(!dims_agree(self@[i as int], other@[i as int]));
                return false;
            }
            i = i + 1;
        }
        true
    }

    pub fn render(&self) -> (r: String)
        ensures
            r@ == shape_words(self@),
    {
        let mut out: String = "[".to_owned();
        let mut i: usize = 0;
        let ghost texts = dim_texts(self@);
        assert(texts.take(0) =~= Seq::empty());
        assert("["@ + Seq::<char>::empty() =~= "["@);
        while i < self.0.len()
            invariant
                i <= self.0.len(),
                texts == dim_texts(self@),
                out@ =~= "["@ + comma_separated(texts.take(i as int)),
            decreases self.0.len() - i,
        {
            if i > 0 {
                out.append(", ");
            }
            let t: String = match self.0[i] {
                Dim::Known(n) => u128_text(n as u128),
                Dim::Unknown => "?".to_owned(),
            };
            out.append(t.as_str());
            proof {
                let next = texts.take(i as int + 1);
                assert(next.drop_last() =~= texts.take(i as int));
                assert(next.last() == t@);
            }
            i = i + 1;
        }
        out.append("]");
        assert(texts.take(texts.len() as int) =~= texts);
        out
    }

    pub fn rank_name(&self) -> (r: &'static str)
        ensures
            r@ == shape_rank_text(self@),
    {
        match self.0.len() {
            1 => "vector",
            2 => "matrix",
            _ => "tensor",
        }
    }

    /// Another shape of the same dimensions.
    pub fn copied(&self) -> (r: Shape)
        ensures
            r@ == self@,
    {
        Shape(copied_dims(&self.0))
    }
}

pub fn copied_dims(dims: &Vec<Dim>) -> (r: Vec<Dim>)
    ensures
        r@ == dims@,
{
    let mut out: Vec<Dim> = Vec::new();
    let mut i: usize = 0;
    while i < dims.len()
        invariant
            i <= dims.len(),
            out@ == dims@.take(i as int),
        decreases dims.len() - i,
    {
        out.push(dims[i]);
        i = i + 1;
        assert(out@ =~= dims@.take(i as int));
    }
    assert(dims@.take(dims@.len() as int) =~= dims@);
    out
}

/// Whether each product of the first dimensions fits in 64 bits.
pub open spec fn all_products_fit(dims: Seq<Dim>, n: nat) -> bool {
    forall|k: nat| k <= n ==> (#[trigger] known_product(dims, k) matches Some(p) ==> p <= u64::MAX)
}

proof fn lemma_products_stay_unfit(dims: Seq<Dim>, k: nat, n: nat)
    requires
        k <= n,
        known_product(dims, k) matches Some(p) && p > u64::MAX,
    ensures
        !all_products_fit(dims, n),
{
}

proof fn lemma_product_stays_unknown(dims: Seq<Dim>, k: nat, n: nat)
    requires
        k <= n,
        known_product(dims, k) is None,
    ensures
        known_product(dims, n) is None,
    decreases n,
{
    if k < n {
        lemma_product_stays_unknown(dims, k, (n - 1) as nat);
    }
}

// ── types ───────────────────────────────────────────────────────────────────

#[derive(Debug)]
pub struct Type {
    pub base: Base,
    pub sign: Option<Sign>,
    /// `None` for a scalar.
    pub shape: Option<Shape>,
    pub precision: Option<Precision>,
}

/// A type as contracts speak of it.
#[verifier::ext_equal]
pub struct TypeView {
    pub base: Base,
    pub sign: Option<Sign>,
    pub shape: Option<Seq<Dim>>,
    pub precision: Option<Precision>,
}

pub open spec fn dims_of(s: Option<Shape>) -> Option<Seq<Dim>> {
    match s {
        Some(d) => Some(d@),
        None => None,
    }
}

impl View for Type {
    type V = TypeView;

    open spec fn view(&self) -> TypeView {
        TypeView { base: self.base, sign: self.sign, shape: dims_of(self.shape), precision: self.precision }
    }
}

pub open spec fn scalar_type(base: Base) -> TypeView {
    TypeView { base, sign: None, shape: None, precision: None }
}

pub open spec fn element_type(t: TypeView) -> TypeView {
    TypeView { shape: None, ..t }
}

/// A narrower sign satisfies a wider one, never the reverse.
pub open spec fn sign_kept(from: Option<Sign>, to: Option<Sign>) -> bool {
    to is None || from == to
}

pub open spec fn type_fits(a: TypeView, b: TypeView) -> bool {
    &&& base_fits(a.base, b.base)
    &&& sign_kept(a.sign, b.sign)
    &&& match (a.shape, b.shape) {
        (None, None) => true,
        (Some(x), Some(y)) => shapes_agree(x, y),
        _ => false,
    }
}

/// Strictly narrower, so passing it widens.
pub open spec fn type_widens(a: TypeView, b: TypeView) -> bool {
    type_fits(a, b) && (a.base != b.base || a.sign != b.sign)
}

pub open spec fn sign_mark(s: Option<Sign>) -> Seq<char> {
    match s {
        Some(Sign::Positive) => "+"@,
        Some(Sign::Negative) => "-"@,
        None => ""@,
    }
}

pub open spec fn type_text(t: TypeView) -> Seq<char> {
    match t.shape {
        Some(dims) => shape_rank_text(dims) + ":"@ + sign_mark(t.sign) + base_text(t.base) + " "@ + shape_words(dims),
        None => sign_mark(t.sign) + base_text(t.base),
    }
}

fn sign_prefix(s: Option<Sign>) -> (r: &'static str)
    ensures
        r@ == sign_mark(s),
{
    match s {
        Some(Sign::Positive) => "+",
        Some(Sign::Negative) => "-",
        None => "",
    }
}

/// A narrower sign satisfies a wider one, never the reverse.
pub fn sign_fits(from: Option<Sign>, to: Option<Sign>) -> (r: bool)
    ensures
        r == sign_kept(from, to),
{
    match (from, to) {
        (_, None) => true,
        (Some(a), Some(b)) => a == b,
        (None, Some(_)) => false,
    }
}

impl Type {
    pub fn scalar(base: Base) -> (r: Type)
        ensures
            r@ == scalar_type(base),
    {
        Type { base, sign: None, shape: None, precision: None }
    }

    pub fn is_array(&self) -> (r: bool)
        ensures
            r == (self@.shape is Some),
    {
        self.shape.is_some()
    }

    /// The element type of an array, or the type itself for a scalar.
    pub fn element(&self) -> (r: Type)
        ensures
            r@ == element_type(self@),
    {
        Type { base: self.base, sign: self.sign, shape: None, precision: self.precision }
    }

    /// Another type that is the same.
    pub fn copied(&self) -> (r: Type)
        ensures
            r@ == self@,
    {
        let shape: Option<Shape> = match &self.shape {
            Some(s) => Some(s.copied()),
            None => None,
        };
        Type { base: self.base, sign: self.sign, shape, precision: self.precision }
    }

    /// Whether a value of this type may be used where `target` is expected.
    ///
    /// Narrower goes in fine, because it is a promise. The reverse does not: a
    /// function demanding `+num` will not take a plain `num`, which might be negative.
    pub fn fits_in(&self, target: &Type) -> (r: bool)
        ensures
            r == type_fits(self@, target@),
    {
        if !self.base.fits_in(target.base) {
            return false;
        }
        if !sign_fits(self.sign, target.sign) {
            return false;
        }
        match (&self.shape, &target.shape) {
            (None, None) => true,
            (Some(a), Some(b)) => a.agrees_with(b),
            _ => false,
        }
    }

    /// True when this is strictly narrower, so passing it widens. The Informer
    /// reports every widening.
    pub fn widens_to(&self, target: &Type) -> (r: bool)
        ensures
            r == type_widens(self@, target@),
    {
        let same_sign: bool = match (self.sign, target.sign) {
            (None, None) => true,
            (Some(a), Some(b)) => a == b,
            _ => false,
        };
        self.fits_in(target) && (self.base != target.base || !same_sign)
    }

    pub fn render(&self) -> (r: String)
        ensures
            r@ == type_text(self@),
    {
        let sign: &str = sign_prefix(self.sign);
        match &self.shape {
            Some(shape) => {
                let mut out: String = cat5(shape.rank_name(), ":", sign, self.base.name(), " ");
                out.append(shape.render().as_str());
                out
            },
            None => cat2(sign, self.base.name()),
        }
    }
}

/// `n` dimensions of unknown length.
pub open spec fn unknown_dims(n: nat) -> Seq<Dim> {
    Seq::new(n, |i: int| Dim::Unknown)
}

pub fn open_dims(n: usize) -> (r: Vec<Dim>)
    ensures
        r@ == unknown_dims(n as nat),
{
    let mut out: Vec<Dim> = Vec::new();
    let mut i: usize = 0;
    while i < n
        invariant
            i <= n,
            out@ =~= unknown_dims(i as nat),
        decreases n - i,
    {
        out.push(Dim::Unknown);
        i = i + 1;
    }
    assert(out@ =~= unknown_dims(n as nat));
    out
}

pub open spec fn dims_view(s: Option<Vec<Dim>>) -> Option<Seq<Dim>> {
    match s {
        Some(d) => Some(d@),
        None => None,
    }
}

/// The type that a written type stands for; nothing where its base is no type.
///
/// A rank name makes the type an array even when no shape is written, and `nna` is an
/// array by definition.
pub open spec fn written_type(ty: TypeRef, shape: Option<Seq<Dim>>, precision: Option<Precision>) -> Option<TypeView> {
    match base_named(ty.base@) {
        None => None,
        Some(base) => Some(
            TypeView {
                base,
                sign: ty.sign,
                shape: match (shape, ty.rank) {
                    (Some(dims), _) => Some(dims),
                    (None, Some(rank)) => Some(
                        unknown_dims(
                            match rank_dimensions(rank) {
                                Some(n) => n as nat,
                                None => 3,
                            },
                        ),
                    ),
                    (None, None) => if base == Base::Nna {
                        Some(unknown_dims(1))
                    } else {
                        None
                    },
                },
                precision,
            },
        ),
    }
}

pub open spec fn type_option(t: Option<Type>) -> Option<TypeView> {
    match t {
        Some(t) => Some(t@),
        None => None,
    }
}

/// Build a checker type from a syntactic one. `None` when the base name is unknown.
///
/// A rank name makes the type an array even when no shape is written: `vector:num`
/// with no `[…]` is a vector of unknown length, which is what lets a literal or a
/// comprehension determine the shape.
pub fn from_type_ref(ty: &TypeRef, shape: &Option<Vec<Dim>>, precision: Option<Precision>) -> (r: Option<Type>)
    ensures
        type_option(r) == written_type(*ty, dims_view(*shape), precision),
{
    let base: Base = match Base::from_name(ty.base.as_str()) {
        Some(b) => b,
        None => {
            return None;
        },
    };
    let dims: Option<Shape> = match (shape, ty.rank) {
        (Some(d), _) => Some(Shape(copied_dims(d))),
        (None, Some(rank)) => {
            let n: usize = match rank.dimensions() {
                Some(n) => n,
                None => 3,
            };
            Some(Shape(open_dims(n)))
        },
        (None, None) => if base == Base::Nna {
            Some(Shape(open_dims(1)))
        } else {
            None
        },
    };
    Some(Type { base, sign: ty.sign, shape: dims, precision })
}

/// Whether a rank name and a shape say the same.
pub open spec fn rank_agrees(rank: Rank, dims: Seq<Dim>) -> bool {
    match rank_dimensions(rank) {
        Some(n) => dims.len() == n,
        None => dims.len() >= 3,
    }
}

/// The rank name and the shape cross-check each other.
pub fn rank_matches(rank: Rank, shape: &Shape) -> (r: bool)
    ensures
        r == rank_agrees(rank, shape@),
{
    match rank.dimensions() {
        Some(n) => shape.rank() == n,
        None => shape.rank() >= 3,
    }
}

// ── the sign algebra ────────────────────────────────────────────────────────

/// Whether a number keeps a sign promise.
pub open spec fn keeps_sign(s: Option<Sign>, v: int) -> bool {
    match s {
        Some(Sign::Positive) => v > 0,
        Some(Sign::Negative) => v < 0,
        None => true,
    }
}

pub open spec fn added_sign(a: Option<Sign>, b: Option<Sign>) -> Option<Sign> {
    if a == b {
        a
    } else {
        None
    }
}

pub open spec fn multiplied_sign(a: Option<Sign>, b: Option<Sign>) -> Option<Sign> {
    match (a, b) {
        (Some(x), Some(y)) => if x == y {
            Some(Sign::Positive)
        } else {
            Some(Sign::Negative)
        },
        _ => None,
    }
}

pub open spec fn raised_sign(base: Option<Sign>) -> Option<Sign> {
    match base {
        Some(Sign::Positive) => Some(Sign::Positive),
        _ => None,
    }
}

pub open spec fn negated_sign(a: Option<Sign>) -> Option<Sign> {
    match a {
        Some(Sign::Positive) => Some(Sign::Negative),
        Some(Sign::Negative) => Some(Sign::Positive),
        None => None,
    }
}

/// The sign of a sum. Two positives stay positive; mixed signs are unknowable.
pub fn sign_add(a: Option<Sign>, b: Option<Sign>) -> (r: Option<Sign>)
    ensures
        r == added_sign(a, b),
{
    match (a, b) {
        (Some(Sign::Positive), Some(Sign::Positive)) => Some(Sign::Positive),
        (Some(Sign::Negative), Some(Sign::Negative)) => Some(Sign::Negative),
        _ => None,
    }
}

/// Subtraction **always** widens: `7 - 7` is 0 and `5 - 10` is negative, so even
/// `+int - +int` is only `int`.
pub fn sign_sub(_a: Option<Sign>, _b: Option<Sign>) -> (r: Option<Sign>)
    ensures
        r is None,
{
    None
}

/// Two negatives multiply positive.
pub fn sign_mul(a: Option<Sign>, b: Option<Sign>) -> (r: Option<Sign>)
    ensures
        r == multiplied_sign(a, b),
{
    match (a, b) {
        (Some(Sign::Positive), Some(Sign::Positive)) => Some(Sign::Positive),
        (Some(Sign::Negative), Some(Sign::Negative)) => Some(Sign::Positive),
        (Some(Sign::Positive), Some(Sign::Negative)) => Some(Sign::Negative),
        (Some(Sign::Negative), Some(Sign::Positive)) => Some(Sign::Negative),
        _ => None,
    }
}

/// `(-2)²` is positive and `(-2)³` is not, and the parity is not known from the sign
/// alone, so a negative base gives an unknown sign.
pub fn sign_pow(base: Option<Sign>) -> (r: Option<Sign>)
    ensures
        r == raised_sign(base),
{
    match base {
        Some(Sign::Positive) => Some(Sign::Positive),
        _ => None,
    }
}

pub fn sign_neg(a: Option<Sign>) -> (r: Option<Sign>)
    ensures
        r == negated_sign(a),
{
    match a {
        Some(Sign::Positive) => Some(Sign::Negative),
        Some(Sign::Negative) => Some(Sign::Positive),
        None => None,
    }
}

// ── laws ────────────────────────────────────────────────────────────────────

/// Fitting among base types is reflexive and transitive.
pub proof fn fitting_is_a_preorder(a: Base, b: Base, c: Base)
    ensures
        base_fits(a, a),
        base_fits(a, b) && base_fits(b, c) ==> base_fits(a, c),
{
}

/// Two types join exactly when both are numbers or both are the same, and both fit into
/// what they join to.
pub proof fn a_join_holds_both(a: Base, b: Base)
    ensures
        joined_base(a, b) is Some <==> a == b || (rung(a) is Some && rung(b) is Some),
        joined_base(a, b) matches Some(j) ==> base_fits(a, j) && base_fits(b, j),
{
}

/// Nothing narrower than a join holds both.
pub proof fn a_join_is_the_narrowest(a: Base, b: Base, c: Base)
    requires
        base_fits(a, c),
        base_fits(b, c),
    ensures
        joined_base(a, b) matches Some(j) ==> base_fits(j, c),
{
}

/// Text, truth values and numbers never stand in for one another.
pub proof fn families_do_not_mix(a: Base, b: Base)
    requires
        base_fits(a, b),
        a != b,
    ensures
        rung(a) is Some,
        rung(b) is Some,
{
}

/// Agreement of shapes does not depend on the order, and a shape agrees with itself.
pub proof fn agreement_is_symmetric(a: Seq<Dim>, b: Seq<Dim>)
    ensures
        shapes_agree(a, b) == shapes_agree(b, a),
        shapes_agree(a, a),
{
    assert forall|x: Dim, y: Dim| dims_agree(x, y) == dims_agree(y, x) by {}
    if shapes_agree(a, b) {
        assert forall|i: int| 0 <= i < b.len() implies dims_agree(#[trigger] b[i], a[i]) by {
            assert(dims_agree(a[i], b[i]));
        }
    }
    if shapes_agree(b, a) {
        assert forall|i: int| 0 <= i < a.len() implies dims_agree(#[trigger] a[i], b[i]) by {
            assert(dims_agree(b[i], a[i]));
        }
    }
}

/// A dimension that is not known agrees with anything of the same rank.
pub proof fn unknown_dims_agree_with_anything(a: Seq<Dim>)
    ensures
        shapes_agree(unknown_dims(a.len()), a),
{
}

/// Every type fits where its own base is wanted without promises.
pub proof fn a_promise_may_be_dropped(t: TypeView)
    ensures
        type_fits(t, TypeView { sign: None, ..t }),
        t.sign is Some ==> type_widens(t, TypeView { sign: None, ..t }),
{
    if let Some(dims) = t.shape {
        agreement_is_symmetric(dims, dims);
    }
}

/// The sign of a sum, of a product and of an opposite hold of every two numbers that keep
/// the signs they are made of.
pub proof fn sign_algebra_is_sound(a: Option<Sign>, b: Option<Sign>, x: int, y: int)
    requires
        keeps_sign(a, x),
        keeps_sign(b, y),
    ensures
        keeps_sign(added_sign(a, b), x + y),
        keeps_sign(multiplied_sign(a, b), x * y),
        keeps_sign(negated_sign(a), -x),
{
    assert(a is Some && b is Some ==> keeps_sign(multiplied_sign(a, b), x * y)) by (nonlinear_arith)
        requires
            keeps_sign(a, x),
            keeps_sign(b, y),
    ;
}

/// No sign promise survives subtraction: two positive numbers can differ by any amount.
pub proof fn subtraction_promises_nothing(s: Sign)
    ensures
        exists|x: int, y: int|
            keeps_sign(Some(Sign::Positive), x) && keeps_sign(Some(Sign::Positive), y) && !(#[trigger] keeps_sign(
                Some(s),
                x - y,
            )),
{
    assert(!keeps_sign(Some(s), 7 - 7));
}

/// A narrower sign satisfies a wider one: every number that keeps it keeps the wider one.
pub proof fn a_kept_sign_keeps_the_wider_one(from: Option<Sign>, to: Option<Sign>, v: int)
    requires
        sign_kept(from, to),
        keeps_sign(from, v),
    ensures
        keeps_sign(to, v),
{
}

} // verus!
