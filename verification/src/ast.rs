//! The shape of a program.

use vstd::prelude::*;

use crate::diagnostics::position::Span;

verus! {

#[derive(Debug, Clone, Copy, PartialEq, Eq, Structural)]
pub enum BinOp {
    Add,
    Sub,
    Mul,
    Div,
    /// `//`
    IntDiv,
    Mod,
    Pow,
    Eq,
    NotEq,
    Less,
    Greater,
    LessEq,
    GreaterEq,
    And,
    Or,
    /// `·`
    Dot,
    /// `×`
    Cross,
    /// `⊙`
    Hadamard,
    /// `⊗`
    Tensor,
}

#[derive(Debug, Clone, Copy, PartialEq, Eq, Structural)]
pub enum UnOp {
    Neg,
    Not,
    Abs,
    Sqrt,
    Sin,
    Cos,
    Tan,
    Log,
    Ln,
    Floor,
    Ceil,
}

#[derive(Debug, Clone, Copy, PartialEq, Eq, Structural)]
pub enum Constant {
    Pi,
    E,
    Tau,
}

/// A `+` or `-` prefix on a type: every value is above, or below, zero.
#[derive(Debug, Clone, Copy, PartialEq, Eq, Structural)]
pub enum Sign {
    Positive,
    Negative,
}

/// One dimension of a shape: a length, or `?`.
#[derive(Debug, Clone, Copy, PartialEq, Eq, Structural)]
pub enum Dim {
    Known(u64),
    Unknown,
}

/// `[n bit]` or `[n digits]`.
#[derive(Debug, Clone, Copy, PartialEq, Eq, Structural)]
pub enum Precision {
    Bits(u32),
    Digits(u32),
}

#[derive(Debug, Clone, Copy, PartialEq, Eq, Structural)]
pub enum Rank {
    Vector,
    Matrix,
    Tensor,
}

/// How many dimensions a rank name stands for; a tensor may have any number above two.
pub open spec fn rank_dimensions(r: Rank) -> Option<usize> {
    match r {
        Rank::Vector => Some(1usize),
        Rank::Matrix => Some(2usize),
        Rank::Tensor => None,
    }
}

pub open spec fn rank_name(r: Rank) -> Seq<char> {
    match r {
        Rank::Vector => "vector"@,
        Rank::Matrix => "matrix"@,
        Rank::Tensor => "tensor"@,
    }
}

impl Rank {
    pub fn dimensions(self) -> (r: Option<usize>)
        ensures
            r == rank_dimensions(self),
    {
        match self {
            Rank::Vector => Some(1),
            Rank::Matrix => Some(2),
            Rank::Tensor => None,
        }
    }

    pub fn name(self) -> (r: &'static str)
        ensures
            r@ == rank_name(self),
    {
        match self {
            Rank::Vector => "vector",
            Rank::Matrix => "matrix",
            Rank::Tensor => "tensor",
        }
    }
}

/// A type as the program writes it.
#[derive(Debug, Clone)]
pub struct TypeRef {
    pub base: String,
    pub sign: Option<Sign>,
    pub rank: Option<Rank>,
    pub shape: Option<Vec<Dim>>,
    pub precision: Option<Precision>,
    pub span: Span,
}

#[derive(Debug)]
pub struct Program {
    pub statements: Vec<Stmt>,
}

#[derive(Debug)]
pub enum Stmt {
    Var(VarDecl),
    Change(ChangeStmt),
    Func(FuncDecl),
    If(IfChain),
    Loop(LoopStmt),
    Print { args: Vec<Expr>, span: Span },
    Handback { value: Expr, span: Span },
    Expr(Expr),
}

#[derive(Debug)]
pub struct VarDecl {
    pub ty: TypeRef,
    pub bindings: Vec<Binding>,
    pub span: Span,
}

#[derive(Debug)]
pub struct Binding {
    pub name: String,
    pub name_span: Span,
    pub shape: Option<Vec<Dim>>,
    pub precision: Option<Precision>,
    pub value: Option<Expr>,
}

#[derive(Debug)]
pub struct ChangeStmt {
    pub ty: TypeRef,
    pub targets: Vec<ChangeTarget>,
    pub span: Span,
}

#[derive(Debug)]
pub struct ChangeTarget {
    pub name: String,
    pub name_span: Span,
    pub selectors: Vec<Selector>,
    pub value: Expr,
}

#[derive(Debug)]
pub struct FuncDecl {
    pub name: String,
    pub name_span: Span,
    pub params: Vec<Param>,
    pub returns: TypeRef,
    pub body: Vec<Stmt>,
    pub span: Span,
}

#[derive(Debug)]
pub struct Param {
    pub name: String,
    pub name_span: Span,
    pub ty: TypeRef,
    pub shape: Option<Vec<Dim>>,
    pub precision: Option<Precision>,
}

#[derive(Debug)]
pub struct IfChain {
    pub arms: Vec<IfArm>,
    pub span: Span,
}

/// One arm of a conditional; the `else` arm has no condition.
#[derive(Debug)]
pub struct IfArm {
    pub condition: Option<Expr>,
    pub body: Vec<Stmt>,
}

#[derive(Debug)]
pub struct LoopStmt {
    pub kind: LoopKind,
    pub body: Vec<Stmt>,
    pub span: Span,
}

#[derive(Debug)]
pub enum LoopKind {
    Counted { ty: TypeRef, var: String, var_span: Span, range: Expr },
    While { condition: Expr },
}

#[derive(Debug)]
pub struct Expr {
    pub kind: ExprKind,
    pub span: Span,
}

#[derive(Debug)]
pub enum ExprKind {
    /// A quoted literal, such as `'0.1'`.
    Literal(String),
    /// A bare number inside `math { }`.
    Number(String),
    Str(String),
    Constant(Constant),
    Math(Box<Expr>),
    Ref { name: String, selectors: Vec<Selector> },
    Binary { op: BinOp, lhs: Box<Expr>, rhs: Box<Expr> },
    Unary { op: UnOp, operand: Box<Expr> },
    ArrayLit(Vec<Expr>),
    If(IfChain),
    Loop(Box<LoopStmt>),
    /// A named option of a builtin, such as `trim` or `group:","`.
    Option { name: String, value: Option<Box<Expr>> },
    Range { from: Box<Expr>, to: Box<Expr>, by: Option<Box<Expr>> },
    Call { name: String, args: Vec<Expr> },
    Builtin { name: String, args: Vec<Expr> },
}

#[derive(Debug)]
pub enum Selector {
    All,
    Length,
    Shape,
    Indices(Vec<Expr>),
    Range { from: Box<Expr>, to: Box<Expr>, by: Option<Box<Expr>> },
}

} // verus!
