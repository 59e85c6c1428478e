use vstd::prelude::*;

use crate::codereader::SourceRange;

verus! {

/// One comment or attribute attached to the node that follows it in the
/// source. `significant` distinguishes a semantic attribute from a plain
/// comment.
#[derive(Debug, PartialEq)]
pub struct Metadata {
    pub range: SourceRange,
    pub significant: bool,
    pub value: Vec<u8>,
}

/// Every binary form the precedence ladder recognizes.
#[derive(Clone, Copy, Debug, PartialEq, Eq, Structural)]
pub enum BinaryOpKind {
    Sequence,
    Assign,
    PlusAssign,
    MinusAssign,
    MulAssign,
    DivAssign,
    RemAssign,
    Defun,
    Pipe,
    Cons,
    And,
    Or,
    Less,
    Greater,
    LessEqual,
    GreaterEqual,
    Equal,
    NotEqual,
    Add,
    Sub,
    Mul,
    Div,
    Rem,
    Constrain,
    Apply,
    ModuleAccess,
}

/// The form of one tree node. Every child is owned outright, so the tree is
/// finite and acyclic by construction.
#[derive(Debug, PartialEq)]
pub enum ExprKind {
    Identifier(Vec<u8>),
    Builtin(Vec<u8>),
    Int(num_bigint::BigInt),
    Float(num_rational::BigRational),
    Bool(bool),
    String { value: Vec<u8>, block: bool },
    Label(Vec<u8>),
    Type(Option<num_bigint::BigInt>),
    Unit,
    Never,
    Ref,
    Deref,
    Val(Box<Expr>),
    Struct(Box<Expr>),
    Enum(Box<Expr>),
    Group(Box<Expr>),
    StructLiteral(Box<Expr>),
    CaseOf { expr: Box<Expr>, cases: Box<Expr> },
    BinaryOp { op: BinaryOpKind, left_operand: Box<Expr>, right_operand: Box<Expr> },
    Error,
}

/// One node of the tree: its form, the source region its tokens cover, and
/// the comments and attributes written just before it.
#[derive(Debug, PartialEq)]
pub struct Expr {
    pub range: SourceRange,
    pub kind: ExprKind,
    pub metadata: Vec<Metadata>,
}

} // verus!
