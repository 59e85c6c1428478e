use vstd::prelude::*;

use crate::codereader::SourceRange;

verus! {

/// `num_bigint::BigInt` carries arbitrary-precision integer literals through
/// the token stream and the tree. The parser never looks inside one, so the
/// type is declared opaque.
#[verifier::external_type_specification]
#[verifier::external_body]
pub struct ExBigInt(num_bigint::BigInt);

/// `num_rational::Ratio` (as `BigRational`) carries arbitrary-precision
/// rational literals through the token stream and the tree, also opaquely.
#[verifier::external_type_specification]
#[verifier::external_body]
#[verifier::reject_recursive_types(T)]
pub struct ExRatio<T>(num_rational::Ratio<T>);

/// Relies on `BigInt::clone` (a field-wise copy of sign and magnitude): the
/// clone equals the original. Needed so tokens and kinds can derive `Clone`.
pub assume_specification[ <num_bigint::BigInt as Clone>::clone ](
    v: &num_bigint::BigInt,
) -> (r: num_bigint::BigInt)
    ensures
        r == *v,
;

/// Relies on the derived `Ratio::clone` existing; whether the clone equals
/// the original depends on the element type's own clone, so nothing is
/// claimed of the result. The declaration exists only so tokens and kinds
/// can derive `Clone`; no verified code reads a cloned value.
pub assume_specification<T: Clone>[ <num_rational::Ratio<T> as Clone>::clone ](
    v: &num_rational::Ratio<T>,
) -> num_rational::Ratio<T>;

#[derive(Clone, Debug, PartialEq)]
pub enum TokenKind {
    // function, type, or variable
    Identifier(Vec<u8>),
    // builtin method
    Builtin(Vec<u8>),
    // Keywords
    Case,     // case
    Of,       // of
    Val,      // val
    Struct,   // struct
    Enum,     // enum
    In,       // in
    // Literals and constants
    Type,                                   // type
    Label(Vec<u8>),                         // 'label
    Inf,                                    // inf
    Nan,                                    // nan
    Unit,                                   // ()
    Never,                                  // !
    Bool(bool),                             // true, false
    String { value: Vec<u8>, block: bool }, // "string"
    Int(num_bigint::BigInt),                // 7
    Float(num_rational::BigRational),       // 0.7
    // Math Operators
    Plus,  // +
    Minus, // -
    Mul,   // *
    Div,   // /
    Rem,   // %
    // Boolean Operators
    And, // and
    Or,  // or
    // Type operators
    Cons, // ,
    // Comparison and Equality
    Equal,        // ==
    NotEqual,     // !=
    Less,         // <
    LessEqual,    // <=
    Greater,      // >
    GreaterEqual, // >=
    // Assignment
    Define,      // :=
    Assign,      // =
    PlusAssign,  // +=
    MinusAssign, // -=
    MulAssign,   // *=
    DivAssign,   // /=
    RemAssign,   // %=
    // Reference
    Ref,   // &
    Deref, // @
    // Arrows
    Pipe,  // |
    Defun, // ->
    // CaseOptions
    CaseOption, // ||
    // Other Miscellaneous Operator Things
    ParenLeft,    // (
    ParenRight,   // )
    BracketLeft,  // [
    BracketRight, // ]
    BraceLeft,    // {
    BraceRight,   // }
    Constrain,    // :
    ModuleAccess, // .
    Sequence,     // ;
    // Comments, and Attributes
    Metadata { value: Vec<u8>, significant: bool }, // #!attribute and # comment
}

/// A lexical token. A token without a kind is the end-of-input marker the
/// lexer appends; the parser treats it as "no more input here".
#[derive(Clone, Debug, PartialEq)]
pub struct Token {
    pub kind: Option<TokenKind>,
    pub range: SourceRange,
}

impl Token {
    pub fn new(kind: TokenKind, range: SourceRange) -> (t: Self)
        ensures
            t.kind == Some(kind),
            t.range == range,
    {
        Token { kind: Some(kind), range }
    }
}

} // verus!
