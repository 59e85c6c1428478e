use astbuilder::ast::{BinaryOpKind, Expr, ExprKind, Metadata};
use astbuilder::codereader::{SourcePos, SourceRange};
use astbuilder::construct_ast;
use astbuilder::dlogger::{Diagnostic, DiagnosticLogger, ParseContext};
use astbuilder::token::{Token, TokenKind};
use num_bigint::BigInt;
use num_rational::BigRational;

fn r(a: u32, b: u32) -> SourceRange {
    SourceRange {
        start: SourcePos { line: 0, character: a },
        end: SourcePos { line: 0, character: b },
    }
}

fn tok(kind: TokenKind, a: u32, b: u32) -> Token {
    Token::new(kind, r(a, b))
}

fn int_tok(v: i32, a: u32, b: u32) -> Token {
    tok(TokenKind::Int(BigInt::from(v)), a, b)
}

fn ident_tok(name: &str, a: u32, b: u32) -> Token {
    tok(TokenKind::Identifier(name.as_bytes().to_vec()), a, b)
}

fn terminated(toks: Vec<Token>) -> Vec<Token> {
    let end = match toks.last() {
        Some(t) => t.range.end.character,
        None => 0,
    };
    let mut v = toks;
    v.push(Token { kind: None, range: r(end, end) });
    v
}

fn parse(toks: Vec<Token>) -> (Expr, Vec<Diagnostic>) {
    let mut dlogger = DiagnosticLogger::new();
    let e = construct_ast(terminated(toks), &mut dlogger);
    (e, dlogger.diagnostics)
}

fn int_leaf(v: i32, a: u32, b: u32) -> Expr {
    Expr { range: r(a, b), kind: ExprKind::Int(BigInt::from(v)), metadata: vec![] }
}

fn ident_leaf(name: &str, a: u32, b: u32) -> Expr {
    Expr {
        range: r(a, b),
        kind: ExprKind::Identifier(name.as_bytes().to_vec()),
        metadata: vec![],
    }
}

#[test]
fn missing_closing_brace_recovers_with_one_report() {
    // { 1 + 2  =>  Group(Add(1, 2)) with its range ending at the 2, plus one
    // "expected `}`" report at the end of the input
    let (e, diags) = parse(vec![
        tok(TokenKind::BraceLeft, 0, 1),
        int_tok(1, 2, 3),
        tok(TokenKind::Plus, 4, 5),
        int_tok(2, 6, 7),
    ]);
    let body = Expr {
        range: r(2, 7),
        kind: ExprKind::BinaryOp {
            op: BinaryOpKind::Add,
            left_operand: Box::new(int_leaf(1, 2, 3)),
            right_operand: Box::new(int_leaf(2, 6, 7)),
        },
        metadata: vec![],
    };
    let expected = Expr { range: r(0, 7), kind: ExprKind::Group(Box::new(body)), metadata: vec![] };
    assert_eq!(e, expected);
    assert_eq!(
        diags,
        vec![Diagnostic::UnexpectedTokenSpecific {
            range: r(7, 7),
            expected: TokenKind::BraceRight,
            found: None,
        }]
    );
}

#[test]
fn stray_closing_paren_becomes_an_error_node() {
    // a lone `)` yields one "unexpected token" report and a single error
    // node covering it
    let (e, diags) = parse(vec![tok(TokenKind::ParenRight, 0, 1)]);
    let expected = Expr { range: r(0, 1), kind: ExprKind::Error, metadata: vec![] };
    assert_eq!(e, expected);
    assert_eq!(
        diags,
        vec![Diagnostic::UnexpectedToken {
            range: r(0, 1),
            context: ParseContext::Term,
            found: Some(TokenKind::ParenRight),
        }]
    );
}

#[test]
fn empty_input_yields_a_single_error_node() {
    let (e, diags) = parse(vec![]);
    let expected = Expr { range: r(0, 0), kind: ExprKind::Error, metadata: vec![] };
    assert_eq!(e, expected);
    assert_eq!(
        diags,
        vec![Diagnostic::UnexpectedToken { range: r(0, 0), context: ParseContext::Term, found: None }]
    );
}

#[test]
fn mismatched_delimiters_report_the_opener_partner() {
    // ( 1 }  =>  Group(1) with range ending at the body, and an
    // "expected `)`" report naming the `}` that stood there
    let (e, diags) = parse(vec![
        tok(TokenKind::ParenLeft, 0, 1),
        int_tok(1, 2, 3),
        tok(TokenKind::BraceRight, 4, 5),
    ]);
    let expected = Expr {
        range: r(0, 3),
        kind: ExprKind::Group(Box::new(int_leaf(1, 2, 3))),
        metadata: vec![],
    };
    assert_eq!(e, expected);
    assert_eq!(
        diags,
        vec![Diagnostic::UnexpectedTokenSpecific {
            range: r(4, 5),
            expected: TokenKind::ParenRight,
            found: Some(TokenKind::BraceRight),
        }]
    );
}

#[test]
fn matched_paren_group() {
    // ( 1 )  =>  Group(1) covering the delimiters
    let (e, diags) = parse(vec![
        tok(TokenKind::ParenLeft, 0, 1),
        int_tok(1, 2, 3),
        tok(TokenKind::ParenRight, 4, 5),
    ]);
    let expected = Expr {
        range: r(0, 5),
        kind: ExprKind::Group(Box::new(int_leaf(1, 2, 3))),
        metadata: vec![],
    };
    assert_eq!(e, expected);
    assert_eq!(diags, vec![]);
}

#[test]
fn case_with_missing_of_keeps_parsing() {
    // case x  =>  the scrutinee parses, the missing `of` is reported, and
    // the branch position degrades to an error node with its own report
    let (e, diags) = parse(vec![tok(TokenKind::Case, 0, 4), ident_tok("x", 5, 6)]);
    let error = Expr { range: r(6, 6), kind: ExprKind::Error, metadata: vec![] };
    let expected = Expr {
        range: r(0, 6),
        kind: ExprKind::CaseOf {
            expr: Box::new(ident_leaf("x", 5, 6)),
            cases: Box::new(error),
        },
        metadata: vec![],
    };
    assert_eq!(e, expected);
    assert_eq!(
        diags,
        vec![
            Diagnostic::UnexpectedTokenSpecific {
                range: r(6, 6),
                expected: TokenKind::Of,
                found: None,
            },
            Diagnostic::UnexpectedToken { range: r(6, 6), context: ParseContext::Term, found: None },
        ]
    );
}

#[test]
fn error_operand_still_composes_with_operators() {
    // ] + 1  =>  Add(Error, 1): the stray token is consumed as an error
    // operand and the chain goes on
    let (e, diags) = parse(vec![
        tok(TokenKind::BracketRight, 0, 1),
        tok(TokenKind::Plus, 2, 3),
        int_tok(1, 4, 5),
    ]);
    let error = Expr { range: r(0, 1), kind: ExprKind::Error, metadata: vec![] };
    let expected = Expr {
        range: r(0, 5),
        kind: ExprKind::BinaryOp {
            op: BinaryOpKind::Add,
            left_operand: Box::new(error),
            right_operand: Box::new(int_leaf(1, 4, 5)),
        },
        metadata: vec![],
    };
    assert_eq!(e, expected);
    assert_eq!(
        diags,
        vec![Diagnostic::UnexpectedToken {
            range: r(0, 1),
            context: ParseContext::Term,
            found: Some(TokenKind::BracketRight),
        }]
    );
}

#[test]
fn type_with_integer_level() {
    // type 7  =>  Type(7) covering both tokens
    let (e, diags) = parse(vec![tok(TokenKind::Type, 0, 4), int_tok(7, 5, 6)]);
    let expected = Expr {
        range: r(0, 6),
        kind: ExprKind::Type(Some(BigInt::from(7))),
        metadata: vec![],
    };
    assert_eq!(e, expected);
    assert_eq!(diags, vec![]);
}

#[test]
fn type_without_level_leaves_the_following_token() {
    // type x  =>  the marker takes no level and leaves the `x` unconsumed,
    // so juxtaposition applies the type to it: Apply(Type, x)
    let (e, diags) = parse(vec![tok(TokenKind::Type, 0, 4), ident_tok("x", 5, 6)]);
    let marker = Expr { range: r(0, 4), kind: ExprKind::Type(None), metadata: vec![] };
    let expected = Expr {
        range: r(0, 6),
        kind: ExprKind::BinaryOp {
            op: BinaryOpKind::Apply,
            left_operand: Box::new(marker),
            right_operand: Box::new(ident_leaf("x", 5, 6)),
        },
        metadata: vec![],
    };
    assert_eq!(e, expected);
    assert_eq!(diags, vec![]);

    // a `type` that ends the input has no level and consumes nothing more
    let (e, diags) = parse(vec![tok(TokenKind::Type, 0, 4)]);
    assert_eq!(e, Expr { range: r(0, 4), kind: ExprKind::Type(None), metadata: vec![] });
    assert_eq!(diags, vec![]);
}

#[test]
fn val_prefixes_one_term() {
    // val x  =>  Val(x)
    let (e, diags) = parse(vec![tok(TokenKind::Val, 0, 3), ident_tok("x", 4, 5)]);
    let expected = Expr {
        range: r(0, 5),
        kind: ExprKind::Val(Box::new(ident_leaf("x", 4, 5))),
        metadata: vec![],
    };
    assert_eq!(e, expected);
    assert_eq!(diags, vec![]);
}

#[test]
fn enum_prefix_takes_a_term_not_an_expression() {
    // enum a + b  =>  Add(Enum(a), b): the prefix grabs only the term
    let (e, diags) = parse(vec![
        tok(TokenKind::Enum, 0, 4),
        ident_tok("a", 5, 6),
        tok(TokenKind::Plus, 7, 8),
        ident_tok("b", 9, 10),
    ]);
    let inner = Expr {
        range: r(0, 6),
        kind: ExprKind::Enum(Box::new(ident_leaf("a", 5, 6))),
        metadata: vec![],
    };
    let expected = Expr {
        range: r(0, 10),
        kind: ExprKind::BinaryOp {
            op: BinaryOpKind::Add,
            left_operand: Box::new(inner),
            right_operand: Box::new(ident_leaf("b", 9, 10)),
        },
        metadata: vec![],
    };
    assert_eq!(e, expected);
    assert_eq!(diags, vec![]);
}

#[test]
fn literal_leaves_carry_their_values() {
    // a string literal parses to a leaf holding the same bytes and flag
    let (e, diags) = parse(vec![tok(
        TokenKind::String { value: b"hi".to_vec(), block: true },
        0,
        4,
    )]);
    let expected = Expr {
        range: r(0, 4),
        kind: ExprKind::String { value: b"hi".to_vec(), block: true },
        metadata: vec![],
    };
    assert_eq!(e, expected);
    assert_eq!(diags, vec![]);
}

#[test]
fn float_label_unit_and_never_leaves() {
    let (e, diags) = parse(vec![tok(
        TokenKind::Float(BigRational::new(BigInt::from(7), BigInt::from(10))),
        0,
        3,
    )]);
    assert_eq!(
        e.kind,
        ExprKind::Float(BigRational::new(BigInt::from(7), BigInt::from(10)))
    );
    assert_eq!(diags, vec![]);

    let (e, diags) = parse(vec![tok(TokenKind::Label(b"top".to_vec()), 0, 4)]);
    assert_eq!(e.kind, ExprKind::Label(b"top".to_vec()));
    assert_eq!(diags, vec![]);

    let (e, diags) = parse(vec![tok(TokenKind::Unit, 0, 2)]);
    assert_eq!(e, Expr { range: r(0, 2), kind: ExprKind::Unit, metadata: vec![] });
    assert_eq!(diags, vec![]);

    let (e, diags) = parse(vec![tok(TokenKind::Never, 0, 1)]);
    assert_eq!(e, Expr { range: r(0, 1), kind: ExprKind::Never, metadata: vec![] });
    assert_eq!(diags, vec![]);
}

#[test]
fn ref_and_deref_are_leaves() {
    let (e, diags) = parse(vec![tok(TokenKind::Ref, 0, 1)]);
    assert_eq!(e, Expr { range: r(0, 1), kind: ExprKind::Ref, metadata: vec![] });
    assert_eq!(diags, vec![]);

    let (e, diags) = parse(vec![tok(TokenKind::Deref, 0, 1)]);
    assert_eq!(e, Expr { range: r(0, 1), kind: ExprKind::Deref, metadata: vec![] });
    assert_eq!(diags, vec![]);
}

#[test]
fn builtin_leaf_and_metadata_on_error_node() {
    let (e, diags) = parse(vec![tok(TokenKind::Builtin(b"add".to_vec()), 0, 3)]);
    assert_eq!(e.kind, ExprKind::Builtin(b"add".to_vec()));
    assert_eq!(diags, vec![]);

    // a comment before a stray token lands on the error node built for it
    let (e, diags) = parse(vec![
        tok(TokenKind::Metadata { value: b"c".to_vec(), significant: false }, 0, 2),
        tok(TokenKind::Of, 3, 5),
    ]);
    let expected = Expr {
        range: r(3, 5),
        kind: ExprKind::Error,
        metadata: vec![Metadata { range: r(0, 2), significant: false, value: b"c".to_vec() }],
    };
    assert_eq!(e, expected);
    assert_eq!(
        diags,
        vec![Diagnostic::UnexpectedToken {
            range: r(3, 5),
            context: ParseContext::Term,
            found: Some(TokenKind::Of),
        }]
    );
}

#[test]
fn inf_and_nan_do_not_start_terms() {
    // the dispatcher has no routine for `inf`, so it becomes an error node
    let (e, diags) = parse(vec![tok(TokenKind::Inf, 0, 3)]);
    assert_eq!(e, Expr { range: r(0, 3), kind: ExprKind::Error, metadata: vec![] });
    assert_eq!(
        diags,
        vec![Diagnostic::UnexpectedToken {
            range: r(0, 3),
            context: ParseContext::Term,
            found: Some(TokenKind::Inf),
        }]
    );
}

#[test]
fn trailing_tokens_after_a_full_expression_stay_unread() {
    // 1 )  =>  the 1 parses; the stray `)` never joins the tree and draws
    // no report, because nothing ever asks for it
    let (e, diags) = parse(vec![int_tok(1, 0, 1), tok(TokenKind::ParenRight, 2, 3)]);
    assert_eq!(e, int_leaf(1, 0, 1));
    assert_eq!(diags, vec![]);
}
