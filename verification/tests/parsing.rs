use astbuilder::ast::{BinaryOpKind, Expr, ExprKind, Metadata};
use astbuilder::codereader::{union_of, SourcePos, SourceRange};
use astbuilder::construct_ast;
use astbuilder::dlogger::{Diagnostic, DiagnosticLogger};
use astbuilder::token::{Token, TokenKind};
use num_bigint::BigInt;

fn r(a: u32, b: u32) -> SourceRange {
    SourceRange {
        start: SourcePos { line: 0, character: a },
        end: SourcePos { line: 0, character: b },
    }
}

fn tok(kind: TokenKind, a: u32, b: u32) -> Token {
    Token::new(kind, r(a, b))
}

fn int_tok(v: i32, a: u32, b: u32) -> Token {
    tok(TokenKind::Int(BigInt::from(v)), a, b)
}

fn ident_tok(name: &str, a: u32, b: u32) -> Token {
    tok(TokenKind::Identifier(name.as_bytes().to_vec()), a, b)
}

/// Append the end-of-input marker that makes the stream well terminated:
/// the parser peeks at a marker but never consumes one, so one suffices.
fn terminated(toks: Vec<Token>) -> Vec<Token> {
    let end = match toks.last() {
        Some(t) => t.range.end.character,
        None => 0,
    };
    let mut v = toks;
    v.push(Token { kind: None, range: r(end, end) });
    v
}

fn parse(toks: Vec<Token>) -> (Expr, Vec<Diagnostic>) {
    let mut dlogger = DiagnosticLogger::new();
    let e = construct_ast(terminated(toks), &mut dlogger);
    (e, dlogger.diagnostics)
}

fn int_leaf(v: i32, a: u32, b: u32) -> Expr {
    Expr { range: r(a, b), kind: ExprKind::Int(BigInt::from(v)), metadata: vec![] }
}

fn ident_leaf(name: &str, a: u32, b: u32) -> Expr {
    Expr {
        range: r(a, b),
        kind: ExprKind::Identifier(name.as_bytes().to_vec()),
        metadata: vec![],
    }
}

fn binop(op: BinaryOpKind, left: Expr, right: Expr) -> Expr {
    Expr {
        range: union_of(left.range, right.range),
        kind: ExprKind::BinaryOp {
            op,
            left_operand: Box::new(left),
            right_operand: Box::new(right),
        },
        metadata: vec![],
    }
}

#[test]
fn addition_is_left_associative() {
    // 1 + 2 + 3  =>  Add(Add(1, 2), 3)
    let (e, diags) = parse(vec![
        int_tok(1, 0, 1),
        tok(TokenKind::Plus, 2, 3),
        int_tok(2, 4, 5),
        tok(TokenKind::Plus, 6, 7),
        int_tok(3, 8, 9),
    ]);
    let expected = binop(
        BinaryOpKind::Add,
        binop(BinaryOpKind::Add, int_leaf(1, 0, 1), int_leaf(2, 4, 5)),
        int_leaf(3, 8, 9),
    );
    assert_eq!(e, expected);
    assert_eq!(diags, vec![]);
}

#[test]
fn defun_is_right_associative() {
    // a -> b -> c  =>  Defun(a, Defun(b, c))
    let (e, diags) = parse(vec![
        ident_tok("a", 0, 1),
        tok(TokenKind::Defun, 2, 4),
        ident_tok("b", 5, 6),
        tok(TokenKind::Defun, 7, 9),
        ident_tok("c", 10, 11),
    ]);
    let expected = binop(
        BinaryOpKind::Defun,
        ident_leaf("a", 0, 1),
        binop(BinaryOpKind::Defun, ident_leaf("b", 5, 6), ident_leaf("c", 10, 11)),
    );
    assert_eq!(e, expected);
    assert_eq!(diags, vec![]);
}

#[test]
fn multiplication_binds_tighter_than_addition() {
    // 1 + 2 * 3  =>  Add(1, Mul(2, 3))
    let (e, diags) = parse(vec![
        int_tok(1, 0, 1),
        tok(TokenKind::Plus, 2, 3),
        int_tok(2, 4, 5),
        tok(TokenKind::Mul, 6, 7),
        int_tok(3, 8, 9),
    ]);
    let expected = binop(
        BinaryOpKind::Add,
        int_leaf(1, 0, 1),
        binop(BinaryOpKind::Mul, int_leaf(2, 4, 5), int_leaf(3, 8, 9)),
    );
    assert_eq!(e, expected);
    assert_eq!(diags, vec![]);
}

#[test]
fn application_binds_tighter_than_addition() {
    // f x + 1  =>  Add(Apply(f, x), 1)
    let (e, diags) = parse(vec![
        ident_tok("f", 0, 1),
        ident_tok("x", 2, 3),
        tok(TokenKind::Plus, 4, 5),
        int_tok(1, 6, 7),
    ]);
    let expected = binop(
        BinaryOpKind::Add,
        binop(BinaryOpKind::Apply, ident_leaf("f", 0, 1), ident_leaf("x", 2, 3)),
        int_leaf(1, 6, 7),
    );
    assert_eq!(e, expected);
    assert_eq!(diags, vec![]);
}

#[test]
fn comments_attach_to_the_following_literal_in_order() {
    // 1 + #a #b 2  =>  Add(1, 2) with both comments on the 2, in source
    // order, and on no other node
    let (e, diags) = parse(vec![
        int_tok(1, 0, 1),
        tok(TokenKind::Plus, 2, 3),
        tok(TokenKind::Metadata { value: b"a".to_vec(), significant: false }, 4, 6),
        tok(TokenKind::Metadata { value: b"b".to_vec(), significant: true }, 7, 9),
        int_tok(2, 10, 11),
    ]);
    let two = Expr {
        range: r(10, 11),
        kind: ExprKind::Int(BigInt::from(2)),
        metadata: vec![
            Metadata { range: r(4, 6), significant: false, value: b"a".to_vec() },
            Metadata { range: r(7, 9), significant: true, value: b"b".to_vec() },
        ],
    };
    let expected = binop(BinaryOpKind::Add, int_leaf(1, 0, 1), two);
    assert_eq!(e, expected);
    assert_eq!(diags, vec![]);
}

#[test]
fn comment_before_operator_attaches_to_the_operator_node() {
    // 1 #a + 2  =>  Add(1, 2) with the comment on the Add node
    let (e, diags) = parse(vec![
        int_tok(1, 0, 1),
        tok(TokenKind::Metadata { value: b"a".to_vec(), significant: false }, 2, 4),
        tok(TokenKind::Plus, 5, 6),
        int_tok(2, 7, 8),
    ]);
    let expected = Expr {
        range: r(0, 8),
        kind: ExprKind::BinaryOp {
            op: BinaryOpKind::Add,
            left_operand: Box::new(int_leaf(1, 0, 1)),
            right_operand: Box::new(int_leaf(2, 7, 8)),
        },
        metadata: vec![Metadata { range: r(2, 4), significant: false, value: b"a".to_vec() }],
    };
    assert_eq!(e, expected);
    assert_eq!(diags, vec![]);
}

#[test]
fn case_of_builds_a_branch_chain() {
    // case x of a || b  =>  CaseOf{ x, Sequence(a, b) }
    let (e, diags) = parse(vec![
        tok(TokenKind::Case, 0, 4),
        ident_tok("x", 5, 6),
        tok(TokenKind::Of, 7, 9),
        ident_tok("a", 10, 11),
        tok(TokenKind::CaseOption, 12, 14),
        ident_tok("b", 15, 16),
    ]);
    let cases = binop(
        BinaryOpKind::Sequence,
        ident_leaf("a", 10, 11),
        ident_leaf("b", 15, 16),
    );
    let expected = Expr {
        range: r(0, 16),
        kind: ExprKind::CaseOf {
            expr: Box::new(ident_leaf("x", 5, 6)),
            cases: Box::new(cases),
        },
        metadata: vec![],
    };
    assert_eq!(e, expected);
    assert_eq!(diags, vec![]);
}

#[test]
fn constrain_is_right_associative() {
    // x : y : z  =>  Constrain(x, Constrain(y, z))
    let (e, diags) = parse(vec![
        ident_tok("x", 0, 1),
        tok(TokenKind::Constrain, 2, 3),
        ident_tok("y", 4, 5),
        tok(TokenKind::Constrain, 6, 7),
        ident_tok("z", 8, 9),
    ]);
    let expected = binop(
        BinaryOpKind::Constrain,
        ident_leaf("x", 0, 1),
        binop(BinaryOpKind::Constrain, ident_leaf("y", 4, 5), ident_leaf("z", 8, 9)),
    );
    assert_eq!(e, expected);
    assert_eq!(diags, vec![]);
}

#[test]
fn assignment_family_is_left_associative() {
    // x = y += z  =>  PlusAssign(Assign(x, y), z)
    let (e, diags) = parse(vec![
        ident_tok("x", 0, 1),
        tok(TokenKind::Assign, 2, 3),
        ident_tok("y", 4, 5),
        tok(TokenKind::PlusAssign, 6, 8),
        ident_tok("z", 9, 10),
    ]);
    let expected = binop(
        BinaryOpKind::PlusAssign,
        binop(BinaryOpKind::Assign, ident_leaf("x", 0, 1), ident_leaf("y", 4, 5)),
        ident_leaf("z", 9, 10),
    );
    assert_eq!(e, expected);
    assert_eq!(diags, vec![]);
}

#[test]
fn cons_binds_tighter_than_pipe() {
    // 1 , 2 | 3  =>  Pipe(Cons(1, 2), 3)
    let (e, diags) = parse(vec![
        int_tok(1, 0, 1),
        tok(TokenKind::Cons, 1, 2),
        int_tok(2, 3, 4),
        tok(TokenKind::Pipe, 5, 6),
        int_tok(3, 7, 8),
    ]);
    let expected = binop(
        BinaryOpKind::Pipe,
        binop(BinaryOpKind::Cons, int_leaf(1, 0, 1), int_leaf(2, 3, 4)),
        int_leaf(3, 7, 8),
    );
    assert_eq!(e, expected);
    assert_eq!(diags, vec![]);
}

#[test]
fn sequence_chains_full_expressions() {
    // 1 ; 2 and true  =>  Sequence(1, And(2, true))
    let (e, diags) = parse(vec![
        int_tok(1, 0, 1),
        tok(TokenKind::Sequence, 1, 2),
        int_tok(2, 3, 4),
        tok(TokenKind::And, 5, 8),
        tok(TokenKind::Bool(true), 9, 13),
    ]);
    let truth = Expr { range: r(9, 13), kind: ExprKind::Bool(true), metadata: vec![] };
    let expected = binop(
        BinaryOpKind::Sequence,
        int_leaf(1, 0, 1),
        binop(BinaryOpKind::And, int_leaf(2, 3, 4), truth),
    );
    assert_eq!(e, expected);
    assert_eq!(diags, vec![]);
}

#[test]
fn module_access_applies_before_application() {
    // a . b c  =>  Apply(ModuleAccess(a, b), c)
    let (e, diags) = parse(vec![
        ident_tok("a", 0, 1),
        tok(TokenKind::ModuleAccess, 1, 2),
        ident_tok("b", 2, 3),
        ident_tok("c", 4, 5),
    ]);
    let expected = binop(
        BinaryOpKind::Apply,
        binop(BinaryOpKind::ModuleAccess, ident_leaf("a", 0, 1), ident_leaf("b", 2, 3)),
        ident_leaf("c", 4, 5),
    );
    assert_eq!(e, expected);
    assert_eq!(diags, vec![]);
}

#[test]
fn comparison_chain_is_left_associative() {
    // 1 < 2 == 3  =>  Equal(Less(1, 2), 3)
    let (e, diags) = parse(vec![
        int_tok(1, 0, 1),
        tok(TokenKind::Less, 2, 3),
        int_tok(2, 4, 5),
        tok(TokenKind::Equal, 6, 8),
        int_tok(3, 9, 10),
    ]);
    let expected = binop(
        BinaryOpKind::Equal,
        binop(BinaryOpKind::Less, int_leaf(1, 0, 1), int_leaf(2, 4, 5)),
        int_leaf(3, 9, 10),
    );
    assert_eq!(e, expected);
    assert_eq!(diags, vec![]);
}

#[test]
fn root_range_covers_first_and_last_consumed_token() {
    // the root of `a / b % c` runs from `a`'s start to `c`'s end
    let (e, diags) = parse(vec![
        ident_tok("a", 3, 4),
        tok(TokenKind::Div, 5, 6),
        ident_tok("b", 7, 8),
        tok(TokenKind::Rem, 9, 10),
        ident_tok("c", 11, 12),
    ]);
    assert_eq!(e.range, union_of(r(3, 4), r(11, 12)));
    assert_eq!(diags, vec![]);
}

#[test]
fn every_operator_token_maps_to_its_kind() {
    let pairs: Vec<(TokenKind, BinaryOpKind)> = vec![
        (TokenKind::ModuleAccess, BinaryOpKind::ModuleAccess),
        (TokenKind::Constrain, BinaryOpKind::Constrain),
        (TokenKind::Mul, BinaryOpKind::Mul),
        (TokenKind::Div, BinaryOpKind::Div),
        (TokenKind::Rem, BinaryOpKind::Rem),
        (TokenKind::Plus, BinaryOpKind::Add),
        (TokenKind::Minus, BinaryOpKind::Sub),
        (TokenKind::Less, BinaryOpKind::Less),
        (TokenKind::Greater, BinaryOpKind::Greater),
        (TokenKind::LessEqual, BinaryOpKind::LessEqual),
        (TokenKind::GreaterEqual, BinaryOpKind::GreaterEqual),
        (TokenKind::Equal, BinaryOpKind::Equal),
        (TokenKind::NotEqual, BinaryOpKind::NotEqual),
        (TokenKind::And, BinaryOpKind::And),
        (TokenKind::Or, BinaryOpKind::Or),
        (TokenKind::Cons, BinaryOpKind::Cons),
        (TokenKind::Pipe, BinaryOpKind::Pipe),
        (TokenKind::Defun, BinaryOpKind::Defun),
        (TokenKind::Assign, BinaryOpKind::Assign),
        (TokenKind::PlusAssign, BinaryOpKind::PlusAssign),
        (TokenKind::MinusAssign, BinaryOpKind::MinusAssign),
        (TokenKind::MulAssign, BinaryOpKind::MulAssign),
        (TokenKind::DivAssign, BinaryOpKind::DivAssign),
        (TokenKind::RemAssign, BinaryOpKind::RemAssign),
        (TokenKind::Sequence, BinaryOpKind::Sequence),
    ];
    for (token_kind, op) in pairs {
        let (e, diags) = parse(vec![
            ident_tok("x", 0, 1),
            tok(token_kind, 2, 3),
            ident_tok("y", 4, 5),
        ]);
        let expected = binop(op, ident_leaf("x", 0, 1), ident_leaf("y", 4, 5));
        assert_eq!(e, expected);
        assert_eq!(diags, vec![]);
    }
}

#[test]
fn application_chain_is_left_associative() {
    // f x y  =>  Apply(Apply(f, x), y)
    let (e, diags) = parse(vec![
        ident_tok("f", 0, 1),
        ident_tok("x", 2, 3),
        ident_tok("y", 4, 5),
    ]);
    let expected = binop(
        BinaryOpKind::Apply,
        binop(BinaryOpKind::Apply, ident_leaf("f", 0, 1), ident_leaf("x", 2, 3)),
        ident_leaf("y", 4, 5),
    );
    assert_eq!(e, expected);
    assert_eq!(diags, vec![]);
}

#[test]
fn nested_groups_cover_their_delimiters() {
    // { ( 1 ) }  =>  Group(Group(1)) with ranges covering each pair
    let (e, diags) = parse(vec![
        tok(TokenKind::BraceLeft, 0, 1),
        tok(TokenKind::ParenLeft, 2, 3),
        int_tok(1, 4, 5),
        tok(TokenKind::ParenRight, 6, 7),
        tok(TokenKind::BraceRight, 8, 9),
    ]);
    let inner = Expr {
        range: r(2, 7),
        kind: ExprKind::Group(Box::new(int_leaf(1, 4, 5))),
        metadata: vec![],
    };
    let expected = Expr {
        range: r(0, 9),
        kind: ExprKind::Group(Box::new(inner)),
        metadata: vec![],
    };
    assert_eq!(e, expected);
    assert_eq!(diags, vec![]);
}

#[test]
fn grouped_sum_overrides_precedence() {
    // ( 1 + 2 ) * 3  =>  Mul(Group(Add(1, 2)), 3)
    let (e, diags) = parse(vec![
        tok(TokenKind::ParenLeft, 0, 1),
        int_tok(1, 2, 3),
        tok(TokenKind::Plus, 4, 5),
        int_tok(2, 6, 7),
        tok(TokenKind::ParenRight, 8, 9),
        tok(TokenKind::Mul, 10, 11),
        int_tok(3, 12, 13),
    ]);
    let sum = binop(BinaryOpKind::Add, int_leaf(1, 2, 3), int_leaf(2, 6, 7));
    let group = Expr { range: r(0, 9), kind: ExprKind::Group(Box::new(sum)), metadata: vec![] };
    let expected = binop(BinaryOpKind::Mul, group, int_leaf(3, 12, 13));
    assert_eq!(e, expected);
    assert_eq!(diags, vec![]);
}

#[test]
fn case_scrutinee_is_a_full_expression() {
    // case 1 + 2 of a  =>  CaseOf{ Add(1, 2), a }
    let (e, diags) = parse(vec![
        tok(TokenKind::Case, 0, 4),
        int_tok(1, 5, 6),
        tok(TokenKind::Plus, 7, 8),
        int_tok(2, 9, 10),
        tok(TokenKind::Of, 11, 13),
        ident_tok("a", 14, 15),
    ]);
    let expected = Expr {
        range: r(0, 15),
        kind: ExprKind::CaseOf {
            expr: Box::new(binop(BinaryOpKind::Add, int_leaf(1, 5, 6), int_leaf(2, 9, 10))),
            cases: Box::new(ident_leaf("a", 14, 15)),
        },
        metadata: vec![],
    };
    assert_eq!(e, expected);
    assert_eq!(diags, vec![]);
}
