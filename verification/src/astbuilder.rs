use vstd::prelude::*;

use crate::ast::{BinaryOpKind, Expr, ExprKind, Metadata};
use crate::codereader::{pos_le, spec_union_of, union_of, SourceRange};
use crate::dlogger::{Diagnostic, DiagnosticLogger, ParseContext};
use crate::token::{Token, TokenKind};

verus! {

// ---------------------------------------------------------------------------
// The shape of the token stream
// ---------------------------------------------------------------------------
/// Length of the leading run of tokens that carry a concrete kind. The first
/// kindless token, if any, is where the parser sees the end of the input.
pub open spec fn concrete_len(toks: Seq<Token>) -> nat
    decreases toks.len(),
{
    if toks.len() == 0 {
        0
    } else if toks[0].kind is None {
        0
    } else {
        1 + concrete_len(toks.skip(1))
    }
}

/// All kindless tokens sit at the tail of the stream.
pub open spec fn shaped(toks: Seq<Token>) -> bool {
    forall|i: int| concrete_len(toks) <= i < toks.len() ==> (#[trigger] toks[i]).kind is None
}

/// The caller contract on the token stream: the lexer finishes the stream
/// with an end-of-input marker, so that no parsing routine can run off the
/// end. The parser peeks at a marker but never consumes one, so one trailing
/// marker suffices for any input.
pub open spec fn well_terminated(toks: Seq<Token>) -> bool {
    shaped(toks) && toks.len() > concrete_len(toks)
}

/// Token ranges never go backwards: later tokens start and end no earlier
/// than earlier ones. Any stream a lexer produces satisfies this.
pub open spec fn ranges_sorted(toks: Seq<Token>) -> bool {
    forall|i: int, j: int|
        0 <= i <= j < toks.len() ==> pos_le(
            (#[trigger] toks[i]).range.start,
            (#[trigger] toks[j]).range.start,
        ) && pos_le(toks[i].range.end, toks[j].range.end)
}

pub open spec fn is_metadata_kind(k: Option<TokenKind>) -> bool {
    k matches Some(TokenKind::Metadata { .. })
}

/// How many metadata tokens stand at the front of the stream.
pub open spec fn meta_len(toks: Seq<Token>) -> nat
    decreases toks.len(),
{
    if toks.len() == 0 {
        0
    } else if is_metadata_kind(toks[0].kind) {
        1 + meta_len(toks.skip(1))
    } else {
        0
    }
}

/// The metadata records carried by the leading metadata tokens, in source
/// order.
pub open spec fn leading_metas(toks: Seq<Token>) -> Seq<Metadata>
    decreases toks.len(),
{
    if toks.len() == 0 {
        Seq::empty()
    } else {
        match toks[0].kind {
            Some(TokenKind::Metadata { value, significant }) => seq![
                Metadata { range: toks[0].range, significant, value },
            ] + leading_metas(toks.skip(1)),
            _ => Seq::empty(),
        }
    }
}

// ---------------------------------------------------------------------------
// Lemmas about the stream shape
// ---------------------------------------------------------------------------
pub proof fn lemma_concrete_prefix(toks: Seq<Token>)
    ensures
        concrete_len(toks) <= toks.len(),
        forall|i: int| 0 <= i < concrete_len(toks) ==> (#[trigger] toks[i]).kind is Some,
    decreases toks.len(),
{
    if toks.len() > 0 && !(toks[0].kind is None) {
        lemma_concrete_prefix(toks.skip(1));
        assert forall|i: int| 0 <= i < concrete_len(toks) implies (#[trigger] toks[i]).kind
            is Some by {
            if i > 0 {
                assert(toks.skip(1)[i - 1] == toks[i]);
            }
        }
    }
}

/// Composing two skips is one skip.
pub proof fn lemma_skip_skip(toks: Seq<Token>, a: int, b: int)
    requires
        0 <= a,
        0 <= b,
        a + b <= toks.len(),
    ensures
        toks.skip(a).skip(b) == toks.skip(a + b),
{
    assert(toks.skip(a).skip(b) =~= toks.skip(a + b));
}

/// What skipping does to the concrete prefix and the tail shape.
pub proof fn lemma_concrete_skip(toks: Seq<Token>, n: int)
    requires
        shaped(toks),
        0 <= n <= toks.len(),
    ensures
        concrete_len(toks.skip(n)) == if n <= concrete_len(toks) {
            concrete_len(toks) - n
        } else {
            0
        },
        shaped(toks.skip(n)),
    decreases n,
{
    lemma_concrete_prefix(toks);
    if n == 0 {
        assert(toks.skip(0) =~= toks);
    } else {
        let rest = toks.skip(1);
        assert forall|i: int| concrete_len(rest) <= i < rest.len() implies (#[trigger] rest[i]).kind
            is None by {
            if toks[0].kind is None {
                assert(concrete_len(toks) == 0);
                assert(toks[i + 1].kind is None);
            } else {
                assert(concrete_len(toks) == 1 + concrete_len(rest));
                assert(toks[i + 1].kind is None);
            }
            assert(rest[i] == toks[i + 1]);
        }
        lemma_concrete_skip(rest, n - 1);
        lemma_skip_skip(toks, 1, n - 1);
    }
}

/// Every leading metadata token is concrete, so the metadata run sits inside
/// the concrete prefix.
pub proof fn lemma_meta_len_le_concrete(toks: Seq<Token>)
    ensures
        meta_len(toks) <= concrete_len(toks),
    decreases toks.len(),
{
    if toks.len() > 0 && is_metadata_kind(toks[0].kind) {
        lemma_meta_len_le_concrete(toks.skip(1));
    }
}

/// Under the termination contract, the slot just past the leading metadata
/// is a real index, and every index in the concrete prefix holds a kind.
pub proof fn lemma_wt_facts(toks: Seq<Token>)
    requires
        well_terminated(toks),
    ensures
        meta_len(toks) <= concrete_len(toks),
        concrete_len(toks) < toks.len(),
        meta_len(toks) < toks.len(),
        forall|i: int| 0 <= i < concrete_len(toks) ==> (#[trigger] toks[i]).kind is Some,
{
    lemma_meta_len_le_concrete(toks);
    lemma_concrete_prefix(toks);
}

/// Consuming `n` tokens of a well-terminated stream keeps it well terminated
/// as long as `n` stays within the concrete prefix.
pub proof fn lemma_wt_skip(toks: Seq<Token>, n: int)
    requires
        well_terminated(toks),
        0 <= n <= concrete_len(toks),
    ensures
        n <= toks.len(),
        well_terminated(toks.skip(n)),
        concrete_len(toks.skip(n)) == concrete_len(toks) - n,
{
    lemma_concrete_prefix(toks);
    lemma_concrete_skip(toks, n);
}

/// Sortedness of token ranges carries over to any suffix.
pub proof fn lemma_sorted_skip(toks: Seq<Token>, n: int)
    requires
        ranges_sorted(toks),
        0 <= n <= toks.len(),
    ensures
        ranges_sorted(toks.skip(n)),
{
    let rest = toks.skip(n);
    assert forall|i: int, j: int| 0 <= i <= j < rest.len() implies pos_le(
        (#[trigger] rest[i]).range.start,
        (#[trigger] rest[j]).range.start,
    ) && pos_le(rest[i].range.end, rest[j].range.end) by {
        assert(rest[i] == toks[n + i]);
        assert(rest[j] == toks[n + j]);
    }
}

// ---------------------------------------------------------------------------
// The operator table of the precedence ladder
// ---------------------------------------------------------------------------
/// Which binary operator a token stands for at a given ladder level. Level 3
/// (application) is absent here: it is recognized by lookahead, not by a
/// token. Level 14 is the case-branch chain, which separates branches with
/// `||` but reuses the `Sequence` operator kind for the resulting nodes.
pub open spec fn op_for(level: int, k: TokenKind) -> Option<BinaryOpKind> {
    match k {
        TokenKind::ModuleAccess => if level == 2 {
            Some(BinaryOpKind::ModuleAccess)
        } else {
            None
        },
        TokenKind::Constrain => if level == 4 {
            Some(BinaryOpKind::Constrain)
        } else {
            None
        },
        TokenKind::Mul => if level == 5 {
            Some(BinaryOpKind::Mul)
        } else {
            None
        },
        TokenKind::Div => if level == 5 {
            Some(BinaryOpKind::Div)
        } else {
            None
        },
        TokenKind::Rem => if level == 5 {
            Some(BinaryOpKind::Rem)
        } else {
            None
        },
        TokenKind::Plus => if level == 6 {
            Some(BinaryOpKind::Add)
        } else {
            None
        },
        TokenKind::Minus => if level == 6 {
            Some(BinaryOpKind::Sub)
        } else {
            None
        },
        TokenKind::Less => if level == 7 {
            Some(BinaryOpKind::Less)
        } else {
            None
        },
        TokenKind::Greater => if level == 7 {
            Some(BinaryOpKind::Greater)
        } else {
            None
        },
        TokenKind::LessEqual => if level == 7 {
            Some(BinaryOpKind::LessEqual)
        } else {
            None
        },
        TokenKind::GreaterEqual => if level == 7 {
            Some(BinaryOpKind::GreaterEqual)
        } else {
            None
        },
        TokenKind::Equal => if level == 7 {
            Some(BinaryOpKind::Equal)
        } else {
            None
        },
        TokenKind::NotEqual => if level == 7 {
            Some(BinaryOpKind::NotEqual)
        } else {
            None
        },
        TokenKind::And => if level == 8 {
            Some(BinaryOpKind::And)
        } else {
            None
        },
        TokenKind::Or => if level == 8 {
            Some(BinaryOpKind::Or)
        } else {
            None
        },
        TokenKind::Cons => if level == 9 {
            Some(BinaryOpKind::Cons)
        } else {
            None
        },
        TokenKind::Pipe => if level == 10 {
            Some(BinaryOpKind::Pipe)
        } else {
            None
        },
        TokenKind::Defun => if level == 11 {
            Some(BinaryOpKind::Defun)
        } else {
            None
        },
        TokenKind::Assign => if level == 12 {
            Some(BinaryOpKind::Assign)
        } else {
            None
        },
        TokenKind::PlusAssign => if level == 12 {
            Some(BinaryOpKind::PlusAssign)
        } else {
            None
        },
        TokenKind::MinusAssign => if level == 12 {
            Some(BinaryOpKind::MinusAssign)
        } else {
            None
        },
        TokenKind::MulAssign => if level == 12 {
            Some(BinaryOpKind::MulAssign)
        } else {
            None
        },
        TokenKind::DivAssign => if level == 12 {
            Some(BinaryOpKind::DivAssign)
        } else {
            None
        },
        TokenKind::RemAssign => if level == 12 {
            Some(BinaryOpKind::RemAssign)
        } else {
            None
        },
        TokenKind::Sequence => if level == 13 {
            Some(BinaryOpKind::Sequence)
        } else {
            None
        },
        TokenKind::CaseOption => if level == 14 {
            Some(BinaryOpKind::Sequence)
        } else {
            None
        },
        _ => None,
    }
}

/// The operator the recognizer commits to at `level`, looking past leading
/// metadata: a token of this level's set, or — at the application level — an
/// implicit `Apply` whenever the upcoming token can begin a term.
pub open spec fn op_at(level: int, toks: Seq<Token>) -> Option<BinaryOpKind> {
    let m = meta_len(toks) as int;
    if m < toks.len() {
        match toks[m].kind {
            Some(k) => if level == 3 {
                if starts_term(k) {
                    Some(BinaryOpKind::Apply)
                } else {
                    None
                }
            } else {
                op_for(level, k)
            },
            None => None,
        }
    } else {
        None
    }
}

/// How many tokens recognizing an operator consumes: the leading metadata
/// and the operator token itself, or nothing at the application level.
pub open spec fn op_consumed(level: int, toks: Seq<Token>) -> int {
    if level == 3 {
        0
    } else {
        meta_len(toks) as int + 1
    }
}

/// The metadata folded into the node an operator builds: what preceded the
/// operator token; an implicit application carries none.
pub open spec fn op_metas(level: int, toks: Seq<Token>) -> Seq<Metadata> {
    if level == 3 {
        Seq::empty()
    } else {
        leading_metas(toks)
    }
}

/// The two right-associative ladder levels: type constraint and defun.
pub open spec fn right_assoc(level: int) -> bool {
    level == 4 || level == 11
}

/// The level whose parser supplies the operands of `level`. The case-branch
/// chain (14) takes assignment-level (12) branches.
pub open spec fn lower_level(level: int) -> int {
    if level == 14 {
        12
    } else {
        level - 1
    }
}

/// The ladder level that produces each operator kind. Nodes of the
/// case-branch chain carry `Sequence`, so that kind reports level 13.
pub open spec fn op_level(op: BinaryOpKind) -> int {
    match op {
        BinaryOpKind::ModuleAccess => 2,
        BinaryOpKind::Apply => 3,
        BinaryOpKind::Constrain => 4,
        BinaryOpKind::Mul => 5,
        BinaryOpKind::Div => 5,
        BinaryOpKind::Rem => 5,
        BinaryOpKind::Add => 6,
        BinaryOpKind::Sub => 6,
        BinaryOpKind::Less => 7,
        BinaryOpKind::Greater => 7,
        BinaryOpKind::LessEqual => 7,
        BinaryOpKind::GreaterEqual => 7,
        BinaryOpKind::Equal => 7,
        BinaryOpKind::NotEqual => 7,
        BinaryOpKind::And => 8,
        BinaryOpKind::Or => 8,
        BinaryOpKind::Cons => 9,
        BinaryOpKind::Pipe => 10,
        BinaryOpKind::Defun => 11,
        BinaryOpKind::Assign => 12,
        BinaryOpKind::PlusAssign => 12,
        BinaryOpKind::MinusAssign => 12,
        BinaryOpKind::MulAssign => 12,
        BinaryOpKind::DivAssign => 12,
        BinaryOpKind::RemAssign => 12,
        BinaryOpKind::Sequence => 13,
    }
}

/// The highest level a node built at `level` can report: the case-branch
/// chain builds `Sequence` nodes, which report 13.
pub open spec fn level_cap(level: int) -> int {
    if level == 14 {
        13
    } else {
        level
    }
}

// ---------------------------------------------------------------------------
// Term dispatch
// ---------------------------------------------------------------------------
/// The parsing routine the term dispatcher selects for a token kind.
#[derive(Clone, Copy, Debug, PartialEq, Eq, Structural)]
pub enum TermForm {
    /// A single-token leaf: identifier, builtin, literal, `()`, `!`, `&`, `@`.
    Simple,
    /// A delimited group opened by `(` or `{`.
    Group,
    /// The `case ... of ...` construct.
    Case,
    /// The `type` marker with an optional integer level.
    TypeLevel,
    /// A prefix keyword `val`, `struct` or `enum` over one term.
    Prefix,
}

pub open spec fn term_form_of(k: TokenKind) -> Option<TermForm> {
    match k {
        TokenKind::Identifier(_) => Some(TermForm::Simple),
        TokenKind::Builtin(_) => Some(TermForm::Simple),
        TokenKind::Bool(_) => Some(TermForm::Simple),
        TokenKind::Int(_) => Some(TermForm::Simple),
        TokenKind::Float(_) => Some(TermForm::Simple),
        TokenKind::String { .. } => Some(TermForm::Simple),
        TokenKind::Label(_) => Some(TermForm::Simple),
        TokenKind::Unit => Some(TermForm::Simple),
        TokenKind::Never => Some(TermForm::Simple),
        TokenKind::Ref => Some(TermForm::Simple),
        TokenKind::Deref => Some(TermForm::Simple),
        TokenKind::BraceLeft => Some(TermForm::Group),
        TokenKind::ParenLeft => Some(TermForm::Group),
        TokenKind::Case => Some(TermForm::Case),
        TokenKind::Type => Some(TermForm::TypeLevel),
        TokenKind::Val => Some(TermForm::Prefix),
        TokenKind::Struct => Some(TermForm::Prefix),
        TokenKind::Enum => Some(TermForm::Prefix),
        _ => None,
    }
}

/// Whether a token kind can begin a term; this is the lookahead set that
/// triggers implicit application.
pub open spec fn starts_term(k: TokenKind) -> bool {
    term_form_of(k) is Some
}

// ---------------------------------------------------------------------------
// Tree invariants
// ---------------------------------------------------------------------------
/// The ladder level of the node's own operator; leaves report 0.
pub open spec fn expr_level(e: Expr) -> int {
    match e.kind {
        ExprKind::BinaryOp { op, .. } => op_level(op),
        _ => 0,
    }
}

/// A tree the ladder can produce: the operands of every binary node come
/// from the levels the ladder feeds it from, and a prefix form holds a bare
/// term.
pub open spec fn well_leveled(e: Expr) -> bool
    decreases e,
{
    match e.kind {
        ExprKind::Val(b) => well_leveled(*b) && expr_level(*b) == 0,
        ExprKind::Struct(b) => well_leveled(*b) && expr_level(*b) == 0,
        ExprKind::Enum(b) => well_leveled(*b) && expr_level(*b) == 0,
        ExprKind::Group(b) => well_leveled(*b),
        ExprKind::StructLiteral(b) => well_leveled(*b),
        ExprKind::CaseOf { expr, cases } => well_leveled(*expr) && well_leveled(*cases),
        ExprKind::BinaryOp { op, left_operand, right_operand } => {
            let lv = op_level(op);
            &&& well_leveled(*left_operand)
            &&& well_leveled(*right_operand)
            &&& if right_assoc(lv) {
                expr_level(*left_operand) <= lv - 1 && expr_level(*right_operand) <= lv
            } else {
                expr_level(*left_operand) <= lv && expr_level(*right_operand) <= lower_level(lv)
            }
        },
        _ => true,
    }
}

/// Whether the tree holds a recovery node anywhere; one only ever appears
/// together with a report to the logger.
pub open spec fn tree_has_error(e: Expr) -> bool
    decreases e,
{
    match e.kind {
        ExprKind::Error => true,
        ExprKind::Val(b) => tree_has_error(*b),
        ExprKind::Struct(b) => tree_has_error(*b),
        ExprKind::Enum(b) => tree_has_error(*b),
        ExprKind::Group(b) => tree_has_error(*b),
        ExprKind::StructLiteral(b) => tree_has_error(*b),
        ExprKind::CaseOf { expr, cases } => tree_has_error(*expr) || tree_has_error(*cases),
        ExprKind::BinaryOp { left_operand, right_operand, .. } => tree_has_error(*left_operand)
            || tree_has_error(*right_operand),
        _ => false,
    }
}

/// A tree built without any recovery: no error node anywhere.
pub open spec fn tree_clean(e: Expr) -> bool
    decreases e,
{
    match e.kind {
        ExprKind::Error => false,
        ExprKind::Val(b) => tree_clean(*b),
        ExprKind::Struct(b) => tree_clean(*b),
        ExprKind::Enum(b) => tree_clean(*b),
        ExprKind::Group(b) => tree_clean(*b),
        ExprKind::StructLiteral(b) => tree_clean(*b),
        ExprKind::CaseOf { expr, cases } => tree_clean(*expr) && tree_clean(*cases),
        ExprKind::BinaryOp { left_operand, right_operand, .. } => tree_clean(*left_operand)
            && tree_clean(*right_operand),
        _ => true,
    }
}

// ---------------------------------------------------------------------------
// What a parsing step promises
// ---------------------------------------------------------------------------
/// One diagnostic list extends the other: reports are only ever appended.
pub open spec fn diags_extend(d0: Seq<Diagnostic>, d1: Seq<Diagnostic>) -> bool {
    d0.len() <= d1.len() && d1.take(d0.len() as int) == d0
}

pub proof fn lemma_diags_extend_trans(d0: Seq<Diagnostic>, d1: Seq<Diagnostic>, d2: Seq<
    Diagnostic,
>)
    requires
        diags_extend(d0, d1),
        diags_extend(d1, d2),
    ensures
        diags_extend(d0, d2),
{
    assert(d2.take(d0.len() as int) =~= d1.take(d0.len() as int));
}

/// If a later step lands back on the starting list, the middle step already
/// had it.
pub proof fn lemma_diags_extend_squeeze(d0: Seq<Diagnostic>, d1: Seq<Diagnostic>, d2: Seq<
    Diagnostic,
>)
    requires
        diags_extend(d0, d1),
        diags_extend(d1, d2),
        d2 == d0,
    ensures
        d1 == d0,
{
    assert(d1 =~= d1.take(d0.len() as int));
}

/// The node's range runs from the first token past the leading metadata to
/// the last consumed token.
pub open spec fn covers(toks0: Seq<Token>, n: int, e: Expr) -> bool {
    let m = meta_len(toks0) as int;
    &&& m + 1 <= n <= toks0.len()
    &&& e.range.start == toks0[m].range.start
    &&& e.range.end == toks0[n - 1].range.end
}

/// The diagnostic recorded when no term form matches.
pub open spec fn term_error_diag(range: SourceRange, found: Option<TokenKind>) -> Diagnostic {
    Diagnostic::UnexpectedToken { range, context: ParseContext::Term, found }
}

/// What every parsing routine promises, given the stream and the diagnostic
/// list before (`toks0`, `d0`) and after (`toks1`, `d1`) the call, the node
/// `e` it built, and the ladder level it ran at.
pub open spec fn parse_post(
    toks0: Seq<Token>,
    toks1: Seq<Token>,
    d0: Seq<Diagnostic>,
    d1: Seq<Diagnostic>,
    e: Expr,
    level: int,
) -> bool {
    let n = toks0.len() - toks1.len();
    let m = meta_len(toks0) as int;
    &&& toks1.len() <= toks0.len()
    &&& toks1 == toks0.skip(n)
    &&& n <= concrete_len(toks0)
    &&& well_terminated(toks1)
    &&& diags_extend(d0, d1)
    &&& well_leveled(e)
    &&& expr_level(e) <= level_cap(level)
    &&& (m < toks0.len() && toks0[m].kind is Some ==> n >= m + 1)
    &&& (m < toks0.len() && toks0[m].kind is None ==> n == m && e.range == toks0[m].range
        && e.kind == ExprKind::Error && e.metadata@ == leading_metas(toks0) && d1 == d0.push(
        term_error_diag(toks0[m].range, None),
    ))
    &&& (tree_has_error(e) ==> d1.len() > d0.len())
    &&& (d1 == d0 && tree_clean(e) && ranges_sorted(toks0) ==> covers(toks0, n, e))
}

/// A single-token leaf node: the token's own range, the given form, and the
/// leading metadata attached.
pub open spec fn is_leaf_result(toks: Seq<Token>, e: Expr, k: ExprKind) -> bool {
    let m = meta_len(toks) as int;
    e.range == toks[m].range && e.kind == k && e.metadata@ == leading_metas(toks)
}

/// Exactly what the term parser hands back for each possible token at the
/// front of the stream (past leading metadata). `n` is the number of tokens
/// the call consumed; `d0` and `d1` are the diagnostic lists around it.
pub open spec fn term_result(
    toks: Seq<Token>,
    d0: Seq<Diagnostic>,
    e: Expr,
    d1: Seq<Diagnostic>,
    n: int,
) -> bool
    decreases toks.len(), 0int, 1int,
{
    let m = meta_len(toks) as int;
    if !(m < toks.len()) {
        true
    } else {
        match toks[m].kind {
            None => is_leaf_result(toks, e, ExprKind::Error) && n == m && d1 == d0.push(
                term_error_diag(toks[m].range, None),
            ),
            Some(k) => match k {
                TokenKind::Identifier(b) => is_leaf_result(toks, e, ExprKind::Identifier(b)) && n
                    == m + 1 && d1 == d0,
                TokenKind::Builtin(b) => is_leaf_result(toks, e, ExprKind::Builtin(b)) && n == m + 1
                    && d1 == d0,
                TokenKind::Bool(v) => is_leaf_result(toks, e, ExprKind::Bool(v)) && n == m + 1 && d1
                    == d0,
                TokenKind::Int(v) => is_leaf_result(toks, e, ExprKind::Int(v)) && n == m + 1 && d1
                    == d0,
                TokenKind::Float(v) => is_leaf_result(toks, e, ExprKind::Float(v)) && n == m + 1
                    && d1 == d0,
                TokenKind::String { value, block } => is_leaf_result(
                    toks,
                    e,
                    ExprKind::String { value, block },
                ) && n == m + 1 && d1 == d0,
                TokenKind::Label(v) => is_leaf_result(toks, e, ExprKind::Label(v)) && n == m + 1
                    && d1 == d0,
                TokenKind::Unit => is_leaf_result(toks, e, ExprKind::Unit) && n == m + 1 && d1
                    == d0,
                TokenKind::Never => is_leaf_result(toks, e, ExprKind::Never) && n == m + 1 && d1
                    == d0,
                TokenKind::Ref => is_leaf_result(toks, e, ExprKind::Ref) && n == m + 1 && d1 == d0,
                TokenKind::Deref => is_leaf_result(toks, e, ExprKind::Deref) && n == m + 1 && d1
                    == d0,
                TokenKind::Type => {
                    &&& m + 1 < toks.len()
                    &&& e.metadata@ == leading_metas(toks)
                    &&& d1 == d0
                    &&& match toks[m + 1].kind {
                        Some(TokenKind::Int(v)) => e.kind == ExprKind::Type(Some(v)) && e.range
                            == spec_union_of(toks[m].range, toks[m + 1].range) && n == m + 2,
                        _ => e.kind == ExprKind::Type(None) && e.range == toks[m].range && n == m
                            + 1,
                    }
                },
                TokenKind::Val => {
                    &&& e.metadata@ == leading_metas(toks)
                    &&& e.kind matches ExprKind::Val(b) && e.range == spec_union_of(
                        toks[m].range,
                        b.range,
                    ) && term_result(toks.skip(m + 1), d0, *b, d1, n - (m + 1))
                },
                TokenKind::Struct => {
                    &&& e.metadata@ == leading_metas(toks)
                    &&& e.kind matches ExprKind::Struct(b) && e.range == spec_union_of(
                        toks[m].range,
                        b.range,
                    ) && term_result(toks.skip(m + 1), d0, *b, d1, n - (m + 1))
                },
                TokenKind::Enum => {
                    &&& e.metadata@ == leading_metas(toks)
                    &&& e.kind matches ExprKind::Enum(b) && e.range == spec_union_of(
                        toks[m].range,
                        b.range,
                    ) && term_result(toks.skip(m + 1), d0, *b, d1, n - (m + 1))
                },
                TokenKind::Case => {
                    &&& e.metadata@ == leading_metas(toks)
                    &&& exists|
                        scrut: Expr,
                        d_s: Seq<Diagnostic>,
                        ne: int,
                        branches: Expr,
                        d_of: Seq<Diagnostic>,
                        nc: int,
                    |
                        #![trigger case_witness(scrut, d_s, ne, branches, d_of, nc)]
                        {
                            let c_of: int = if toks[m + 1 + ne].kind is Some {
                                1
                            } else {
                                0
                            };
                            &&& case_witness(scrut, d_s, ne, branches, d_of, nc)
                            &&& 0 <= ne
                            &&& m + 1 + ne < toks.len()
                            &&& 0 <= nc
                            &&& m + 1 + ne + c_of + nc <= toks.len()
                            &&& level_result(13, toks.skip(m + 1), d0, scrut, d_s, ne)
                            &&& d_of == (if toks[m + 1 + ne].kind == Some(TokenKind::Of) {
                                d_s
                            } else {
                                d_s.push(
                                    (Diagnostic::UnexpectedTokenSpecific {
                                        range: toks[m + 1 + ne].range,
                                        expected: TokenKind::Of,
                                        found: toks[m + 1 + ne].kind,
                                    }),
                                )
                            })
                            &&& level_result(14, toks.skip(m + 1 + ne + c_of), d_of, branches, d1, nc)
                            &&& e.kind matches ExprKind::CaseOf { expr: ex, cases: cs } && *ex
                                == scrut && *cs == branches
                            &&& e.range == spec_union_of(toks[m].range, branches.range)
                            &&& n == m + 1 + ne + c_of + nc
                        }
                },
                TokenKind::BraceLeft => group_result(
                    toks,
                    d0,
                    e,
                    d1,
                    n,
                    TokenKind::BraceRight,
                ),
                TokenKind::ParenLeft => group_result(
                    toks,
                    d0,
                    e,
                    d1,
                    n,
                    TokenKind::ParenRight,
                ),
                _ => is_leaf_result(toks, e, ExprKind::Error) && n == m + 1 && d1 == d0.push(
                    term_error_diag(toks[m].range, Some(k)),
                ),
            },
        }
    }
}

/// Trigger marker naming the witnesses of a group parse, so that the
/// existential below can be introduced from ground facts.
pub open spec fn group_witness(body: Expr, d_b: Seq<Diagnostic>, nb: int) -> bool {
    true
}

/// Trigger marker naming the witnesses of a case parse.
pub open spec fn case_witness(
    scrut: Expr,
    d_s: Seq<Diagnostic>,
    ne: int,
    branches: Expr,
    d_of: Seq<Diagnostic>,
    nc: int,
) -> bool {
    true
}

/// Trigger marker naming the witnesses of one left-fold step.
pub open spec fn chain_witness(
    right: Expr,
    d_r: Seq<Diagnostic>,
    nr: int,
    folded: Expr,
) -> bool {
    true
}

/// Trigger marker naming the witnesses of one ladder rung.
pub open spec fn rung_witness(
    left: Expr,
    d_m: Seq<Diagnostic>,
    n1: int,
    right: Expr,
    nr: int,
) -> bool {
    true
}

/// What a delimited group parse hands back: the opener, one full expression,
/// and the closing token. A concrete token other than `closer` stays
/// consumed and is reported; an end-of-input marker in the closer's place is
/// reported but not consumed; either way the group's range ends at the body.
pub open spec fn group_result(
    toks: Seq<Token>,
    d0: Seq<Diagnostic>,
    e: Expr,
    d1: Seq<Diagnostic>,
    n: int,
    closer: TokenKind,
) -> bool
    decreases toks.len(), 0int, 0int,
{
    let m = meta_len(toks) as int;
    if m < toks.len() {
        &&& e.metadata@ == leading_metas(toks)
        &&& exists|body: Expr, d_b: Seq<Diagnostic>, nb: int|
            #![trigger group_witness(body, d_b, nb)]
            {
                let c_cl: int = if toks[m + 1 + nb].kind is Some {
                    1
                } else {
                    0
                };
                &&& group_witness(body, d_b, nb)
                &&& 0 <= nb
                &&& m + 1 + nb < toks.len()
                &&& level_result(13, toks.skip(m + 1), d0, body, d_b, nb)
                &&& e.kind matches ExprKind::Group(b) && *b == body
                &&& n == m + 1 + nb + c_cl
                &&& if toks[m + 1 + nb].kind == Some(closer) {
                    e.range == spec_union_of(toks[m].range, toks[m + 1 + nb].range) && d1 == d_b
                } else {
                    e.range == spec_union_of(toks[m].range, body.range) && d1 == d_b.push(
                        (Diagnostic::UnexpectedTokenSpecific {
                            range: toks[m + 1 + nb].range,
                            expected: closer,
                            found: toks[m + 1 + nb].kind,
                        }),
                    )
                }
            }
    } else {
        false
    }
}

/// The operand that feeds a ladder level: a term at the tightest level, the
/// next level down everywhere else.
pub open spec fn operand_result(
    level: int,
    toks: Seq<Token>,
    d0: Seq<Diagnostic>,
    e: Expr,
    d1: Seq<Diagnostic>,
    n: int,
) -> bool
    decreases toks.len(), level, 0int,
{
    if !(2 <= level <= 14) {
        false
    } else if level == 2 {
        term_result(toks, d0, e, d1, n)
    } else {
        level_result(lower_level(level), toks, d0, e, d1, n)
    }
}

/// The left-associative combinator's loop: starting from the running result
/// `acc`, while an operator of this level is next, consume it, parse one
/// more operand from the level below, and fold `acc` as the left child of a
/// new node. `e` is what the chain ends with and `n` what it consumed.
pub open spec fn lchain_result(
    level: int,
    toks: Seq<Token>,
    d0: Seq<Diagnostic>,
    acc: Expr,
    e: Expr,
    d1: Seq<Diagnostic>,
    n: int,
) -> bool
    decreases toks.len(), level, 1int,
{
    if !(2 <= level <= 14) {
        false
    } else {
        match op_at(level, toks) {
            None => e == acc && d1 == d0 && n == 0,
            Some(op) => {
                let c = op_consumed(level, toks);
                exists|right: Expr, d_r: Seq<Diagnostic>, nr: int, folded: Expr|
                    #![trigger chain_witness(right, d_r, nr, folded)]
                    {
                        &&& chain_witness(right, d_r, nr, folded)
                        &&& 0 <= nr
                        &&& 1 <= c + nr
                        &&& c + nr <= toks.len()
                        &&& operand_result(level, toks.skip(c), d0, right, d_r, nr)
                        &&& folded.kind matches ExprKind::BinaryOp {
                            op: fop,
                            left_operand: fl,
                            right_operand: fr,
                        } && fop == op && *fl == acc && *fr == right
                        &&& folded.range == spec_union_of(acc.range, right.range)
                        &&& folded.metadata@ == op_metas(level, toks)
                        &&& lchain_result(level, toks.skip(c + nr), d_r, folded, e, d1, n - c - nr)
                    }
            },
        }
    }
}

/// What follows the first operand of a ladder level, with `left` that
/// operand (consuming `n1`) and `d_m` the reports up to it: a
/// right-associative level takes at most one operator here and recurses into
/// the same level on the right (`right`, consuming `nr`); every other level
/// folds leftwards. `e`, `d1` and `n` describe the whole rung.
pub open spec fn level_tail(
    level: int,
    toks: Seq<Token>,
    d_m: Seq<Diagnostic>,
    left: Expr,
    n1: int,
    right: Expr,
    nr: int,
    e: Expr,
    d1: Seq<Diagnostic>,
    n: int,
) -> bool
    decreases toks.len(), level, 2int,
{
    if !(2 <= level <= 14) || !(0 <= n1 <= toks.len()) {
        false
    } else {
        let rest = toks.skip(n1);
        if right_assoc(level) {
            match op_at(level, rest) {
                None => e == left && d1 == d_m && n == n1,
                Some(op) => {
                    let c = op_consumed(level, rest);
                    &&& 0 <= nr
                    &&& n1 + c + nr <= toks.len()
                    &&& level_result(level, toks.skip(n1 + c), d_m, right, d1, nr)
                    &&& e.kind matches ExprKind::BinaryOp {
                        op: fop,
                        left_operand: fl,
                        right_operand: fr,
                    } && fop == op && *fl == left && *fr == right
                    &&& e.range == spec_union_of(left.range, right.range)
                    &&& e.metadata@ == op_metas(level, rest)
                    &&& n == n1 + c + nr
                },
            }
        } else {
            lchain_result(level, rest, d_m, left, e, d1, n - n1)
        }
    }
}

/// One rung of the ladder, as a relation between the stream and the tree it
/// builds: one operand from the level below, then `level_tail`.
pub open spec fn level_result(
    level: int,
    toks: Seq<Token>,
    d0: Seq<Diagnostic>,
    e: Expr,
    d1: Seq<Diagnostic>,
    n: int,
) -> bool
    decreases toks.len(), level, 3int,
{
    if !(2 <= level <= 14) {
        false
    } else {
        exists|left: Expr, d_m: Seq<Diagnostic>, n1: int, right: Expr, nr: int|
            #![trigger rung_witness(left, d_m, n1, right, nr)]
            {
                &&& rung_witness(left, d_m, n1, right, nr)
                &&& 0 <= n1 <= toks.len()
                &&& operand_result(level, toks, d0, left, d_m, n1)
                &&& level_tail(level, toks, d_m, left, n1, right, nr, e, d1, n)
            }
    }
}

/// Introduction of `level_result` for a left-associative level: an operand
/// followed by a finished fold chain.
pub proof fn lemma_level_intro_left(
    level: int,
    toks: Seq<Token>,
    d0: Seq<Diagnostic>,
    left: Expr,
    d_m: Seq<Diagnostic>,
    n1: int,
    e: Expr,
    d1: Seq<Diagnostic>,
    nrest: int,
)
    requires
        2 <= level <= 14,
        !right_assoc(level),
        0 <= n1 <= toks.len(),
        operand_result(level, toks, d0, left, d_m, n1),
        0 <= nrest,
        lchain_result(level, toks.skip(n1), d_m, left, e, d1, nrest),
    ensures
        level_result(level, toks, d0, e, d1, n1 + nrest),
{
    let n = n1 + nrest;
    assert(level_tail(level, toks, d_m, left, n1, e, 0, e, d1, n));
    assert(rung_witness(left, d_m, n1, e, 0));
    assert(level_result(level, toks, d0, e, d1, n));
}

/// Introduction of `level_result` for a right-associative level with no
/// operator after the operand.
pub proof fn lemma_level_intro_right_none(
    level: int,
    toks: Seq<Token>,
    d0: Seq<Diagnostic>,
    e: Expr,
    d1: Seq<Diagnostic>,
    n1: int,
)
    requires
        2 <= level <= 14,
        right_assoc(level),
        0 <= n1 <= toks.len(),
        operand_result(level, toks, d0, e, d1, n1),
        op_at(level, toks.skip(n1)) is None,
    ensures
        level_result(level, toks, d0, e, d1, n1),
{
    assert(level_tail(level, toks, d1, e, n1, e, 0, e, d1, n1));
    assert(rung_witness(e, d1, n1, e, 0));
    assert(level_result(level, toks, d0, e, d1, n1));
}

/// Introduction of `level_result` for a right-associative level that found
/// its operator and recursed into the same level on the right.
pub proof fn lemma_level_intro_right_some(
    level: int,
    toks: Seq<Token>,
    d0: Seq<Diagnostic>,
    left: Expr,
    d_m: Seq<Diagnostic>,
    n1: int,
    right: Expr,
    e: Expr,
    d1: Seq<Diagnostic>,
    nr: int,
)
    requires
        2 <= level <= 14,
        right_assoc(level),
        0 <= n1 <= toks.len(),
        operand_result(level, toks, d0, left, d_m, n1),
        op_at(level, toks.skip(n1)) is Some,
        0 <= nr,
        n1 + op_consumed(level, toks.skip(n1)) + nr <= toks.len(),
        level_result(level, toks.skip(n1 + op_consumed(level, toks.skip(n1))), d_m, right, d1, nr),
        e.kind matches ExprKind::BinaryOp { op: fop, left_operand: fl, right_operand: fr } && fop
            == op_at(level, toks.skip(n1))->Some_0 && *fl == left && *fr == right,
        e.range == spec_union_of(left.range, right.range),
        e.metadata@ == op_metas(level, toks.skip(n1)),
    ensures
        level_result(level, toks, d0, e, d1, n1 + op_consumed(level, toks.skip(n1)) + nr),
{
    let n = n1 + op_consumed(level, toks.skip(n1)) + nr;
    assert(level_tail(level, toks, d_m, left, n1, right, nr, e, d1, n));
    assert(rung_witness(left, d_m, n1, right, nr));
    assert(level_result(level, toks, d0, e, d1, n));
}

/// Introduction of `group_result` from the pieces a group parse produces.
pub proof fn lemma_group_intro(
    toks: Seq<Token>,
    d0: Seq<Diagnostic>,
    e: Expr,
    d1: Seq<Diagnostic>,
    n: int,
    closer: TokenKind,
    body: Expr,
    d_b: Seq<Diagnostic>,
    nb: int,
)
    requires
        meta_len(toks) < toks.len(),
        0 <= nb,
        meta_len(toks) as int + 1 + nb < toks.len(),
        level_result(13, toks.skip(meta_len(toks) as int + 1), d0, body, d_b, nb),
        e.metadata@ == leading_metas(toks),
        e.kind matches ExprKind::Group(b) && *b == body,
        ({
            let m = meta_len(toks) as int;
            n == m + 1 + nb + (if toks[m + 1 + nb].kind is Some {
                1int
            } else {
                0int
            })
        }),
        ({
            let m = meta_len(toks) as int;
            if toks[m + 1 + nb].kind == Some(closer) {
                e.range == spec_union_of(toks[m].range, toks[m + 1 + nb].range) && d1 == d_b
            } else {
                e.range == spec_union_of(toks[m].range, body.range) && d1 == d_b.push(
                    (Diagnostic::UnexpectedTokenSpecific {
                        range: toks[m + 1 + nb].range,
                        expected: closer,
                        found: toks[m + 1 + nb].kind,
                    }),
                )
            }
        }),
    ensures
        group_result(toks, d0, e, d1, n, closer),
{
    assert(level_result(13, toks.skip(meta_len(toks) as int + 1), d0, body, d_b, nb));
    assert(group_witness(body, d_b, nb));
    assert(group_result(toks, d0, e, d1, n, closer));
}

/// Introduction of the case-construct clause of `term_result` from the
/// pieces a case parse produces.
pub proof fn lemma_case_intro(
    toks: Seq<Token>,
    d0: Seq<Diagnostic>,
    e: Expr,
    d1: Seq<Diagnostic>,
    n: int,
    scrut: Expr,
    d_s: Seq<Diagnostic>,
    ne: int,
    branches: Expr,
    d_of: Seq<Diagnostic>,
    nc: int,
)
    requires
        meta_len(toks) < toks.len(),
        toks[meta_len(toks) as int].kind == Some(TokenKind::Case),
        0 <= ne,
        meta_len(toks) as int + 1 + ne < toks.len(),
        0 <= nc,
        ({
            let m = meta_len(toks) as int;
            let c_of: int = if toks[m + 1 + ne].kind is Some {
                1
            } else {
                0
            };
            &&& m + 1 + ne + c_of + nc <= toks.len()
            &&& level_result(14, toks.skip(m + 1 + ne + c_of), d_of, branches, d1, nc)
            &&& n == m + 1 + ne + c_of + nc
        }),
        level_result(13, toks.skip(meta_len(toks) as int + 1), d0, scrut, d_s, ne),
        ({
            let m = meta_len(toks) as int;
            d_of == (if toks[m + 1 + ne].kind == Some(TokenKind::Of) {
                d_s
            } else {
                d_s.push(
                    (Diagnostic::UnexpectedTokenSpecific {
                        range: toks[m + 1 + ne].range,
                        expected: TokenKind::Of,
                        found: toks[m + 1 + ne].kind,
                    }),
                )
            })
        }),
        e.kind matches ExprKind::CaseOf { expr: ex, cases: cs } && *ex == scrut && *cs == branches,
        e.metadata@ == leading_metas(toks),
        e.range == spec_union_of(toks[meta_len(toks) as int].range, branches.range),
    ensures
        term_result(toks, d0, e, d1, n),
{
    let m = meta_len(toks) as int;
    let c_of: int = if toks[m + 1 + ne].kind is Some {
        1
    } else {
        0
    };
    assert(level_result(13, toks.skip(m + 1), d0, scrut, d_s, ne));
    assert(level_result(14, toks.skip(m + 1 + ne + c_of), d_of, branches, d1, nc));
    assert(case_witness(scrut, d_s, ne, branches, d_of, nc));
    assert(term_result(toks, d0, e, d1, n));
}

/// One iteration of the left fold extends the chain relation: a chain that
/// finishes from the folded state also finishes from the state before the
/// step, with the step's consumption added.
pub proof fn lemma_chain_step(
    lvi: int,
    pre: Seq<Token>,
    dpre: Seq<Diagnostic>,
    e_prev: Expr,
    s_op: Seq<Token>,
    d_op: Seq<Diagnostic>,
    e_op: Expr,
    right: Expr,
    d_r: Seq<Diagnostic>,
    nr: int,
    folded: Expr,
    cur: Seq<Token>,
)
    requires
        2 <= lvi <= 14,
        op_at(lvi, pre) is Some,
        folded.kind matches ExprKind::BinaryOp { op: fop, left_operand: fl, right_operand: fr }
            && fop == op_at(lvi, pre)->Some_0 && *fl == e_prev && *fr == right,
        folded.range == spec_union_of(e_prev.range, right.range),
        folded.metadata@ == op_metas(lvi, pre),
        0 <= nr,
        1 <= op_consumed(lvi, pre) + nr,
        op_consumed(lvi, pre) + nr <= pre.len(),
        operand_result(lvi, pre.skip(op_consumed(lvi, pre)), dpre, right, d_r, nr),
        cur == pre.skip(op_consumed(lvi, pre) + nr),
        pre.len() <= s_op.len(),
        forall|fe: Expr, fd: Seq<Diagnostic>, k: int|
            lchain_result(lvi, pre, dpre, e_prev, fe, fd, k) ==> lchain_result(
                lvi,
                s_op,
                d_op,
                e_op,
                fe,
                fd,
                k + (s_op.len() - pre.len()),
            ),
    ensures
        forall|fe: Expr, fd: Seq<Diagnostic>, k: int|
            lchain_result(lvi, cur, d_r, folded, fe, fd, k) ==> lchain_result(
                lvi,
                s_op,
                d_op,
                e_op,
                fe,
                fd,
                k + (s_op.len() - cur.len()),
            ),
{
    let c = op_consumed(lvi, pre);
    assert forall|fe: Expr, fd: Seq<Diagnostic>, k: int|
        lchain_result(lvi, cur, d_r, folded, fe, fd, k) implies lchain_result(
        lvi,
        s_op,
        d_op,
        e_op,
        fe,
        fd,
        k + (s_op.len() - cur.len()),
    ) by {
        assert(chain_witness(right, d_r, nr, folded));
        assert(lchain_result(lvi, pre, dpre, e_prev, fe, fd, k + c + nr));
        assert(lchain_result(
            lvi,
            s_op,
            d_op,
            e_op,
            fe,
            fd,
            (k + c + nr) + (s_op.len() - pre.len()),
        ));
        assert((k + c + nr) + (s_op.len() - pre.len()) == k + (s_op.len() - cur.len()));
    }
}

// ---------------------------------------------------------------------------
// The token cursor
// ---------------------------------------------------------------------------
/// The token stream, fully materialized, with arbitrary forward lookahead:
/// `toks` is what remains to be consumed.
pub struct TokenCursor {
    pub toks: Vec<Token>,
}

impl TokenCursor {
    pub fn new(toks: Vec<Token>) -> (c: Self)
        ensures
            c.toks@ == toks@,
    {
        TokenCursor { toks }
    }

    /// Consume and return the front token.
    fn advance(&mut self) -> (t: Token)
        requires
            old(self).toks@.len() > 0,
        ensures
            t == old(self).toks@[0],
            final(self).toks@ == old(self).toks@.skip(1),
    {
        let t = self.toks.remove(0);
        proof {
            assert(self.toks@ =~= old(self).toks@.skip(1));
        }
        t
    }
}

/// Index of the first non-metadata token: the next concrete token the parser
/// will decide on, with metadata tokens peeked past but not consumed.
fn peek_past_metadata(tkiter: &TokenCursor) -> (i: usize)
    requires
        well_terminated(tkiter.toks@),
    ensures
        i == meta_len(tkiter.toks@),
        i < tkiter.toks@.len(),
        !is_metadata_kind(tkiter.toks@[i as int].kind),
{
    proof {
        lemma_wt_facts(tkiter.toks@);
    }
    let ghost toks = tkiter.toks@;
    proof {
        assert(toks.skip(0) =~= toks);
    }
    let mut i: usize = 0;
    loop
        invariant
            well_terminated(toks),
            toks == tkiter.toks@,
            0 <= i <= meta_len(toks),
            meta_len(toks) == i + meta_len(toks.skip(i as int)),
            meta_len(toks) < toks.len(),
        ensures
            i == meta_len(toks),
            !is_metadata_kind(toks[i as int].kind),
        decreases toks.len() - i,
    {
        let keep_going = match &tkiter.toks[i].kind {
            Some(TokenKind::Metadata { .. }) => true,
            _ => false,
        };
        proof {
            let rest = toks.skip(i as int);
            assert(rest[0] == toks[i as int]);
            if keep_going {
                lemma_skip_skip(toks, i as int, 1);
                assert(meta_len(rest) == 1 + meta_len(toks.skip(i as int + 1)));
            } else {
                assert(meta_len(rest) == 0);
            }
        }
        if !keep_going {
            break ;
        }
        let n_toks = tkiter.toks.len();
        assert(i < n_toks);
        i = i + 1;
    }
    i
}

/// Drain the leading metadata tokens into the metadata list of the node
/// about to be built, preserving source order.
fn get_metadata(tkiter: &mut TokenCursor) -> (metadata: Vec<Metadata>)
    requires
        well_terminated(old(tkiter).toks@),
    ensures
        metadata@ == leading_metas(old(tkiter).toks@),
        final(tkiter).toks@ == old(tkiter).toks@.skip(meta_len(old(tkiter).toks@) as int),
        well_terminated(final(tkiter).toks@),
        meta_len(final(tkiter).toks@) == 0,
        concrete_len(final(tkiter).toks@) == concrete_len(old(tkiter).toks@) - meta_len(
            old(tkiter).toks@,
        ),
{
    proof {
        lemma_wt_facts(tkiter.toks@);
    }
    let ghost toks0 = tkiter.toks@;
    let mut metadata: Vec<Metadata> = Vec::new();
    loop
        invariant
            well_terminated(toks0),
            metadata@.len() <= meta_len(toks0),
            tkiter.toks@ == toks0.skip(metadata@.len() as int),
            metadata@ + leading_metas(tkiter.toks@) == leading_metas(toks0),
            meta_len(toks0) == metadata@.len() + meta_len(tkiter.toks@),
        ensures
            metadata@.len() == meta_len(toks0),
            metadata@ == leading_metas(toks0),
            tkiter.toks@ == toks0.skip(meta_len(toks0) as int),
            meta_len(tkiter.toks@) == 0,
        decreases tkiter.toks@.len(),
    {
        proof {
            lemma_wt_facts(toks0);
            lemma_meta_len_le_concrete(tkiter.toks@);
            lemma_concrete_skip(toks0, metadata@.len() as int);
            assert(tkiter.toks@.len() > 0);
            assert(tkiter.toks@[0] == toks0[metadata@.len() as int]);
        }
        let keep_going = match &tkiter.toks[0].kind {
            Some(TokenKind::Metadata { .. }) => true,
            _ => false,
        };
        if !keep_going {
            proof {
                assert(meta_len(tkiter.toks@) == 0);
                assert(leading_metas(tkiter.toks@) =~= Seq::<Metadata>::empty());
                assert(metadata@ =~= metadata@ + leading_metas(tkiter.toks@));
            }
            break ;
        }
        let ghost pre = tkiter.toks@;
        let t = tkiter.advance();
        proof {
            lemma_skip_skip(toks0, metadata@.len() as int, 1);
            assert(meta_len(pre) == 1 + meta_len(pre.skip(1)));
            assert(leading_metas(pre) == seq![
                Metadata {
                    range: pre[0].range,
                    significant: pre[0].kind->Some_0->Metadata_significant,
                    value: pre[0].kind->Some_0->Metadata_value,
                },
            ] + leading_metas(pre.skip(1)));
        }
        match t.kind {
            Some(TokenKind::Metadata { value, significant }) => {
                metadata.push(Metadata { range: t.range, significant, value });
                proof {
                    assert(metadata@ + leading_metas(tkiter.toks@) =~= leading_metas(toks0));
                }
            },
            _ => {
                proof {
                    assert(false);
                }
            },
        }
    }
    proof {
        lemma_concrete_skip(toks0, meta_len(toks0) as int);
        lemma_meta_len_le_concrete(toks0);
    }
    metadata
}

/// Select the parsing routine for a token kind, or report that no term can
/// begin here.
fn decide_term(k: &TokenKind) -> (r: Option<TermForm>)
    ensures
        r == term_form_of(*k),
{
    match k {
        TokenKind::Identifier(_) => Some(TermForm::Simple),
        TokenKind::Builtin(_) => Some(TermForm::Simple),
        TokenKind::Bool(_) => Some(TermForm::Simple),
        TokenKind::Int(_) => Some(TermForm::Simple),
        TokenKind::Float(_) => Some(TermForm::Simple),
        TokenKind::String { .. } => Some(TermForm::Simple),
        TokenKind::Label(_) => Some(TermForm::Simple),
        TokenKind::Unit => Some(TermForm::Simple),
        TokenKind::Never => Some(TermForm::Simple),
        TokenKind::Ref => Some(TermForm::Simple),
        TokenKind::Deref => Some(TermForm::Simple),
        TokenKind::BraceLeft => Some(TermForm::Group),
        TokenKind::ParenLeft => Some(TermForm::Group),
        TokenKind::Case => Some(TermForm::Case),
        TokenKind::Type => Some(TermForm::TypeLevel),
        TokenKind::Val => Some(TermForm::Prefix),
        TokenKind::Struct => Some(TermForm::Prefix),
        TokenKind::Enum => Some(TermForm::Prefix),
        _ => None,
    }
}

/// Map a token kind to the operator it stands for at `level`, if any.
fn op_lookup(level: u8, k: &TokenKind) -> (r: Option<BinaryOpKind>)
    ensures
        r == op_for(level as int, *k),
{
    match k {
        TokenKind::ModuleAccess => if level == 2 {
            Some(BinaryOpKind::ModuleAccess)
        } else {
            None
        },
        TokenKind::Constrain => if level == 4 {
            Some(BinaryOpKind::Constrain)
        } else {
            None
        },
        TokenKind::Mul => if level == 5 {
            Some(BinaryOpKind::Mul)
        } else {
            None
        },
        TokenKind::Div => if level == 5 {
            Some(BinaryOpKind::Div)
        } else {
            None
        },
        TokenKind::Rem => if level == 5 {
            Some(BinaryOpKind::Rem)
        } else {
            None
        },
        TokenKind::Plus => if level == 6 {
            Some(BinaryOpKind::Add)
        } else {
            None
        },
        TokenKind::Minus => if level == 6 {
            Some(BinaryOpKind::Sub)
        } else {
            None
        },
        TokenKind::Less => if level == 7 {
            Some(BinaryOpKind::Less)
        } else {
            None
        },
        TokenKind::Greater => if level == 7 {
            Some(BinaryOpKind::Greater)
        } else {
            None
        },
        TokenKind::LessEqual => if level == 7 {
            Some(BinaryOpKind::LessEqual)
        } else {
            None
        },
        TokenKind::GreaterEqual => if level == 7 {
            Some(BinaryOpKind::GreaterEqual)
        } else {
            None
        },
        TokenKind::Equal => if level == 7 {
            Some(BinaryOpKind::Equal)
        } else {
            None
        },
        TokenKind::NotEqual => if level == 7 {
            Some(BinaryOpKind::NotEqual)
        } else {
            None
        },
        TokenKind::And => if level == 8 {
            Some(BinaryOpKind::And)
        } else {
            None
        },
        TokenKind::Or => if level == 8 {
            Some(BinaryOpKind::Or)
        } else {
            None
        },
        TokenKind::Cons => if level == 9 {
            Some(BinaryOpKind::Cons)
        } else {
            None
        },
        TokenKind::Pipe => if level == 10 {
            Some(BinaryOpKind::Pipe)
        } else {
            None
        },
        TokenKind::Defun => if level == 11 {
            Some(BinaryOpKind::Defun)
        } else {
            None
        },
        TokenKind::Assign => if level == 12 {
            Some(BinaryOpKind::Assign)
        } else {
            None
        },
        TokenKind::PlusAssign => if level == 12 {
            Some(BinaryOpKind::PlusAssign)
        } else {
            None
        },
        TokenKind::MinusAssign => if level == 12 {
            Some(BinaryOpKind::MinusAssign)
        } else {
            None
        },
        TokenKind::MulAssign => if level == 12 {
            Some(BinaryOpKind::MulAssign)
        } else {
            None
        },
        TokenKind::DivAssign => if level == 12 {
            Some(BinaryOpKind::DivAssign)
        } else {
            None
        },
        TokenKind::RemAssign => if level == 12 {
            Some(BinaryOpKind::RemAssign)
        } else {
            None
        },
        TokenKind::Sequence => if level == 13 {
            Some(BinaryOpKind::Sequence)
        } else {
            None
        },
        TokenKind::CaseOption => if level == 14 {
            Some(BinaryOpKind::Sequence)
        } else {
            None
        },
        _ => None,
    }
}

/// What the operator recognizer hands back when it matches: the operator,
/// the operator token's range, and the metadata that preceded the operator.
pub open spec fn op_match(
    toks0: Seq<Token>,
    toks1: Seq<Token>,
    level: int,
    op: BinaryOpKind,
    orange: SourceRange,
    metadata: Seq<Metadata>,
) -> bool {
    let m = meta_len(toks0) as int;
    &&& m < toks0.len()
    &&& orange == toks0[m].range
    &&& if level == 3 {
        &&& toks0[m].kind matches Some(kk) && starts_term(kk)
        &&& op == BinaryOpKind::Apply
        &&& metadata == Seq::<Metadata>::empty()
        &&& toks1 == toks0
    } else {
        &&& toks0[m].kind matches Some(kk) && op_for(level, kk) == Some(op)
        &&& metadata == leading_metas(toks0)
        &&& toks1 == toks0.skip(m + 1)
    }
}

/// Peek past metadata; if the upcoming token is an operator of this level
/// (or, at the application level, can begin a term), commit to it: collect
/// the metadata, consume the operator token, and report it. Otherwise
/// decline without consuming anything.
fn try_op(tkiter: &mut TokenCursor, level: u8) -> (r: Option<(BinaryOpKind, SourceRange, Vec<
    Metadata,
>)>)
    requires
        2 <= level <= 14,
        well_terminated(old(tkiter).toks@),
    ensures
        well_terminated(final(tkiter).toks@),
        match r {
            None => final(tkiter).toks@ == old(tkiter).toks@ && op_at(
                level as int,
                old(tkiter).toks@,
            ) is None,
            Some((op, orange, metadata)) => op_at(level as int, old(tkiter).toks@) == Some(op)
                && final(tkiter).toks@ == old(tkiter).toks@.skip(
                op_consumed(level as int, old(tkiter).toks@),
            ) && metadata@ == op_metas(level as int, old(tkiter).toks@) && op_match(
                old(tkiter).toks@,
                final(tkiter).toks@,
                level as int,
                op,
                orange,
                metadata@,
            ),
        },
{
    proof {
        lemma_wt_facts(tkiter.toks@);
    }
    let ghost toks0 = tkiter.toks@;
    let m = peek_past_metadata(tkiter);
    if level == 3 {
        let started = match &tkiter.toks[m].kind {
            Some(k) => decide_term(k).is_some(),
            None => false,
        };
        if started {
            let orange = tkiter.toks[m].range;
            Some((BinaryOpKind::Apply, orange, Vec::new()))
        } else {
            None
        }
    } else {
        let found = match &tkiter.toks[m].kind {
            Some(k) => op_lookup(level, k),
            None => None,
        };
        match found {
            Some(op) => {
                let orange = tkiter.toks[m].range;
                let metadata = get_metadata(tkiter);
                let _optok = tkiter.advance();
                proof {
                    lemma_skip_skip(toks0, m as int, 1);
                    lemma_wt_facts(toks0);
                    lemma_concrete_skip(toks0, m as int + 1);
                }
                Some((op, orange, metadata))
            },
            None => None,
        }
    }
}

// ---------------------------------------------------------------------------
// Composition lemmas for parsing steps
// ---------------------------------------------------------------------------
/// Two consumption steps, each within bounds for its own stream, compose
/// into one step within bounds for the original stream.
pub proof fn lemma_step_compose(toks0: Seq<Token>, toks1: Seq<Token>, toks2: Seq<Token>)
    requires
        well_terminated(toks0),
        toks1.len() <= toks0.len(),
        toks1 == toks0.skip(toks0.len() - toks1.len()),
        toks0.len() - toks1.len() <= concrete_len(toks0),
        toks2.len() <= toks1.len(),
        toks2 == toks1.skip(toks1.len() - toks2.len()),
        toks1.len() - toks2.len() <= concrete_len(toks1),
    ensures
        toks2 == toks0.skip(toks0.len() - toks2.len()),
        toks0.len() - toks2.len() <= concrete_len(toks0),
        well_terminated(toks2),
{
    let n1 = toks0.len() - toks1.len();
    let n2 = toks1.len() - toks2.len();
    lemma_wt_skip(toks0, n1);
    lemma_wt_skip(toks1, n2);
    lemma_skip_skip(toks0, n1, n2);
}

/// Ladder levels and the operator kinds they produce line up: an operator
/// recognized at `level` reports `level_cap(level)`, and it is
/// right-associative exactly at the right-associative levels.
pub proof fn lemma_op_for_level(level: int, k: TokenKind)
    requires
        op_for(level, k) is Some,
    ensures
        op_level(op_for(level, k)->Some_0) == level_cap(level),
        right_assoc(op_level(op_for(level, k)->Some_0)) == right_assoc(level),
{
}

/// Every node reports either a leaf level or a ladder level.
pub proof fn lemma_expr_level_range(e: Expr)
    ensures
        expr_level(e) == 0 || (2 <= expr_level(e) <= 13),
{
}

// ---------------------------------------------------------------------------
// The leaf and unary parsers
// ---------------------------------------------------------------------------
/// Parses the `type` marker: `type` followed by an integer literal becomes a
/// leveled type; any other following token is left unconsumed and the level
/// is absent, with the range ending at `type`.
fn parse_exact_type(tkiter: &mut TokenCursor, dlogger: &mut DiagnosticLogger) -> (e: Expr)
    requires
        well_terminated(old(tkiter).toks@),
        old(tkiter).toks@[meta_len(old(tkiter).toks@) as int].kind == Some(TokenKind::Type),
    ensures
        parse_post(
            old(tkiter).toks@,
            final(tkiter).toks@,
            old(dlogger).diagnostics@,
            final(dlogger).diagnostics@,
            e,
            0,
        ),
        term_result(
            old(tkiter).toks@,
            old(dlogger).diagnostics@,
            e,
            final(dlogger).diagnostics@,
            old(tkiter).toks@.len() - final(tkiter).toks@.len(),
        ),
    decreases old(tkiter).toks@.len(), 0int,
{
    let ghost toks0 = tkiter.toks@;
    let ghost d0 = dlogger.diagnostics@;
    let ghost m = meta_len(toks0) as int;
    proof {
        lemma_wt_facts(toks0);
        assert(toks0[m].kind is Some);
        assert(m < concrete_len(toks0));
    }
    let metadata = get_metadata(tkiter);
    proof {
        assert(tkiter.toks@[0] == toks0[m]);
        assert(tkiter.toks@[1] == toks0[m + 1]);
        assert(d0.take(d0.len() as int) =~= d0);
    }
    let type_tk = tkiter.advance();
    proof {
        lemma_skip_skip(toks0, m, 1);
        assert(tkiter.toks@ == toks0.skip(m + 1));
        lemma_wt_skip(toks0, m + 1);
        assert(tkiter.toks@[0] == toks0[m + 1]);
    }
    let has_level = match &tkiter.toks[0].kind {
        Some(TokenKind::Int(_)) => true,
        _ => false,
    };
    if has_level {
        proof {
            assert(toks0[m + 1].kind is Some);
            assert(m + 1 < concrete_len(toks0));
        }
        let level_tk = tkiter.advance();
        proof {
            lemma_skip_skip(toks0, m + 1, 1);
            assert(tkiter.toks@ == toks0.skip(m + 2));
            lemma_wt_skip(toks0, m + 2);
            if ranges_sorted(toks0) {
                assert(pos_le(toks0[m].range.start, toks0[m + 1].range.start));
                assert(pos_le(toks0[m].range.end, toks0[m + 1].range.end));
            }
        }
        match level_tk.kind {
            Some(TokenKind::Int(value)) => {
                let r = union_of(type_tk.range, level_tk.range);
                Expr { range: r, metadata, kind: ExprKind::Type(Some(value)) }
            },
            _ => {
                proof {
                    assert(false);
                }
                vstd::pervasive::unreached()
            },
        }
    } else {
        Expr { range: type_tk.range, metadata, kind: ExprKind::Type(None) }
    }
}

/// Parses a prefix form: `val`, `struct` or `enum` followed by one term (not
/// a full expression).
fn parse_exact_prefix(tkiter: &mut TokenCursor, dlogger: &mut DiagnosticLogger) -> (e: Expr)
    requires
        well_terminated(old(tkiter).toks@),
        old(tkiter).toks@[meta_len(old(tkiter).toks@) as int].kind matches Some(k)
            && term_form_of(k) == Some(TermForm::Prefix),
    ensures
        parse_post(
            old(tkiter).toks@,
            final(tkiter).toks@,
            old(dlogger).diagnostics@,
            final(dlogger).diagnostics@,
            e,
            0,
        ),
        term_result(
            old(tkiter).toks@,
            old(dlogger).diagnostics@,
            e,
            final(dlogger).diagnostics@,
            old(tkiter).toks@.len() - final(tkiter).toks@.len(),
        ),
    decreases old(tkiter).toks@.len(), 0int,
{
    let ghost toks0 = tkiter.toks@;
    let ghost d0 = dlogger.diagnostics@;
    let ghost m = meta_len(toks0) as int;
    proof {
        lemma_wt_facts(toks0);
        assert(m < concrete_len(toks0));
    }
    let metadata = get_metadata(tkiter);
    proof {
        assert(tkiter.toks@[0] == toks0[m]);
    }
    let kw = tkiter.advance();
    proof {
        lemma_skip_skip(toks0, m, 1);
        assert(tkiter.toks@ == toks0.skip(m + 1));
        lemma_wt_skip(toks0, m + 1);
    }
    let ghost toks_b = tkiter.toks@;
    let body = parse_term(tkiter, dlogger);
    let ghost nb = toks_b.len() - tkiter.toks@.len();
    let body_range = body.range;
    proof {
        lemma_wt_skip(toks0, m + 1);
        lemma_step_compose(toks0, toks_b, tkiter.toks@);
        lemma_expr_level_range(body);
        if ranges_sorted(toks0) {
            lemma_sorted_skip(toks0, m + 1);
        }
    }
    let kind = match kw.kind {
        Some(TokenKind::Val) => ExprKind::Val(Box::new(body)),
        Some(TokenKind::Struct) => ExprKind::Struct(Box::new(body)),
        Some(TokenKind::Enum) => ExprKind::Enum(Box::new(body)),
        _ => {
            proof {
                assert(false);
            }
            vstd::pervasive::unreached()
        },
    };
    let e = Expr { range: union_of(kw.range, body_range), metadata, kind };
    proof {
        let n = toks0.len() - tkiter.toks@.len();
        let d1 = dlogger.diagnostics@;
        if d1 == d0 && tree_clean(e) && ranges_sorted(toks0) {
            assert(covers(toks_b, nb, body));
            let mb = meta_len(toks_b) as int;
            assert(toks_b[mb] == toks0[m + 1 + mb]);
            assert(toks_b[nb - 1] == toks0[n - 1]);
            assert(pos_le(toks0[m].range.start, toks0[m + 1 + mb].range.start));
            assert(pos_le(toks0[m].range.end, toks0[n - 1].range.end));
        }
    }
    e
}

/// Parses a delimited group: `(` or `{`, one full expression, then the
/// matching closing delimiter. A mismatched concrete closer stays consumed
/// and is reported; a missing closer at the end of the input is reported
/// without consuming the marker; either way the group is built with its
/// range ending at the body.
fn parse_exact_group(tkiter: &mut TokenCursor, dlogger: &mut DiagnosticLogger) -> (e: Expr)
    requires
        well_terminated(old(tkiter).toks@),
        old(tkiter).toks@[meta_len(old(tkiter).toks@) as int].kind matches Some(k)
            && term_form_of(k) == Some(TermForm::Group),
    ensures
        parse_post(
            old(tkiter).toks@,
            final(tkiter).toks@,
            old(dlogger).diagnostics@,
            final(dlogger).diagnostics@,
            e,
            0,
        ),
        term_result(
            old(tkiter).toks@,
            old(dlogger).diagnostics@,
            e,
            final(dlogger).diagnostics@,
            old(tkiter).toks@.len() - final(tkiter).toks@.len(),
        ),
    decreases old(tkiter).toks@.len(), 0int,
{
    let ghost toks0 = tkiter.toks@;
    let ghost d0 = dlogger.diagnostics@;
    let ghost m = meta_len(toks0) as int;
    proof {
        lemma_wt_facts(toks0);
        assert(m < concrete_len(toks0));
    }
    let metadata = get_metadata(tkiter);
    proof {
        assert(tkiter.toks@[0] == toks0[m]);
    }
    let opener = tkiter.advance();
    proof {
        lemma_skip_skip(toks0, m, 1);
        assert(tkiter.toks@ == toks0.skip(m + 1));
        lemma_wt_skip(toks0, m + 1);
    }
    let ghost toks_b = tkiter.toks@;
    let body = parse_level(tkiter, dlogger, 13);
    let ghost body_g = body;
    let ghost nb = toks_b.len() - tkiter.toks@.len();
    let ghost d_mid = dlogger.diagnostics@;
    proof {
        lemma_step_compose(toks0, toks_b, tkiter.toks@);
        lemma_wt_skip(toks0, toks0.len() - tkiter.toks@.len());
        assert(tkiter.toks@.len() > 0);
        assert(tkiter.toks@[0] == toks0[m + 1 + nb]);
        assert(level_result(13, toks0.skip(m + 1), d0, body_g, d_mid, nb));
    }
    let ghost spec_closer = if toks0[m].kind == Some(TokenKind::BraceLeft) {
        TokenKind::BraceRight
    } else {
        TokenKind::ParenRight
    };
    proof {
        assert(nb <= concrete_len(toks_b));
        lemma_wt_skip(toks0, m + 1);
        assert(concrete_len(toks_b) == concrete_len(toks0) - m - 1);
        assert(m + 1 + nb <= concrete_len(toks0));
    }
    let expected = match &opener.kind {
        Some(TokenKind::ParenLeft) => TokenKind::ParenRight,
        _ => TokenKind::BraceRight,
    };
    proof {
        assert(expected == spec_closer);
    }
    let slot_has_kind = match &tkiter.toks[0].kind {
        Some(_) => true,
        None => false,
    };
    if slot_has_kind {
        proof {
            assert(toks0[m + 1 + nb].kind is Some);
            assert(m + 1 + nb < concrete_len(toks0));
        }
        let closer = tkiter.advance();
        let ghost closer_g = closer;
        let ghost n = m + 2 + nb;
        proof {
            lemma_skip_skip(toks0, m + 1 + nb, 1);
            assert(tkiter.toks@ == toks0.skip(n));
            lemma_wt_skip(toks0, n);
        }
        let matched = match (&opener.kind, &closer.kind) {
            (Some(TokenKind::ParenLeft), Some(TokenKind::ParenRight)) => true,
            (Some(TokenKind::BraceLeft), Some(TokenKind::BraceRight)) => true,
            _ => false,
        };
        proof {
            assert(matched == (closer_g.kind == Some(spec_closer)));
        }
        if matched {
            let r = union_of(opener.range, closer.range);
            let e = Expr { range: r, metadata, kind: ExprKind::Group(Box::new(body)) };
            proof {
                let d1 = dlogger.diagnostics@;
                if d1 == d0 && tree_clean(e) && ranges_sorted(toks0) {
                    assert(pos_le(toks0[m].range.start, toks0[n - 1].range.start));
                    assert(pos_le(toks0[m].range.end, toks0[n - 1].range.end));
                }
                lemma_group_intro(toks0, d0, e, d1, n, spec_closer, body_g, d_mid, nb);
            }
            e
        } else {
            let closer_range = closer.range;
            dlogger.log_unexpected_token_specific(closer_range, expected, closer.kind);
            let body_range = body.range;
            let e = Expr {
                range: union_of(opener.range, body_range),
                metadata,
                kind: ExprKind::Group(Box::new(body)),
            };
            proof {
                let d1 = dlogger.diagnostics@;
                assert(d1.take(d_mid.len() as int) =~= d_mid);
                lemma_diags_extend_trans(d0, d_mid, d1);
                assert(d1.len() > d0.len());
                lemma_group_intro(toks0, d0, e, d1, n, spec_closer, body_g, d_mid, nb);
            }
            e
        }
    } else {
        // the input ended inside the group: report the missing closer, but
        // leave the end marker for the surrounding routines to see
        let slot_range = tkiter.toks[0].range;
        let ghost n = m + 1 + nb;
        dlogger.log_unexpected_token_specific(slot_range, expected, None);
        let body_range = body.range;
        let e = Expr {
            range: union_of(opener.range, body_range),
            metadata,
            kind: ExprKind::Group(Box::new(body)),
        };
        proof {
            let d1 = dlogger.diagnostics@;
            assert(d1.take(d_mid.len() as int) =~= d_mid);
            lemma_diags_extend_trans(d0, d_mid, d1);
            assert(d1.len() > d0.len());
            assert(toks0[m + 1 + nb].kind != Some(spec_closer));
            lemma_group_intro(toks0, d0, e, d1, n, spec_closer, body_g, d_mid, nb);
        }
        e
    }
}

/// Parses `case <expr> of <branches>`: the scrutinee is a full expression;
/// `of` is required (a concrete mismatch is reported and stays consumed; a
/// missing `of` at the end of the input is reported without consuming the
/// marker); the branches form their own left-associative chain of
/// `||`-separated assignment-level branches.
#[verifier::rlimit(100)]
fn parse_exact_case(tkiter: &mut TokenCursor, dlogger: &mut DiagnosticLogger) -> (e: Expr)
    requires
        well_terminated(old(tkiter).toks@),
        old(tkiter).toks@[meta_len(old(tkiter).toks@) as int].kind == Some(TokenKind::Case),
    ensures
        parse_post(
            old(tkiter).toks@,
            final(tkiter).toks@,
            old(dlogger).diagnostics@,
            final(dlogger).diagnostics@,
            e,
            0,
        ),
        term_result(
            old(tkiter).toks@,
            old(dlogger).diagnostics@,
            e,
            final(dlogger).diagnostics@,
            old(tkiter).toks@.len() - final(tkiter).toks@.len(),
        ),
    decreases old(tkiter).toks@.len(), 0int,
{
    let ghost toks0 = tkiter.toks@;
    let ghost d0 = dlogger.diagnostics@;
    let ghost m = meta_len(toks0) as int;
    proof {
        lemma_wt_facts(toks0);
        assert(m < concrete_len(toks0));
    }
    let metadata = get_metadata(tkiter);
    proof {
        assert(tkiter.toks@[0] == toks0[m]);
    }
    let case_tk = tkiter.advance();
    proof {
        lemma_skip_skip(toks0, m, 1);
        assert(tkiter.toks@ == toks0.skip(m + 1));
        lemma_wt_skip(toks0, m + 1);
    }
    let ghost toks_e = tkiter.toks@;
    let expr = parse_level(tkiter, dlogger, 13);
    let ghost ne = toks_e.len() - tkiter.toks@.len();
    let ghost d_e = dlogger.diagnostics@;
    proof {
        lemma_step_compose(toks0, toks_e, tkiter.toks@);
        lemma_wt_skip(toks0, toks0.len() - tkiter.toks@.len());
        assert(tkiter.toks@.len() > 0);
        assert(tkiter.toks@[0] == toks0[m + 1 + ne]);
    }
    proof {
        assert(ne <= concrete_len(toks_e));
        lemma_wt_skip(toks0, m + 1);
        assert(concrete_len(toks_e) == concrete_len(toks0) - m - 1);
        assert(m + 1 + ne <= concrete_len(toks0));
    }
    let ghost of_slot = toks0[m + 1 + ne];
    let of_has_kind = match &tkiter.toks[0].kind {
        Some(_) => true,
        None => false,
    };
    let ghost c_of: int = if of_has_kind {
        1
    } else {
        0
    };
    let of_ok: bool;
    if of_has_kind {
        proof {
            assert(of_slot.kind is Some);
            assert(m + 1 + ne < concrete_len(toks0));
        }
        let of_tk = tkiter.advance();
        proof {
            lemma_skip_skip(toks0, m + 1 + ne, 1);
            assert(tkiter.toks@ == toks0.skip(m + 2 + ne));
            lemma_wt_skip(toks0, m + 2 + ne);
        }
        of_ok = match &of_tk.kind {
            Some(TokenKind::Of) => true,
            _ => false,
        };
        if !of_ok {
            let of_range = of_tk.range;
            dlogger.log_unexpected_token_specific(of_range, TokenKind::Of, of_tk.kind);
            proof {
                let dd = dlogger.diagnostics@;
                assert(dd.take(d_e.len() as int) =~= d_e);
                lemma_diags_extend_trans(d0, d_e, dd);
            }
        }
    } else {
        // the input ended before `of`: report it, but leave the end marker
        // for the surrounding routines to see
        of_ok = false;
        let of_range = tkiter.toks[0].range;
        dlogger.log_unexpected_token_specific(of_range, TokenKind::Of, None);
        proof {
            let dd = dlogger.diagnostics@;
            assert(dd.take(d_e.len() as int) =~= d_e);
            lemma_diags_extend_trans(d0, d_e, dd);
        }
    }
    let ghost d_of = dlogger.diagnostics@;
    let ghost toks_c = tkiter.toks@;
    let cases = parse_level(tkiter, dlogger, 14);
    let ghost expr_g = expr;
    let ghost cases_g = cases;
    let ghost nc = toks_c.len() - tkiter.toks@.len();
    let ghost n = m + 1 + ne + c_of + nc;
    proof {
        lemma_step_compose(toks0, toks_c, tkiter.toks@);
        assert(tkiter.toks@ == toks0.skip(n));
        assert(nc <= concrete_len(toks_c));
        assert(n <= concrete_len(toks0));
        lemma_wt_skip(toks0, n);
        lemma_diags_extend_trans(d0, d_of, dlogger.diagnostics@);
        lemma_expr_level_range(expr);
        lemma_expr_level_range(cases);
    }
    let cases_range = cases.range;
    let e = Expr {
        range: union_of(case_tk.range, cases_range),
        metadata,
        kind: ExprKind::CaseOf { expr: Box::new(expr), cases: Box::new(cases) },
    };
    proof {
        let d1 = dlogger.diagnostics@;
        if d1 == d0 && tree_clean(e) && ranges_sorted(toks0) {
            lemma_diags_extend_squeeze(d0, d_e, d1);
            assert(of_ok);
            lemma_diags_extend_squeeze(d0, d_of, d1);
            lemma_sorted_skip(toks0, m + 1 + ne + c_of);
            assert(covers(toks_c, nc, cases));
            let mc = meta_len(toks_c) as int;
            assert(toks_c[mc] == toks0[m + 1 + ne + c_of + mc]);
            assert(toks_c[nc - 1] == toks0[n - 1]);
            assert(pos_le(toks0[m].range.start, toks0[m + 1 + ne + c_of + mc].range.start));
            assert(pos_le(toks0[m].range.end, toks0[n - 1].range.end));
            assert(nc >= mc + 1);
        }
        assert(of_ok == (of_slot.kind == Some(TokenKind::Of)));
        assert(level_result(13, toks0.skip(m + 1), d0, expr_g, d_e, ne));
        assert(level_result(14, toks0.skip(m + 1 + ne + c_of), d_of, cases_g, d1, nc));
        lemma_case_intro(toks0, d0, e, d1, n, expr_g, d_e, ne, cases_g, d_of, nc);
    }
    e
}

/// Parses one term: drains the leading metadata, dispatches on the next
/// concrete token, and on failure consumes exactly one token and yields an
/// error node — so a term always makes progress on concrete input.
pub fn parse_term(tkiter: &mut TokenCursor, dlogger: &mut DiagnosticLogger) -> (e: Expr)
    requires
        well_terminated(old(tkiter).toks@),
    ensures
        parse_post(
            old(tkiter).toks@,
            final(tkiter).toks@,
            old(dlogger).diagnostics@,
            final(dlogger).diagnostics@,
            e,
            0,
        ),
        term_result(
            old(tkiter).toks@,
            old(dlogger).diagnostics@,
            e,
            final(dlogger).diagnostics@,
            old(tkiter).toks@.len() - final(tkiter).toks@.len(),
        ),
    decreases old(tkiter).toks@.len(), 1int,
{
    let ghost toks0 = tkiter.toks@;
    let ghost d0 = dlogger.diagnostics@;
    proof {
        lemma_wt_facts(toks0);
        assert(d0.take(d0.len() as int) =~= d0);
    }
    let m = peek_past_metadata(tkiter);
    let form = match &tkiter.toks[m].kind {
        Some(k) => decide_term(k),
        None => None,
    };
    let kindless = match &tkiter.toks[m].kind {
        None => true,
        Some(_) => false,
    };
    if kindless {
        let range = tkiter.toks[m].range;
        let metadata = get_metadata(tkiter);
        dlogger.log_unexpected_token(range, ParseContext::Term, None);
        proof {
            assert(meta_len(toks0) <= concrete_len(toks0));
            lemma_wt_skip(toks0, m as int);
            assert(dlogger.diagnostics@.take(d0.len() as int) =~= d0);
        }
        Expr { range, kind: ExprKind::Error, metadata }
    } else {
        match form {
            None => {
                proof {
                    assert(toks0[m as int].kind is Some);
                    assert(m < concrete_len(toks0));
                }
                let metadata = get_metadata(tkiter);
                proof {
                    assert(tkiter.toks@[0] == toks0[m as int]);
                }
                let t = tkiter.advance();
                let range = t.range;
                dlogger.log_unexpected_token(range, ParseContext::Term, t.kind);
                proof {
                    lemma_skip_skip(toks0, m as int, 1);
                    lemma_wt_skip(toks0, m as int + 1);
                    assert(dlogger.diagnostics@.take(d0.len() as int) =~= d0);
                }
                Expr { range, kind: ExprKind::Error, metadata }
            },
            Some(TermForm::Simple) => {
                proof {
                    assert(toks0[m as int].kind is Some);
                    assert(m < concrete_len(toks0));
                }
                let metadata = get_metadata(tkiter);
                proof {
                    assert(tkiter.toks@[0] == toks0[m as int]);
                }
                let t = tkiter.advance();
                proof {
                    lemma_skip_skip(toks0, m as int, 1);
                    lemma_wt_skip(toks0, m as int + 1);
                }
                let range = t.range;
                let kind = match t.kind {
                    Some(TokenKind::Identifier(b)) => ExprKind::Identifier(b),
                    Some(TokenKind::Builtin(b)) => ExprKind::Builtin(b),
                    Some(TokenKind::Bool(v)) => ExprKind::Bool(v),
                    Some(TokenKind::Int(v)) => ExprKind::Int(v),
                    Some(TokenKind::Float(v)) => ExprKind::Float(v),
                    Some(TokenKind::String { value, block }) => ExprKind::String { value, block },
                    Some(TokenKind::Label(v)) => ExprKind::Label(v),
                    Some(TokenKind::Unit) => ExprKind::Unit,
                    Some(TokenKind::Never) => ExprKind::Never,
                    Some(TokenKind::Ref) => ExprKind::Ref,
                    Some(TokenKind::Deref) => ExprKind::Deref,
                    _ => {
                        proof {
                            assert(false);
                        }
                        vstd::pervasive::unreached()
                    },
                };
                Expr { range, kind, metadata }
            },
            Some(TermForm::Group) => parse_exact_group(tkiter, dlogger),
            Some(TermForm::Case) => parse_exact_case(tkiter, dlogger),
            Some(TermForm::TypeLevel) => parse_exact_type(tkiter, dlogger),
            Some(TermForm::Prefix) => parse_exact_prefix(tkiter, dlogger),
        }
    }
}

/// One rung of the precedence ladder: parse an operand from the level below,
/// then fold further operands joined by this level's operators — looping for
/// a left-associative level, recursing into the same level for a
/// right-associative one. Level 3 folds implicit application, and level 14
/// is the case-branch chain.
#[verifier::loop_isolation(false)]
#[verifier::rlimit(100)]
pub fn parse_level(tkiter: &mut TokenCursor, dlogger: &mut DiagnosticLogger, level: u8) -> (e:
    Expr)
    requires
        2 <= level <= 14,
        well_terminated(old(tkiter).toks@),
    ensures
        parse_post(
            old(tkiter).toks@,
            final(tkiter).toks@,
            old(dlogger).diagnostics@,
            final(dlogger).diagnostics@,
            e,
            level as int,
        ),
        concrete_len(old(tkiter).toks@) == meta_len(old(tkiter).toks@) + 1 ==> term_result(
            old(tkiter).toks@,
            old(dlogger).diagnostics@,
            e,
            final(dlogger).diagnostics@,
            old(tkiter).toks@.len() - final(tkiter).toks@.len(),
        ),
        level_result(
            level as int,
            old(tkiter).toks@,
            old(dlogger).diagnostics@,
            e,
            final(dlogger).diagnostics@,
            old(tkiter).toks@.len() - final(tkiter).toks@.len(),
        ),
    decreases old(tkiter).toks@.len(), level,
{
    let ghost toks0 = tkiter.toks@;
    let ghost d0 = dlogger.diagnostics@;
    let ghost mm = meta_len(toks0) as int;
    proof {
        lemma_wt_facts(toks0);
    }
    let mut e: Expr;
    if level == 2 {
        e = parse_term(tkiter, dlogger);
        proof {
            assert(operand_result(
                level as int,
                toks0,
                d0,
                e,
                dlogger.diagnostics@,
                toks0.len() - tkiter.toks@.len(),
            ));
        }
    } else {
        let lower = if level == 14 {
            12
        } else {
            level - 1
        };
        e = parse_level(tkiter, dlogger, lower);
        proof {
            assert(lower as int == lower_level(level as int));
            assert(operand_result(
                level as int,
                toks0,
                d0,
                e,
                dlogger.diagnostics@,
                toks0.len() - tkiter.toks@.len(),
            ));
        }
    }
    let ghost s_op = tkiter.toks@;
    let ghost d_op = dlogger.diagnostics@;
    let ghost e_op = e;
    let ghost n1 = toks0.len() - s_op.len();
    if level == 4 || level == 11 {
        // right-associative: at most one operator here; the rest of the
        // chain comes from recursing into this same level on the right
        let ghost pre = tkiter.toks@;
        let ghost dpre = dlogger.diagnostics@;
        match try_op(tkiter, level) {
            Some((op, _orange, metadata)) => {
                proof {
                    let mp = meta_len(pre) as int;
                    lemma_wt_skip(toks0, toks0.len() - pre.len());
                    assert(pre[mp].kind is Some);
                    if toks0[mm].kind is None {
                        assert(pre[0] == toks0[mm]);
                        assert(meta_len(pre) == 0);
                        assert(false);
                    }
                    if concrete_len(toks0) == mm + 1 {
                        assert(toks0.len() - pre.len() >= mm + 1);
                        lemma_wt_skip(toks0, toks0.len() - pre.len());
                        assert(concrete_len(pre) == 0);
                        assert(pre[mp].kind is None);
                        assert(false);
                    }
                    lemma_step_compose(toks0, pre, tkiter.toks@);
                    lemma_op_for_level(level as int, pre[mp].kind->0);
                }
                let ghost mid = tkiter.toks@;
                let ghost d_mid = dlogger.diagnostics@;
                let right = parse_level(tkiter, dlogger, level);
                let ghost right_g = right;
                proof {
                    lemma_step_compose(toks0, mid, tkiter.toks@);
                    lemma_diags_extend_trans(d0, d_mid, dlogger.diagnostics@);
                    lemma_expr_level_range(e);
                    lemma_expr_level_range(right);
                }
                let lrange = e.range;
                let rrange = right.range;
                let new_range = union_of(lrange, rrange);
                let folded = Expr {
                    range: new_range,
                    metadata,
                    kind: ExprKind::BinaryOp {
                        op,
                        left_operand: Box::new(e),
                        right_operand: Box::new(right),
                    },
                };
                proof {
                    let lvi = level as int;
                    let c = op_consumed(lvi, pre);
                    let nr = mid.len() - tkiter.toks@.len();
                    let d1 = dlogger.diagnostics@;
                    lemma_skip_skip(toks0, n1, c);
                    assert(mid == toks0.skip(n1 + c));
                    assert(level_result(lvi, toks0.skip(n1 + c), dpre, right_g, d1, nr));
                    assert(folded.kind matches ExprKind::BinaryOp {
                        op: fop,
                        left_operand: fl,
                        right_operand: fr,
                    } && fop == op && *fl == e_op && *fr == right_g);
                    assert(folded.metadata@ == op_metas(lvi, toks0.skip(n1)));
                    assert(n1 + c + nr == toks0.len() - tkiter.toks@.len());
                    assert(op_at(lvi, toks0.skip(n1)) == Some(op));
                    lemma_level_intro_right_some(
                        lvi,
                        toks0,
                        d0,
                        e_op,
                        dpre,
                        n1,
                        right_g,
                        folded,
                        d1,
                        nr,
                    );
                }
                proof {
                    let n1 = toks0.len() - pre.len();
                    let mp = meta_len(pre) as int;
                    let n = toks0.len() - tkiter.toks@.len();
                    let nr = mid.len() - tkiter.toks@.len();
                    let d1 = dlogger.diagnostics@;
                    if d1 == d0 && tree_clean(folded) && ranges_sorted(toks0) {
                        lemma_diags_extend_squeeze(d0, dpre, d1);
                        lemma_diags_extend_squeeze(dpre, d_mid, d1);
                        assert(covers(toks0, n1, e));
                        lemma_sorted_skip(toks0, toks0.len() - mid.len());
                        assert(covers(mid, nr, right));
                        let mr = meta_len(mid) as int;
                        let shift = toks0.len() - mid.len();
                        assert(mid[mr] == toks0[shift + mr]);
                        assert(mid[nr - 1] == toks0[n - 1]);
                        assert(pos_le(toks0[mm].range.start, toks0[shift + mr].range.start));
                        assert(pos_le(toks0[n1 - 1].range.end, toks0[n - 1].range.end));
                        assert(pos_le(toks0[mm].range.end, toks0[n - 1].range.end));
                    }
                }
                e = folded;
            },
            None => {
                proof {
                    assert(op_at(level as int, toks0.skip(n1)) is None);
                    lemma_level_intro_right_none(
                        level as int,
                        toks0,
                        d0,
                        e,
                        dlogger.diagnostics@,
                        n1,
                    );
                }
            },
        }
        e
    } else {
        let mut more = true;
        while more
            invariant
                well_terminated(tkiter.toks@),
                tkiter.toks@.len() <= toks0.len(),
                tkiter.toks@ == toks0.skip(toks0.len() - tkiter.toks@.len()),
                toks0.len() - tkiter.toks@.len() <= concrete_len(toks0),
                diags_extend(d0, dlogger.diagnostics@),
                well_leveled(e),
                expr_level(e) <= level_cap(level as int),
                (tree_has_error(e) ==> dlogger.diagnostics@.len() > d0.len()),
                (toks0[mm].kind is Some ==> toks0.len() - tkiter.toks@.len() >= mm + 1),
                (toks0[mm].kind is None ==> toks0.len() - tkiter.toks@.len() == mm && e.range
                    == toks0[mm].range && e.kind == ExprKind::Error && e.metadata@
                    == leading_metas(toks0) && dlogger.diagnostics@ == d0.push(
                    term_error_diag(toks0[mm].range, None),
                )),
                (dlogger.diagnostics@ == d0 && tree_clean(e) && ranges_sorted(toks0) ==> covers(
                    toks0,
                    toks0.len() - tkiter.toks@.len(),
                    e,
                )),
                (concrete_len(toks0) == mm + 1 ==> term_result(
                    toks0,
                    d0,
                    e,
                    dlogger.diagnostics@,
                    toks0.len() - tkiter.toks@.len(),
                )),
                tkiter.toks@.len() <= s_op.len(),
                (forall|fe: Expr, fd: Seq<Diagnostic>, k: int|
                    lchain_result(
                        level as int,
                        tkiter.toks@,
                        dlogger.diagnostics@,
                        e,
                        fe,
                        fd,
                        k,
                    ) ==> lchain_result(
                        level as int,
                        s_op,
                        d_op,
                        e_op,
                        fe,
                        fd,
                        k + (s_op.len() - tkiter.toks@.len()),
                    )),
                (!more ==> op_at(level as int, tkiter.toks@) is None),
            decreases tkiter.toks@.len() + (if more { 1int } else { 0int }),
        {
            let ghost pre = tkiter.toks@;
            let ghost dpre = dlogger.diagnostics@;
            let ghost e_prev = e;
            let r = try_op(tkiter, level);
            match r {
                None => { more = false; },
                Some((op, _orange, metadata)) => {
                    proof {
                        let mp = meta_len(pre) as int;
                        lemma_wt_skip(toks0, toks0.len() - pre.len());
                        assert(pre[mp].kind is Some);
                        if toks0[mm].kind is None {
                            assert(pre[0] == toks0[mm]);
                            assert(meta_len(pre) == 0);
                            assert(false);
                        }
                        if concrete_len(toks0) == mm + 1 {
                            assert(toks0.len() - pre.len() >= mm + 1);
                            assert(concrete_len(pre) == 0);
                            assert(pre[mp].kind is None);
                            assert(false);
                        }
                        if level != 3 {
                            lemma_step_compose(toks0, pre, tkiter.toks@);
                            lemma_op_for_level(level as int, pre[mp].kind->0);
                        }
                    }
                    let ghost mid = tkiter.toks@;
                    let ghost d_mid = dlogger.diagnostics@;
                    let right: Expr;
                    if level == 2 {
                        right = parse_term(tkiter, dlogger);
                        proof {
                            assert(operand_result(
                                level as int,
                                mid,
                                d_mid,
                                right,
                                dlogger.diagnostics@,
                                mid.len() - tkiter.toks@.len(),
                            ));
                        }
                    } else {
                        let lower = if level == 14 {
                            12
                        } else {
                            level - 1
                        };
                        right = parse_level(tkiter, dlogger, lower);
                        proof {
                            assert(lower as int == lower_level(level as int));
                            assert(operand_result(
                                level as int,
                                mid,
                                d_mid,
                                right,
                                dlogger.diagnostics@,
                                mid.len() - tkiter.toks@.len(),
                            ));
                        }
                    }
                    let ghost right_g = right;
                    proof {
                        let mp = meta_len(pre) as int;
                        if level == 3 {
                            assert(mid == pre);
                            assert(mid[meta_len(mid) as int].kind is Some);
                            assert(mid.len() - tkiter.toks@.len() >= meta_len(mid) + 1);
                        }
                        lemma_step_compose(toks0, mid, tkiter.toks@);
                        lemma_diags_extend_trans(d0, d_mid, dlogger.diagnostics@);
                        lemma_expr_level_range(e);
                        lemma_expr_level_range(right);
                    }
                    let lrange = e.range;
                    let rrange = right.range;
                    let new_range = union_of(lrange, rrange);
                    let folded = Expr {
                        range: new_range,
                        metadata,
                        kind: ExprKind::BinaryOp {
                            op,
                            left_operand: Box::new(e),
                            right_operand: Box::new(right),
                        },
                    };
                    proof {
                        let n1 = toks0.len() - pre.len();
                        let n = toks0.len() - tkiter.toks@.len();
                        let nr = mid.len() - tkiter.toks@.len();
                        let d1 = dlogger.diagnostics@;
                        if d1 == d0 && tree_clean(folded) && ranges_sorted(toks0) {
                            lemma_diags_extend_squeeze(d0, dpre, d1);
                            lemma_diags_extend_squeeze(dpre, d_mid, d1);
                            assert(covers(toks0, n1, e));
                            lemma_sorted_skip(toks0, toks0.len() - mid.len());
                            assert(covers(mid, nr, right));
                            let mr = meta_len(mid) as int;
                            let shift = toks0.len() - mid.len();
                            assert(mid[mr] == toks0[shift + mr]);
                            assert(mid[nr - 1] == toks0[n - 1]);
                            assert(pos_le(toks0[mm].range.start, toks0[shift + mr].range.start));
                            assert(pos_le(toks0[n1 - 1].range.end, toks0[n - 1].range.end));
                            assert(pos_le(toks0[mm].range.end, toks0[n - 1].range.end));
                        }
                    }
                    e = folded;
                    proof {
                        let lvi = level as int;
                        let c = op_consumed(lvi, pre);
                        let nr = mid.len() - tkiter.toks@.len();
                        let d_r = dlogger.diagnostics@;
                        let cur = tkiter.toks@;
                        lemma_skip_skip(pre, c, nr);
                        assert(pre.skip(c + nr) == cur);
                        assert(operand_result(lvi, pre.skip(c), dpre, right_g, d_r, nr));
                        assert(1 <= c + nr);
                        assert(c + nr <= pre.len());
                        assert(e.kind matches ExprKind::BinaryOp {
                            op: fop,
                            left_operand: fl,
                            right_operand: fr,
                        } && fop == op && *fl == e_prev && *fr == right_g);
                        assert(e.range == spec_union_of(e_prev.range, right_g.range));
                        assert(e.metadata@ == op_metas(lvi, pre));
                        lemma_chain_step(
                            lvi,
                            pre,
                            dpre,
                            e_prev,
                            s_op,
                            d_op,
                            e_op,
                            right_g,
                            d_r,
                            nr,
                            e,
                            cur,
                        );
                    }
                },
            }
        }
        proof {
            let lvi = level as int;
            let d_f = dlogger.diagnostics@;
            let cur = tkiter.toks@;
            let q = s_op.len() - cur.len();
            assert(lchain_result(lvi, cur, d_f, e, e, d_f, 0));
            assert(lchain_result(lvi, s_op, d_op, e_op, e, d_f, 0 + q));
            assert(s_op == toks0.skip(n1));
            assert(operand_result(lvi, toks0, d0, e_op, d_op, n1));
            assert(lchain_result(lvi, toks0.skip(n1), d_op, e_op, e, d_f, q));
            lemma_level_intro_left(lvi, toks0, d0, e_op, d_op, n1, e, d_f, q);
            assert(n1 + q == toks0.len() - cur.len());
        }
        e
    }
}

/// Parse one full expression: the whole ladder, rooted at the sequence
/// level.
pub fn parse_expr(tkiter: &mut TokenCursor, dlogger: &mut DiagnosticLogger) -> (e: Expr)
    requires
        well_terminated(old(tkiter).toks@),
    ensures
        parse_post(
            old(tkiter).toks@,
            final(tkiter).toks@,
            old(dlogger).diagnostics@,
            final(dlogger).diagnostics@,
            e,
            13,
        ),
        level_result(
            13,
            old(tkiter).toks@,
            old(dlogger).diagnostics@,
            e,
            final(dlogger).diagnostics@,
            old(tkiter).toks@.len() - final(tkiter).toks@.len(),
        ),
        concrete_len(old(tkiter).toks@) == meta_len(old(tkiter).toks@) + 1 ==> term_result(
            old(tkiter).toks@,
            old(dlogger).diagnostics@,
            e,
            final(dlogger).diagnostics@,
            old(tkiter).toks@.len() - final(tkiter).toks@.len(),
        ),
{
    parse_level(tkiter, dlogger, 13)
}

/// Range coverage: when a node covers tokens `[meta_len(toks), n)` of a
/// stream whose ranges do not go backwards, its range is exactly the union
/// of the first and the last consumed token's ranges (leading metadata
/// aside).
pub proof fn lemma_covers_is_union(toks: Seq<Token>, n: int, e: Expr)
    requires
        covers(toks, n, e),
        ranges_sorted(toks),
    ensures
        e.range == spec_union_of(toks[meta_len(toks) as int].range, toks[n - 1].range),
{
    let m = meta_len(toks) as int;
    assert(pos_le(toks[m].range.start, toks[n - 1].range.start));
    assert(pos_le(toks[m].range.end, toks[n - 1].range.end));
}

/// Turn a well-terminated token stream into exactly one tree, however
/// malformed the input: parsing always terminates and never aborts on a
/// local mismatch. The `level_result` clause relates the tree and the
/// appended reports to the consumed tokens, rung by rung; since every arm of
/// that relation fixes the report list exactly, the reports come out in
/// left-to-right discovery order.
pub fn construct_ast(tokens: Vec<Token>, dlogger: &mut DiagnosticLogger) -> (e: Expr)
    requires
        well_terminated(tokens@),
    ensures
        diags_extend(old(dlogger).diagnostics@, final(dlogger).diagnostics@),
        well_leveled(e),
        expr_level(e) <= 13,
        tree_has_error(e) ==> final(dlogger).diagnostics@.len() > old(dlogger).diagnostics@.len(),
        tokens@[meta_len(tokens@) as int].kind is None ==> e.range == tokens@[meta_len(
            tokens@,
        ) as int].range && e.kind == ExprKind::Error && e.metadata@ == leading_metas(tokens@)
            && final(dlogger).diagnostics@ == old(dlogger).diagnostics@.push(
            term_error_diag(tokens@[meta_len(tokens@) as int].range, None),
        ),
        concrete_len(tokens@) == meta_len(tokens@) + 1 ==> exists|n: int|
            term_result(
                tokens@,
                old(dlogger).diagnostics@,
                e,
                final(dlogger).diagnostics@,
                n,
            ),
        exists|n: int|
            0 <= n <= tokens@.len() && #[trigger] level_result(
                13,
                tokens@,
                old(dlogger).diagnostics@,
                e,
                final(dlogger).diagnostics@,
                n,
            ),
        (final(dlogger).diagnostics@ == old(dlogger).diagnostics@ && tree_clean(e)
            && ranges_sorted(tokens@)) ==> exists|n: int| covers(tokens@, n, e),
{
    let ghost toks0 = tokens@;
    let ghost d0 = dlogger.diagnostics@;
    proof {
        lemma_wt_facts(toks0);
    }
    let mut tkiter = TokenCursor::new(tokens);
    let e = parse_expr(&mut tkiter, dlogger);
    proof {
        let n = toks0.len() - tkiter.toks@.len();
        if concrete_len(toks0) == meta_len(toks0) + 1 {
            assert(term_result(toks0, d0, e, dlogger.diagnostics@, n));
        }
        if dlogger.diagnostics@ == d0 && tree_clean(e) && ranges_sorted(toks0) {
            assert(covers(toks0, n, e));
        }
        assert(level_result(13, toks0, d0, e, dlogger.diagnostics@, n));
    }
    e
}

} // verus!
