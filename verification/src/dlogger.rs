use vstd::prelude::*;

use crate::codereader::SourceRange;
use crate::token::TokenKind;

verus! {

/// Where in the grammar a report was raised.
#[derive(Clone, Copy, Debug, PartialEq, Eq, Structural)]
pub enum ParseContext {
    Term,
}

/// One advisory report. Emitting a report never halts parsing.
#[derive(Debug, PartialEq)]
pub enum Diagnostic {
    /// No term form matched at this position; `found` is the kind that stood
    /// there, or nothing when the input had ended.
    UnexpectedToken { range: SourceRange, context: ParseContext, found: Option<TokenKind> },
    /// A specific closing or connecting token was required, but `found` stood
    /// there instead.
    UnexpectedTokenSpecific { range: SourceRange, expected: TokenKind, found: Option<TokenKind> },
}

/// Collects diagnostics in left-to-right discovery order.
#[derive(Debug, PartialEq)]
pub struct DiagnosticLogger {
    pub diagnostics: Vec<Diagnostic>,
}

impl DiagnosticLogger {
    pub fn new() -> (d: Self)
        ensures
            d.diagnostics@ == Seq::<Diagnostic>::empty(),
    {
        DiagnosticLogger { diagnostics: Vec::new() }
    }

    pub fn log_unexpected_token(
        &mut self,
        range: SourceRange,
        context: ParseContext,
        found: Option<TokenKind>,
    )
        ensures
            final(self).diagnostics@ == old(self).diagnostics@.push(
                (Diagnostic::UnexpectedToken { range, context, found }),
            ),
    {
        self.diagnostics.push(Diagnostic::UnexpectedToken { range, context, found });
    }

    pub fn log_unexpected_token_specific(
        &mut self,
        range: SourceRange,
        expected: TokenKind,
        found: Option<TokenKind>,
    )
        ensures
            final(self).diagnostics@ == old(self).diagnostics@.push(
                (Diagnostic::UnexpectedTokenSpecific { range, expected, found }),
            ),
    {
        self.diagnostics.push(Diagnostic::UnexpectedTokenSpecific { range, expected, found });
    }
}

} // verus!
