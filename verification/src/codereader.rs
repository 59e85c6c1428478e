use vstd::prelude::*;

verus! {

/// A position in the source text: zero-based line and column.
#[derive(Clone, Copy, Debug, PartialEq, Eq, Structural)]
pub struct SourcePos {
    pub line: u32,
    pub character: u32,
}

/// A region of source text, from `start` up to `end`.
#[derive(Clone, Copy, Debug, PartialEq, Eq, Structural)]
pub struct SourceRange {
    pub start: SourcePos,
    pub end: SourcePos,
}

/// `a` comes no later than `b`: earlier line, or same line and earlier column.
pub open spec fn pos_le(a: SourcePos, b: SourcePos) -> bool {
    a.line < b.line || (a.line == b.line && a.character <= b.character)
}

pub open spec fn pos_min(a: SourcePos, b: SourcePos) -> SourcePos {
    if pos_le(a, b) {
        a
    } else {
        b
    }
}

pub open spec fn pos_max(a: SourcePos, b: SourcePos) -> SourcePos {
    if pos_le(a, b) {
        b
    } else {
        a
    }
}

/// The smallest range covering both `a` and `b`.
pub open spec fn spec_union_of(a: SourceRange, b: SourceRange) -> SourceRange {
    SourceRange { start: pos_min(a.start, b.start), end: pos_max(a.end, b.end) }
}

fn pos_before(a: &SourcePos, b: &SourcePos) -> (r: bool)
    ensures
        r == pos_le(*a, *b),
{
    a.line < b.line || (a.line == b.line && a.character <= b.character)
}

/// The smallest range covering both `a` and `b`.
pub fn union_of(a: SourceRange, b: SourceRange) -> (r: SourceRange)
    ensures
        r == spec_union_of(a, b),
{
    let start = if pos_before(&a.start, &b.start) {
        a.start
    } else {
        b.start
    };
    let end = if pos_before(&a.end, &b.end) {
        b.end
    } else {
        a.end
    };
    SourceRange { start, end }
}

} // verus!
