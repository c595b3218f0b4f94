//! Errors raised by the parser and by the HIR builder.

use vstd::prelude::*;

verus! {

/// What kind of parse error was met.
#[derive(Debug, Clone, Copy, PartialEq, Eq, Structural)]
pub enum ErrorKind {
    UnexpectedToken,
    ExpectedIdentifier,
    ExpectedExpression,
    ExpectedDataItem,
    ExpectedUnsigned,
    ExpectedLeftParen,
    ExpectedRightParen,
    ExpectedStatement,
    ExpectedLineNumber,
    ExpectedEndOfLine,
}

/// A parse error: its kind and the source line on which it was detected.
#[derive(Debug, Clone, Copy, PartialEq, Eq, Structural)]
pub struct Error {
    pub kind: ErrorKind,
    pub line: u32,
}

/// A fatal condition met while lowering a program to HIR.  These abort the
/// whole build: the program is structurally inconsistent and cannot produce
/// a meaningful instruction stream.
#[derive(Debug, Clone, Copy, PartialEq, Eq, Structural)]
pub enum BuildError {
    /// A `GOTO` or `GOSUB` names a line number with no statement.
    UnresolvedJumpTarget { line_number: u32 },
    /// A `NEXT` was lowered with no open `FOR` frame.
    UnmatchedNext,
    /// A per-build counter (variable ids, label ids, or the string literal
    /// table) ran out of room.
    CapacityExceeded,
}

} // verus!
