pub mod dimacs;

use vstd::prelude::*;

verus! {

/// Why a DIMACS text was refused.
#[derive(Clone, Copy, Debug, PartialEq, Eq, Structural)]
pub enum ParseErrorKind {
    DuplicateProblemLine,
    BadProblemLine,
    InvalidVariableCount,
    InvalidClauseCount,
    MissingProblemLine,
    InvalidLiteral,
    LiteralOutOfRange,
    MissingTrailingZero,
    ClauseCountMismatch,
}

/// A refusal and the (1-based) line it concerns.
#[derive(Clone, Copy, Debug, PartialEq, Eq, Structural)]
pub struct ParseError {
    pub line: usize,
    pub kind: ParseErrorKind,
}

/// The message of each kind of refusal.
pub open spec fn kind_message(kind: ParseErrorKind) -> Seq<char> {
    match kind {
        ParseErrorKind::DuplicateProblemLine => "duplicate problem line"@,
        ParseErrorKind::BadProblemLine => "expected: p cnf <vars> <clauses>"@,
        ParseErrorKind::InvalidVariableCount => "invalid variable count"@,
        ParseErrorKind::InvalidClauseCount => "invalid clause count"@,
        ParseErrorKind::MissingProblemLine => "missing problem line"@,
        ParseErrorKind::InvalidLiteral => "invalid literal"@,
        ParseErrorKind::LiteralOutOfRange => "literal exceeds declared variable count"@,
        ParseErrorKind::MissingTrailingZero => "clause missing trailing 0"@,
        ParseErrorKind::ClauseCountMismatch => "clause count does not match header"@,
    }
}

impl ParseError {
    pub fn new(line: usize, kind: ParseErrorKind) -> (e: ParseError)
        ensures
            e.line == line,
            e.kind == kind,
    {
        ParseError { line, kind }
    }

    /// The message of this refusal.
    pub fn message(&self) -> (m: &'static str)
        ensures
            m@ == kind_message(self.kind),
    {
        match self.kind {
            ParseErrorKind::DuplicateProblemLine => "duplicate problem line",
            ParseErrorKind::BadProblemLine => "expected: p cnf <vars> <clauses>",
            ParseErrorKind::InvalidVariableCount => "invalid variable count",
            ParseErrorKind::InvalidClauseCount => "invalid clause count",
            ParseErrorKind::MissingProblemLine => "missing problem line",
            ParseErrorKind::InvalidLiteral => "invalid literal",
            ParseErrorKind::LiteralOutOfRange => "literal exceeds declared variable count",
            ParseErrorKind::MissingTrailingZero => "clause missing trailing 0",
            ParseErrorKind::ClauseCountMismatch => "clause count does not match header",
        }
    }
}

} // verus!
