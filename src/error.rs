use vstd::prelude::*;

verus! {

/// What was expected, or found invalid, where a parse failed.
#[derive(Clone, Copy, Debug, PartialEq, Eq, Structural)]
pub enum ErrorKind {
    /// None of the atom forms (number, `NaN`, vector operand, `(`) starts here.
    ExpectedAtom,
    /// A parenthesised expression is not closed by `)`.
    ExpectedCloseParen,
    /// A string literal must start with `"`, `'` or a backtick.
    ExpectedQuote,
    /// The closing delimiter (the byte held) of a string literal is missing.
    ExpectedDelimiter(u8),
    /// An escape sequence must start with a backslash.
    ExpectedBackslash,
    /// The bytes after a backslash match no escape form.
    UnknownEscape,
    /// A `\u` or `\U` escape is well formed but names no Unicode scalar value.
    InvalidScalar,
}

/// A failed parse: what went wrong, and at which byte offset of the input.
#[derive(Clone, Copy, Debug, PartialEq, Eq, Structural)]
pub struct ParseError {
    pub position: usize,
    pub kind: ErrorKind,
}

pub open spec fn error_at(position: int, kind: ErrorKind) -> ParseError {
    ParseError { position: position as usize, kind }
}

} // verus!
