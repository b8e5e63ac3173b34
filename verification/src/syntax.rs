//! Shared span and error types for the lexer and the parser.

use vstd::prelude::*;

pub mod laws;
pub mod lexer;
pub mod parser;

pub use lexer::{get_matching, Lexer, Token, TokenKind};
pub use parser::{parse, strip_shebang, SExpr};

verus! {

/// A span of bytes within an input string.
///
/// A `Span` is a half-open byte range `[start, end)` into the original input,
/// with `start <= end`.
#[derive(Copy, Clone, Eq, PartialEq, Structural, Debug)]
pub struct Span {
    /// The index of the first byte in the range.
    pub start: usize,
    /// The index of the byte after the last byte in the range.
    pub end: usize,
}

/// A syntax error.
///
/// Emitted by [`parse`] when it encounters a span of source code containing a
/// syntactical error.  The specific kind of error is denoted by [`ErrorKind`].
#[derive(Copy, Clone, Eq, PartialEq, Structural, Debug)]
pub struct Error {
    /// The span of source code in which this syntax error was encountered.
    pub span: Span,
    /// The kind of this syntax error.
    pub kind: ErrorKind,
}

/// The kind of a syntax error.
#[derive(Copy, Clone, Eq, PartialEq, Structural, Debug)]
pub enum ErrorKind {
    /// An invalid token was encountered.
    InvalidToken,
    /// An unexpected token was encountered.
    UnexpectedToken {
        /// The unexpected token that was encountered.
        found: TokenKind,
    },
    /// An unexpected kind of closing bracket was encountered.
    UnexpectedBracket {
        /// The kind of closing bracket that was expected.
        expected: TokenKind,
        /// The kind of closing bracket that was encountered.
        found: TokenKind,
    },
    /// An opening bracket without its corresponding closing bracket was
    /// encountered.
    UnmatchedBracket {
        /// The kind of closing bracket that was expected.
        expected: TokenKind,
    },
}

} // verus!
