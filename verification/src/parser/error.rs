//! Errors that may arise during parsing.
use vstd::prelude::*;
use crate::source::SyntaxOrigin;

verus! {

/// Possible types of errors that may arise during parsing.
#[derive(Debug, PartialEq, Eq, Structural, Copy, Clone)]
pub enum ParseErrorKind {
    /// Integer literal outside the range of an `i64`.
    IntOverflow,
    /// A quote (`'`) directly wrapping another quote, as in `''x`.
    NestedQuote,
    /// A quote (`'`) with no following form to wrap.
    QuoteWithoutForm,
    /// A binding form (`$x` or `^x`) in datum position.
    BindingInDatum,
    /// A vector opened and never closed.
    UnterminatedVector,
    /// A list opened and never closed.
    UnterminatedList,
    /// A container closed by the closer of the other kind.
    MismatchedCloser,
    /// A closer with no open container.
    UnexpectedCloser,
}

/// Parsing error type.
#[derive(Debug, PartialEq, Eq, Structural, Copy, Clone)]
pub struct ParseError {
    /// Point of origin for error.
    pub origin: SyntaxOrigin,
    /// Type of error.
    pub kind: ParseErrorKind,
}

} // verus!
