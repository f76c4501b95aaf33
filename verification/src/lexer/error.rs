//! Errors that may arise during lexing.
use vstd::prelude::*;
use crate::source::SyntaxOrigin;

verus! {

/// Possible types of errors that may arise during lexing.
#[derive(Debug, PartialEq, Eq, Structural, Copy, Clone)]
pub enum LexErrorKind {
    /// Character is not known.  Control and format characters share this
    /// kind: both render as nothing, so both fail for one reason.
    UnknownCharacter,
    /// Bind operator (`$`) is not followed by a symbol.
    BindInvalid,
    /// Load operator (`^`) is not followed by a symbol.
    LoadInvalid,
}

/// Lexing error.
#[derive(Debug, PartialEq, Eq, Structural, Copy, Clone)]
pub struct LexError {
    /// Point of origin for error.
    pub origin: SyntaxOrigin,
    /// Type of error.
    pub kind: LexErrorKind,
}

} // verus!
