//! Errors from resolution.
use vstd::prelude::*;
use crate::source::SyntaxId;

verus! {

/// Possible types of error that may arise during resolution.
#[derive(Debug, PartialEq, Eq, Structural, Copy, Clone)]
pub enum ResolutionErrorKind {
    /// A symbol that couldn't be resolved was used in a call or load.
    UnresolvedSymbol,
    /// The operand of a recognised recursion is data rather than code.
    RecDataOperand,
}

/// Resolution error.
#[derive(Debug, PartialEq, Eq, Structural, Copy, Clone)]
pub struct ResolutionError {
    /// Point of origin for error.
    pub origin: SyntaxId,
    /// Type of error.
    pub kind: ResolutionErrorKind,
}

} // verus!
