//! Character positions.
//!
//! Defines [`Position`], a character-oriented line-column location.
use vstd::prelude::*;

verus! {

/// Character line-column position in some source text.
///
/// Both count characters, not bytes, and both start at 1.
#[derive(Debug, PartialEq, Eq, Structural, Hash, Copy, Clone, PartialOrd, Ord)]
pub struct Position {
    /// Line number.
    pub line: usize,
    /// Column number.
    pub col: usize,
}

impl Position {
    /// Construct a new position from the given `line` and `col`.
    pub fn new(line: usize, col: usize) -> (r: Self)
        ensures
            r.line == line,
            r.col == col,
    {
        Position { line, col }
    }
}

impl Default for Position {
    /// The first character of a text: line 1, column 1.
    fn default() -> (r: Self)
        ensures
            r.line == 1,
            r.col == 1,
    {
        Position { line: 1, col: 1 }
    }
}

} // verus!
