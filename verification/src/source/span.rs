//! Byte spans.
//!
//! Defines [`Span`], a byte range within a [`Source`][crate::source::Source].
use vstd::prelude::*;

verus! {

/// A byte span, composed of a start and end position.
///
/// The range is half-open: `[start, end)`.
#[derive(Debug, PartialEq, Eq, Structural, Hash, Copy, Clone)]
pub struct Span {
    /// Byte offset of the first character in the span.
    pub start: u32,
    /// Byte offset one past the last character in the span.
    pub end: u32,
}

impl Span {
    /// A span is well formed when it is an ordered range.
    pub open spec fn ordered(self) -> bool {
        self.start <= self.end
    }

    /// Construct a new span from usize components.
    ///
    /// Both components must fit in a `u32` and be ordered.
    pub fn new(start: usize, end: usize) -> (r: Self)
        requires
            start <= end,
            end <= u32::MAX,
        ensures
            r.start == start,
            r.end == end,
    {
        Self::from_u32(crate::u32_index(start), crate::u32_index(end))
    }

    /// Construct a new span from u32 components, which must be ordered.
    pub fn from_u32(start: u32, end: u32) -> (r: Self)
        requires
            start <= end,
        ensures
            r.start == start,
            r.end == end,
    {
        Span { start, end }
    }

    /// Return the length of this span in bytes.
    pub fn length(&self) -> (r: u32)
        requires
            self.ordered(),
        ensures
            r == self.end - self.start,
    {
        self.end - self.start
    }

    /// Return the smallest span that covers both.
    ///
    /// Anything between two disjoint spans is covered too.
    pub fn join(self, other: Self) -> (r: Self)
        requires
            self.ordered(),
            other.ordered(),
        ensures
            r.start == if self.start <= other.start { self.start } else { other.start },
            r.end == if self.end >= other.end { self.end } else { other.end },
            r.ordered(),
            r.start <= self.start && r.start <= other.start,
            r.end >= self.end && r.end >= other.end,
    {
        let start = if self.start <= other.start { self.start } else { other.start };
        let end = if self.end >= other.end { self.end } else { other.end };
        Self::from_u32(start, end)
    }
}

impl Default for Span {
    /// The empty span at the start of a source.
    fn default() -> (r: Self)
        ensures
            r.start == 0,
            r.end == 0,
    {
        Span { start: 0, end: 0 }
    }
}

} // verus!
