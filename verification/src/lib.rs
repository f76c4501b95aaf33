//! The rForsp compiler library.
//!
//! Each phase lives in its own module; [`drivers`] threads them together.
use vstd::prelude::*;

pub mod chars;
pub mod context;
pub mod diagnostics;
pub mod drivers;
pub mod interner;
pub mod lexer;
pub mod log;
pub mod parser;
pub mod resolution;
pub mod runtime;
pub mod source;

verus! {

/// Return `pos` as a `u32`; `pos` must be at most `u32::MAX`.
pub fn u32_index(pos: usize) -> (r: u32)
    requires
        pos <= u32::MAX,
    ensures
        r == pos,
{
    pos as u32
}

} // verus!
