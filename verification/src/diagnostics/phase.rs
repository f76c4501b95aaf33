//! Phases of the compiler and the aborted-phase gate.
use vstd::prelude::*;
use crate::chars::{push_str, string_of};

verus! {

/// Phase of the compiler diagnostics may originate from.
#[derive(Debug, PartialEq, Eq, Structural, Copy, Clone)]
pub enum Phase {
    /// Internal compiler error.
    ICE,
    /// Source phase.
    Source,
    /// Lexing phase.
    Lex,
    /// Parsing phase.
    Parse,
    /// Binding resolution phase.
    Resolution,
}

/// Error value for an aborted [`Phase`].
///
/// Deliberately neither `Copy` nor `Clone`: one abort is one compilation
/// ending.
#[derive(Debug, PartialEq, Eq, Structural)]
pub struct Aborted(pub Phase);

/// The lower-case name of a phase.
pub open spec fn phase_name(p: Phase) -> Seq<char> {
    match p {
        Phase::ICE => "ice"@,
        Phase::Source => "source"@,
        Phase::Lex => "lex"@,
        Phase::Parse => "parse"@,
        Phase::Resolution => "resolution"@,
    }
}

impl Phase {
    /// Convert a phase to its lower-case name.
    pub fn as_str(&self) -> (r: &'static str)
        ensures
            r@ == phase_name(*self),
    {
        match self {
            Phase::ICE => "ice",
            Phase::Source => "source",
            Phase::Lex => "lex",
            Phase::Parse => "parse",
            Phase::Resolution => "resolution",
        }
    }
}

/// How an abort in phase `p` is described.
pub open spec fn aborted_text(p: Phase) -> Seq<char> {
    "compilation aborted in the "@ + phase_name(p) + " phase"@
}

impl Aborted {
    /// Construct a new instance of `Aborted` for the given [`Phase`].
    pub fn new(phase: Phase) -> (r: Self)
        ensures
            r.0 == phase,
    {
        Aborted(phase)
    }

    /// Describe this abort: the phase that ended the compilation.
    pub fn describe(&self) -> (r: String)
        ensures
            r@ == aborted_text(self.0),
    {
        let mut text: Vec<char> = Vec::new();
        push_str(&mut text, "compilation aborted in the ");
        push_str(&mut text, self.0.as_str());
        push_str(&mut text, " phase");
        assert(text@ =~= aborted_text(self.0));
        string_of(&text)
    }
}

} // verus!
