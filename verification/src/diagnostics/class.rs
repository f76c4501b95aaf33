//! Classification of diagnostics.
//!
//! Each [`Diagnostic`][crate::diagnostics::Diagnostic] has a class.  The
//! class decides the owning [`Phase`], the [`Severity`] and the stable code.
use vstd::prelude::*;
use crate::diagnostics::Phase;

verus! {

/// How serious a diagnostic is.
///
/// Only [`Severity::Error`] and [`Severity::Bug`] are fatal.  Ordering runs
/// from least to most severe.
#[derive(Debug, PartialEq, Eq, Structural, PartialOrd, Ord, Copy, Clone)]
pub enum Severity {
    /// Additional context attached to another diagnostic.
    Note,
    /// The program is accepted; something may be wrong.
    Warning,
    /// The program is rejected; this is the user's fault.
    Error,
    /// An invariant in the compiler was broken.
    Bug,
}

/// Classification of diagnostics.
#[derive(Debug, PartialEq, Eq, Structural, Copy, Clone)]
pub enum Class {
    /// Source is too large.
    SourceTooLarge,
    /// File could not be read.
    SourceReadError,
    /// Encountered an unknown character during lexing.
    LexUnknownCharacter,
    /// Use of the bind operator (`$`) was invalid.
    LexBindInvalid,
    /// Use of the load operator (`^`) was invalid.
    LexLoadInvalid,
    /// Integer literal does not fit an `i64`.
    ParseIntOverflow,
    /// A quote directly wrapping another quote.
    ParseNestedQuote,
    /// A quote with no following form.
    ParseQuoteWithoutForm,
    /// A binding form where a datum is required.
    ParseBindingInDatum,
    /// A vector opened and never closed.
    ParseUnterminatedVector,
    /// A list opened and never closed.
    ParseUnterminatedList,
    /// A container closed by the other kind of closer.
    ParseMismatchedCloser,
    /// A closer with no open container.
    ParseUnexpectedCloser,
    /// A reference to a name nothing binds.
    ResolutionUnresolvedSymbol,
    /// Data in the operand position of the recursion operator.
    ResolutionRecDataOperand,
    /// A phase dropped its output without reporting why.
    ICEDroppedOutput,
}

/// The phase owning a class.
pub open spec fn class_phase(c: Class) -> Phase {
    match c {
        Class::SourceTooLarge | Class::SourceReadError => Phase::Source,
        Class::LexUnknownCharacter | Class::LexBindInvalid | Class::LexLoadInvalid => Phase::Lex,
        Class::ParseIntOverflow
        | Class::ParseNestedQuote
        | Class::ParseQuoteWithoutForm
        | Class::ParseBindingInDatum
        | Class::ParseUnterminatedVector
        | Class::ParseUnterminatedList
        | Class::ParseMismatchedCloser
        | Class::ParseUnexpectedCloser => Phase::Parse,
        Class::ResolutionUnresolvedSymbol | Class::ResolutionRecDataOperand => Phase::Resolution,
        Class::ICEDroppedOutput => Phase::ICE,
    }
}

/// The severity of a class.
pub open spec fn class_severity(c: Class) -> Severity {
    match c {
        Class::ICEDroppedOutput => Severity::Bug,
        _ => Severity::Error,
    }
}

/// Whether a class is fatal: an error or a bug.
pub open spec fn is_fatal(c: Class) -> bool {
    class_severity(c) is Error || class_severity(c) is Bug
}

/// The stable, bare code of a class.
pub open spec fn class_code(c: Class) -> Seq<char> {
    match c {
        Class::SourceTooLarge => "TOO_LARGE"@,
        Class::SourceReadError => "IO_ERROR"@,
        Class::LexUnknownCharacter => "UNKNOWN_CHARACTER"@,
        Class::LexBindInvalid => "BIND_INVALID"@,
        Class::LexLoadInvalid => "LOAD_INVALID"@,
        Class::ParseIntOverflow => "INT_OVERFLOW"@,
        Class::ParseNestedQuote => "NESTED_QUOTE"@,
        Class::ParseQuoteWithoutForm => "QUOTE_WITHOUT_FORM"@,
        Class::ParseBindingInDatum => "BINDING_IN_DATUM"@,
        Class::ParseUnterminatedVector => "UNTERMINATED_VECTOR"@,
        Class::ParseUnterminatedList => "UNTERMINATED_LIST"@,
        Class::ParseMismatchedCloser => "MISMATCHED_CLOSER"@,
        Class::ParseUnexpectedCloser => "UNEXPECTED_CLOSER"@,
        Class::ResolutionUnresolvedSymbol => "UNRESOLVED_SYMBOL"@,
        Class::ResolutionRecDataOperand => "REC_DATA_OPERAND"@,
        Class::ICEDroppedOutput => "DROPPED_OUTPUT"@,
    }
}

impl Class {
    /// Every class, in declaration order.
    pub fn all() -> (r: Vec<Class>)
        ensures
            r@.len() == 16,
            forall|c: Class| r@.contains(c),
    {
        let r = vec![
            Class::SourceTooLarge,
            Class::SourceReadError,
            Class::LexUnknownCharacter,
            Class::LexBindInvalid,
            Class::LexLoadInvalid,
            Class::ParseIntOverflow,
            Class::ParseNestedQuote,
            Class::ParseQuoteWithoutForm,
            Class::ParseBindingInDatum,
            Class::ParseUnterminatedVector,
            Class::ParseUnterminatedList,
            Class::ParseMismatchedCloser,
            Class::ParseUnexpectedCloser,
            Class::ResolutionUnresolvedSymbol,
            Class::ResolutionRecDataOperand,
            Class::ICEDroppedOutput,
        ];
        proof {
            assert forall|c: Class| r@.contains(c) by {
                match c {
                    Class::SourceTooLarge => assert(r@[0] == c),
                    Class::SourceReadError => assert(r@[1] == c),
                    Class::LexUnknownCharacter => assert(r@[2] == c),
                    Class::LexBindInvalid => assert(r@[3] == c),
                    Class::LexLoadInvalid => assert(r@[4] == c),
                    Class::ParseIntOverflow => assert(r@[5] == c),
                    Class::ParseNestedQuote => assert(r@[6] == c),
                    Class::ParseQuoteWithoutForm => assert(r@[7] == c),
                    Class::ParseBindingInDatum => assert(r@[8] == c),
                    Class::ParseUnterminatedVector => assert(r@[9] == c),
                    Class::ParseUnterminatedList => assert(r@[10] == c),
                    Class::ParseMismatchedCloser => assert(r@[11] == c),
                    Class::ParseUnexpectedCloser => assert(r@[12] == c),
                    Class::ResolutionUnresolvedSymbol => assert(r@[13] == c),
                    Class::ResolutionRecDataOperand => assert(r@[14] == c),
                    Class::ICEDroppedOutput => assert(r@[15] == c),
                }
            }
        }
        r
    }

    /// Get the [`Phase`] for this class.
    pub fn phase(&self) -> (r: Phase)
        ensures
            r == class_phase(*self),
    {
        match self {
            Class::SourceTooLarge | Class::SourceReadError => Phase::Source,
            Class::LexUnknownCharacter | Class::LexBindInvalid | Class::LexLoadInvalid => Phase::Lex,
            Class::ParseIntOverflow
            | Class::ParseNestedQuote
            | Class::ParseQuoteWithoutForm
            | Class::ParseBindingInDatum
            | Class::ParseUnterminatedVector
            | Class::ParseUnterminatedList
            | Class::ParseMismatchedCloser
            | Class::ParseUnexpectedCloser => Phase::Parse,
            Class::ResolutionUnresolvedSymbol | Class::ResolutionRecDataOperand => Phase::Resolution,
            Class::ICEDroppedOutput => Phase::ICE,
        }
    }

    /// Get the [`Severity`] for this class.
    pub fn severity(&self) -> (r: Severity)
        ensures
            r == class_severity(*self),
    {
        match self {
            Class::ICEDroppedOutput => Severity::Bug,
            _ => Severity::Error,
        }
    }

    /// Whether this class is fatal: an error or a bug.
    pub fn is_fatal(&self) -> (r: bool)
        ensures
            r == is_fatal(*self),
    {
        match self.severity() {
            Severity::Error | Severity::Bug => true,
            Severity::Note | Severity::Warning => false,
        }
    }

    /// Convert the class to its stable code.  The code is bare; the renderer
    /// namespaces it with [`Class::phase`].
    pub fn as_code(&self) -> (r: &'static str)
        ensures
            r@ == class_code(*self),
    {
        match self {
            Class::SourceTooLarge => "TOO_LARGE",
            Class::SourceReadError => "IO_ERROR",
            Class::LexUnknownCharacter => "UNKNOWN_CHARACTER",
            Class::LexBindInvalid => "BIND_INVALID",
            Class::LexLoadInvalid => "LOAD_INVALID",
            Class::ParseIntOverflow => "INT_OVERFLOW",
            Class::ParseNestedQuote => "NESTED_QUOTE",
            Class::ParseQuoteWithoutForm => "QUOTE_WITHOUT_FORM",
            Class::ParseBindingInDatum => "BINDING_IN_DATUM",
            Class::ParseUnterminatedVector => "UNTERMINATED_VECTOR",
            Class::ParseUnterminatedList => "UNTERMINATED_LIST",
            Class::ParseMismatchedCloser => "MISMATCHED_CLOSER",
            Class::ParseUnexpectedCloser => "UNEXPECTED_CLOSER",
            Class::ResolutionUnresolvedSymbol => "UNRESOLVED_SYMBOL",
            Class::ResolutionRecDataOperand => "REC_DATA_OPERAND",
            Class::ICEDroppedOutput => "DROPPED_OUTPUT",
        }
    }
}

/// Whether `s` is upper snake case: not empty, and made of capitals, digits
/// and underscores only.
pub open spec fn upper_snake(s: Seq<char>) -> bool {
    &&& s.len() > 0
    &&& forall|i: int|
        0 <= i < s.len() ==> ('A' <= #[trigger] s[i] && s[i] <= 'Z') || ('0' <= s[i] && s[i] <= '9')
            || s[i] == '_'
}

/// Codes are greppable and unique: every code is upper snake case, and no
/// two classes share one, so a code names its class.
pub proof fn lemma_codes_unique(c1: Class, c2: Class)
    ensures
        upper_snake(class_code(c1)),
        class_code(c1) == class_code(c2) ==> c1 == c2,
{
    reveal_strlit("TOO_LARGE");
    reveal_strlit("IO_ERROR");
    reveal_strlit("UNKNOWN_CHARACTER");
    reveal_strlit("BIND_INVALID");
    reveal_strlit("LOAD_INVALID");
    reveal_strlit("INT_OVERFLOW");
    reveal_strlit("NESTED_QUOTE");
    reveal_strlit("QUOTE_WITHOUT_FORM");
    reveal_strlit("BINDING_IN_DATUM");
    reveal_strlit("UNTERMINATED_VECTOR");
    reveal_strlit("UNTERMINATED_LIST");
    reveal_strlit("MISMATCHED_CLOSER");
    reveal_strlit("UNEXPECTED_CLOSER");
    reveal_strlit("UNRESOLVED_SYMBOL");
    reveal_strlit("REC_DATA_OPERAND");
    reveal_strlit("DROPPED_OUTPUT");
    if class_code(c1) == class_code(c2) {
        assert(class_code(c1)[0] == class_code(c2)[0]);
        assert(class_code(c1)[1] == class_code(c2)[1]);
        assert(class_code(c1)[2] == class_code(c2)[2]);
    }
}

} // verus!
