//! Each phase's error kind to [`Class`].
//!
//! One conversion per phase.  A phase's error kinds map only into that
//! phase's classes.
use vstd::prelude::*;
use vstd::std_specs::convert::FromSpecImpl;
use crate::diagnostics::{Class, Phase, class_phase};
use crate::lexer::LexErrorKind;
use crate::parser::ParseErrorKind;
use crate::resolution::ResolutionErrorKind;

verus! {

/// The class of a lexing error kind.
pub open spec fn lex_class(k: LexErrorKind) -> Class {
    match k {
        LexErrorKind::UnknownCharacter => Class::LexUnknownCharacter,
        LexErrorKind::BindInvalid => Class::LexBindInvalid,
        LexErrorKind::LoadInvalid => Class::LexLoadInvalid,
    }
}

/// The class of a parsing error kind.
pub open spec fn parse_class(k: ParseErrorKind) -> Class {
    match k {
        ParseErrorKind::IntOverflow => Class::ParseIntOverflow,
        ParseErrorKind::NestedQuote => Class::ParseNestedQuote,
        ParseErrorKind::QuoteWithoutForm => Class::ParseQuoteWithoutForm,
        ParseErrorKind::BindingInDatum => Class::ParseBindingInDatum,
        ParseErrorKind::UnterminatedVector => Class::ParseUnterminatedVector,
        ParseErrorKind::UnterminatedList => Class::ParseUnterminatedList,
        ParseErrorKind::MismatchedCloser => Class::ParseMismatchedCloser,
        ParseErrorKind::UnexpectedCloser => Class::ParseUnexpectedCloser,
    }
}

/// The class of a resolution error kind.
pub open spec fn resolution_class(k: ResolutionErrorKind) -> Class {
    match k {
        ResolutionErrorKind::UnresolvedSymbol => Class::ResolutionUnresolvedSymbol,
        ResolutionErrorKind::RecDataOperand => Class::ResolutionRecDataOperand,
    }
}

/// A phase's error kinds classify only into that phase's classes.
pub proof fn lemma_kinds_classify_within_phase(
    lex: LexErrorKind,
    parse: ParseErrorKind,
    resolution: ResolutionErrorKind,
)
    ensures
        class_phase(lex_class(lex)) == Phase::Lex,
        class_phase(parse_class(parse)) == Phase::Parse,
        class_phase(resolution_class(resolution)) == Phase::Resolution,
{
}

impl From<LexErrorKind> for Class {
    fn from(k: LexErrorKind) -> (r: Self) {
        match k {
            LexErrorKind::UnknownCharacter => Class::LexUnknownCharacter,
            LexErrorKind::BindInvalid => Class::LexBindInvalid,
            LexErrorKind::LoadInvalid => Class::LexLoadInvalid,
        }
    }
}

impl FromSpecImpl<LexErrorKind> for Class {
    open spec fn obeys_from_spec() -> bool {
        true
    }

    open spec fn from_spec(k: LexErrorKind) -> Class {
        lex_class(k)
    }
}

impl From<ParseErrorKind> for Class {
    fn from(k: ParseErrorKind) -> (r: Self) {
        match k {
            ParseErrorKind::IntOverflow => Class::ParseIntOverflow,
            ParseErrorKind::NestedQuote => Class::ParseNestedQuote,
            ParseErrorKind::QuoteWithoutForm => Class::ParseQuoteWithoutForm,
            ParseErrorKind::BindingInDatum => Class::ParseBindingInDatum,
            ParseErrorKind::UnterminatedVector => Class::ParseUnterminatedVector,
            ParseErrorKind::UnterminatedList => Class::ParseUnterminatedList,
            ParseErrorKind::MismatchedCloser => Class::ParseMismatchedCloser,
            ParseErrorKind::UnexpectedCloser => Class::ParseUnexpectedCloser,
        }
    }
}

impl FromSpecImpl<ParseErrorKind> for Class {
    open spec fn obeys_from_spec() -> bool {
        true
    }

    open spec fn from_spec(k: ParseErrorKind) -> Class {
        parse_class(k)
    }
}

impl From<ResolutionErrorKind> for Class {
    fn from(k: ResolutionErrorKind) -> (r: Self) {
        match k {
            ResolutionErrorKind::UnresolvedSymbol => Class::ResolutionUnresolvedSymbol,
            ResolutionErrorKind::RecDataOperand => Class::ResolutionRecDataOperand,
        }
    }
}

impl FromSpecImpl<ResolutionErrorKind> for Class {
    open spec fn obeys_from_spec() -> bool {
        true
    }

    open spec fn from_spec(k: ResolutionErrorKind) -> Class {
        resolution_class(k)
    }
}

} // verus!
