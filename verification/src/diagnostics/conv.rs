//! Conversions from phase-specific errors to [`Diagnostic`].
//!
//! Every user-facing message in the compiler is built here.  Each conversion
//! is a named constructor with a full contract; the `From` impls forward to
//! them for callers outside the verified code.
use vstd::prelude::*;
use vstd::std_specs::convert::FromSpecImpl;
use crate::chars::{decimal, push_decimal, push_str, string_of};
use crate::diagnostics::{Class, Diagnostic, Site, lex_class, parse_class, resolution_class};
use crate::lexer::{LexError, LexErrorKind};
use crate::parser::{ParseError, ParseErrorKind};
use crate::resolution::{ResolutionError, ResolutionErrorKind};
use crate::source::{SourceError, SourceTableError};

verus! {

/// The message of a lexing error.
pub open spec fn lex_message(k: LexErrorKind) -> Seq<char> {
    match k {
        LexErrorKind::UnknownCharacter => "Unrecognised character"@,
        LexErrorKind::BindInvalid => "Expected Symbol immediately after Bind ($)"@,
        LexErrorKind::LoadInvalid => "Expected Symbol immediately after Load (^)"@,
    }
}

/// The message of a parsing error.
pub open spec fn parse_message(k: ParseErrorKind) -> Seq<char> {
    match k {
        ParseErrorKind::IntOverflow => "Integer literal does not fit in 64 bits"@,
        ParseErrorKind::NestedQuote => "Quote directly wraps another quote"@,
        ParseErrorKind::QuoteWithoutForm => "Quote has no form to wrap"@,
        ParseErrorKind::BindingInDatum => "Binding in datum position"@,
        ParseErrorKind::UnterminatedVector => "Vector is never closed"@,
        ParseErrorKind::UnterminatedList => "List is never closed"@,
        ParseErrorKind::MismatchedCloser => "Container closed by the wrong closer"@,
        ParseErrorKind::UnexpectedCloser => "Closer with no open container"@,
    }
}

/// The message of a resolution error.
pub open spec fn resolution_message(k: ResolutionErrorKind) -> Seq<char> {
    match k {
        ResolutionErrorKind::UnresolvedSymbol => "Unresolved symbol"@,
        ResolutionErrorKind::RecDataOperand => "Operand of rec is data rather than code"@,
    }
}

/// The message for a source that is too large.
pub open spec fn too_large_message(name: Seq<char>, len: nat, limit: nat) -> Seq<char> {
    name + ": contains "@ + decimal(len) + " bytes when limit is "@ + decimal(limit)
}

/// Whether `d` reports the lexing error `e`.
pub open spec fn reports_lex_error(d: Diagnostic, e: LexError) -> bool {
    &&& d.class == lex_class(e.kind)
    &&& d.site == Site::Raw(e.origin)
    &&& d.message@ == lex_message(e.kind)
}

/// Whether `d` reports the parsing error `e`.
pub open spec fn reports_parse_error(d: Diagnostic, e: ParseError) -> bool {
    &&& d.class == parse_class(e.kind)
    &&& d.site == Site::Raw(e.origin)
    &&& d.message@ == parse_message(e.kind)
}

/// Whether `d` reports the resolution error `e`.
pub open spec fn reports_resolution_error(d: Diagnostic, e: ResolutionError) -> bool {
    &&& d.class == resolution_class(e.kind)
    &&& d.site == Site::Syntax(e.origin)
    &&& d.message@ == resolution_message(e.kind)
}

fn lex_message_text(k: LexErrorKind) -> (r: &'static str)
    ensures
        r@ == lex_message(k),
{
    match k {
        LexErrorKind::UnknownCharacter => "Unrecognised character",
        LexErrorKind::BindInvalid => "Expected Symbol immediately after Bind ($)",
        LexErrorKind::LoadInvalid => "Expected Symbol immediately after Load (^)",
    }
}

fn parse_message_text(k: ParseErrorKind) -> (r: &'static str)
    ensures
        r@ == parse_message(k),
{
    match k {
        ParseErrorKind::IntOverflow => "Integer literal does not fit in 64 bits",
        ParseErrorKind::NestedQuote => "Quote directly wraps another quote",
        ParseErrorKind::QuoteWithoutForm => "Quote has no form to wrap",
        ParseErrorKind::BindingInDatum => "Binding in datum position",
        ParseErrorKind::UnterminatedVector => "Vector is never closed",
        ParseErrorKind::UnterminatedList => "List is never closed",
        ParseErrorKind::MismatchedCloser => "Container closed by the wrong closer",
        ParseErrorKind::UnexpectedCloser => "Closer with no open container",
    }
}

fn resolution_message_text(k: ResolutionErrorKind) -> (r: &'static str)
    ensures
        r@ == resolution_message(k),
{
    match k {
        ResolutionErrorKind::UnresolvedSymbol => "Unresolved symbol",
        ResolutionErrorKind::RecDataOperand => "Operand of rec is data rather than code",
    }
}

impl Diagnostic {
    /// The diagnostic reporting a lexing error.
    pub fn of_lex_error(e: LexError) -> (r: Self)
        ensures
            reports_lex_error(r, e),
    {
        let class = Class::from(e.kind);
        Diagnostic::new(class, Site::Raw(e.origin), lex_message_text(e.kind))
    }

    /// The diagnostic reporting a parsing error.
    pub fn of_parse_error(e: ParseError) -> (r: Self)
        ensures
            reports_parse_error(r, e),
    {
        let class = Class::from(e.kind);
        Diagnostic::new(class, Site::Raw(e.origin), parse_message_text(e.kind))
    }

    /// The diagnostic reporting a resolution error.
    pub fn of_resolution_error(e: ResolutionError) -> (r: Self)
        ensures
            reports_resolution_error(r, e),
    {
        let class = Class::from(e.kind);
        Diagnostic::new(class, Site::Syntax(e.origin), resolution_message_text(e.kind))
    }

    /// The diagnostic reporting a source that could not be constructed.
    pub fn of_source_error(e: SourceError) -> (r: Self)
        ensures
            r.class == Class::SourceTooLarge,
            r.site == Site::Nowhere,
            e matches SourceError::TooLarge { name, len, limit } ==> r.message@
                == too_large_message(name@, len as nat, limit as nat),
    {
        match e {
            SourceError::TooLarge { name, len, limit } => {
                let mut text: Vec<char> = Vec::new();
                push_str(&mut text, name.as_str());
                push_str(&mut text, ": contains ");
                push_decimal(&mut text, len as u64);
                push_str(&mut text, " bytes when limit is ");
                push_decimal(&mut text, limit as u64);
                let message = string_of(&text);
                Diagnostic::new(Class::SourceTooLarge, Site::Nowhere, message.as_str())
            },
        }
    }

    /// The diagnostic reporting a failure to add a source to the table.
    pub fn of_source_table_error(e: SourceTableError) -> (r: Self)
        ensures
            r.site == Site::Nowhere,
            e matches SourceTableError::SourceCreate(SourceError::TooLarge { name, len, limit })
                ==> r.class == Class::SourceTooLarge && r.message@ == too_large_message(
                name@,
                len as nat,
                limit as nat,
            ),
            e matches SourceTableError::Io { name, err } ==> r.class == Class::SourceReadError
                && r.message@ == name@ + ": "@ + err@,
    {
        match e {
            SourceTableError::SourceCreate(e) => Self::of_source_error(e),
            SourceTableError::Io { name, err } => {
                let mut text: Vec<char> = Vec::new();
                push_str(&mut text, name.as_str());
                push_str(&mut text, ": ");
                push_str(&mut text, err.as_str());
                let message = string_of(&text);
                Diagnostic::new(Class::SourceReadError, Site::Nowhere, message.as_str())
            },
        }
    }
}

impl From<LexError> for Diagnostic {
    fn from(e: LexError) -> (r: Self) {
        Self::of_lex_error(e)
    }
}

impl FromSpecImpl<LexError> for Diagnostic {
    /// A message is a `String`, which no specification can build, so the
    /// named constructor carries the contract instead.
    open spec fn obeys_from_spec() -> bool {
        false
    }

    open spec fn from_spec(e: LexError) -> Diagnostic {
        arbitrary()
    }
}

impl From<ParseError> for Diagnostic {
    fn from(e: ParseError) -> (r: Self) {
        Self::of_parse_error(e)
    }
}

impl FromSpecImpl<ParseError> for Diagnostic {
    /// See the `LexError` conversion.
    open spec fn obeys_from_spec() -> bool {
        false
    }

    open spec fn from_spec(e: ParseError) -> Diagnostic {
        arbitrary()
    }
}

impl From<ResolutionError> for Diagnostic {
    fn from(e: ResolutionError) -> (r: Self) {
        Self::of_resolution_error(e)
    }
}

impl FromSpecImpl<ResolutionError> for Diagnostic {
    /// See the `LexError` conversion.
    open spec fn obeys_from_spec() -> bool {
        false
    }

    open spec fn from_spec(e: ResolutionError) -> Diagnostic {
        arbitrary()
    }
}

impl From<SourceError> for Diagnostic {
    fn from(e: SourceError) -> (r: Self) {
        Self::of_source_error(e)
    }
}

impl FromSpecImpl<SourceError> for Diagnostic {
    /// See the `LexError` conversion.
    open spec fn obeys_from_spec() -> bool {
        false
    }

    open spec fn from_spec(e: SourceError) -> Diagnostic {
        arbitrary()
    }
}

impl From<SourceTableError> for Diagnostic {
    fn from(e: SourceTableError) -> (r: Self) {
        Self::of_source_table_error(e)
    }
}

impl FromSpecImpl<SourceTableError> for Diagnostic {
    /// See the `LexError` conversion.
    open spec fn obeys_from_spec() -> bool {
        false
    }

    open spec fn from_spec(e: SourceTableError) -> Diagnostic {
        arbitrary()
    }
}

impl From<SourceError> for SourceTableError {
    fn from(e: SourceError) -> (r: Self) {
        SourceTableError::SourceCreate(e)
    }
}

impl FromSpecImpl<SourceError> for SourceTableError {
    open spec fn obeys_from_spec() -> bool {
        true
    }

    open spec fn from_spec(e: SourceError) -> SourceTableError {
        SourceTableError::SourceCreate(e)
    }
}

} // verus!
