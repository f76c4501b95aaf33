use rforsp::diagnostics::{Class, Diagnostic, Diagnostics, Phase, Severity, Site};
use rforsp::lexer::{LexError, LexErrorKind};
use rforsp::parser::ParseErrorKind;
use rforsp::source::{SourceError, SourceTable, SourceTableError, Span, SyntaxOrigin};

const SITE: Site = Site::Nowhere;

/// A class's code as the renderer spells it, namespaced by owning phase.
fn qualified(class: Class) -> String {
    format!("{}::{}", class.phase().as_str(), class.as_code())
}

fn sample_source_error() -> SourceError {
    SourceError::TooLarge { name: "hello".to_string(), len: 1000, limit: 100 }
}

#[test]
fn errors_are_fatal() {
    let mut d = Diagnostics::new();
    d.push(Diagnostic::new(Class::SourceTooLarge, SITE, "x"));
    d.push(Diagnostic::new(Class::SourceReadError, SITE, "x"));
    assert!(d.has_errors());
    assert_eq!(d.error_count(), 2);
}

#[test]
fn merge_carries_items_and_errors() {
    let mut into = Diagnostics::new();
    let mut from = Diagnostics::new();
    from.push(Diagnostic::new(Class::SourceReadError, SITE, "a"));
    from.push(Diagnostic::new(Class::SourceReadError, SITE, "b"));

    into.merge(from);
    assert!(into.has_errors(), "a merged error must gate the receiver");
    assert_eq!(into.error_count(), 2);

    let mut more = Diagnostics::new();
    more.push(Diagnostic::new(Class::SourceTooLarge, SITE, "c"));
    into.merge(more);
    assert_eq!(into.error_count(), 3);

    let messages: Vec<&str> = into.items().iter().map(|d| d.message.as_str()).collect();
    assert_eq!(messages, ["a", "b", "c"], "merge appends in report order");
}

#[test]
fn clear_resets_state() {
    let mut d = Diagnostics::new();
    d.push(Diagnostic::new(Class::SourceTooLarge, SITE, "x"));
    assert!(d.has_errors());
    d.clear();
    assert!(!d.has_errors());
    assert_eq!(d.error_count(), 0);
    assert_eq!(d.items().len(), 0);
}

#[test]
fn severity_ordering() {
    assert!(Severity::Note < Severity::Warning);
    assert!(Severity::Warning < Severity::Error);
    assert!(Severity::Error < Severity::Bug);
}

#[test]
fn codes_are_unique() {
    let mut codes: Vec<String> = Class::all().into_iter().map(qualified).collect();
    let declared = codes.len();
    codes.sort_unstable();
    codes.dedup();
    assert_eq!(codes.len(), declared, "two classes share a diagnostic code: {codes:?}");
}

#[test]
fn codes_are_greppable() {
    for class in Class::all() {
        let code = class.as_code();
        assert!(!code.is_empty(), "{class:?} has an empty code");
        assert!(
            code.bytes().all(|b| b.is_ascii_uppercase() || b.is_ascii_digit() || b == b'_'),
            "{class:?} has a code that is not UPPER_SNAKE: {code}"
        );
    }
}

#[test]
fn no_phase_emits_another_phases_codes() {
    for class in Class::all() {
        let name = format!("{class:?}").to_lowercase();
        let phase = class.phase().as_str();
        assert!(name.starts_with(phase), "{class:?} belongs to phase {phase} and must be named for it");
    }
}

#[test]
fn lex_kinds_classify_within_lex() {
    for (kind, class) in [
        (LexErrorKind::UnknownCharacter, Class::LexUnknownCharacter),
        (LexErrorKind::BindInvalid, Class::LexBindInvalid),
        (LexErrorKind::LoadInvalid, Class::LexLoadInvalid),
    ] {
        assert_eq!(Class::from(kind), class, "{kind:?}");
        assert_eq!(Class::from(kind).phase(), Phase::Lex, "{kind:?} escaped its phase");
    }
}

#[test]
fn parse_kinds_classify_within_parse() {
    for (kind, class) in [
        (ParseErrorKind::IntOverflow, Class::ParseIntOverflow),
        (ParseErrorKind::NestedQuote, Class::ParseNestedQuote),
        (ParseErrorKind::QuoteWithoutForm, Class::ParseQuoteWithoutForm),
        (ParseErrorKind::BindingInDatum, Class::ParseBindingInDatum),
        (ParseErrorKind::UnterminatedVector, Class::ParseUnterminatedVector),
        (ParseErrorKind::UnterminatedList, Class::ParseUnterminatedList),
        (ParseErrorKind::MismatchedCloser, Class::ParseMismatchedCloser),
        (ParseErrorKind::UnexpectedCloser, Class::ParseUnexpectedCloser),
    ] {
        assert_eq!(Class::from(kind), class, "{kind:?}");
        assert_eq!(Class::from(kind).phase(), Phase::Parse, "{kind:?} escaped its phase");
    }
}

#[test]
fn source_err() {
    let diag = Diagnostic::from(sample_source_error());
    assert_eq!(diag.class, Class::SourceTooLarge);
    assert_eq!(diag.class.phase(), Phase::Source);
    assert!(diag.message.contains("hello"));
    assert!(diag.message.contains("contains 1000"));
    assert!(diag.message.contains("limit is 100"));
}

#[test]
fn source_table_err() {
    let diag = Diagnostic::from(SourceTableError::from(sample_source_error()));
    assert_eq!(diag.class, Class::SourceTooLarge);
    assert_eq!(diag.class.phase(), Phase::Source);
    assert!(diag.message.contains("hello"));
    assert!(diag.message.contains("contains 1000"));
    assert!(diag.message.contains("limit is 100"));
}

#[test]
fn source_table_io_err() {
    let name = "hello".to_string();
    let err = std::io::Error::from(std::io::ErrorKind::NotFound).to_string();
    let diag = Diagnostic::from(SourceTableError::Io { name, err });
    assert_eq!(diag.class, Class::SourceReadError);
    assert_eq!(diag.class.phase(), Phase::Source);
    assert!(diag.message.contains("hello"));
}

#[test]
fn lex_err() {
    let mut table = SourceTable::new();
    let source = table.add_source_raw("t", "$12".into()).expect("within bound");
    let origin = SyntaxOrigin { source, span: Span::new(0, 3) };

    for (kind, class) in [
        (LexErrorKind::UnknownCharacter, Class::LexUnknownCharacter),
        (LexErrorKind::BindInvalid, Class::LexBindInvalid),
        (LexErrorKind::LoadInvalid, Class::LexLoadInvalid),
    ] {
        let diag = Diagnostic::from(LexError { origin, kind });
        assert_eq!(diag.class, class);
        assert_eq!(diag.class.phase(), Phase::Lex, "{kind:?} escaped its phase");
        assert_eq!(diag.site, Site::Raw(origin));
        assert!(!diag.message.is_empty(), "{kind:?} needs a message");
    }
}

#[test]
fn source_table_io_message_names_the_file_and_the_failure() {
    let diag = Diagnostic::from(SourceTableError::Io {
        name: "main.fp".to_owned(),
        err: "permission denied".to_owned(),
    });
    assert_eq!(diag.message, "main.fp: permission denied");
    assert_eq!(diag.site, Site::Nowhere);
}

#[test]
fn too_large_message_is_exact() {
    let diag = Diagnostic::from(sample_source_error());
    assert_eq!(diag.message, "hello: contains 1000 bytes when limit is 100");
}

#[test]
fn only_bugs_and_errors_are_fatal() {
    for class in Class::all() {
        let fatal = matches!(class.severity(), Severity::Error | Severity::Bug);
        assert_eq!(class.is_fatal(), fatal, "{class:?}");
    }
    assert_eq!(Class::ICEDroppedOutput.severity(), Severity::Bug);
    assert_eq!(Class::ICEDroppedOutput.phase(), Phase::ICE);
}
