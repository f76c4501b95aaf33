use rforsp::diagnostics::render::{Renderer, render_diagnostics, render_diagnostics_with_cap};
use rforsp::diagnostics::{Class, Diagnostic, Diagnostics, Site};
use rforsp::source::{SourceId, SourceTable, Span, SyntaxOrigin};

fn add(t: &mut SourceTable, name: &str, text: &str) -> SourceId {
    t.add_source_raw(name, text.into()).unwrap()
}

fn diag(t: &SourceTable, site: Site, msg: &str) -> String {
    let mut r = Renderer::new(t);
    r.render(&Diagnostic::new(Class::SourceTooLarge, site, msg));
    r.text()
}

fn diags(t: &SourceTable, d: &Diagnostics) -> String {
    let mut s = String::new();
    render_diagnostics(d, t, &mut s);
    s
}

fn diags_with_cap(t: &SourceTable, d: &Diagnostics, cap: usize) -> String {
    let mut s = String::new();
    render_diagnostics_with_cap(d, t, cap, &mut s);
    s
}

fn raw_site(source: SourceId, start: usize, end: usize) -> Site {
    Site::Raw(SyntaxOrigin { source, span: Span::new(start, end) })
}

#[test]
fn site_geometry() {
    let mut t = SourceTable::new();
    let a = add(&mut t, "a", "hello\nworld!\n");
    let b = add(&mut t, "b", "Foo\nbar\n");
    let em = add(&mut t, "em", "ab\u{1f34e}cd\n");
    let eof = add(&mut t, "eof", "abc\ndef");
    let crlf = add(&mut t, "crlf", "hello\r\nworld!\r\n");
    let syn = t.add_origin(a, Span::new(0, 5));

    let s = diag(&t, Site::Nowhere, "m");
    assert!(s.contains("error[source::TOO_LARGE]: m"));

    let s = diag(&t, Site::Source(b), "m");
    assert!(s.contains("b: error[source::TOO_LARGE]: m"));

    let raw = diag(&t, raw_site(a, 0, 5), "m");
    let syntax = diag(&t, Site::Syntax(syn), "m");
    assert_eq!(raw, syntax);
    for s in [&raw, &syntax] {
        assert!(s.contains("a:1:1: error[source::TOO_LARGE]: m"));
        assert!(s.contains("1 | hello"));
        assert!(s.contains("| ^^^^^"));
    }

    let s = diag(&t, raw_site(a, 2, 2), "m");
    assert!(s.contains("a:1:3: "));
    assert!(s.contains("|   ^"));

    let s = diag(&t, raw_site(em, 6, 8), "m");
    assert!(s.contains("1 | ab\u{1f34e}cd"));
    assert!(s.contains("|    ^^"));

    let s = diag(&t, raw_site(eof, 4, 7), "m");
    assert!(s.contains("2 | def"));
    assert!(s.contains("| ^^^"));

    let s = diag(&t, raw_site(crlf, 0, 5), "m");
    assert!(!s.contains('\r'), "stray CR in {s:?}");
    assert!(s.contains("1 | hello\n"));
    assert!(s.contains("| ^^^^^"));

    let s = diag(&t, raw_site(crlf, 7, 13), "m");
    assert!(s.contains("crlf:2:1: "));
    assert!(s.contains("2 | world!\n"));
    assert!(s.contains("| ^^^^^^"));
}

#[test]
fn multiline() {
    let mut t = SourceTable::new();
    let ml = add(&mut t, "ml", "l1\nl2\nl3\nl4\n");

    let s = diag(&t, raw_site(ml, 0, 12), "m");
    assert!(s.contains("1 | l1"));
    assert!(s.contains("4 | l4"));
    assert_eq!(s.matches("...").count(), 1);

    let s = diag(&t, raw_site(ml, 0, 6), "m");
    assert!(s.contains("1 | l1"));
    assert!(s.contains("2 | l2"));
    assert_eq!(s.matches("...").count(), 0);
}

#[test]
fn render_all() {
    let t = SourceTable::new();

    let mut acc = Diagnostics::new();
    acc.push(Diagnostic::new(Class::SourceTooLarge, Site::Nowhere, "a"));
    acc.push(Diagnostic::new(Class::SourceTooLarge, Site::Nowhere, "b"));
    acc.push(Diagnostic::new(Class::SourceTooLarge, Site::Nowhere, "c"));

    let s = diags_with_cap(&t, &acc, 1);
    assert!(s.contains("error[source::TOO_LARGE]: a"));
    assert!(!s.contains("error[source::TOO_LARGE]: c"));
    assert!(s.contains("2 diagnostics suppressed"));

    let mut acc = Diagnostics::new();
    acc.push(Diagnostic::new(Class::SourceTooLarge, Site::Nowhere, "a"));
    acc.push(Diagnostic::new(Class::SourceTooLarge, Site::Nowhere, "b"));
    let s = diags(&t, &acc);

    assert!(s.contains("error[source::TOO_LARGE]: a"));
    assert!(s.contains("error[source::TOO_LARGE]: b"));
    assert!(!s.contains("suppressed"));
}

#[test]
fn ordering_is_by_position() {
    let mut t = SourceTable::new();
    let a = add(&mut t, "a", "hello\nworld!\n");
    let b = add(&mut t, "b", "Foo\nbar\n");

    let mut acc = Diagnostics::new();
    for (site, msg) in [
        (raw_site(a, 6, 11), "late"),
        (raw_site(b, 0, 3), "other"),
        (raw_site(a, 0, 5), "early"),
        (Site::Nowhere, "nowhere"),
        (Site::Source(a), "whole"),
    ] {
        acc.push(Diagnostic::new(Class::SourceTooLarge, site, msg));
    }

    let s = diags(&t, &acc);
    let at = |m: &str| s.find(&format!(": {m}\n")).expect(m);

    assert!(at("nowhere") < at("whole"), "{s}");
    assert!(at("whole") < at("early"), "{s}");
    assert!(at("early") < at("late"), "{s}");
    assert!(at("late") < at("other"), "{s}");
}

#[test]
fn ordering_is_stable_and_precedes_the_cap() {
    let mut t = SourceTable::new();
    let a = add(&mut t, "a", "hello\nworld!\n");

    let mut acc = Diagnostics::new();
    acc.push(Diagnostic::new(Class::SourceTooLarge, raw_site(a, 6, 11), "third"));
    acc.push(Diagnostic::new(Class::SourceTooLarge, raw_site(a, 0, 5), "first"));
    acc.push(Diagnostic::new(Class::SourceTooLarge, raw_site(a, 0, 5), "second"));

    let s = diags(&t, &acc);
    let at = |m: &str| s.find(&format!(": {m}\n")).expect(m);
    assert!(at("first") < at("second"), "{s}");
    assert!(at("second") < at("third"), "{s}");

    let s = diags_with_cap(&t, &acc, 1);
    assert!(s.contains(": first\n"), "{s}");
    assert!(!s.contains(": third\n"), "{s}");
    assert!(s.contains("2 diagnostics suppressed"), "{s}");
}

#[test]
fn render_bugs() {
    let t = SourceTable::new();
    let mut acc = Diagnostics::new();

    acc.push(Diagnostic::new(Class::ICEDroppedOutput, Site::Nowhere, "ice"));
    let s = diags(&t, &acc);
    assert!(s.starts_with("bug[ice::DROPPED_OUTPUT]: ice"), "{s}");
    assert!(!s.contains("suppressed"), "{s}");

    let mut acc = Diagnostics::new();
    acc.push(Diagnostic::new(Class::SourceTooLarge, Site::Nowhere, "a"));
    acc.push(Diagnostic::new(Class::SourceTooLarge, Site::Nowhere, "b"));
    acc.push(Diagnostic::new(Class::SourceTooLarge, Site::Nowhere, "c"));
    acc.push(Diagnostic::new(Class::ICEDroppedOutput, Site::Nowhere, "ice"));

    let s = diags_with_cap(&t, &acc, 1);
    assert!(s.contains("bug[ice::DROPPED_OUTPUT]: ice"), "{s}");
    assert!(s.contains("this is a bug in rforsp"), "{s}");

    assert!(s.contains("error[source::TOO_LARGE]: a"), "{s}");
    assert!(!s.contains("error[source::TOO_LARGE]: b"), "{s}");
    assert!(s.contains("2 diagnostics suppressed"), "{s}");
}

#[test]
fn a_located_diagnostic_renders_exactly() {
    let mut t = SourceTable::new();
    let a = add(&mut t, "a", "hello\nworld!\n");
    let s = diag(&t, raw_site(a, 6, 11), "m");
    assert_eq!(s, "a:2:1: error[source::TOO_LARGE]: m\n  |\n2 | world!\n  | ^^^^^\n  |\n");
}

#[test]
fn rendering_appends_to_what_is_there() {
    let t = SourceTable::new();
    let mut acc = Diagnostics::new();
    acc.push(Diagnostic::new(Class::SourceReadError, Site::Nowhere, "gone"));
    let mut s = String::from("before\n");
    render_diagnostics(&acc, &t, &mut s);
    assert!(s.starts_with("before\nerror[source::IO_ERROR]: gone"), "{s}");
}

#[test]
fn nothing_to_render_renders_nothing() {
    let t = SourceTable::new();
    let acc = Diagnostics::new();
    assert_eq!(diags(&t, &acc), "");
}

#[test]
fn a_span_ending_at_a_line_start_ends_on_the_line_before() {
    let mut t = SourceTable::new();
    let ml = add(&mut t, "ml", "l1\nl2\nl3\n");
    let s = diag(&t, raw_site(ml, 0, 6), "m");
    assert_eq!(s, "ml:1:1: error[source::TOO_LARGE]: m\n  |\n1 | l1\n  | ^^\n2 | l2\n  | ^^\n  |\n");
}
