use rforsp::context::Compilation;
use rforsp::diagnostics::{Aborted, Class, Diagnostic, Diagnostics, Phase, Site};
use rforsp::drivers::{compile, gate, lex_sources, parse_streams, sources_from_files};
use rforsp::lexer::{Token, TokenKind};
use rforsp::log::{Log, log_hir, log_tokens};
use rforsp::source::Span;

/// An error diagnostic with no location.
fn err(message: &str) -> Diagnostic {
    Diagnostic::new(Class::SourceReadError, Site::Nowhere, message)
}

/// An accumulator holding one error.
fn dirty(message: &str) -> Diagnostics {
    let mut d = Diagnostics::new();
    d.push(err(message));
    d
}

/// The outcome of reading a file that does not exist.
fn missing() -> Result<String, String> {
    Err(std::io::Error::from(std::io::ErrorKind::NotFound).to_string())
}

fn file(name: &str, text: &str) -> (String, Result<String, String>) {
    (name.to_owned(), Ok(text.to_owned()))
}

#[test]
fn gate_polarity() {
    let mut global = Diagnostics::new();
    assert_eq!(gate(&mut global, Diagnostics::new(), 7, Phase::Lex), Ok(7));
    assert_eq!(gate(&mut global, dirty("a"), 7, Phase::Lex), Err(Aborted::new(Phase::Lex)));
}

#[test]
fn gate_merges() {
    let mut global = Diagnostics::new();
    let mut clean = Diagnostics::new();
    clean.push(err("a"));

    assert!(gate(&mut global, clean, (), Phase::Source).is_err());
    assert!(gate(&mut global, dirty("b"), (), Phase::Lex).is_err());

    let msgs: Vec<&str> = global.items().iter().map(|d| d.message.as_str()).collect();
    assert_eq!(msgs, ["a", "b"]);
    assert_eq!(global.error_count(), 2);
}

#[test]
fn gate_ignores_earlier_errors() {
    let mut global = dirty("earlier phase");
    assert_eq!(gate(&mut global, Diagnostics::new(), 7, Phase::Lex), Ok(7));
}

#[test]
fn sources_attempts_all_files() {
    let mut ctx = Compilation::new();
    let mut diags = Diagnostics::new();
    let files = vec![("/nonexistent/a".to_owned(), missing()), ("/nonexistent/b".to_owned(), missing())];

    assert_eq!(sources_from_files(files, &mut diags, &mut ctx), Err(Aborted::new(Phase::Source)));
    assert_eq!(diags.error_count(), 2, "one missing file cannot hide another");
}

#[test]
fn lex_gates_per_source() {
    let mut ctx = Compilation::new();
    let good = ctx.table.add_source_raw("good", "1 2 add".to_owned()).expect("raw source");
    let bad = ctx.table.add_source_raw("bad", "^ $".to_owned()).expect("raw source");

    let mut diags = Diagnostics::new();
    assert_eq!(lex_sources(&[good, bad], &mut diags, &ctx), Err(Aborted::new(Phase::Lex)));
    assert_eq!(diags.error_count(), 2);

    let mut diags = Diagnostics::new();
    let tokens = lex_sources(&[good], &mut diags, &ctx).expect("a clean source passes");
    assert_eq!(tokens[0].len(), 3);
    assert!(!diags.has_errors());
}

#[test]
fn read_files_become_sources_in_order() {
    let mut ctx = Compilation::new();
    let mut diags = Diagnostics::new();
    let ids = sources_from_files(vec![file("a", "1"), file("b", "2 3")], &mut diags, &mut ctx).expect("both read");
    assert_eq!(ids.iter().map(|id| id.index()).collect::<Vec<_>>(), [0, 1]);
    assert_eq!(ctx.table.get_source(ids[1]).text(), "2 3");
    assert!(diags.items().is_empty());
}

#[test]
fn a_rejected_file_is_reported_by_name() {
    let mut ctx = Compilation::new();
    let mut diags = Diagnostics::new();
    let files = vec![file("ok", "1"), ("gone".to_owned(), Err("no such file".to_owned()))];
    assert_eq!(sources_from_files(files, &mut diags, &mut ctx), Err(Aborted::new(Phase::Source)));
    assert_eq!(diags.items().len(), 1);
    assert_eq!(diags.items()[0].message, "gone: no such file");
    assert_eq!(diags.items()[0].class, Class::SourceReadError);
}

#[test]
fn parse_merges_streams_in_order() {
    let mut ctx = Compilation::new();
    let a = ctx.table.add_source_raw("a", "1 [2]".to_owned()).unwrap();
    let b = ctx.table.add_source_raw("b", "x".to_owned()).unwrap();
    let mut diags = Diagnostics::new();
    let lexes = lex_sources(&[a, b], &mut diags, &ctx).unwrap();
    let body = parse_streams(&[a, b], &lexes, &mut diags, &mut ctx).expect("both parse");
    assert_eq!(body.len(), 3);
    assert_eq!(ctx.table.text_of(body[0].id), "1");
    assert_eq!(ctx.table.text_of(body[1].id), "[2]");
    assert_eq!(ctx.table.text_of(body[2].id), "x");
    assert!(diags.items().is_empty());
}

#[test]
fn parse_gates_on_any_stream() {
    let mut ctx = Compilation::new();
    let a = ctx.table.add_source_raw("a", "1".to_owned()).unwrap();
    let b = ctx.table.add_source_raw("b", "( ]".to_owned()).unwrap();
    let mut diags = Diagnostics::new();
    let lexes = lex_sources(&[a, b], &mut diags, &ctx).unwrap();
    assert!(matches!(parse_streams(&[a, b], &lexes, &mut diags, &mut ctx), Err(Aborted(Phase::Parse))));
    assert_eq!(diags.error_count(), 1);
    assert_eq!(diags.items()[0].class, Class::ParseMismatchedCloser);
}

#[test]
fn compile_runs_every_phase() {
    let mut ctx = Compilation::new();
    let mut diags = Diagnostics::new();
    let mut out = String::new();
    let result = compile(vec![file("main", "$x ^x [1 2]")], &mut ctx, &mut diags, Log::none(), &mut out);
    assert_eq!(result, Ok(()));
    assert!(diags.items().is_empty());
    assert_eq!(out, "");
}

#[test]
fn compile_stops_at_the_first_failing_phase() {
    let mut ctx = Compilation::new();
    let mut diags = Diagnostics::new();
    let mut out = String::new();
    let mut log = Log::none();
    log.insert(Log::tokens());
    let result = compile(vec![file("main", "$1 ]")], &mut ctx, &mut diags, log, &mut out);
    assert_eq!(result, Err(Aborted::new(Phase::Lex)));
    assert_eq!(diags.items().len(), 1);
    assert_eq!(diags.items()[0].class, Class::LexBindInvalid);
    assert_eq!(out, "", "no tokens are logged when lexing fails");

    let mut diags = Diagnostics::new();
    let result = compile(vec![file("main", "1 ]")], &mut ctx, &mut diags, log, &mut out);
    assert_eq!(result, Err(Aborted::new(Phase::Parse)));
    assert_eq!(diags.items()[0].class, Class::ParseUnexpectedCloser);
    assert!(out.starts_with("main: 3 bytes => 2 tokens\n"), "{out}");
}

#[test]
fn log_sets_hold_their_stages() {
    let mut log = Log::none();
    assert!(!log.contains(Log::tokens()));
    assert!(log.contains(Log::none()));
    log.insert(Log::hir());
    assert!(log.contains(Log::hir()));
    assert!(!log.contains(Log::tokens()));
    log.insert(Log::tokens());
    let mut both = Log::tokens();
    both.insert(Log::hir());
    assert!(log.contains(both));
    assert_eq!(log, both);
}

#[test]
fn tokens_are_logged_per_source() {
    let mut ctx = Compilation::new();
    let a = ctx.table.add_source_raw("a", "[x]".to_owned()).unwrap();
    let mut diags = Diagnostics::new();
    let lexes = lex_sources(&[a], &mut diags, &ctx).unwrap();

    let mut out = String::new();
    log_tokens(&[a], &lexes, Log::hir(), &ctx, &mut out);
    assert_eq!(out, "");

    log_tokens(&[a], &lexes, Log::tokens(), &ctx, &mut out);
    assert_eq!(out, "a: 3 bytes => 3 tokens\nVecStart([), Symbol(x), VecEnd(]), \n");
}

#[test]
fn any_token_with_a_span_of_its_source_is_logged() {
    let mut ctx = Compilation::new();
    let a = ctx.table.add_source_raw("a", "$".to_owned()).unwrap();
    let lexes = vec![vec![Token { kind: TokenKind::Bind, span: Span { start: 0, end: 1 } }]];
    let mut out = String::new();
    log_tokens(&[a], &lexes, Log::tokens(), &ctx, &mut out);
    assert_eq!(out, "a: 1 byte => 1 token\nBind($), \n");
}

#[test]
fn forms_are_logged_in_preorder() {
    let mut ctx = Compilation::new();
    let a = ctx.table.add_source_raw("a", "'[x 1]".to_owned()).unwrap();
    let mut diags = Diagnostics::new();
    let lexes = lex_sources(&[a], &mut diags, &ctx).unwrap();
    let body = parse_streams(&[a], &lexes, &mut diags, &mut ctx).unwrap();

    let mut out = String::new();
    log_hir(&lexes, &body, Log::tokens(), &ctx, &mut out);
    assert_eq!(out, "");

    log_hir(&lexes, &body, Log::hir(), &ctx, &mut out);
    assert_eq!(
        out,
        "5 tokens => 4 forms\nQuote \n  Vector [2]\n    Call `x`\n    Int `1`\n"
    );
}

#[test]
fn compile_logs_both_stages() {
    let mut ctx = Compilation::new();
    let mut diags = Diagnostics::new();
    let mut out = String::new();
    let mut log = Log::tokens();
    log.insert(Log::hir());
    let result = compile(vec![file("m", "1")], &mut ctx, &mut diags, log, &mut out);
    assert_eq!(result, Ok(()));
    assert_eq!(out, "m: 1 byte => 1 token\nNumber(1), \n1 token => 1 form\nInt `1`\n");
}

#[test]
fn what_compile_reports_renders_against_its_table() {
    let mut ctx = Compilation::new();
    let mut diags = Diagnostics::new();
    let mut out = String::new();
    let result = compile(vec![file("main.fp", "1 (2 ]")], &mut ctx, &mut diags, Log::none(), &mut out);
    assert_eq!(result, Err(Aborted::new(Phase::Parse)));
    let mut rendered = String::new();
    rforsp::diagnostics::render::render_diagnostics(&diags, &ctx.table, &mut rendered);
    assert_eq!(
        rendered,
        "main.fp:1:3: error[parse::MISMATCHED_CLOSER]: Container closed by the wrong closer\n  |\n1 | 1 (2 ]\n  |   ^^^^\n  |\n"
    );
}

#[test]
fn an_empty_file_list_compiles() {
    let mut ctx = Compilation::new();
    let mut diags = Diagnostics::new();
    let mut out = String::new();
    let mut log = Log::tokens();
    log.insert(Log::hir());
    assert_eq!(compile(Vec::new(), &mut ctx, &mut diags, log, &mut out), Ok(()));
    assert_eq!(out, "0 tokens => 0 forms\n");
}

#[test]
fn sources_are_named_after_their_files() {
    let mut ctx = Compilation::new();
    let mut diags = Diagnostics::new();
    let files = vec![file("first", "1"), ("gone".to_owned(), Err("missing".to_owned())), file("third", "x")];
    assert!(sources_from_files(files, &mut diags, &mut ctx).is_err());
    // The rejected file gives no source; the others follow each other.
    let a = ctx.table.add_source_raw("probe", String::new()).unwrap();
    assert_eq!(a.index(), 2);
    let ids = sources_from_files(vec![file("main", "1 2")], &mut diags, &mut ctx).expect("read");
    assert_eq!(ctx.table.get_source(ids[0]).source_name(), "main");
    assert_eq!(ctx.table.get_source(ids[0]).text(), "1 2");
}

#[test]
fn streams_of_one_source_give_distinct_ids() {
    let mut ctx = Compilation::new();
    let a = ctx.table.add_source_raw("a", "x [y]".to_owned()).unwrap();
    let mut diags = Diagnostics::new();
    let lexes = lex_sources(&[a, a], &mut diags, &ctx).unwrap();
    let body = parse_streams(&[a, a], &lexes, &mut diags, &mut ctx).expect("both parse");
    assert_eq!(body.len(), 4);
    let mut ids: Vec<u32> = body.iter().map(|f| f.id.index()).collect();
    ids.sort_unstable();
    ids.dedup();
    assert_eq!(ids.len(), 4, "the same text parsed twice still gets new ids");
}

#[test]
fn an_abort_names_its_phase() {
    assert_eq!(Aborted::new(Phase::Parse).describe(), "compilation aborted in the parse phase");
    assert_eq!(Aborted::new(Phase::Source).describe(), "compilation aborted in the source phase");
}
