use rforsp::diagnostics::{Class, Site};
use rforsp::interner::Interner;
use rforsp::lexer::{TokenKind, tokenise};
use rforsp::parser::{HirForm, HirKind, dfs, parse, print_forms};
use rforsp::source::{SourceTable, Span, SyntaxId};

/// Forms, or diagnostics, paired with the text their spans cover.
type Spanned<T> = Vec<(T, String)>;

fn shape(form: &HirForm, interner: &Interner) -> String {
    match &form.kind {
        HirKind::Int(n) => n.to_string(),
        HirKind::Call(s) => interner.resolve(*s).to_string(),
        HirKind::Bind(s) => format!("${}", interner.resolve(*s)),
        HirKind::Load(s) => format!("^{}", interner.resolve(*s)),
        HirKind::Quote(f) => format!("'{}", shape(f, interner)),
        HirKind::List(fs) => format!("({})", shapes(fs, interner)),
        HirKind::Vector(fs) => format!("[{}]", shapes(fs, interner)),
    }
}

fn shapes(forms: &[HirForm], interner: &Interner) -> String {
    forms.iter().map(|f| shape(f, interner)).collect::<Vec<_>>().join(" ")
}

fn parse_text(text: &str) -> (Option<Spanned<String>>, Spanned<Class>) {
    let mut table = SourceTable::new();
    let mut interner = Interner::new();
    let id = table.add_source_raw("t", text.into()).expect("within bound");
    let tokens = tokenise(id, &table).0.expect("lexes cleanly");
    let (forms, diags) = parse(id, &tokens, &mut table, &mut interner);

    if let Some(forms) = &forms {
        let expected = tokens
            .iter()
            .filter(|t| !matches!(t.kind, TokenKind::VecEnd | TokenKind::ListEnd))
            .count();
        let got = dfs(forms).len();
        assert_eq!(got, expected, "{text:?} yielded {got} forms from {expected} non-closing tokens");
    }

    let source = table.get_source(id);
    let forms = forms.map(|forms| {
        forms
            .iter()
            .map(|form| {
                let span = table.get_origin(form.id).span;
                (shape(form, &interner), source.span_text(span).to_string())
            })
            .collect()
    });

    let diags = diags
        .items()
        .iter()
        .map(|diag| {
            let site = match diag.site {
                Site::Raw(origin) => source.span_text(origin.span).to_string(),
                site => format!("<expected a Raw site, got {site:?}>"),
            };
            (diag.class, site)
        })
        .collect();
    (forms, diags)
}

fn assert_forms(text: &str, expected: &[&str]) {
    let (forms, diags) = parse_text(text);
    assert!(diags.is_empty(), "{text:?} unexpectedly raised {diags:?}");
    let forms = forms.expect("a clean parse yields a body");
    let got: Vec<_> = forms.iter().map(|(f, _)| f.as_str()).collect();
    assert_eq!(got, expected, "parsing {text:?}");
}

fn assert_spans(text: &str, expected: &[(&str, &str)]) {
    let (forms, diags) = parse_text(text);
    assert!(diags.is_empty(), "{text:?} unexpectedly raised {diags:?}");
    let forms = forms.expect("a clean parse yields a body");
    let got: Vec<_> = forms.iter().map(|(f, span)| (f.as_str(), span.as_str())).collect();
    assert_eq!(got, expected, "parsing {text:?}");
}

fn assert_errors(text: &str, expected: &[(Class, &str)]) {
    let (forms, diags) = parse_text(text);
    let got: Vec<_> = diags.iter().map(|(c, s)| (*c, s.as_str())).collect();
    assert_eq!(got, expected, "parsing {text:?}");
    assert!(forms.is_none(), "{text:?} reported and still handed back a body");
}

/// A [`SyntaxId`] to hang synthetic forms off.
fn any_id() -> SyntaxId {
    let mut table = SourceTable::new();
    let source = table.add_source_raw("t", "x".into()).expect("within bound");
    table.add_origin(source, Span::new(0, 1))
}

fn print_of(text: &str) -> String {
    let mut table = SourceTable::new();
    let mut interner = Interner::new();
    let id = table.add_source_raw("t", text.into()).expect("within bound");
    let tokens = tokenise(id, &table).0.expect("lexes cleanly");
    let (forms, _) = parse(id, &tokens, &mut table, &mut interner);
    let forms = forms.expect("parses cleanly");

    let mut out = String::new();
    print_forms(&forms, &interner, &mut out);
    out
}

#[test]
fn forms_and_shapes() {
    assert_forms("", &[]);
    assert_forms("  \n; comment\n", &[]);

    assert_forms("12 -3 x", &["12", "-3", "x"]);
    assert_forms("$x ^y z", &["$x", "^y", "z"]);

    assert_forms("[$x ^x]", &["[$x ^x]"]);
    assert_forms("(1 2)", &["(1 2)"]);
    assert_forms("[[1] (2 3)]", &["[[1] (2 3)]"]);
    assert_forms("[] ()", &["[]", "()"]);

    assert_forms("'x", &["'x"]);
    assert_forms("'[a b]", &["'[a b]"]);
    assert_forms("'(a b)", &["'(a b)"]);

    assert_forms("['x]", &["['x]"]);
    assert_forms("[a 'b c]", &["[a 'b c]"]);
    assert_forms("[['x]]", &["[['x]]"]);
}

#[test]
fn quotes_separated_by_brackets() {
    assert_forms("'['x]", &["'['x]"]);
    assert_forms("'('x)", &["'('x)"]);
    assert_forms("'[a 'b]", &["'[a 'b]"]);
}

#[test]
fn spans_cover_whole_forms() {
    assert_spans(" 12 ", &[("12", "12")]);
    assert_spans("$x", &[("$x", "$x")]);

    assert_spans("[ a b ]", &[("[a b]", "[ a b ]")]);
    assert_spans("(  )", &[("()", "(  )")]);

    assert_spans("'x", &[("'x", "'x")]);
    assert_spans("'[a]", &[("'[a]", "'[a]")]);
}

#[test]
fn binding_in_datum() {
    for (text, sigil) in [
        ("'^x", "^x"),
        ("'[^x]", "^x"),
        ("'(a $x)", "$x"),
        ("(^x)", "^x"),
        ("([$y])", "$y"),
        ("[(^x)]", "^x"),
    ] {
        assert_errors(text, &[(Class::ParseBindingInDatum, sigil)]);
    }

    assert_forms("[$x ^x]", &["[$x ^x]"]);
    assert_forms("[[$x]]", &["[[$x]]"]);
}

#[test]
fn quote_errors() {
    assert_errors("''x", &[(Class::ParseNestedQuote, "''")]);

    assert_errors("'''x", &[(Class::ParseNestedQuote, "''"), (Class::ParseNestedQuote, "''")]);

    assert_errors("'", &[(Class::ParseQuoteWithoutForm, "'")]);
    assert_errors("x '", &[(Class::ParseQuoteWithoutForm, "'")]);

    assert_errors("[']", &[(Class::ParseQuoteWithoutForm, "'")]);

    assert_errors("']", &[(Class::ParseQuoteWithoutForm, "'"), (Class::ParseUnexpectedCloser, "]")]);
}

#[test]
fn bracket_errors() {
    assert_errors("]", &[(Class::ParseUnexpectedCloser, "]")]);
    assert_errors("a )", &[(Class::ParseUnexpectedCloser, ")")]);

    assert_errors("[a b)", &[(Class::ParseMismatchedCloser, "[a b)")]);
    assert_errors("(a]", &[(Class::ParseMismatchedCloser, "(a]")]);

    assert_errors("[", &[(Class::ParseUnterminatedVector, "[")]);
    assert_errors("(", &[(Class::ParseUnterminatedList, "(")]);

    assert_errors(
        "([[",
        &[
            (Class::ParseUnterminatedList, "("),
            (Class::ParseUnterminatedVector, "["),
            (Class::ParseUnterminatedVector, "["),
        ],
    );

    assert_errors("([a b)", &[(Class::ParseMismatchedCloser, "[a b)"), (Class::ParseUnterminatedList, "(")]);
}

#[test]
fn integer_conversion() {
    assert_forms("9223372036854775807", &["9223372036854775807"]);
    assert_forms("-9223372036854775808", &["-9223372036854775808"]);

    assert_errors("9223372036854775808", &[(Class::ParseIntOverflow, "9223372036854775808")]);
    assert_errors("-9223372036854775809", &[(Class::ParseIntOverflow, "-9223372036854775809")]);

    assert_errors("[1 9223372036854775808 2]", &[(Class::ParseIntOverflow, "9223372036854775808")]);
}

#[test]
fn dfs_visits_every_form() {
    let id = any_id();
    let leaf = |n| HirForm::new(id, HirKind::Int(n));

    let forms = vec![
        HirForm::new(
            id,
            HirKind::Vector(vec![
                leaf(1),
                HirForm::new(id, HirKind::Quote(Box::new(leaf(2)))),
                HirForm::new(id, HirKind::List(vec![leaf(3)])),
            ]),
        ),
        leaf(4),
    ];

    let walk = dfs(&forms);
    let ints: Vec<i64> = walk
        .iter()
        .filter_map(|(form, _)| match form.kind {
            HirKind::Int(n) => Some(n),
            _ => None,
        })
        .collect();
    assert_eq!(ints, [1, 2, 3, 4]);

    assert_eq!(walk.len(), 7);

    let depths: Vec<usize> = walk.iter().map(|(_, depth)| *depth).collect();
    assert_eq!(depths, [0, 1, 1, 2, 1, 2, 0]);
}

#[test]
fn deep_nesting_walks_and_drops() {
    const DEPTH: usize = 200_000;

    let id = any_id();
    let mut form = HirForm::new(id, HirKind::Int(0));
    for _ in 0..DEPTH {
        form = HirForm::new(id, HirKind::Vector(vec![form]));
    }

    let forms = vec![form];
    let count = dfs(&forms).len();
    assert_eq!(count, DEPTH + 1);
}

#[test]
fn prints_surface_syntax() {
    for (source, expected) in [
        ("", ""),
        ("1 2", "1 2"),
        ("-1 -9223372036854775808", "-1 -9223372036854775808"),
        ("$a ^b c", "$a ^b c"),
        ("λ +x a-b", "λ +x a-b"),
        ("'x", "'x"),
        ("[1 2 3]", "[1 2 3]"),
        ("[]", "[]"),
        ("()", "()"),
        ("'[]", "'[]"),
        ("'['x]", "'['x]"),
        ("(1 (2) [3])", "(1 (2) [3])"),
    ] {
        assert_eq!(print_of(source), expected, "printing {source:?} did not give {expected:?}");
    }
}

#[test]
fn printing_normalises_notation() {
    for (source, expected) in
        [("[  1\n  2 ]", "[1 2]"), ("1 ; a comment\n2", "1 2"), ("007", "7"), ("'  x", "'x")]
    {
        assert_eq!(print_of(source), expected, "printing {source:?} did not normalise to {expected:?}");
    }
}

#[test]
fn printing_is_a_fixpoint() {
    for source in [
        "1 2",
        "$a ^b c",
        "'x",
        "[1 2 3]",
        "'['x]",
        "(1 (2) [3])",
        "[$a [^b] 'c]",
        "'[]",
        "'(1)",
        "λ +x a-b",
    ] {
        let once = print_of(source);
        let twice = print_of(&once);
        assert_eq!(once, twice, "printing {source:?} is not a fixpoint: {once:?} then {twice:?}");
    }
}

#[test]
fn payload_is_printed_rather_than_the_span() {
    let mut table = SourceTable::new();
    let mut interner = Interner::new();
    let source = table.add_source_raw("t", "not-the-symbol".into()).expect("within bound");
    let id = table.add_origin(source, Span::new(0, 14));
    let sym = interner.intern("x");

    let forms = vec![HirForm::new(id, HirKind::Call(sym))];
    let mut out = String::new();
    print_forms(&forms, &interner, &mut out);

    assert_eq!(out, "x", "printer read the origin rather than the SymId");
}

#[test]
fn deep_nesting_prints() {
    const DEPTH: usize = 200_000;

    let id = any_id();
    let mut form = HirForm::new(id, HirKind::Int(0));
    for _ in 0..DEPTH {
        form = HirForm::new(id, HirKind::Vector(vec![form]));
    }

    let forms = vec![form];
    let mut out = String::new();
    print_forms(&forms, &Interner::new(), &mut out);

    assert_eq!(out.matches('[').count(), DEPTH, "an opener per vector was not printed");
    assert_eq!(out.matches(']').count(), DEPTH, "a closer per vector was not printed");
}

#[test]
fn printing_appends_to_what_is_there() {
    let id = any_id();
    let forms = vec![HirForm::new(id, HirKind::Int(5)), HirForm::new(id, HirKind::Int(-6))];
    let mut out = String::from(">");
    print_forms(&forms, &Interner::new(), &mut out);
    assert_eq!(out, ">5 -6");
}

#[test]
fn a_failed_parse_reports_every_error_and_withholds_the_body() {
    let (forms, diags) = parse_text("] 99999999999999999999 (");
    assert!(forms.is_none());
    let classes: Vec<Class> = diags.iter().map(|(c, _)| *c).collect();
    assert_eq!(
        classes,
        [Class::ParseUnexpectedCloser, Class::ParseIntOverflow, Class::ParseUnterminatedList]
    );
}

#[test]
fn parsing_interns_each_new_name_once_in_order() {
    let mut table = SourceTable::new();
    let mut interner = Interner::new();
    let before = interner.len();
    let id = table.add_source_raw("t", "b $a [^b 'a] c 7".into()).expect("within bound");
    let tokens = tokenise(id, &table).0.expect("lexes cleanly");
    let origins_before = {
        let probe = table.add_origin(id, Span::new(0, 1));
        probe.index()
    };
    let (forms, _) = parse(id, &tokens, &mut table, &mut interner);
    assert!(forms.is_some());
    assert_eq!(interner.len(), before + 3, "b, a and c are new; the second b and a are not");
    let b = interner.get("b").expect("interned");
    let a = interner.get("a").expect("interned");
    let c = interner.get("c").expect("interned");
    assert_eq!(b.index() as usize, before);
    assert_eq!(a.index() as usize, before + 1);
    assert_eq!(c.index() as usize, before + 2);
    // One origin per form: b, $a, ^b, a, the quote, the vector, c and 7.
    let after = table.add_origin(id, Span::new(0, 1)).index();
    assert_eq!(after, origins_before + 1 + 8);
}

#[test]
fn parsed_forms_carry_fresh_distinct_ids() {
    let mut table = SourceTable::new();
    let mut interner = Interner::new();
    let id = table.add_source_raw("t", "x".into()).expect("within bound");
    // An earlier origin with the very span the first form will have.
    let earlier = table.add_origin(id, Span::new(0, 1));
    let tokens = tokenise(id, &table).0.expect("lexes cleanly");
    let (forms, _) = parse(id, &tokens, &mut table, &mut interner);
    let forms = forms.expect("parses cleanly");
    assert_ne!(forms[0].id, earlier, "the form gets its own, new id");
    assert!(forms[0].id.index() > earlier.index());

    let id2 = table.add_source_raw("u", "'[a (b) 'c] d".into()).expect("within bound");
    let before = table.add_origin(id2, Span::new(0, 1)).index() + 1;
    let tokens = tokenise(id2, &table).0.expect("lexes cleanly");
    let (forms, _) = parse(id2, &tokens, &mut table, &mut interner);
    let forms = forms.expect("parses cleanly");
    let mut ids: Vec<u32> = dfs(&forms).iter().map(|(f, _)| f.id.index()).collect();
    assert!(ids.iter().all(|&i| i >= before));
    let n = ids.len();
    ids.sort_unstable();
    ids.dedup();
    assert_eq!(ids.len(), n, "no two forms share an id");
}
