use rforsp::diagnostics::{Class, Site};
use rforsp::interner::{Interner, sym_f, sym_if, sym_rec};
use rforsp::lexer::TokenKind::{
    Bind, ListEnd, ListStart, Load, Number, Quote, Symbol, VecEnd, VecStart,
};
use rforsp::lexer::{TokenKind, format_ranges, is_format, tokenise};
use rforsp::source::SourceTable;

/// Tokens, or diagnostics, paired with the text their spans cover.
type Spanned<T> = Vec<(T, String)>;

fn lex(text: &str) -> (Spanned<TokenKind>, Spanned<Class>) {
    let mut table = SourceTable::new();
    let id = table.add_source_raw("t", text.into()).expect("within bound");
    let (tokens, diags) = tokenise(id, &table);
    let source = table.get_source(id);
    let text_of = |span| source.span_text(span).to_string();

    let tokens = tokens.unwrap_or_default().iter().map(|t| (t.kind, text_of(t.span))).collect();

    let diags = diags
        .items()
        .iter()
        .map(|diag| {
            let site = match diag.site {
                Site::Raw(origin) => text_of(origin.span),
                site => format!("<expected a Raw site, got {site:?}>"),
            };
            (diag.class, site)
        })
        .collect();
    (tokens, diags)
}

fn assert_tokens(text: &str, expected: &[(TokenKind, &str)]) {
    let (tokens, diags) = lex(text);
    assert!(diags.is_empty(), "{text:?} unexpectedly raised {diags:?}");
    let got: Vec<_> = tokens.iter().map(|(k, s)| (*k, s.as_str())).collect();
    assert_eq!(got, expected, "tokenising {text:?}");
}

fn assert_errors(text: &str, expected: &[(Class, &str)]) {
    let (_, diags) = lex(text);
    let got: Vec<_> = diags.iter().map(|(c, s)| (*c, s.as_str())).collect();
    assert_eq!(got, expected, "tokenising {text:?}");
}

#[test]
fn interner_construction() {
    let interner = Interner::new();
    assert_eq!(interner.get("f"), Some(sym_f()));
    assert_eq!(interner.get("if"), Some(sym_if()));
    assert_eq!(interner.get("rec"), Some(sym_rec()));
}

#[test]
fn no_collision() {
    let mut interner = Interner::new();
    let a = interner.intern("my-house");
    let b = interner.intern("your-house");
    assert_ne!(a, b);
    assert_eq!(interner.resolve(a), "my-house");
    assert_eq!(interner.resolve(b), "your-house");
}

#[test]
fn interning_idempotent() {
    let mut interner = Interner::new();
    let a = interner.intern("xyz123");
    let b = interner.intern("xyz123");
    assert_eq!(a, b);
    assert_eq!(interner.resolve(b), "xyz123");
    assert_eq!(interner.len(), 3 + 1);
}

#[test]
fn a_new_name_gets_the_next_id() {
    let mut interner = Interner::new();
    let before = interner.len();
    let a = interner.intern("my-house");
    let b = interner.intern("your-house");
    assert_eq!(a.index() as usize, before);
    assert_eq!(b.index() as usize, before + 1);
    assert_ne!(a, b);
    assert_eq!(interner.resolve(a), "my-house");
}

#[test]
fn get() {
    let mut interner = Interner::new();
    let name = "can't-park-there-mate";
    assert_eq!(interner.get(name), None);
    let id = interner.intern(name);
    assert_eq!(interner.get(name), Some(id));
}

#[test]
fn resolve() {
    let mut interner = Interner::new();
    let names: [&str; 4] = ["hello", "derivative", "->>", "xy871238huashask_;@"];
    let ids = names.map(|n| interner.intern(n));
    for (&id, &name) in ids.iter().zip(names.iter()) {
        assert_eq!(interner.resolve(id), name);
    }
}

#[test]
fn interning_hands_out_dense_ids() {
    let mut interner = Interner::new();
    assert_eq!(sym_f().index(), 0);
    assert_eq!(sym_if().index(), 1);
    assert_eq!(sym_rec().index(), 2);
    assert_eq!(interner.intern("a").index(), 3);
    assert_eq!(interner.intern("b").index(), 4);
    assert_eq!(interner.intern("a").index(), 3);
    assert_eq!(interner.intern("rec"), sym_rec());
    assert_eq!(interner.len(), 5);
}

#[test]
fn ranges_are_searchable() {
    let ranges = format_ranges();
    let successors = ranges.iter().skip(1);
    for (&(low, high), &(next_low, _)) in ranges.iter().zip(successors) {
        assert!(low <= high, "{low:?}..{high:?} is inverted");
        assert!(high < next_low, "{high:?} is not before {next_low:?}");
    }
}

#[test]
fn format_characters() {
    for c in ['\u{feff}', '\u{200b}', '\u{200d}', '\u{202e}', '\u{2066}'] {
        assert!(is_format(c), "{c:?} should be a format character");
    }
    for c in
        ['a', '0', '∀', '\u{0}', '\u{ac}', '\u{ae}', '\u{2065}', '\u{2070}', '\u{13429}', '\u{13440}']
    {
        assert!(!is_format(c), "{c:?} should not be a format character");
    }
}

#[test]
fn format_range_edges() {
    for (low, high) in format_ranges() {
        assert!(is_format(low), "{low:?}");
        assert!(is_format(high), "{high:?}");
    }
    assert!(!is_format('\u{e0000}'));
    assert!(!is_format('\u{e0080}'));
}

#[test]
fn tokens_and_spans() {
    assert_tokens("", &[]);
    assert_tokens("  \n\t ", &[]);

    assert_tokens(
        "[](')",
        &[(VecStart, "["), (VecEnd, "]"), (ListStart, "("), (Quote, "'"), (ListEnd, ")")],
    );

    assert_tokens("abc[def]", &[(Symbol, "abc"), (VecStart, "["), (Symbol, "def"), (VecEnd, "]")]);

    assert_tokens("$x ^y", &[(Bind, "$x"), (Load, "^y")]);

    assert_tokens(
        "\t∀x:\n\tx≡0mod2\n⇔\n\t∃k:\n\tx=2k",
        &[(Symbol, "∀x:"), (Symbol, "x≡0mod2"), (Symbol, "⇔"), (Symbol, "∃k:"), (Symbol, "x=2k")],
    );
}

#[test]
fn integers_vs_symbols() {
    for (text, kind) in [
        ("12", Number),
        ("0", Number),
        ("-12", Number),
        ("-", Symbol),
        ("1abc", Symbol),
        ("abc1", Symbol),
        ("12-", Symbol),
    ] {
        assert_tokens(text, &[(kind, text)]);
    }
}

#[test]
fn trivia_skipped() {
    assert_tokens(";", &[]);
    assert_tokens("a ; comment [ $ ) \nb", &[(Symbol, "a"), (Symbol, "b")]);
    assert_tokens(";one\n ;two\n\n;three\na", &[(Symbol, "a")]);
    assert_tokens("a ;trailing", &[(Symbol, "a")]);
    assert_tokens("a\r\nb", &[(Symbol, "a"), (Symbol, "b")]);
    assert_tokens("$x\r^y", &[(Bind, "$x"), (Load, "^y")]);
    assert_tokens("a ;comment\r\nb", &[(Symbol, "a"), (Symbol, "b")]);
    assert_errors("a\u{85}b", &[(Class::LexUnknownCharacter, "\u{85}")]);
}

#[test]
fn control_characters_are_errors() {
    for control in ['\u{0}', '\u{b}', '\u{c}', '\u{1b}', '\u{7f}', '\u{80}', '\u{9f}'] {
        let text = format!("a{control}b");
        let control = control.to_string();
        assert_errors(&text, &[(Class::LexUnknownCharacter, &control)]);
    }

    assert_errors(
        "\u{0}\u{7f}",
        &[(Class::LexUnknownCharacter, "\u{0}"), (Class::LexUnknownCharacter, "\u{7f}")],
    );

    assert_tokens("a\tb\nc", &[(Symbol, "a"), (Symbol, "b"), (Symbol, "c")]);

    assert_tokens("a ;com\u{0}ment\nb", &[(Symbol, "a"), (Symbol, "b")]);

    for format in ['\u{feff}', '\u{200b}', '\u{200d}', '\u{202e}'] {
        let text = format!("a{format}b");
        let format = format.to_string();
        assert_errors(&text, &[(Class::LexUnknownCharacter, &format)]);
    }
}

#[test]
fn leading_byte_order_mark() {
    let program = "[$x ^x] 'a 12";
    assert_eq!(lex(&format!("\u{feff}{program}")), lex(program));

    assert_errors("\u{feff}\u{feff}x", &[(Class::LexUnknownCharacter, "\u{feff}")]);

    assert_tokens("\u{feff}", &[]);
}

#[test]
fn binding_operators() {
    assert_errors("$12", &[(Class::LexBindInvalid, "$12")]);
    assert_errors("^12", &[(Class::LexLoadInvalid, "^12")]);

    for text in ["$", "$ x", "$\n", "$;comment", "$["] {
        let (_, diags) = lex(text);
        assert_eq!(diags, vec![(Class::LexBindInvalid, "$".to_string())]);
    }

    assert_errors(
        "$1 ^2 $3",
        &[(Class::LexBindInvalid, "$1"), (Class::LexLoadInvalid, "^2"), (Class::LexBindInvalid, "$3")],
    );
}

#[test]
fn lex_recovery() {
    assert_errors("$12", &[(Class::LexBindInvalid, "$12")]);
    assert_errors("$[xyz]", &[(Class::LexBindInvalid, "$")]);

    assert_errors("$12 $[xyz]", &[(Class::LexBindInvalid, "$12"), (Class::LexBindInvalid, "$")]);

    assert_errors("$a\0b ^[x y z]", &[(Class::LexUnknownCharacter, "\0"), (Class::LexLoadInvalid, "^")]);
}

#[test]
fn sigil_tokens_always_carry_a_name() {
    for text in ["$x ^y", "^^x", "$a$b", "$ ^", "^^", "$", "'$x", "[$x]"] {
        let (tokens, _) = lex(text);
        for (kind, span) in tokens.iter().filter(|(k, _)| matches!(*k, Bind | Load)) {
            assert!(
                span.len() >= 2,
                "{text:?} produced a {kind:?} spanning {span:?}, which has no name after its sigil"
            );
        }
    }
}

#[test]
fn adjacent_sigils() {
    assert_errors("^^x", &[(Class::LexLoadInvalid, "^")]);

    assert_errors(
        "^^ $$",
        &[
            (Class::LexLoadInvalid, "^"),
            (Class::LexLoadInvalid, "^"),
            (Class::LexBindInvalid, "$"),
            (Class::LexBindInvalid, "$"),
        ],
    );
}

#[test]
fn an_erroneous_source_withholds_its_tokens() {
    let mut table = SourceTable::new();
    let id = table.add_source_raw("t", "a $1 b".into()).unwrap();
    let (tokens, diags) = tokenise(id, &table);
    assert!(tokens.is_none());
    assert_eq!(diags.error_count(), 1);

    let clean = table.add_source_raw("u", "a b".into()).unwrap();
    let (tokens, diags) = tokenise(clean, &table);
    assert_eq!(tokens.map(|t| t.len()), Some(2));
    assert!(!diags.has_errors());
}
