use rforsp::source::{Position, Source, SourceError, SourceId, SourceTable, Span, MAX_SOURCE_LEN};

const SOURCES: [(&str, &str); 2] = [("a", "hello\nworld!\n"), ("b", "Foo\nbar\n")];

fn add_sources(table: &mut SourceTable) -> [SourceId; 2] {
    SOURCES.map(|(name, text)| table.add_source_raw(name, text.into()).expect("This should not fail"))
}

const SAMPLE_TEXT: &str =
    "Hello, world!\nDo Shinigami's like \u{1f34e}'s?\nI like \u{1f350}'s personally.\n";

const SAMPLE_LINES: [&str; 3] =
    ["Hello, world!", "Do Shinigami's like \u{1f34e}'s?", "I like \u{1f350}'s personally."];

const SAMPLE_NEWLINES: [usize; 3] = [13, 41, 67];
const SAMPLE_EMOJIS: [usize; 2] = [34, 49];

fn sample_no_trailing_newline() -> String {
    String::from(&SAMPLE_TEXT[..SAMPLE_TEXT.len() - 1])
}

#[test]
fn position_defaults() {
    assert_eq!(Position::default(), Position::new(1, 1));
}

#[test]
fn span_defaults() {
    assert_eq!(Span::default(), Span::new(0, 0));
}

#[test]
fn span_length() {
    assert_eq!(Span::default().length(), 0);
    assert_eq!(Span::new(100, 100).length(), 0);
    assert_eq!(Span::new(0, 100).length(), 100);
}

#[test]
fn span_join_covers_both() {
    assert_eq!(Span::new(2, 4).join(Span::new(7, 9)), Span::new(2, 9));
    assert_eq!(Span::new(7, 9).join(Span::new(2, 4)), Span::new(2, 9));
    assert_eq!(Span::new(1, 10).join(Span::new(3, 4)), Span::new(1, 10));
}

#[test]
fn sources() {
    let mut table = SourceTable::new();
    let source_ids = add_sources(&mut table);

    assert!(source_ids[0].index() < source_ids[1].index());

    for (&s_id, (name, text)) in source_ids.iter().zip(SOURCES.iter()) {
        let source = table.get_source(s_id);
        assert_eq!(source.source_name(), *name);
        assert_eq!(source.text(), *text);
    }
}

#[test]
fn syntax_ids() {
    let mut table = SourceTable::new();
    let source_ids = add_sources(&mut table);
    let cases = [
        (
            source_ids[0],
            Span::new(0, SOURCES[0].1.len()),
            SOURCES[0].0,
            Position::default(),
            Position { line: 3, col: 1 },
            SOURCES[0].1,
        ),
        (source_ids[0], Span::new(2, 3), SOURCES[0].0, Position { line: 1, col: 3 }, Position { line: 1, col: 4 }, "l"),
        (
            source_ids[1],
            Span::new(0, SOURCES[1].1.len()),
            SOURCES[1].0,
            Position::default(),
            Position { line: 3, col: 1 },
            SOURCES[1].1,
        ),
        (
            source_ids[1],
            Span::new(2, 5),
            SOURCES[1].0,
            Position { line: 1, col: 3 },
            Position { line: 2, col: 2 },
            "o\nb",
        ),
        (source_ids[0], Span::new(0, 0), SOURCES[0].0, Position::default(), Position { line: 1, col: 1 }, ""),
    ];

    let syntax_ids = cases.map(|(source, span, _, _, _, _)| table.add_origin(source, span));

    for window in syntax_ids.windows(2) {
        assert!(window[0].index() < window[1].index());
    }

    for (&syntax_id, (source, span, name, start, end, text)) in syntax_ids.iter().zip(cases.iter()) {
        let origin = table.get_origin(syntax_id);
        assert_eq!(origin.source, *source);
        assert_eq!(origin.span, *span);

        let location = table.location_of(syntax_id);
        assert_eq!(location.name, *name);
        assert_eq!(location.start, *start);
        assert_eq!(location.end, *end);

        let actual_text = table.text_of(syntax_id);
        assert_eq!(*text, actual_text);
    }
}

#[test]
fn sources_invalid_filename() {
    let mut table = SourceTable::new();
    let read = Err(std::io::Error::from(std::io::ErrorKind::NotFound).to_string());
    let res = table.add_source_file("/no-way/this-is/real", read);
    assert!(res.is_err());
}

#[test]
fn a_read_file_becomes_a_source() {
    let mut table = SourceTable::new();
    let id = table.add_source_file("main.fp", Ok("1 2 +".to_owned())).expect("a read file");
    assert_eq!(id.index(), 0);
    assert_eq!(table.get_source(id).text(), "1 2 +");
    assert_eq!(table.get_source(id).source_name(), "main.fp");
}

#[test]
fn text_construction() {
    const LIMIT: usize = 64;
    assert!(Source::from_contents_limited("", "a".repeat(LIMIT), LIMIT).is_ok());
    assert!(Source::from_contents_limited("", String::new(), LIMIT).is_ok());
}

#[test]
fn any_limit_the_text_fits_is_accepted() {
    assert!(Source::from_contents_limited("", String::new(), usize::MAX).is_ok());
    let s = Source::from_contents_limited("n", "abc".to_owned(), usize::MAX).unwrap();
    assert_eq!(s.text(), "abc");
    assert_eq!(s.source_name(), "n");
}

#[test]
fn construction_invalid_contents_length() {
    const LIMIT: usize = 64;
    const OVER_LIMIT: usize = LIMIT + 1;
    let contents = "a".repeat(LIMIT + 1);
    assert!(matches!(
        Source::from_contents_limited("", contents, LIMIT),
        Err(SourceError::TooLarge { len: OVER_LIMIT, .. })
    ));
}

#[test]
fn the_default_limit_is_the_table_limit() {
    let mut table = SourceTable::new();
    assert!(Source::from_contents("", "x".to_owned()).is_ok());
    assert!(table.add_source_raw("", String::new()).is_ok());
    assert!(MAX_SOURCE_LEN > 0);
}

#[test]
fn eos() {
    assert!(Source::from_contents("", String::new())
        .expect("Empty string should not fail source construction.")
        .eos(0));

    let text = "Hello, world!";
    let source = Source::from_contents("", text.to_string()).expect("Should not fail construction");
    assert!(source.eos(text.len()));
    assert!((0..text.len()).all(|i| !source.eos(i)));
}

#[test]
fn destructors() {
    let text = "Hello, world!".to_string();
    let source = Source::from_contents("", text.clone()).expect("Should not fail construction");

    assert_eq!(source.text(), text);
    assert_eq!(source.bytes(), text.as_bytes());

    assert_eq!(source.chars_from(text.len()).next(), None);
    for (i, c) in text.chars().enumerate() {
        assert_eq!(source.chars_from(i).next(), Some(c));
    }

    {
        let source_iter: Vec<char> = source.chars_from(text.len() / 2).collect();
        let text_iter: Vec<char> = text.chars().skip(text.len() / 2).collect();
        assert_eq!(source_iter, text_iter);
    }

    let components = ["Hello", "world"];
    let spans = [Span::new(0, 5), Span::new(7, text.len() - 1)];
    for (&component, &span) in components.iter().zip(spans.iter()) {
        assert_eq!(component, source.span_text(span));
    }
}

#[test]
fn position_at() {
    let text = SAMPLE_TEXT.to_string();
    let source = Source::from_contents("", text.clone()).expect("Should not fail");

    assert_eq!(source.position_at(0), Position::default());

    for newline in SAMPLE_NEWLINES {
        let at_newline = source.position_at(newline);
        let ahead_newline = source.position_at(newline + 1);
        assert_eq!(at_newline.line + 1, ahead_newline.line);
        assert_eq!(ahead_newline.col, 1);
    }

    for emoji_position in SAMPLE_EMOJIS {
        let pos = source.position_at(emoji_position);
        let previous_pos = source.position_at(emoji_position - 1);
        assert_eq!(previous_pos, Position::new(pos.line, pos.col - 1));
        let next_pos = source.position_at(emoji_position + 4);
        assert_eq!(next_pos, Position::new(pos.line, pos.col + 1));
    }

    let mut col = 1;
    for (pos, character) in text.bytes().enumerate().filter(|(i, _)| text.is_char_boundary(*i)) {
        let line = text[..pos].matches('\n').count() + 1;
        assert_eq!(source.position_at(pos), Position::new(line, col));
        if character == b'\n' {
            col = 1;
        } else {
            col += 1;
        }
    }
}

#[test]
fn span_positions() {
    let text = "Hello, world!\n".to_string();
    let source = Source::from_contents("", text.clone()).expect("Should not fail");
    let span = Span::new(0, text.len());
    let (start, end) = source.span_positions(span);
    assert_eq!(start, Position::default());
    assert_eq!(end, Position::new(2, 1));

    let text = "Hello, world!".to_string();
    let source = Source::from_contents("", text.clone()).expect("Should not fail");
    let span = Span::new(0, text.len());
    let (start, end) = source.span_positions(span);
    assert_eq!(start, Position::default());
    assert_eq!(end, Position::new(1, text.len() + 1));

    let span = Span::new(2, 2);
    let (start, end) = source.span_positions(span);
    assert_eq!(span.length(), 0);
    assert_eq!(start, end);

    let text = SAMPLE_TEXT.to_string();
    let source = Source::from_contents("", text).expect("Should not fail");
    let lines = [
        Span::new(0, SAMPLE_NEWLINES[0]),
        Span::new(SAMPLE_NEWLINES[0] + 1, SAMPLE_NEWLINES[1]),
        Span::new(SAMPLE_NEWLINES[1] + 1, SAMPLE_NEWLINES[2]),
    ];

    for (i, &line) in lines.iter().enumerate() {
        let (start, end) = source.span_positions(line);
        assert_eq!(start.line, i + 1);
        assert_eq!(start.line, end.line);
        assert_eq!(source.span_text(line).chars().count(), end.col - start.col);

        let (start, end) = source.span_positions(Span::from_u32(line.start, line.end + 1));
        assert_eq!(start.line, i + 1);
        assert_eq!(end, Position::new(start.line + 1, start.col));
    }
}

#[test]
fn line_text() {
    let text = SAMPLE_TEXT.to_string();
    let source = Source::from_contents("", text).expect("Should not fail");

    for (i, &expected) in SAMPLE_LINES.iter().enumerate() {
        assert_eq!(source.line_text(i + 1), expected);
    }

    assert_eq!(source.line_text(4), "");

    let text = sample_no_trailing_newline();
    let source = Source::from_contents("", text).expect("Should not fail");
    for (i, &expected) in SAMPLE_LINES.iter().enumerate() {
        assert_eq!(source.line_text(i + 1), expected);
    }

    let source = Source::from_contents("", String::new()).expect("Should not fail");
    assert_eq!(source.line_text(1), "");
}

#[test]
fn line_text_of() {
    let text = SAMPLE_TEXT.to_string();
    let source = Source::from_contents("", text).expect("Should not fail");

    assert_eq!(source.line_text_of(0), "Hello, world!");
    assert_eq!(source.line_text_of(SAMPLE_NEWLINES[0] + 1), SAMPLE_LINES[1]);
    assert_eq!(source.line_text_of(SAMPLE_NEWLINES[1] + 1), SAMPLE_LINES[2]);
    assert_eq!(source.line_text_of(20), SAMPLE_LINES[1]);
    assert_eq!(source.line_text_of(SAMPLE_NEWLINES[0]), SAMPLE_LINES[0]);

    let expected = SAMPLE_LINES[1];
    for offset in SAMPLE_EMOJIS[0] + 1..SAMPLE_EMOJIS[0] + 4 {
        assert_eq!(source.line_text_of(offset), expected);
    }

    assert_eq!(source.line_text_of(source.len()), "");

    let source = Source::from_contents("", sample_no_trailing_newline()).expect("Should not fail");
    assert_eq!(source.line_text_of(source.len()), SAMPLE_LINES[2]);
}

#[test]
fn line_counts_include_the_phantom_line() {
    let source = Source::from_contents("", "a\nb\n".to_owned()).unwrap();
    assert_eq!(source.line_count(), 3);
    let source = Source::from_contents("", "a\nb".to_owned()).unwrap();
    assert_eq!(source.line_count(), 2);
    let source = Source::from_contents("", String::new()).unwrap();
    assert_eq!(source.line_count(), 1);
}
