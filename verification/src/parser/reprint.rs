//! Printing round trips.
//!
//! The printer prints the tree, not the text it came from.  What it prints of
//! a parse that reports nothing lexes and parses again without a report, and
//! printing that second parse gives the same text: printing is a fixpoint.
use vstd::prelude::*;
use crate::lexer::{
    LexError, Token, content_start, format_table, is_format_char, is_sym_char, lex_errors, lex_from,
    lex_items, ok_tokens,
};
use crate::parser::{
    HirForm, HirKind, ParseState, Shape, all_printable, collected, form_denotes, forms_denote,
    initial_state, lemma_clean_parse_printable, lemma_lex_printed_seq, lemma_lexed_named,
    lemma_parse_printed_seq, lemma_placed_text_seq, oks, parse_errors, parse_shapes, placed_seq,
    printable, printed, printed_seq, shape_text, shapes_text, shapes_tokens, unclosed_errors,
};
use crate::source::{MAX_SOURCE_LEN, SourceId, SourceTable, byte_len};
use super::reparse::lemma_run_from_initial;

verus! {

/// The text printing the parse of source `sid`, whose text is `text`, gives.
pub open spec fn reprinted(sid: SourceId, text: Seq<char>) -> Seq<char> {
    shapes_text(text, parse_shapes(sid, text, ok_tokens(lex_items(sid, text))))
}

/// The byte order mark is a format character.
proof fn lemma_mark_is_format()
    ensures
        is_format_char('\u{feff}'),
{
    assert(format_table()[12].0 <= '\u{feff}' <= format_table()[12].1);
}

/// Printed text starts with an opener, a quote, a sigil or symbol material.
proof fn lemma_printed_start(text: Seq<char>, s: Shape, datum: bool)
    requires
        printable(text, s, datum),
    ensures
        shape_text(text, s).len() > 0,
        shape_text(text, s)[0] != '\u{feff}',
{
    lemma_mark_is_format();
    match s {
        Shape::Int(m, _) => {
            crate::chars::lemma_decimal_nonempty(
                if m < 0 {
                    (-m) as nat
                } else {
                    m as nat
                },
            );
            super::relex::lemma_decimal_digits(
                if m < 0 {
                    (-m) as nat
                } else {
                    m as nat
                },
            );
        },
        Shape::Call(_) => {
            assert(is_sym_char(shape_text(text, s)[0]));
        },
        _ => {},
    }
}

/// Tokens as items are all tokens and no errors.
proof fn lemma_oks_filters(ts: Seq<Token>)
    ensures
        ok_tokens(oks(ts)) == ts,
        lex_errors(oks(ts)) == Seq::<LexError>::empty(),
    decreases ts.len(),
{
    if ts.len() > 0 {
        assert(oks(ts).drop_last() =~= oks(ts.drop_last()));
        lemma_oks_filters(ts.drop_last());
        assert(ts.drop_last().push(ts.last()) =~= ts);
    } else {
        assert(oks(ts) =~= Seq::<Result<Token, LexError>>::empty());
    }
}

/// Printing is a fixpoint.  Text whose tokens parse without a report prints
/// into text that lexes and parses without a report, under any source id,
/// and printing that second parse gives the same text again.
pub proof fn lemma_printing_is_a_fixpoint(sid: SourceId, text: Seq<char>, again: SourceId)
    requires
        byte_len(text) <= MAX_SOURCE_LEN,
        parse_errors(sid, text, ok_tokens(lex_items(sid, text))).len() == 0,
        byte_len(reprinted(sid, text)) <= MAX_SOURCE_LEN,
    ensures
        lex_errors(lex_items(again, reprinted(sid, text))).len() == 0,
        parse_errors(again, reprinted(sid, text), ok_tokens(lex_items(again, reprinted(sid, text)))).len()
            == 0,
        reprinted(again, reprinted(sid, text)) == reprinted(sid, text),
{
    let tokens = ok_tokens(lex_items(sid, text));
    let ss = parse_shapes(sid, text, tokens);
    let p = shapes_text(text, ss);
    lemma_lexed_named(sid, text);
    lemma_clean_parse_printable(sid, text, tokens);
    // The printed text is lexed from its start, where no mark stands.
    if p.len() > 0 {
        assert(printable(text, ss[0], false));
        lemma_printed_start(text, ss[0], false);
        assert(p[0] == shape_text(text, ss[0])[0]);
    }
    assert(content_start(p) == 0);
    assert(p.subrange(0, p.len() as int) =~= p);
    lemma_lex_printed_seq(again, text, p, 0, ss, false);
    let ts = shapes_tokens(text, p, 0, ss);
    assert(lex_from(again, p, p.len() as int) =~= Seq::<Result<Token, LexError>>::empty());
    assert(lex_items(again, p) =~= oks(ts));
    lemma_oks_filters(ts);
    // Those tokens parse into the printed shapes, with nothing open.
    lemma_run_from_initial(again, p, ts);
    lemma_parse_printed_seq(again, text, p, 0, ss, initial_state());
    let ps = placed_seq(text, p, 0, ss);
    assert(Seq::<Shape>::empty() + ps =~= ps);
    assert(unclosed_errors(again, Seq::empty()) =~= Seq::empty());
    // And print as before.
    lemma_placed_text_seq(text, p, 0, ss);
}

/* Printing forms */

/// A form prints as the shape it denotes.
pub proof fn lemma_printed_denoted(
    table: SourceTable,
    names: Seq<Seq<char>>,
    sid: SourceId,
    f: HirForm,
    s: Shape,
)
    requires
        form_denotes(table, names, sid, f, s),
    ensures
        printed(names, f) == shape_text(table.text(sid), s),
    decreases f,
{
    match f.kind {
        HirKind::Quote(b) => {
            if let Shape::Quote(inner, _) = s {
                lemma_printed_denoted(table, names, sid, *b, *inner);
            }
        },
        HirKind::List(v) => {
            if let Shape::List(items, _) = s {
                lemma_printed_denoted_seq(table, names, sid, v@, items);
            }
        },
        HirKind::Vector(v) => {
            if let Shape::Vector(items, _) = s {
                lemma_printed_denoted_seq(table, names, sid, v@, items);
            }
        },
        _ => {},
    }
}

/// Forms print as the shapes they denote.  What [`print_forms`] prints of
/// the forms a parse yields is the printed parse.
///
/// [`print_forms`]: crate::parser::print_forms
pub proof fn lemma_printed_denoted_seq(
    table: SourceTable,
    names: Seq<Seq<char>>,
    sid: SourceId,
    fs: Seq<HirForm>,
    ss: Seq<Shape>,
)
    requires
        forms_denote(table, names, sid, fs, ss),
    ensures
        printed_seq(names, fs) == shapes_text(table.text(sid), ss),
    decreases fs,
{
    if fs.len() > 0 {
        assert(form_denotes(table, names, sid, fs[0], ss[0]));
        lemma_printed_denoted(table, names, sid, fs[0], ss[0]);
        if fs.len() > 1 {
            let fr = fs.subrange(1, fs.len() as int);
            let sr = ss.subrange(1, ss.len() as int);
            assert forall|k: int| 0 <= k < fr.len() implies form_denotes(
                table,
                names,
                sid,
                #[trigger] fr[k],
                sr[k],
            ) by {
                assert(fr[k] == fs[k + 1]);
                assert(sr[k] == ss[k + 1]);
            }
            lemma_printed_denoted_seq(table, names, sid, fr, sr);
        }
    }
}

/// Printing the forms of a clean parse twice changes nothing.  `tokenise`
/// gives the tokens `ok_tokens(lex_items(..))`, `parse` gives forms that
/// denote `parse_shapes(..)` of them, and `print_forms` prints
/// `printed_seq(..)` of the forms: so when a text lexes and parses cleanly
/// into forms `fs` named by `names`, their printed text is the printed
/// parse, lexes and parses cleanly again under any source id, and the forms
/// `fs2` that second parse yields, named by `names2`, print the same text.
pub proof fn lemma_printing_twice_changes_nothing(
    table: SourceTable,
    names: Seq<Seq<char>>,
    sid: SourceId,
    fs: Seq<HirForm>,
    table2: SourceTable,
    names2: Seq<Seq<char>>,
    again: SourceId,
    fs2: Seq<HirForm>,
)
    requires
        byte_len(table.text(sid)) <= MAX_SOURCE_LEN,
        parse_errors(sid, table.text(sid), ok_tokens(lex_items(sid, table.text(sid)))).len() == 0,
        forms_denote(
            table,
            names,
            sid,
            fs,
            parse_shapes(sid, table.text(sid), ok_tokens(lex_items(sid, table.text(sid)))),
        ),
        byte_len(printed_seq(names, fs)) <= MAX_SOURCE_LEN,
        table2.text(again) == printed_seq(names, fs),
        forms_denote(
            table2,
            names2,
            again,
            fs2,
            parse_shapes(again, table2.text(again), ok_tokens(lex_items(again, table2.text(again)))),
        ),
    ensures
        printed_seq(names, fs) == reprinted(sid, table.text(sid)),
        lex_errors(lex_items(again, printed_seq(names, fs))).len() == 0,
        parse_errors(again, printed_seq(names, fs), ok_tokens(lex_items(again, printed_seq(names, fs)))).len()
            == 0,
        printed_seq(names2, fs2) == printed_seq(names, fs),
{
    lemma_printed_denoted_seq(
        table,
        names,
        sid,
        fs,
        parse_shapes(sid, table.text(sid), ok_tokens(lex_items(sid, table.text(sid)))),
    );
    lemma_printing_is_a_fixpoint(sid, table.text(sid), again);
    lemma_printed_denoted_seq(
        table2,
        names2,
        again,
        fs2,
        parse_shapes(again, table2.text(again), ok_tokens(lex_items(again, table2.text(again)))),
    );
}

} // verus!
