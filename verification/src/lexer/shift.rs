//! Lexing reads only what lies ahead of it.
//!
//! Lexing a text from some position depends on nothing before that position:
//! put anything in front of the text and lexing from the same place yields
//! the same items, their spans moved past what was put in front.  A leading
//! byte order mark is the case that matters, since lexing steps over exactly
//! one.
use vstd::prelude::*;
use crate::lexer::{
    LexError, Token, content_start, lemma_lex_one_bounded, lemma_runs_bounded,
    lemma_skip_trivia_bounded, lex_from, lex_items, lex_one, line_run, scan_scalar_spec, skip_trivia,
    span_of, sym_run, ws_run,
};
use crate::source::{Span, SyntaxOrigin, byte_at, byte_len, char_width};

verus! {

/// `sp` moved `n` bytes further on.
pub open spec fn shift_span(sp: Span, n: nat) -> Span {
    Span { start: (sp.start + n) as u32, end: (sp.end + n) as u32 }
}

/// A lexed item whose span is moved `n` bytes further on.
pub open spec fn shift_item(item: Result<Token, LexError>, n: nat) -> Result<Token, LexError> {
    match item {
        Ok(t) => Ok(Token { kind: t.kind, span: shift_span(t.span, n) }),
        Err(e) => Err(
            LexError {
                origin: SyntaxOrigin { source: e.origin.source, span: shift_span(e.origin.span, n) },
                kind: e.kind,
            },
        ),
    }
}

/// Lexed items whose spans are all moved `n` bytes further on.
pub open spec fn shift_items(items: Seq<Result<Token, LexError>>, n: nat) -> Seq<Result<Token, LexError>> {
    Seq::new(items.len(), |k: int| shift_item(items[k], n))
}

/// Runs are read from where they start on.
proof fn lemma_runs_shift(p: Seq<char>, t: Seq<char>, i: int)
    requires
        0 <= i <= t.len(),
    ensures
        sym_run(p + t, p.len() + i) == sym_run(t, i),
        ws_run(p + t, p.len() + i) == ws_run(t, i),
        line_run(p + t, p.len() + i) == line_run(t, i),
    decreases t.len() - i,
{
    if i < t.len() {
        assert((p + t)[p.len() + i] == t[i]);
        lemma_runs_shift(p, t, i + 1);
    }
}

/// Trivia is skipped alike from the same place.
proof fn lemma_skip_shift(p: Seq<char>, t: Seq<char>, i: int)
    requires
        0 <= i <= t.len(),
    ensures
        skip_trivia(p + t, p.len() + i) == p.len() + skip_trivia(t, i),
    decreases t.len() - i,
{
    lemma_runs_shift(p, t, i);
    lemma_runs_bounded(t, i);
    let j = i + ws_run(t, i);
    if j < t.len() && t[j] == ';' {
        assert((p + t)[p.len() + j] == t[j]);
        lemma_runs_shift(p, t, j + 1);
        lemma_runs_bounded(t, j + 1);
        lemma_skip_shift(p, t, j + 1 + line_run(t, j + 1));
    } else if j < t.len() {
        assert((p + t)[p.len() + j] == t[j]);
    }
}

/// Byte offsets past the prefix are offsets in the text, moved past the
/// prefix's bytes.
proof fn lemma_byte_at_shift(p: Seq<char>, t: Seq<char>, i: int)
    requires
        0 <= i <= t.len(),
    ensures
        byte_at(p + t, p.len() + i) == byte_len(p) + byte_at(t, i),
{
    assert((p + t).take(p.len() + i) =~= p + t.take(i));
    crate::source::lemma_encode_concat(p, t.take(i));
}

/// A span between two characters of the text is its span in the whole,
/// moved past the prefix's bytes.
proof fn lemma_span_shift(p: Seq<char>, t: Seq<char>, a: int, b: int)
    requires
        0 <= a <= b <= t.len(),
        byte_len(p + t) <= u32::MAX,
    ensures
        span_of(p + t, p.len() + a, p.len() + b) == shift_span(span_of(t, a, b), byte_len(p)),
{
    let m = p + t;
    lemma_byte_at_shift(p, t, a);
    lemma_byte_at_shift(p, t, b);
    crate::source::lemma_byte_at_mono(m, p.len() + a, p.len() + b);
    crate::source::lemma_byte_at_mono(m, p.len() + b, m.len() as int);
    crate::source::lemma_byte_at_ends(m);
    let sa = byte_at(t, a);
    let sb = byte_at(t, b);
    assert(sa + byte_len(p) <= u32::MAX);
    assert(sb + byte_len(p) <= u32::MAX);
    assert((sa as u32) as nat == sa);
    assert((sb as u32) as nat == sb);
    assert(span_of(t, a, b).start == sa);
    assert(span_of(t, a, b).end == sb);
}

/// One item is lexed alike from the same place.
proof fn lemma_lex_one_shift(sid: crate::source::SourceId, p: Seq<char>, t: Seq<char>, i: int)
    requires
        0 <= i < t.len(),
        byte_len(p + t) <= u32::MAX,
    ensures
        lex_one(sid, p + t, p.len() + i).0 == shift_item(lex_one(sid, t, i).0, byte_len(p)),
        lex_one(sid, p + t, p.len() + i).1 == p.len() + lex_one(sid, t, i).1,
{
    let m = p + t;
    let q = p.len() + i;
    assert(m[q] == t[i]);
    lemma_runs_shift(p, t, i);
    lemma_runs_shift(p, t, i + 1);
    lemma_runs_bounded(t, i);
    lemma_runs_bounded(t, i + 1);
    let len = sym_run(t, i);
    assert(m.subrange(q, q + len) =~= t.subrange(i, i + len));
    assert(scan_scalar_spec(m, q) == scan_scalar_spec(t, i));
    let after = sym_run(t, i + 1);
    assert(m.subrange(q + 1, q + 1 + after) =~= t.subrange(i + 1, i + 1 + after));
    assert(scan_scalar_spec(m, q + 1) == scan_scalar_spec(t, i + 1));
    lemma_span_shift(p, t, i, i + 1);
    lemma_span_shift(p, t, i, i + len);
    lemma_span_shift(p, t, i, i + 1 + after);
}

/// Lexing from the same place yields the same items, moved past the
/// prefix's bytes.
proof fn lemma_lex_from_shift(sid: crate::source::SourceId, p: Seq<char>, t: Seq<char>, i: int)
    requires
        0 <= i <= t.len(),
        byte_len(p + t) <= u32::MAX,
    ensures
        lex_from(sid, p + t, p.len() + i) == shift_items(lex_from(sid, t, i), byte_len(p)),
    decreases t.len() - i,
{
    let m = p + t;
    lemma_skip_shift(p, t, i);
    lemma_skip_trivia_bounded(t, i);
    let j = skip_trivia(t, i);
    if j >= t.len() {
        assert(shift_items(lex_from(sid, t, i), byte_len(p)) =~= Seq::<Result<Token, LexError>>::empty());
    } else {
        lemma_lex_one_bounded(sid, t, j);
        lemma_lex_one_shift(sid, p, t, j);
        let next = lex_one(sid, t, j).1;
        lemma_lex_from_shift(sid, p, t, next);
        let rest = lex_from(sid, t, next);
        assert(lex_from(sid, t, i) == seq![lex_one(sid, t, j).0] + rest);
        assert(lex_from(sid, m, p.len() + i) == seq![lex_one(sid, m, p.len() + j).0] + lex_from(
            sid,
            m,
            p.len() + next,
        ));
        assert(shift_items(lex_from(sid, t, i), byte_len(p)) =~= seq![
            shift_item(lex_one(sid, t, j).0, byte_len(p)),
        ] + shift_items(rest, byte_len(p)));
    }
}

/// Lexing from a position reads only what lies ahead of it: whatever text is
/// put in front, lexing from the same place yields the same items, their
/// spans moved past the bytes put in front.
pub proof fn lemma_lexing_reads_ahead(sid: crate::source::SourceId, p: Seq<char>, t: Seq<char>, i: int)
    requires
        0 <= i <= t.len(),
        byte_len(p + t) <= u32::MAX,
    ensures
        lex_from(sid, p + t, p.len() + i) == shift_items(lex_from(sid, t, i), byte_len(p)),
{
    lemma_lex_from_shift(sid, p, t, i);
}

/// A leading byte order mark is invisible to lexing: a marked text yields
/// exactly the items of its unmarked twin, their spans moved past the mark's
/// three bytes.  Only one mark is stepped over, so this holds of texts that
/// do not themselves start with a mark.
pub proof fn lemma_byte_order_mark_invisible(sid: crate::source::SourceId, t: Seq<char>)
    requires
        t.len() == 0 || t[0] != '\u{feff}',
        byte_len(t) + 3 <= u32::MAX,
    ensures
        lex_items(sid, seq!['\u{feff}'] + t) == shift_items(lex_items(sid, t), 3),
{
    let p = seq!['\u{feff}'];
    crate::source::lemma_encode_single('\u{feff}');
    assert(char_width('\u{feff}') == 3);
    crate::source::lemma_encode_concat(p, t);
    assert((p + t)[0] == '\u{feff}');
    assert(content_start(p + t) == 1);
    assert(content_start(t) == 0);
    lemma_lex_from_shift(sid, p, t, 0);
}

} // verus!
