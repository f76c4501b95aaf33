//! Line endings do not matter to lexing.
//!
//! A carriage return is trivia in its own right and never part of a token,
//! so a text whose lines end in CRLF lexes exactly as its LF twin does: the
//! same tokens and errors, covering the same text.
use vstd::prelude::*;
use crate::lexer::{
    LexError, LexErrorKind, Token, TokenKind, content_start, is_sym_char, is_whitespace_char,
    lemma_lex_one_bounded, lemma_runs_bounded, lemma_skip_trivia_bounded, lex_from, lex_items,
    lex_one, line_run, scan_scalar_spec, skip_trivia, span_of, sym_run, ws_run,
};
use crate::parser::span_chars;
use crate::source::{SourceId, byte_at, byte_len, count_newlines};

verus! {

/// `t` with a carriage return put before every line feed.
pub open spec fn crlf(t: Seq<char>) -> Seq<char>
    decreases t.len(),
{
    if t.len() == 0 {
        seq![]
    } else {
        crlf(t.drop_last()) + if t.last() == '\n' {
            seq!['\r', '\n']
        } else {
            seq![t.last()]
        }
    }
}

/// Where character `i` of `t` lies in `crlf(t)`.
pub open spec fn crlf_index(t: Seq<char>, i: int) -> int {
    i + count_newlines(t, i)
}

/// Counting line feeds before `i` reads only the characters before `i`.
proof fn lemma_newlines_prefix(t: Seq<char>, u: Seq<char>, i: int)
    requires
        0 <= i <= t.len(),
        i <= u.len(),
        t.take(i) == u.take(i),
    ensures
        count_newlines(t, i) == count_newlines(u, i),
    decreases i,
{
    if i > 0 {
        assert(t.take(i - 1) =~= t.take(i).take(i - 1));
        assert(u.take(i - 1) =~= u.take(i).take(i - 1));
        assert(t[i - 1] == t.take(i)[i - 1]);
        assert(u[i - 1] == u.take(i)[i - 1]);
        lemma_newlines_prefix(t, u, i - 1);
    }
}

/// The CRLF form of a text starts with the CRLF form of each of its
/// prefixes, which ends where the prefix's last character did.
proof fn lemma_crlf_prefix(t: Seq<char>, i: int)
    requires
        0 <= i <= t.len(),
    ensures
        crlf(t.take(i)).len() == crlf_index(t, i),
        crlf_index(t, i) <= crlf(t).len(),
        crlf(t).take(crlf_index(t, i)) == crlf(t.take(i)),
    decreases t.len(),
{
    if i == t.len() {
        assert(t.take(i) =~= t);
        lemma_crlf_len(t);
        assert(crlf(t).take(crlf(t).len() as int) =~= crlf(t));
    } else {
        let init = t.drop_last();
        lemma_crlf_prefix(init, i);
        assert(init.take(i) =~= t.take(i));
        lemma_newlines_prefix(t, init, i);
        assert(crlf(t) == crlf(init) + if t.last() == '\n' {
            seq!['\r', '\n']
        } else {
            seq![t.last()]
        });
        assert(crlf(t).take(crlf_index(t, i)) =~= crlf(init).take(crlf_index(init, i)));
    }
}

/// The CRLF form of a text is one longer per line feed.
proof fn lemma_crlf_len(t: Seq<char>)
    ensures
        crlf(t).len() == crlf_index(t, t.len() as int),
    decreases t.len(),
{
    if t.len() > 0 {
        let init = t.drop_last();
        lemma_crlf_len(init);
        assert(t.take(init.len() as int) =~= init.take(init.len() as int));
        lemma_newlines_prefix(t, init, init.len() as int);
    }
}

/// Each character sits at its place in the CRLF form; a line feed sits
/// there as a carriage return followed by itself.
pub proof fn lemma_crlf_at(t: Seq<char>, i: int)
    requires
        0 <= i < t.len(),
    ensures
        crlf_index(t, i + 1) == crlf_index(t, i) + if t[i] == '\n' {
            2int
        } else {
            1int
        },
        crlf_index(t, i + 1) <= crlf(t).len(),
        t[i] != '\n' ==> crlf(t)[crlf_index(t, i)] == t[i],
        t[i] == '\n' ==> crlf(t)[crlf_index(t, i)] == '\r' && crlf(t)[crlf_index(t, i) + 1] == '\n',
{
    lemma_crlf_prefix(t, i + 1);
    let pre = t.take(i + 1);
    assert(pre.drop_last() =~= t.take(i));
    assert(pre.last() == t[i]);
    lemma_crlf_prefix(t, i);
    let c = crlf_index(t, i);
    assert(crlf(pre) == crlf(t.take(i)) + if t[i] == '\n' {
        seq!['\r', '\n']
    } else {
        seq![t[i]]
    });
    assert(crlf(t)[c] == crlf(t).take(crlf_index(t, i + 1))[c]);
    if t[i] == '\n' {
        assert(crlf(t)[c + 1] == crlf(t).take(crlf_index(t, i + 1))[c + 1]);
    }
}

/// A run of characters holding no line feed sits unchanged in the CRLF form.
proof fn lemma_crlf_plain(t: Seq<char>, x: int, y: int)
    requires
        0 <= x <= y <= t.len(),
        forall|k: int| x <= k < y ==> t[k] != '\n',
    ensures
        crlf_index(t, y) == crlf_index(t, x) + (y - x),
        crlf_index(t, y) <= crlf(t).len(),
        crlf(t).subrange(crlf_index(t, x), crlf_index(t, y)) == t.subrange(x, y),
    decreases y - x,
{
    if x < y {
        lemma_crlf_plain(t, x, y - 1);
        lemma_crlf_at(t, y - 1);
        assert(crlf(t).subrange(crlf_index(t, x), crlf_index(t, y)) =~= crlf(t).subrange(
            crlf_index(t, x),
            crlf_index(t, y - 1),
        ).push(crlf(t)[crlf_index(t, y - 1)]));
        assert(t.subrange(x, y) =~= t.subrange(x, y - 1).push(t[y - 1]));
    } else {
        lemma_crlf_len(t);
        if x < t.len() {
            lemma_crlf_at(t, x);
        }
    }
}

/// Places only move on.
proof fn lemma_crlf_index_mono(t: Seq<char>, x: int, y: int)
    requires
        0 <= x <= y <= t.len(),
    ensures
        crlf_index(t, x) + (y - x) <= crlf_index(t, y),
        x < y ==> crlf_index(t, x) < crlf_index(t, y),
    decreases y - x,
{
    if x < y {
        lemma_crlf_index_mono(t, x, y - 1);
        lemma_crlf_at(t, y - 1);
    }
}

/// Whether position `p` of `crlf(t)` stands for position `i` of `t`: it is
/// where `i` lies, or, for a line feed, just past the carriage return put
/// before it.
pub open spec fn stands_for(t: Seq<char>, i: int, p: int) -> bool {
    p == crlf_index(t, i) || (0 <= i < t.len() && t[i] == '\n' && p == crlf_index(t, i) + 1)
}

/// A whitespace run covers the same characters, carriage returns added.
proof fn lemma_ws_crlf(t: Seq<char>, i: int, p: int)
    requires
        0 <= i <= t.len(),
        stands_for(t, i, p),
    ensures
        p + ws_run(crlf(t), p) == crlf_index(t, i + ws_run(t, i)),
    decreases t.len() - i,
{
    let u = crlf(t);
    lemma_crlf_len(t);
    if i < t.len() {
        lemma_crlf_at(t, i);
        if is_whitespace_char(t[i]) {
            lemma_ws_crlf(t, i + 1, crlf_index(t, i + 1));
            if t[i] == '\n' {
                assert(ws_run(u, crlf_index(t, i) + 1) == 1 + ws_run(u, crlf_index(t, i) + 2));
            }
        }
    }
}

/// A symbol run is the same run in the CRLF form.
proof fn lemma_sym_crlf(t: Seq<char>, i: int)
    requires
        0 <= i <= t.len(),
    ensures
        sym_run(crlf(t), crlf_index(t, i)) == sym_run(t, i),
        i + sym_run(t, i) <= t.len(),
        forall|k: int| i <= k < i + sym_run(t, i) ==> t[k] != '\n',
    decreases t.len() - i,
{
    lemma_crlf_len(t);
    if i < t.len() {
        lemma_crlf_at(t, i);
        lemma_sym_crlf(t, i + 1);
    }
}

/// A comment runs to the line feed, taking the carriage return before it.
proof fn lemma_line_crlf(t: Seq<char>, i: int)
    requires
        0 <= i <= t.len(),
    ensures
        i + line_run(t, i) <= t.len(),
        stands_for(t, i + line_run(t, i), crlf_index(t, i) + line_run(crlf(t), crlf_index(t, i))),
    decreases t.len() - i,
{
    let u = crlf(t);
    lemma_crlf_len(t);
    if i < t.len() {
        lemma_crlf_at(t, i);
        if t[i] != '\n' {
            lemma_line_crlf(t, i + 1);
        } else {
            assert(line_run(u, crlf_index(t, i) + 1) == 0);
        }
    }
}

/// Where skipping trivia stops, no trivia starts.
proof fn lemma_skip_end(t: Seq<char>, i: int)
    requires
        0 <= i <= t.len(),
    ensures
        skip_trivia(t, i) < t.len() ==> !is_whitespace_char(t[skip_trivia(t, i)]) && t[skip_trivia(
            t,
            i,
        )] != ';',
    decreases t.len() - i,
{
    lemma_ws_end(t, i);
    lemma_runs_bounded(t, i);
    let j = i + ws_run(t, i);
    if j < t.len() && t[j] == ';' {
        lemma_runs_bounded(t, j + 1);
        lemma_skip_end(t, j + 1 + line_run(t, j + 1));
    }
}

/// A whitespace run stops at the first character that is not whitespace.
proof fn lemma_ws_end(t: Seq<char>, i: int)
    requires
        0 <= i <= t.len(),
    ensures
        i + ws_run(t, i) < t.len() ==> !is_whitespace_char(t[i + ws_run(t, i)]),
    decreases t.len() - i,
{
    if i < t.len() && is_whitespace_char(t[i]) {
        lemma_ws_end(t, i + 1);
    }
}

/// Skipping trivia stops at the same place, carriage returns added.
proof fn lemma_skip_crlf(t: Seq<char>, i: int, p: int)
    requires
        0 <= i <= t.len(),
        stands_for(t, i, p),
    ensures
        skip_trivia(crlf(t), p) == crlf_index(t, skip_trivia(t, i)),
    decreases t.len() - i,
{
    let u = crlf(t);
    lemma_crlf_len(t);
    lemma_ws_crlf(t, i, p);
    lemma_ws_end(t, i);
    lemma_runs_bounded(t, i);
    lemma_crlf_index_mono(t, i, t.len() as int);
    assert(p <= u.len()) by {
        if p == crlf_index(t, i) + 1 {
            lemma_crlf_at(t, i);
        }
    }
    let j = i + ws_run(t, i);
    lemma_crlf_index_mono(t, j, t.len() as int);
    if j < t.len() {
        lemma_crlf_at(t, j);
        if t[j] == ';' {
            lemma_runs_bounded(t, j + 1);
            lemma_line_crlf(t, j + 1);
            lemma_skip_crlf(t, j + 1 + line_run(t, j + 1), crlf_index(t, j + 1) + line_run(u, crlf_index(t, j + 1)));
        }
    }
}

/// What a lexed item shows of a text: its token's kind or its error's kind,
/// with the text its span covers.
pub enum ItemView {
    /// A token of a kind, covering some text.
    Token(TokenKind, Seq<char>),
    /// An error of a kind, at some text.
    Error(LexErrorKind, Seq<char>),
}

/// What item `item`, lexed from `text`, shows of it.
pub open spec fn item_view(text: Seq<char>, item: Result<Token, LexError>) -> ItemView {
    match item {
        Ok(t) => ItemView::Token(t.kind, span_chars(text, t.span)),
        Err(e) => ItemView::Error(e.kind, span_chars(text, e.origin.span)),
    }
}

/// What each item of `items`, lexed from `text`, shows of it.
pub open spec fn item_views(text: Seq<char>, items: Seq<Result<Token, LexError>>) -> Seq<ItemView> {
    Seq::new(items.len(), |k: int| item_view(text, items[k]))
}

/// The text a span between two characters covers is the text between them.
proof fn lemma_span_chars_of(text: Seq<char>, x: int, y: int)
    requires
        0 <= x <= y <= text.len(),
        byte_len(text) <= u32::MAX,
    ensures
        span_chars(text, span_of(text, x, y)) == text.subrange(x, y),
{
    crate::source::lemma_byte_at_mono(text, x, y);
    crate::source::lemma_byte_at_mono(text, y, text.len() as int);
    crate::source::lemma_byte_at_ends(text);
    crate::source::lemma_char_index_of(text, x);
    crate::source::lemma_char_index_of(text, y);
}

/// Spans over the same run of characters show the same text.
proof fn lemma_plain_view(t: Seq<char>, x: int, y: int)
    requires
        0 <= x <= y <= t.len(),
        forall|k: int| x <= k < y ==> t[k] != '\n',
        byte_len(t) <= u32::MAX,
        byte_len(crlf(t)) <= u32::MAX,
    ensures
        span_chars(crlf(t), span_of(crlf(t), crlf_index(t, x), crlf_index(t, y))) == span_chars(
            t,
            span_of(t, x, y),
        ),
        crlf_index(t, y) == crlf_index(t, x) + (y - x),
{
    lemma_crlf_plain(t, x, y);
    lemma_crlf_index_mono(t, 0, x);
    lemma_span_chars_of(crlf(t), crlf_index(t, x), crlf_index(t, y));
    lemma_span_chars_of(t, x, y);
}

/// One item is lexed alike from the same place.
proof fn lemma_one_crlf(sid: SourceId, t: Seq<char>, i: int)
    requires
        0 <= i < t.len(),
        !is_whitespace_char(t[i]),
        t[i] != ';',
        byte_len(t) <= u32::MAX,
        byte_len(crlf(t)) <= u32::MAX,
    ensures
        item_view(crlf(t), lex_one(sid, crlf(t), crlf_index(t, i)).0) == item_view(
            t,
            lex_one(sid, t, i).0,
        ),
        lex_one(sid, crlf(t), crlf_index(t, i)).1 == crlf_index(t, lex_one(sid, t, i).1),
{
    let u = crlf(t);
    let q = crlf_index(t, i);
    lemma_crlf_at(t, i);
    assert(u[q] == t[i]);
    lemma_runs_bounded(t, i);
    lemma_runs_bounded(t, i + 1);
    lemma_sym_crlf(t, i);
    lemma_sym_crlf(t, i + 1);
    let len = sym_run(t, i);
    let after = sym_run(t, i + 1);
    lemma_plain_view(t, i, i + 1);
    lemma_plain_view(t, i, i + len);
    lemma_plain_view(t, i + 1, i + 1 + after);
    assert forall|k: int| i <= k < i + 1 + after implies t[k] != '\n' by {
        if k > i {
            assert(i + 1 <= k < i + 1 + after);
        }
    }
    lemma_plain_view(t, i, i + 1 + after);
    lemma_crlf_plain(t, i, i + len);
    lemma_crlf_plain(t, i + 1, i + 1 + after);
    assert(u.subrange(q, q + len) == t.subrange(i, i + len));
    assert(scan_scalar_spec(u, q) == scan_scalar_spec(t, i));
    assert(u.subrange(q + 1, q + 1 + after) == t.subrange(i + 1, i + 1 + after));
    assert(scan_scalar_spec(u, q + 1) == scan_scalar_spec(t, i + 1));
}

/// Views of one item followed by others.
proof fn lemma_views_cons(text: Seq<char>, a: Result<Token, LexError>, rest: Seq<Result<Token, LexError>>)
    ensures
        item_views(text, seq![a] + rest) == seq![item_view(text, a)] + item_views(text, rest),
{
    assert(item_views(text, seq![a] + rest) =~= seq![item_view(text, a)] + item_views(text, rest));
}

/// Lexing from the same place yields items showing the same.
proof fn lemma_from_crlf(sid: SourceId, t: Seq<char>, i: int, p: int)
    requires
        0 <= i <= t.len(),
        stands_for(t, i, p),
        byte_len(t) <= u32::MAX,
        byte_len(crlf(t)) <= u32::MAX,
    ensures
        item_views(crlf(t), lex_from(sid, crlf(t), p)) == item_views(t, lex_from(sid, t, i)),
    decreases t.len() - i,
{
    let u = crlf(t);
    lemma_crlf_len(t);
    lemma_crlf_index_mono(t, i, t.len() as int);
    assert(0 <= p <= u.len()) by {
        lemma_crlf_index_mono(t, 0, i);
        if p == crlf_index(t, i) + 1 {
            lemma_crlf_at(t, i);
        }
    }
    lemma_skip_crlf(t, i, p);
    lemma_skip_trivia_bounded(t, i);
    lemma_skip_end(t, i);
    let j = skip_trivia(t, i);
    lemma_crlf_index_mono(t, j, t.len() as int);
    if j >= t.len() {
        assert(item_views(u, lex_from(sid, u, p)) =~= Seq::<ItemView>::empty());
        assert(item_views(t, lex_from(sid, t, i)) =~= Seq::<ItemView>::empty());
    } else {
        lemma_lex_one_bounded(sid, t, j);
        lemma_one_crlf(sid, t, j);
        let next = lex_one(sid, t, j).1;
        lemma_from_crlf(sid, t, next, crlf_index(t, next));
        lemma_views_cons(u, lex_one(sid, u, crlf_index(t, j)).0, lex_from(sid, u, crlf_index(t, next)));
        lemma_views_cons(t, lex_one(sid, t, j).0, lex_from(sid, t, next));
    }
}

/// A text whose lines end in CRLF lexes exactly as its LF twin does: the
/// same tokens and errors, of the same kinds, covering the same text.
pub proof fn lemma_crlf_lexes_alike(sid: SourceId, t: Seq<char>)
    requires
        byte_len(t) <= u32::MAX,
        byte_len(crlf(t)) <= u32::MAX,
    ensures
        item_views(crlf(t), lex_items(sid, crlf(t))) == item_views(t, lex_items(sid, t)),
{
    let u = crlf(t);
    lemma_crlf_len(t);
    if t.len() > 0 {
        lemma_crlf_at(t, 0);
        assert(crlf_index(t, 0) == 0);
        if t[0] == '\u{feff}' {
            assert(content_start(u) == 1);
            assert(crlf_index(t, 1) == 1);
        } else {
            assert(content_start(u) == 0);
        }
        lemma_from_crlf(sid, t, content_start(t), crlf_index(t, content_start(t)));
    } else {
        assert(u =~= Seq::<char>::empty());
    }
}

} // verus!
