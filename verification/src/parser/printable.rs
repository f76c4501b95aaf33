//! What a clean parse denotes, and how it prints.
//!
//! Printing a parse reads each name from the text under its span and each
//! literal from its value, and puts forms beside each other with single
//! spaces ([`shapes_text`]).  A parse that reports nothing only ever holds
//! shapes that can print back into text that reads the same
//! ([`printable`]): every name is symbol material that does not read as an
//! integer, no binding stands in datum position and no quote directly wraps
//! another.
use vstd::prelude::*;
use crate::chars::int_text;
use crate::lexer::{
    LexError, Token, TokenKind, content_start, is_integer_text, is_sym_char, lemma_lex_one_bounded,
    lemma_runs_bounded, lemma_skip_trivia_bounded, lex_from, lex_items, lex_one, ok_tokens,
    scan_scalar_spec, skip_trivia, span_of, sym_run,
};
use crate::source::{
    MAX_SOURCE_LEN, SourceId, byte_at, byte_len, char_width, lemma_byte_at_ends, lemma_byte_at_mono,
    lemma_byte_at_step, lemma_char_index_of,
};
use crate::parser::{
    FrameShape, ParseErrorKind, ParseState, PendingFrame, Shape, after_sigil, close, deposit,
    i64_literal, is_closer_kind, join_spans, parse_error_at, parse_errors, parse_shapes, run,
    shape_span, span_chars, step, top_is_datum, with_error,
};
use super::machine::{lemma_close_count, lemma_deposit_count, lemma_step_count};

verus! {

/// Whether `s` can stand as a name: symbol material that does not read as
/// an integer.
pub open spec fn is_name(s: Seq<char>) -> bool {
    &&& s.len() > 0
    &&& forall|k: int| 0 <= k < s.len() ==> is_sym_char(#[trigger] s[k])
    &&& !is_integer_text(s)
}

/// The surface syntax of shape `s` of `text`: names read from the text
/// under their spans, literals from their values.
pub open spec fn shape_text(text: Seq<char>, s: Shape) -> Seq<char>
    decreases s,
{
    match s {
        Shape::Int(n, _) => int_text(n as int),
        Shape::Call(sp) => span_chars(text, sp),
        Shape::Bind(sp) => seq!['$'] + span_chars(text, after_sigil(sp)),
        Shape::Load(sp) => seq!['^'] + span_chars(text, after_sigil(sp)),
        Shape::Quote(inner, _) => seq!['\''] + shape_text(text, *inner),
        Shape::List(items, _) => seq!['('] + shapes_text(text, items) + seq![')'],
        Shape::Vector(items, _) => seq!['['] + shapes_text(text, items) + seq![']'],
    }
}

/// The surface syntax of the shapes `ss` of `text`, separated by single
/// spaces.
pub open spec fn shapes_text(text: Seq<char>, ss: Seq<Shape>) -> Seq<char>
    decreases ss,
{
    if ss.len() == 0 {
        seq![]
    } else if ss.len() == 1 {
        shape_text(text, ss[0])
    } else {
        shape_text(text, ss[0]) + seq![' '] + shapes_text(text, ss.subrange(1, ss.len() as int))
    }
}

/// Whether shape `s` of `text`, yielded where `datum` says whether forms
/// are in datum position, prints back into text that reads the same.
pub open spec fn printable(text: Seq<char>, s: Shape, datum: bool) -> bool
    decreases s,
{
    match s {
        Shape::Int(_, _) => true,
        Shape::Call(sp) => is_name(span_chars(text, sp)),
        Shape::Bind(sp) => !datum && is_name(span_chars(text, after_sigil(sp))),
        Shape::Load(sp) => !datum && is_name(span_chars(text, after_sigil(sp))),
        Shape::Quote(inner, _) => !(*inner is Quote) && printable(text, *inner, true),
        Shape::List(items, _) => forall|k: int|
            0 <= k < items.len() ==> printable(text, #[trigger] items[k], true),
        Shape::Vector(items, _) => forall|k: int|
            0 <= k < items.len() ==> printable(text, #[trigger] items[k], datum),
    }
}

/// [`printable`] for every shape of `ss`.
pub open spec fn all_printable(text: Seq<char>, ss: Seq<Shape>, datum: bool) -> bool {
    forall|k: int| 0 <= k < ss.len() ==> printable(text, #[trigger] ss[k], datum)
}

/* Names the lexer hands on */

/// Whether the name token `t` of `text` carries, if any, can stand as a
/// name.
pub open spec fn token_named(text: Seq<char>, t: Token) -> bool {
    &&& t.kind is Symbol ==> is_name(span_chars(text, t.span))
    &&& (t.kind is Bind || t.kind is Load) ==> is_name(span_chars(text, after_sigil(t.span)))
}

/// [`token_named`] for every token of `ts`.
pub open spec fn tokens_named(text: Seq<char>, ts: Seq<Token>) -> bool {
    forall|k: int| 0 <= k < ts.len() ==> token_named(text, #[trigger] ts[k])
}

/// A run of symbol characters is made of symbol characters.
pub proof fn lemma_sym_run_chars(text: Seq<char>, i: int)
    requires
        0 <= i <= text.len(),
    ensures
        forall|k: int| i <= k < i + sym_run(text, i) ==> is_sym_char(#[trigger] text[k]),
    decreases text.len() - i,
{
    if i < text.len() && is_sym_char(text[i]) {
        lemma_sym_run_chars(text, i + 1);
    }
}

/// The characters a span between two character indices covers are the
/// characters between them.
pub proof fn lemma_span_chars_of(text: Seq<char>, i: int, j: int)
    requires
        0 <= i <= j <= text.len(),
        byte_len(text) <= u32::MAX,
    ensures
        span_chars(text, span_of(text, i, j)) == text.subrange(i, j),
        span_of(text, i, j).start == byte_at(text, i),
        span_of(text, i, j).end == byte_at(text, j),
{
    lemma_byte_at_mono(text, i, j);
    lemma_byte_at_mono(text, j, text.len() as int);
    lemma_byte_at_ends(text);
    lemma_char_index_of(text, i);
    lemma_char_index_of(text, j);
}

/// The name after a one-byte sigil at `i` covers the characters after it.
pub proof fn lemma_after_sigil_chars(text: Seq<char>, i: int, j: int)
    requires
        0 <= i < j <= text.len(),
        char_width(text[i]) == 1,
        byte_len(text) <= u32::MAX,
    ensures
        span_chars(text, after_sigil(span_of(text, i, j))) == text.subrange(i + 1, j),
{
    lemma_span_chars_of(text, i, j);
    lemma_span_chars_of(text, i + 1, j);
    lemma_byte_at_step(text, i);
    assert(after_sigil(span_of(text, i, j)) == span_of(text, i + 1, j));
}

/// The run of symbol characters at `i`, when it is not a literal, is a name.
proof fn lemma_run_is_name(text: Seq<char>, i: int)
    requires
        0 <= i <= text.len(),
        scan_scalar_spec(text, i) matches Some((k, _)) && k is Symbol,
    ensures
        is_name(text.subrange(i, i + sym_run(text, i))),
{
    lemma_runs_bounded(text, i);
    lemma_sym_run_chars(text, i);
    let name = text.subrange(i, i + sym_run(text, i));
    assert forall|k: int| 0 <= k < name.len() implies is_sym_char(#[trigger] name[k]) by {
        assert(name[k] == text[i + k]);
    }
}

/// Every token lexed at `i` that carries a name carries one that can stand
/// as a name.
proof fn lemma_lex_one_named(sid: SourceId, text: Seq<char>, i: int)
    requires
        0 <= i < text.len(),
        byte_len(text) <= MAX_SOURCE_LEN,
    ensures
        lex_one(sid, text, i).0 matches Ok(t) ==> token_named(text, t),
{
    lemma_runs_bounded(text, i);
    lemma_runs_bounded(text, i + 1);
    let c = text[i];
    if c == '$' || c == '^' {
        if scan_scalar_spec(text, i + 1) matches Some((k, _)) && k is Symbol {
            let len: nat = sym_run(text, i + 1);
            lemma_run_is_name(text, i + 1);
            assert(char_width(c) == 1);
            lemma_after_sigil_chars(text, i, i + 1 + len);
        }
    } else if scan_scalar_spec(text, i) matches Some((k, _)) && k is Symbol {
        let len: nat = sym_run(text, i);
        lemma_run_is_name(text, i);
        lemma_span_chars_of(text, i, i + len);
    }
}

/// Every token lexed from `i` on that carries a name carries one that can
/// stand as a name.
proof fn lemma_lex_from_named(sid: SourceId, text: Seq<char>, i: int)
    requires
        byte_len(text) <= MAX_SOURCE_LEN,
    ensures
        forall|k: int|
            0 <= k < lex_from(sid, text, i).len() ==> (#[trigger] lex_from(sid, text, i)[k] matches Ok(
                t,
            ) ==> token_named(text, t)),
    decreases text.len() - i,
{
    if 0 <= i <= text.len() {
        let j = skip_trivia(text, i);
        if j < text.len() {
            lemma_skip_trivia_bounded(text, i);
            lemma_lex_one_bounded(sid, text, j);
            lemma_lex_one_named(sid, text, j);
            let next = lex_one(sid, text, j).1;
            lemma_lex_from_named(sid, text, next);
            let tail = lex_from(sid, text, next);
            let all = lex_from(sid, text, i);
            assert(all == seq![lex_one(sid, text, j).0] + tail);
            assert forall|k: int| 0 <= k < all.len() implies (#[trigger] all[k] matches Ok(t)
                ==> token_named(text, t)) by {
                if k > 0 {
                    assert(all[k] == tail[k - 1]);
                }
            }
        }
    }
}

/// Keeping the tokens of items keeps what holds of each.
proof fn lemma_ok_tokens_named(text: Seq<char>, items: Seq<Result<Token, LexError>>)
    requires
        forall|k: int| 0 <= k < items.len() ==> (#[trigger] items[k] matches Ok(t) ==> token_named(text, t)),
    ensures
        tokens_named(text, ok_tokens(items)),
    decreases items.len(),
{
    if items.len() > 0 {
        let prev = items.drop_last();
        assert forall|k: int| 0 <= k < prev.len() implies (#[trigger] prev[k] matches Ok(t)
            ==> token_named(text, t)) by {
            assert(prev[k] == items[k]);
        }
        lemma_ok_tokens_named(text, prev);
        assert(items[items.len() - 1] matches Ok(t) ==> token_named(text, t));
    }
}

/// Every token the lexer produces that carries a name carries one that can
/// stand as a name.
pub proof fn lemma_lexed_named(sid: SourceId, text: Seq<char>)
    requires
        byte_len(text) <= MAX_SOURCE_LEN,
    ensures
        tokens_named(text, ok_tokens(lex_items(sid, text))),
{
    lemma_lex_from_named(sid, text, content_start(text));
    lemma_ok_tokens_named(text, lex_items(sid, text));
}

/* A clean parse holds only printable shapes */

/// Whether everything frame `f` has collected is printable where it stands.
pub open spec fn frame_printable(text: Seq<char>, f: PendingFrame) -> bool {
    match f.kind {
        FrameShape::Vector(cs) => all_printable(text, cs, f.is_datum),
        FrameShape::List(cs) => all_printable(text, cs, f.is_datum),
        FrameShape::Quote => true,
    }
}

/// Whether state `st` holds only printable shapes, its frames in datum
/// position exactly where the machine opens them so, and no quote frame
/// directly above another.
pub open spec fn state_printable(text: Seq<char>, st: ParseState) -> bool {
    &&& all_printable(text, st.forms, false)
    &&& forall|j: int| 0 <= j < st.stack.len() ==> frame_printable(text, #[trigger] st.stack[j])
    &&& forall|j: int|
        0 <= j < st.stack.len() ==> (#[trigger] st.stack[j]).is_datum == ((j > 0 && st.stack[j
            - 1].is_datum) || st.stack[j].kind is Quote || st.stack[j].kind is List)
    &&& forall|j: int|
        0 < j < st.stack.len() && (#[trigger] st.stack[j]).kind is Quote ==> !(st.stack[j
            - 1].kind is Quote)
}

proof fn lemma_all_printable_push(text: Seq<char>, ss: Seq<Shape>, s: Shape, datum: bool)
    requires
        all_printable(text, ss, datum),
        printable(text, s, datum),
    ensures
        all_printable(text, ss.push(s), datum),
{
    assert forall|k: int| 0 <= k < ss.push(s).len() implies printable(
        text,
        #[trigger] ss.push(s)[k],
        datum,
    ) by {
        if k < ss.len() {
            assert(ss.push(s)[k] == ss[k]);
        }
    }
}

/// A state holding fewer frames of the same stack keeps the invariant.
proof fn lemma_state_printable_pop(text: Seq<char>, st: ParseState, below: ParseState)
    requires
        state_printable(text, st),
        st.stack.len() > 0,
        below.stack == st.stack.drop_last(),
        below.forms == st.forms,
    ensures
        state_printable(text, below),
{
    let rest = below.stack;
    assert forall|j: int| 0 <= j < rest.len() implies frame_printable(text, #[trigger] rest[j]) by {
        assert(rest[j] == st.stack[j]);
    }
    assert forall|j: int| 0 <= j < rest.len() implies (#[trigger] rest[j]).is_datum == ((j > 0
        && rest[j - 1].is_datum) || rest[j].kind is Quote || rest[j].kind is List) by {
        assert(rest[j] == st.stack[j]);
        if j > 0 {
            assert(rest[j - 1] == st.stack[j - 1]);
        }
    }
    assert forall|j: int| 0 < j < rest.len() && (#[trigger] rest[j]).kind is Quote implies !(rest[j
        - 1].kind is Quote) by {
        assert(rest[j] == st.stack[j]);
        assert(rest[j - 1] == st.stack[j - 1]);
    }
}

/// Replacing the top frame by one of the same kind and datum position,
/// holding printable shapes, keeps the invariant.
proof fn lemma_state_printable_top(text: Seq<char>, st: ParseState, nf: PendingFrame, out: ParseState)
    requires
        state_printable(text, st),
        st.stack.len() > 0,
        nf.is_datum == st.stack.last().is_datum,
        (nf.kind is Quote) == (st.stack.last().kind is Quote),
        (nf.kind is List) == (st.stack.last().kind is List),
        frame_printable(text, nf),
        out.stack == st.stack.drop_last().push(nf),
        out.forms == st.forms,
    ensures
        state_printable(text, out),
{
    let ns = out.stack;
    let last: int = st.stack.len() - 1;
    assert(st.stack[last] == st.stack.last());
    assert forall|j: int| 0 <= j < ns.len() implies frame_printable(text, #[trigger] ns[j]) by {
        if j < last {
            assert(ns[j] == st.stack[j]);
        }
    }
    assert forall|j: int| 0 <= j < ns.len() implies (#[trigger] ns[j]).is_datum == ((j > 0
        && ns[j - 1].is_datum) || ns[j].kind is Quote || ns[j].kind is List) by {
        if j < last {
            assert(ns[j] == st.stack[j]);
        }
        if j > 0 {
            assert(ns[j - 1] == st.stack[j - 1]);
        }
    }
    assert forall|j: int| 0 < j < ns.len() && (#[trigger] ns[j]).kind is Quote implies !(ns[j
        - 1].kind is Quote) by {
        if j < last {
            assert(ns[j] == st.stack[j]);
        }
        assert(ns[j - 1] == st.stack[j - 1]);
    }
}

/// Yielding a printable form where it stands keeps the invariant.
proof fn lemma_deposit_printable(sid: SourceId, text: Seq<char>, st: ParseState, form: Shape)
    requires
        state_printable(text, st),
        printable(text, form, top_is_datum(st.stack)),
        form is Quote ==> !(st.stack.len() > 0 && st.stack.last().kind is Quote),
    ensures
        state_printable(text, deposit(sid, st, form)),
    decreases st.stack.len(),
{
    if st.stack.len() == 0 {
        lemma_all_printable_push(text, st.forms, form, false);
    } else {
        let top = st.stack.last();
        let rest = st.stack.drop_last();
        let last: int = st.stack.len() - 1;
        assert(st.stack[last] == top);
        assert(frame_printable(text, st.stack[last]));
        let errors = if top.is_datum && (form is Bind || form is Load) {
            st.errors.push(parse_error_at(sid, shape_span(form), ParseErrorKind::BindingInDatum))
        } else {
            st.errors
        };
        match top.kind {
            FrameShape::Vector(cs) => {
                let nf = PendingFrame {
                    kind: FrameShape::Vector(cs.push(form)),
                    opening: top.opening,
                    is_datum: top.is_datum,
                };
                lemma_all_printable_push(text, cs, form, top.is_datum);
                lemma_state_printable_top(text, st, nf, deposit(sid, st, form));
            },
            FrameShape::List(cs) => {
                let nf = PendingFrame {
                    kind: FrameShape::List(cs.push(form)),
                    opening: top.opening,
                    is_datum: top.is_datum,
                };
                lemma_all_printable_push(text, cs, form, top.is_datum);
                lemma_state_printable_top(text, st, nf, deposit(sid, st, form));
            },
            FrameShape::Quote => {
                let below = ParseState { stack: rest, forms: st.forms, errors };
                lemma_state_printable_pop(text, st, below);
                let q = Shape::Quote(Box::new(form), join_spans(top.opening, shape_span(form)));
                assert(printable(text, q, top_is_datum(rest)));
                if last > 0 {
                    assert(rest[last - 1] == st.stack[last - 1]);
                    assert(rest.last() == st.stack[last - 1]);
                }
                lemma_deposit_printable(sid, text, below, q);
            },
        }
    }
}

/// A binding yielded in datum position is reported.
proof fn lemma_deposit_binding_reported(sid: SourceId, st: ParseState, form: Shape)
    requires
        top_is_datum(st.stack),
        form is Bind || form is Load,
    ensures
        deposit(sid, st, form).errors.len() > st.errors.len(),
{
    let top = st.stack.last();
    let rest = st.stack.drop_last();
    let errors = st.errors.push(
        parse_error_at(sid, shape_span(form), ParseErrorKind::BindingInDatum),
    );
    if top.kind is Quote {
        let below = ParseState { stack: rest, forms: st.forms, errors };
        let q = Shape::Quote(Box::new(form), join_spans(top.opening, shape_span(form)));
        lemma_deposit_count(sid, below, q);
    }
}

/// Closing without a report keeps the invariant.
proof fn lemma_close_printable(sid: SourceId, text: Seq<char>, st: ParseState, closer: Token)
    requires
        state_printable(text, st),
        is_closer_kind(closer.kind),
        close(sid, st, closer).errors.len() == st.errors.len(),
    ensures
        state_printable(text, close(sid, st, closer)),
{
    if st.stack.len() > 0 {
        let top = st.stack.last();
        let rest = st.stack.drop_last();
        let last: int = st.stack.len() - 1;
        assert(st.stack[last] == top);
        assert(frame_printable(text, st.stack[last]));
        let popped = ParseState { stack: rest, forms: st.forms, errors: st.errors };
        let whole = join_spans(top.opening, closer.span);
        let mismatched = with_error(
            popped,
            parse_error_at(sid, whole, ParseErrorKind::MismatchedCloser),
        );
        lemma_state_printable_pop(text, st, popped);
        if last > 0 {
            assert(rest.last() == st.stack[last - 1]);
        }
        match top.kind {
            FrameShape::Vector(cs) => {
                if closer.kind is VecEnd {
                    assert(printable(text, Shape::Vector(cs, whole), top_is_datum(rest)));
                    lemma_deposit_printable(sid, text, popped, Shape::Vector(cs, whole));
                } else {
                    lemma_deposit_count(sid, mismatched, Shape::Vector(cs, whole));
                }
            },
            FrameShape::List(cs) => {
                if closer.kind is ListEnd {
                    assert(printable(text, Shape::List(cs, whole), top_is_datum(rest)));
                    lemma_deposit_printable(sid, text, popped, Shape::List(cs, whole));
                } else {
                    lemma_deposit_count(sid, mismatched, Shape::List(cs, whole));
                }
            },
            FrameShape::Quote => {
                lemma_close_count(
                    sid,
                    with_error(
                        popped,
                        parse_error_at(sid, top.opening, ParseErrorKind::QuoteWithoutForm),
                    ),
                    closer,
                );
            },
        }
    }
}

/// A step that reports nothing keeps the invariant.
proof fn lemma_step_printable(sid: SourceId, text: Seq<char>, st: ParseState, t: Token)
    requires
        state_printable(text, st),
        token_named(text, t),
        step(sid, text, st, t).errors.len() == st.errors.len(),
    ensures
        state_printable(text, step(sid, text, st, t)),
{
    match t.kind {
        TokenKind::VecStart | TokenKind::ListStart | TokenKind::Quote => {
            let st2 = step(sid, text, st, t);
            let n: nat = st.stack.len();
            assert(st2.stack.len() == n + 1);
            assert(st2.forms == st.forms);
            if n > 0 {
                assert(st.stack.last() == st.stack[n - 1]);
            }
            assert forall|j: int| 0 <= j < st2.stack.len() implies frame_printable(
                text,
                #[trigger] st2.stack[j],
            ) by {
                if j < n {
                    assert(st2.stack[j] == st.stack[j]);
                }
            }
            assert forall|j: int| 0 <= j < st2.stack.len() implies (#[trigger] st2.stack[j]).is_datum
                == ((j > 0 && st2.stack[j - 1].is_datum) || st2.stack[j].kind is Quote
                || st2.stack[j].kind is List) by {
                if j < n {
                    assert(st2.stack[j] == st.stack[j]);
                }
                if j > 0 {
                    assert(st2.stack[j - 1] == st.stack[j - 1]);
                }
            }
            assert forall|j: int| 0 < j < st2.stack.len() && (#[trigger] st2.stack[j]).kind is Quote
                implies !(st2.stack[j - 1].kind is Quote) by {
                if j < n {
                    assert(st2.stack[j] == st.stack[j]);
                }
                assert(st2.stack[j - 1] == st.stack[j - 1]);
            }
        },
        TokenKind::Number => {
            if let Some(n) = i64_literal(span_chars(text, t.span)) {
                lemma_deposit_printable(sid, text, st, Shape::Int(n, t.span));
            }
        },
        TokenKind::Symbol => {
            lemma_deposit_printable(sid, text, st, Shape::Call(t.span));
        },
        TokenKind::Bind => {
            if top_is_datum(st.stack) {
                lemma_deposit_binding_reported(sid, st, Shape::Bind(t.span));
            }
            lemma_deposit_printable(sid, text, st, Shape::Bind(t.span));
        },
        TokenKind::Load => {
            if top_is_datum(st.stack) {
                lemma_deposit_binding_reported(sid, st, Shape::Load(t.span));
            }
            lemma_deposit_printable(sid, text, st, Shape::Load(t.span));
        },
        TokenKind::VecEnd | TokenKind::ListEnd => {
            lemma_close_printable(sid, text, st, t);
        },
    }
}

/// A run that reports nothing holds only printable shapes.
proof fn lemma_run_printable(sid: SourceId, text: Seq<char>, tokens: Seq<Token>)
    requires
        tokens_named(text, tokens),
        run(sid, text, tokens).errors.len() == 0,
    ensures
        state_printable(text, run(sid, text, tokens)),
    decreases tokens.len(),
{
    if tokens.len() > 0 {
        let prev = tokens.drop_last();
        assert(tokens_named(text, prev)) by {
            assert forall|k: int| 0 <= k < prev.len() implies token_named(text, #[trigger] prev[k]) by {
                assert(prev[k] == tokens[k]);
            }
        }
        assert(token_named(text, tokens[tokens.len() - 1]));
        lemma_step_count(sid, text, run(sid, text, prev), tokens.last());
        lemma_run_printable(sid, text, prev);
        lemma_step_printable(sid, text, run(sid, text, prev), tokens.last());
    }
}

/// A parse that reports nothing denotes only shapes that print back into
/// text that reads the same.
pub proof fn lemma_clean_parse_printable(sid: SourceId, text: Seq<char>, tokens: Seq<Token>)
    requires
        tokens_named(text, tokens),
        parse_errors(sid, text, tokens).len() == 0,
    ensures
        all_printable(text, parse_shapes(sid, text, tokens), false),
{
    lemma_run_printable(sid, text, tokens);
}

} // verus!
