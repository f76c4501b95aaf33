//! Parsing printed text.
//!
//! The tokens printed text lexes into drive the parser to exactly the shapes
//! that were printed, now spanning the printed text, and report nothing:
//! every container closes with its own closer, no quote wraps another and no
//! binding stands in datum position.  Those shapes print the same text again.
use vstd::prelude::*;
use crate::chars::{decimal, digit_char, int_text, lemma_decimal_nonempty};
use crate::lexer::{Token, TokenKind, span_of};
use crate::parser::{
    FrameShape, ParseState, PendingFrame, Shape, after_sigil, all_printable, close, deposit,
    digit_value, digits_value, i64_literal, initial_state, join_spans, lemma_after_sigil_chars,
    lemma_span_chars_of, literal_digits, literal_value, open_frame, printable, run, shape_span,
    shape_text, shape_tokens, shapes_text, shapes_tokens, signed, span_chars, step, top_is_datum,
};
use crate::source::{SourceId, byte_at, byte_len, char_width, lemma_byte_at_ends, lemma_byte_at_mono};
use super::relex::{lemma_decimal_digits, lemma_subrange_split};

verus! {

/// The shape `s` of `text` once printed at index `i` of `x`: the same
/// shape, spanning its printed text.
pub open spec fn placed(text: Seq<char>, x: Seq<char>, i: int, s: Shape) -> Shape
    decreases s,
{
    let sp = span_of(x, i, i + shape_text(text, s).len());
    match s {
        Shape::Int(m, _) => Shape::Int(m, sp),
        Shape::Call(_) => Shape::Call(sp),
        Shape::Bind(_) => Shape::Bind(sp),
        Shape::Load(_) => Shape::Load(sp),
        Shape::Quote(inner, _) => Shape::Quote(Box::new(placed(text, x, i + 1, *inner)), sp),
        Shape::List(items, _) => Shape::List(placed_seq(text, x, i + 1, items), sp),
        Shape::Vector(items, _) => Shape::Vector(placed_seq(text, x, i + 1, items), sp),
    }
}

/// The shapes `ss` of `text` once printed at index `i` of `x`.
pub open spec fn placed_seq(text: Seq<char>, x: Seq<char>, i: int, ss: Seq<Shape>) -> Seq<Shape>
    decreases ss,
{
    if ss.len() == 0 {
        seq![]
    } else if ss.len() == 1 {
        seq![placed(text, x, i, ss[0])]
    } else {
        seq![placed(text, x, i, ss[0])] + placed_seq(
            text,
            x,
            i + shape_text(text, ss[0]).len() + 1,
            ss.subrange(1, ss.len() as int),
        )
    }
}

/// The machine's state after running from `st` over `tokens`.
pub open spec fn run_from(sid: SourceId, x: Seq<char>, st: ParseState, tokens: Seq<Token>) -> ParseState
    decreases tokens.len(),
{
    if tokens.len() == 0 {
        st
    } else {
        step(sid, x, run_from(sid, x, st, tokens.drop_last()), tokens.last())
    }
}

/// Whether the innermost frame of `st` collects forms: none is open, or a
/// container is.
pub open spec fn collects(st: ParseState) -> bool {
    st.stack.len() == 0 || !(st.stack.last().kind is Quote)
}

/// `st` with the forms `ss` collected where it collects them.
pub open spec fn collected(st: ParseState, ss: Seq<Shape>) -> ParseState {
    if st.stack.len() == 0 {
        ParseState { stack: st.stack, forms: st.forms + ss, errors: st.errors }
    } else {
        let top = st.stack.last();
        let kind = match top.kind {
            FrameShape::Vector(cs) => FrameShape::Vector(cs + ss),
            FrameShape::List(cs) => FrameShape::List(cs + ss),
            FrameShape::Quote => FrameShape::Quote,
        };
        ParseState {
            stack: st.stack.drop_last().push(
                PendingFrame { kind, opening: top.opening, is_datum: top.is_datum },
            ),
            forms: st.forms,
            errors: st.errors,
        }
    }
}

/* The machine over concatenated tokens */

proof fn lemma_run_from_concat(sid: SourceId, x: Seq<char>, st: ParseState, a: Seq<Token>, b: Seq<Token>)
    ensures
        run_from(sid, x, st, a + b) == run_from(sid, x, run_from(sid, x, st, a), b),
    decreases b.len(),
{
    if b.len() == 0 {
        assert(a + b =~= a);
    } else {
        assert((a + b).drop_last() =~= a + b.drop_last());
        assert((a + b).last() == b.last());
        lemma_run_from_concat(sid, x, st, a, b.drop_last());
    }
}

pub(crate) proof fn lemma_run_from_initial(sid: SourceId, x: Seq<char>, tokens: Seq<Token>)
    ensures
        run(sid, x, tokens) == run_from(sid, x, initial_state(), tokens),
    decreases tokens.len(),
{
    if tokens.len() > 0 {
        lemma_run_from_initial(sid, x, tokens.drop_last());
    }
}

proof fn lemma_run_from_one(sid: SourceId, x: Seq<char>, st: ParseState, t: Token)
    ensures
        run_from(sid, x, st, seq![t]) == step(sid, x, st, t),
{
    assert(seq![t].drop_last() =~= Seq::<Token>::empty());
    assert(run_from(sid, x, st, Seq::<Token>::empty()) == st);
    assert(seq![t].last() == t);
}

proof fn lemma_collected_empty(st: ParseState)
    requires
        collects(st),
    ensures
        collected(st, seq![]) == st,
{
    if st.stack.len() == 0 {
        assert(st.forms + Seq::<Shape>::empty() =~= st.forms);
    } else {
        let top = st.stack.last();
        match top.kind {
            FrameShape::Vector(cs) => {
                assert(cs + Seq::<Shape>::empty() =~= cs);
            },
            FrameShape::List(cs) => {
                assert(cs + Seq::<Shape>::empty() =~= cs);
            },
            FrameShape::Quote => {},
        }
        assert(st.stack.drop_last().push(top) =~= st.stack);
    }
}

proof fn lemma_collected_one(sid: SourceId, st: ParseState, p: Shape)
    requires
        collects(st),
        !(top_is_datum(st.stack) && (p is Bind || p is Load)),
    ensures
        deposit(sid, st, p) == collected(st, seq![p]),
{
    if st.stack.len() == 0 {
        assert(st.forms.push(p) =~= st.forms + seq![p]);
    } else {
        let top = st.stack.last();
        match top.kind {
            FrameShape::Vector(cs) => {
                assert(cs.push(p) =~= cs + seq![p]);
            },
            FrameShape::List(cs) => {
                assert(cs.push(p) =~= cs + seq![p]);
            },
            FrameShape::Quote => {},
        }
    }
}

proof fn lemma_collected_twice(st: ParseState, a: Seq<Shape>, b: Seq<Shape>)
    requires
        collects(st),
    ensures
        collects(collected(st, a)),
        top_is_datum(collected(st, a).stack) == top_is_datum(st.stack),
        collected(collected(st, a), b) == collected(st, a + b),
{
    if st.stack.len() == 0 {
        assert(st.forms + a + b =~= st.forms + (a + b));
    } else {
        let top = st.stack.last();
        let mid = collected(st, a);
        assert(mid.stack.drop_last() =~= st.stack.drop_last());
        match top.kind {
            FrameShape::Vector(cs) => {
                assert(cs + a + b =~= cs + (a + b));
            },
            FrameShape::List(cs) => {
                assert(cs + a + b =~= cs + (a + b));
            },
            FrameShape::Quote => {},
        }
    }
}

/* Literals read back */

proof fn lemma_digits_value_decimal(n: nat)
    ensures
        digits_value(decimal(n)) == n,
    decreases n,
{
    if n < 10 {
        assert(seq![digit_char(n)].drop_last() =~= Seq::<char>::empty());
        assert(digits_value(Seq::<char>::empty()) == 0);
        assert(digit_value(digit_char(n)) == n);
    } else {
        lemma_digits_value_decimal(n / 10);
        assert(decimal(n).drop_last() =~= decimal(n / 10));
        assert(decimal(n).last() == digit_char(n % 10));
        assert(digit_value(digit_char(n % 10)) == n % 10);
        assert((n / 10) * 10 + n % 10 == n) by (nonlinear_arith);
    }
}

/// The text of a literal reads back as its value.
pub proof fn lemma_int_text_literal(m: i64)
    ensures
        i64_literal(int_text(m as int)) == Some(m),
{
    let s = int_text(m as int);
    if m < 0 {
        let d = decimal((-m) as nat);
        lemma_decimal_nonempty((-m) as nat);
        lemma_decimal_digits((-m) as nat);
        lemma_digits_value_decimal((-m) as nat);
        assert(signed(s));
        assert(literal_digits(s) =~= d);
        assert(literal_value(s) == Some(m as int));
    } else {
        let d = decimal(m as nat);
        lemma_decimal_nonempty(m as nat);
        lemma_decimal_digits(m as nat);
        lemma_digits_value_decimal(m as nat);
        assert(!signed(s));
        assert(literal_digits(s) == d);
        assert(literal_value(s) == Some(m as int));
    }
}

/* Spans of printed text */

/// A printed shape spans its printed text.
proof fn lemma_placed_span(text: Seq<char>, x: Seq<char>, i: int, s: Shape)
    ensures
        shape_span(placed(text, x, i, s)) == span_of(x, i, i + shape_text(text, s).len()),
        placed(text, x, i, s) is Bind <==> s is Bind,
        placed(text, x, i, s) is Load <==> s is Load,
        placed(text, x, i, s) is Quote <==> s is Quote,
{
}

/// The span covering two spans of the text, the first starting no later and
/// the second ending no earlier, runs from the first's start to the second's
/// end.
proof fn lemma_join_span_of(x: Seq<char>, a: int, b: int, c: int, d: int)
    requires
        0 <= a <= b <= d <= x.len(),
        a <= c <= d,
        byte_len(x) <= u32::MAX,
    ensures
        join_spans(span_of(x, a, b), span_of(x, c, d)) == span_of(x, a, d),
{
    lemma_span_chars_of(x, a, b);
    lemma_span_chars_of(x, c, d);
    lemma_span_chars_of(x, a, d);
    lemma_byte_at_mono(x, a, c);
    lemma_byte_at_mono(x, b, d);
}

proof fn lemma_placed_seq_len(text: Seq<char>, x: Seq<char>, i: int, ss: Seq<Shape>)
    ensures
        placed_seq(text, x, i, ss).len() == ss.len(),
    decreases ss.len(),
{
    if ss.len() > 1 {
        lemma_placed_seq_len(
            text,
            x,
            i + shape_text(text, ss[0]).len() + 1,
            ss.subrange(1, ss.len() as int),
        );
    }
}

/* Parsing, piece by piece */

/// Running the machine over the tokens of the printed shape `s` yields the
/// shape, as printed, where the machine stands.
pub proof fn lemma_parse_printed(
    sid: SourceId,
    text: Seq<char>,
    x: Seq<char>,
    i: int,
    s: Shape,
    st: ParseState,
)
    requires
        printable(text, s, top_is_datum(st.stack)),
        s is Quote ==> !(st.stack.len() > 0 && st.stack.last().kind is Quote),
        0 <= i,
        i + shape_text(text, s).len() <= x.len(),
        x.subrange(i, i + shape_text(text, s).len()) == shape_text(text, s),
        byte_len(x) <= u32::MAX,
    ensures
        run_from(sid, x, st, shape_tokens(text, x, i, s)) == deposit(sid, st, placed(text, x, i, s)),
    decreases s,
{
    let q = shape_text(text, s);
    let n: int = q.len() as int;
    let sp = span_of(x, i, i + n);
    match s {
        Shape::Int(m, _) => {
            lemma_run_from_one(sid, x, st, Token { kind: TokenKind::Number, span: sp });
            lemma_span_chars_of(x, i, i + n);
            lemma_int_text_literal(m);
        },
        Shape::Call(_) => {
            lemma_run_from_one(sid, x, st, Token { kind: TokenKind::Symbol, span: sp });
        },
        Shape::Bind(_) => {
            lemma_run_from_one(sid, x, st, Token { kind: TokenKind::Bind, span: sp });
        },
        Shape::Load(_) => {
            lemma_run_from_one(sid, x, st, Token { kind: TokenKind::Load, span: sp });
        },
        Shape::Quote(inner, _) => {
            let qi = shape_text(text, *inner);
            lemma_subrange_split(x, i, seq!['\''], qi);
            let open = Token { kind: TokenKind::Quote, span: span_of(x, i, i + 1) };
            let ti = shape_tokens(text, x, i + 1, *inner);
            lemma_run_from_concat(sid, x, st, seq![open], ti);
            lemma_run_from_one(sid, x, st, open);
            let st1 = open_frame(st, FrameShape::Quote, open.span);
            assert(step(sid, x, st, open) == st1);
            lemma_parse_printed(sid, text, x, i + 1, *inner, st1);
            let pi = placed(text, x, i + 1, *inner);
            lemma_placed_span(text, x, i + 1, *inner);
            lemma_join_span_of(x, i, i + 1, i + 1, i + n);
            assert(st1.stack.drop_last() =~= st.stack);
            assert(st1.stack.last().kind is Quote);
            assert(st1.stack.last().is_datum);
            assert(printable(text, *inner, true));
            assert(!(*inner is Bind || *inner is Load));
            assert(!(pi is Bind || pi is Load));
            assert(st1.forms == st.forms && st1.errors == st.errors);
            assert(deposit(sid, st1, pi) == deposit(
                sid,
                ParseState { stack: st.stack, forms: st.forms, errors: st.errors },
                Shape::Quote(Box::new(pi), join_spans(open.span, shape_span(pi))),
            ));
        },
        Shape::List(items, _) => {
            let qs = shapes_text(text, items);
            lemma_subrange_split(x, i, seq!['('] + qs, seq![')']);
            lemma_subrange_split(x, i, seq!['('], qs);
            let open = Token { kind: TokenKind::ListStart, span: span_of(x, i, i + 1) };
            let closer = Token { kind: TokenKind::ListEnd, span: span_of(x, i + n - 1, i + n) };
            let mid = shapes_tokens(text, x, i + 1, items);
            let all = seq![open] + mid + seq![closer];
            assert(all.drop_last() =~= seq![open] + mid);
            assert(all.last() == closer);
            lemma_run_from_concat(sid, x, st, seq![open], mid);
            lemma_run_from_one(sid, x, st, open);
            let st1 = open_frame(st, FrameShape::List(seq![]), open.span);
            assert(step(sid, x, st, open) == st1);
            lemma_parse_printed_seq(sid, text, x, i + 1, items, st1);
            let ps = placed_seq(text, x, i + 1, items);
            let st2 = collected(st1, ps);
            assert(Seq::<Shape>::empty() + ps =~= ps);
            assert(st2.stack.drop_last() =~= st.stack);
            lemma_join_span_of(x, i, i + 1, i + n - 1, i + n);
            assert(close(sid, st2, closer) == deposit(
                sid,
                ParseState { stack: st.stack, forms: st.forms, errors: st.errors },
                Shape::List(ps, sp),
            ));
        },
        Shape::Vector(items, _) => {
            let qs = shapes_text(text, items);
            lemma_subrange_split(x, i, seq!['['] + qs, seq![']']);
            lemma_subrange_split(x, i, seq!['['], qs);
            let open = Token { kind: TokenKind::VecStart, span: span_of(x, i, i + 1) };
            let closer = Token { kind: TokenKind::VecEnd, span: span_of(x, i + n - 1, i + n) };
            let mid = shapes_tokens(text, x, i + 1, items);
            let all = seq![open] + mid + seq![closer];
            assert(all.drop_last() =~= seq![open] + mid);
            assert(all.last() == closer);
            lemma_run_from_concat(sid, x, st, seq![open], mid);
            lemma_run_from_one(sid, x, st, open);
            let st1 = open_frame(st, FrameShape::Vector(seq![]), open.span);
            assert(step(sid, x, st, open) == st1);
            lemma_parse_printed_seq(sid, text, x, i + 1, items, st1);
            let ps = placed_seq(text, x, i + 1, items);
            let st2 = collected(st1, ps);
            assert(Seq::<Shape>::empty() + ps =~= ps);
            assert(st2.stack.drop_last() =~= st.stack);
            lemma_join_span_of(x, i, i + 1, i + n - 1, i + n);
            assert(close(sid, st2, closer) == deposit(
                sid,
                ParseState { stack: st.stack, forms: st.forms, errors: st.errors },
                Shape::Vector(ps, sp),
            ));
        },
    }
}

/// Running the machine over the tokens of the printed shapes `ss` collects
/// them, as printed, where the machine stands.
pub proof fn lemma_parse_printed_seq(
    sid: SourceId,
    text: Seq<char>,
    x: Seq<char>,
    i: int,
    ss: Seq<Shape>,
    st: ParseState,
)
    requires
        collects(st),
        all_printable(text, ss, top_is_datum(st.stack)),
        0 <= i,
        i + shapes_text(text, ss).len() <= x.len(),
        x.subrange(i, i + shapes_text(text, ss).len()) == shapes_text(text, ss),
        byte_len(x) <= u32::MAX,
    ensures
        run_from(sid, x, st, shapes_tokens(text, x, i, ss)) == collected(
            st,
            placed_seq(text, x, i, ss),
        ),
    decreases ss,
{
    if ss.len() == 0 {
        lemma_collected_empty(st);
    } else {
        let p0 = placed(text, x, i, ss[0]);
        assert(printable(text, ss[0], top_is_datum(st.stack)));
        lemma_placed_span(text, x, i, ss[0]);
        if ss.len() == 1 {
            lemma_parse_printed(sid, text, x, i, ss[0], st);
            lemma_collected_one(sid, st, p0);
        } else {
            let t0 = shape_text(text, ss[0]);
            let rest = ss.subrange(1, ss.len() as int);
            let n0: int = t0.len() as int;
            let tr = shapes_text(text, rest);
            lemma_subrange_split(x, i, t0 + seq![' '], tr);
            lemma_subrange_split(x, i, t0, seq![' ']);
            lemma_parse_printed(sid, text, x, i, ss[0], st);
            lemma_collected_one(sid, st, p0);
            lemma_run_from_concat(
                sid,
                x,
                st,
                shape_tokens(text, x, i, ss[0]),
                shapes_tokens(text, x, i + n0 + 1, rest),
            );
            let st1 = collected(st, seq![p0]);
            lemma_collected_twice(st, seq![p0], placed_seq(text, x, i + n0 + 1, rest));
            assert(all_printable(text, rest, top_is_datum(st1.stack))) by {
                assert forall|k: int| 0 <= k < rest.len() implies printable(
                    text,
                    #[trigger] rest[k],
                    top_is_datum(st1.stack),
                ) by {
                    assert(rest[k] == ss[k + 1]);
                }
            }
            lemma_parse_printed_seq(sid, text, x, i + n0 + 1, rest, st1);
        }
    }
}

/* Printed shapes print alike */

/// The printed shape `s`, read from the printed text, prints as `s` did.
pub proof fn lemma_placed_text(text: Seq<char>, x: Seq<char>, i: int, s: Shape)
    requires
        0 <= i,
        i + shape_text(text, s).len() <= x.len(),
        x.subrange(i, i + shape_text(text, s).len()) == shape_text(text, s),
        byte_len(x) <= u32::MAX,
    ensures
        shape_text(x, placed(text, x, i, s)) == shape_text(text, s),
    decreases s,
{
    let q = shape_text(text, s);
    let n: int = q.len() as int;
    match s {
        Shape::Int(_, _) => {},
        Shape::Call(_) => {
            lemma_span_chars_of(x, i, i + n);
        },
        Shape::Bind(sp) => {
            let name = span_chars(text, after_sigil(sp));
            lemma_subrange_split(x, i, seq!['$'], name);
            assert(x[i] == x.subrange(i, i + 1)[0]);
            assert(char_width('$') == 1);
            lemma_after_sigil_chars(x, i, i + n);
        },
        Shape::Load(sp) => {
            let name = span_chars(text, after_sigil(sp));
            lemma_subrange_split(x, i, seq!['^'], name);
            assert(x[i] == x.subrange(i, i + 1)[0]);
            assert(char_width('^') == 1);
            lemma_after_sigil_chars(x, i, i + n);
        },
        Shape::Quote(inner, _) => {
            lemma_subrange_split(x, i, seq!['\''], shape_text(text, *inner));
            lemma_placed_text(text, x, i + 1, *inner);
        },
        Shape::List(items, _) => {
            let qs = shapes_text(text, items);
            lemma_subrange_split(x, i, seq!['('] + qs, seq![')']);
            lemma_subrange_split(x, i, seq!['('], qs);
            lemma_placed_text_seq(text, x, i + 1, items);
        },
        Shape::Vector(items, _) => {
            let qs = shapes_text(text, items);
            lemma_subrange_split(x, i, seq!['['] + qs, seq![']']);
            lemma_subrange_split(x, i, seq!['['], qs);
            lemma_placed_text_seq(text, x, i + 1, items);
        },
    }
}

/// The printed shapes `ss`, read from the printed text, print as they did.
pub proof fn lemma_placed_text_seq(text: Seq<char>, x: Seq<char>, i: int, ss: Seq<Shape>)
    requires
        0 <= i,
        i + shapes_text(text, ss).len() <= x.len(),
        x.subrange(i, i + shapes_text(text, ss).len()) == shapes_text(text, ss),
        byte_len(x) <= u32::MAX,
    ensures
        shapes_text(x, placed_seq(text, x, i, ss)) == shapes_text(text, ss),
    decreases ss,
{
    if ss.len() == 1 {
        lemma_placed_text(text, x, i, ss[0]);
    } else if ss.len() > 1 {
        let t0 = shape_text(text, ss[0]);
        let rest = ss.subrange(1, ss.len() as int);
        let n0: int = t0.len() as int;
        let tr = shapes_text(text, rest);
        lemma_subrange_split(x, i, t0 + seq![' '], tr);
        lemma_subrange_split(x, i, t0, seq![' ']);
        lemma_placed_text(text, x, i, ss[0]);
        lemma_placed_text_seq(text, x, i + n0 + 1, rest);
        let pr = placed_seq(text, x, i + n0 + 1, rest);
        lemma_placed_seq_len(text, x, i + n0 + 1, rest);
        let ps = seq![placed(text, x, i, ss[0])] + pr;
        assert(ps[0] == placed(text, x, i, ss[0]));
        assert(ps.subrange(1, ps.len() as int) =~= pr);
    }
}

} // verus!
