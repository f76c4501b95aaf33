//! Lexing printed text.
//!
//! Printed text lexes back into one token per atom, opener, closer and
//! quote, in order, with no errors: names are symbol material that does not
//! read as an integer, literals are decimal text, and every form ends where
//! a space, a closer or the end of the text begins.
use vstd::prelude::*;
use crate::chars::{decimal, digit_char, int_text, lemma_decimal_nonempty};
use crate::lexer::{
    LexError, Token, TokenKind, format_table, is_digit, is_format_char, is_integer_text,
    is_restricted_char, is_sym_char, is_whitespace_char, lex_from, lex_one, skip_trivia, span_of,
    sym_run, unsigned_part, ws_run,
};
use crate::parser::{
    Shape, after_sigil, all_printable, is_name, printable, shape_text, shapes_text, span_chars,
};
use crate::source::SourceId;

verus! {

/// Tokens, each as a lexed item.
pub open spec fn oks(ts: Seq<Token>) -> Seq<Result<Token, LexError>> {
    ts.map_values(|t: Token| Ok(t))
}

/// The tokens lexing the printed shape `s` of `text` yields, its printed
/// text standing at index `i` of `x`.
pub open spec fn shape_tokens(text: Seq<char>, x: Seq<char>, i: int, s: Shape) -> Seq<Token>
    decreases s,
{
    let n: int = shape_text(text, s).len() as int;
    match s {
        Shape::Int(_, _) => seq![Token { kind: TokenKind::Number, span: span_of(x, i, i + n) }],
        Shape::Call(_) => seq![Token { kind: TokenKind::Symbol, span: span_of(x, i, i + n) }],
        Shape::Bind(_) => seq![Token { kind: TokenKind::Bind, span: span_of(x, i, i + n) }],
        Shape::Load(_) => seq![Token { kind: TokenKind::Load, span: span_of(x, i, i + n) }],
        Shape::Quote(inner, _) => seq![Token { kind: TokenKind::Quote, span: span_of(x, i, i + 1) }]
            + shape_tokens(text, x, i + 1, *inner),
        Shape::List(items, _) => seq![
            Token { kind: TokenKind::ListStart, span: span_of(x, i, i + 1) },
        ] + shapes_tokens(text, x, i + 1, items) + seq![
            Token { kind: TokenKind::ListEnd, span: span_of(x, i + n - 1, i + n) },
        ],
        Shape::Vector(items, _) => seq![
            Token { kind: TokenKind::VecStart, span: span_of(x, i, i + 1) },
        ] + shapes_tokens(text, x, i + 1, items) + seq![
            Token { kind: TokenKind::VecEnd, span: span_of(x, i + n - 1, i + n) },
        ],
    }
}

/// The tokens lexing the printed shapes `ss` of `text` yields, their
/// printed text standing at index `i` of `x`.
pub open spec fn shapes_tokens(text: Seq<char>, x: Seq<char>, i: int, ss: Seq<Shape>) -> Seq<Token>
    decreases ss,
{
    if ss.len() == 0 {
        seq![]
    } else if ss.len() == 1 {
        shape_tokens(text, x, i, ss[0])
    } else {
        shape_tokens(text, x, i, ss[0]) + shapes_tokens(
            text,
            x,
            i + shape_text(text, ss[0]).len() + 1,
            ss.subrange(1, ss.len() as int),
        )
    }
}

/* Characters of printed text */

/// No ASCII character below the soft hyphen is a format character.
proof fn lemma_low_not_format(c: char)
    requires
        c < '\u{ad}',
    ensures
        !is_format_char(c),
{
    let t = format_table();
    assert forall|k: int| 0 <= k < t.len() implies t[k].0 >= '\u{ad}' by {
        assert(t[0].0 == '\u{ad}');
        assert(t[1].0 >= '\u{ad}');
        assert(t[2].0 >= '\u{ad}');
        assert(t[3].0 >= '\u{ad}');
        assert(t[4].0 >= '\u{ad}');
        assert(t[5].0 >= '\u{ad}');
        assert(t[6].0 >= '\u{ad}');
        assert(t[7].0 >= '\u{ad}');
        assert(t[8].0 >= '\u{ad}');
        assert(t[9].0 >= '\u{ad}');
        assert(t[10].0 >= '\u{ad}');
        assert(t[11].0 >= '\u{ad}');
        assert(t[12].0 >= '\u{ad}');
        assert(t[13].0 >= '\u{ad}');
        assert(t[14].0 >= '\u{ad}');
        assert(t[15].0 >= '\u{ad}');
        assert(t[16].0 >= '\u{ad}');
        assert(t[17].0 >= '\u{ad}');
        assert(t[18].0 >= '\u{ad}');
        assert(t[19].0 >= '\u{ad}');
        assert(t[20].0 >= '\u{ad}');
    }
}

/// Decimal digits are symbol material.
proof fn lemma_digit_sym(c: char)
    requires
        is_digit(c),
    ensures
        is_sym_char(c),
{
    lemma_low_not_format(c);
}

/// The decimal text of a number is all digits.
pub(crate) proof fn lemma_decimal_digits(n: nat)
    ensures
        forall|k: int| 0 <= k < decimal(n).len() ==> is_digit(#[trigger] decimal(n)[k]),
    decreases n,
{
    if n >= 10 {
        lemma_decimal_digits(n / 10);
        let d = decimal(n / 10);
        assert forall|k: int| 0 <= k < decimal(n).len() implies is_digit(#[trigger] decimal(n)[k]) by {
            if k < d.len() {
                assert(decimal(n)[k] == d[k]);
            }
        }
    }
}

/// The text of a literal is symbol material reading as an integer, and
/// starts with a digit or a minus sign.
proof fn lemma_int_text_chars(n: int)
    ensures
        int_text(n).len() > 0,
        forall|k: int| 0 <= k < int_text(n).len() ==> is_sym_char(#[trigger] int_text(n)[k]),
        is_integer_text(int_text(n)),
        is_digit(int_text(n)[0]) || int_text(n)[0] == '-',
{
    let q = int_text(n);
    if n < 0 {
        let d = decimal((-n) as nat);
        lemma_decimal_nonempty((-n) as nat);
        lemma_decimal_digits((-n) as nat);
        assert(q == seq!['-'] + d);
        assert(unsigned_part(q) =~= d);
        assert forall|k: int| 0 <= k < q.len() implies is_sym_char(#[trigger] q[k]) by {
            if k == 0 {
                lemma_low_not_format('-');
            } else {
                assert(q[k] == d[k - 1]);
                lemma_digit_sym(d[k - 1]);
            }
        }
    } else {
        lemma_decimal_nonempty(n as nat);
        lemma_decimal_digits(n as nat);
        assert(is_digit(q[0]));
        assert(unsigned_part(q) == q);
        assert forall|k: int| 0 <= k < q.len() implies is_sym_char(#[trigger] q[k]) by {
            lemma_digit_sym(q[k]);
        }
    }
}

/* Lexing, piece by piece */

/// A subrange matching a concatenation matches each part.
pub(crate) proof fn lemma_subrange_split(x: Seq<char>, i: int, a: Seq<char>, b: Seq<char>)
    requires
        0 <= i,
        i + a.len() + b.len() <= x.len(),
        x.subrange(i, i + a.len() + b.len()) == a + b,
    ensures
        x.subrange(i, i + a.len()) == a,
        x.subrange(i + a.len(), i + a.len() + b.len()) == b,
{
    let w = x.subrange(i, i + a.len() + b.len());
    assert forall|k: int| 0 <= k < a.len() implies #[trigger] x.subrange(i, i + a.len())[k] == a[k] by {
        assert(w[k] == x[i + k]);
        assert((a + b)[k] == a[k]);
    }
    assert forall|k: int| 0 <= k < b.len() implies #[trigger] x.subrange(
        i + a.len(),
        i + a.len() + b.len(),
    )[k] == b[k] by {
        assert(w[a.len() + k] == x[i + a.len() + k]);
        assert((a + b)[a.len() + k] == b[k]);
    }
    assert(x.subrange(i, i + a.len()) =~= a);
    assert(x.subrange(i + a.len(), i + a.len() + b.len()) =~= b);
}

/// A run of symbol characters ending where one is not has its length.
proof fn lemma_known_run(x: Seq<char>, i: int, n: int)
    requires
        0 <= i,
        0 <= n,
        i + n <= x.len(),
        forall|k: int| i <= k < i + n ==> is_sym_char(#[trigger] x[k]),
        i + n == x.len() || !is_sym_char(x[i + n]),
    ensures
        sym_run(x, i) == n,
    decreases n,
{
    if n > 0 {
        lemma_known_run(x, i + 1, n - 1);
    }
}

/// Lexing from a character that is neither trivia nor a comment lexes it
/// first.
proof fn lemma_lex_at(sid: SourceId, x: Seq<char>, i: int)
    requires
        0 <= i < x.len(),
        !is_whitespace_char(x[i]),
        x[i] != ';',
    ensures
        skip_trivia(x, i) == i,
        lex_from(sid, x, i) == seq![lex_one(sid, x, i).0] + lex_from(sid, x, lex_one(sid, x, i).1),
{
    assert(ws_run(x, i) == 0);
}

/// A space before what is lexed is skipped.
proof fn lemma_lex_space(sid: SourceId, x: Seq<char>, j: int)
    requires
        0 <= j < x.len(),
        is_whitespace_char(x[j]),
    ensures
        lex_from(sid, x, j) == lex_from(sid, x, j + 1),
{
    assert(ws_run(x, j) == 1 + ws_run(x, j + 1));
    assert(skip_trivia(x, j) == skip_trivia(x, j + 1));
}

/// Tokens of two sequences, as items, are the items of each.
proof fn lemma_oks_concat(a: Seq<Token>, b: Seq<Token>)
    ensures
        oks(a + b) == oks(a) + oks(b),
{
    assert(oks(a + b) =~= oks(a) + oks(b));
}

/// Lexing a name or literal of `len` characters at `i` reads it whole.
proof fn lemma_lex_atom(sid: SourceId, x: Seq<char>, i: int, len: int)
    requires
        0 <= i,
        0 < len,
        i + len <= x.len(),
        forall|k: int| i <= k < i + len ==> is_sym_char(#[trigger] x[k]),
        i + len == x.len() || !is_sym_char(x[i + len]),
    ensures
        lex_from(sid, x, i) == seq![
            Ok(
                Token {
                    kind: if is_integer_text(x.subrange(i, i + len)) {
                        TokenKind::Number
                    } else {
                        TokenKind::Symbol
                    },
                    span: span_of(x, i, i + len),
                },
            ),
        ] + lex_from(sid, x, i + len),
{
    assert(is_sym_char(x[i]));
    lemma_known_run(x, i, len);
    lemma_lex_at(sid, x, i);
}

/// Lexing a binding of `len` characters at `i`, its sigil first, reads it
/// whole.
proof fn lemma_lex_binding(sid: SourceId, x: Seq<char>, i: int, len: int)
    requires
        0 <= i,
        1 < len,
        i + len <= x.len(),
        x[i] == '$' || x[i] == '^',
        is_name(x.subrange(i + 1, i + len)),
        i + len == x.len() || !is_sym_char(x[i + len]),
    ensures
        lex_from(sid, x, i) == seq![
            Ok(
                Token {
                    kind: if x[i] == '$' {
                        TokenKind::Bind
                    } else {
                        TokenKind::Load
                    },
                    span: span_of(x, i, i + len),
                },
            ),
        ] + lex_from(sid, x, i + len),
{
    let name = x.subrange(i + 1, i + len);
    assert forall|k: int| i + 1 <= k < i + len implies is_sym_char(#[trigger] x[k]) by {
        assert(x[k] == name[k - i - 1]);
    }
    lemma_known_run(x, i + 1, len - 1);
    lemma_lex_at(sid, x, i);
}

/// Lexing a one-character token at `i` reads it.
proof fn lemma_lex_single(sid: SourceId, x: Seq<char>, i: int, kind: TokenKind)
    requires
        0 <= i < x.len(),
        x[i] == '(' && kind is ListStart || x[i] == ')' && kind is ListEnd || x[i] == '['
            && kind is VecStart || x[i] == ']' && kind is VecEnd || x[i] == '\'' && kind is Quote,
    ensures
        lex_from(sid, x, i) == seq![Ok(Token { kind, span: span_of(x, i, i + 1) })] + lex_from(
            sid,
            x,
            i + 1,
        ),
{
    lemma_lex_at(sid, x, i);
}

/// Lexing the printed shape `s` where it stands in `x` yields its tokens
/// and goes on after it.
pub proof fn lemma_lex_printed(
    sid: SourceId,
    text: Seq<char>,
    x: Seq<char>,
    i: int,
    s: Shape,
    datum: bool,
)
    requires
        printable(text, s, datum),
        0 <= i,
        i + shape_text(text, s).len() <= x.len(),
        x.subrange(i, i + shape_text(text, s).len()) == shape_text(text, s),
        i + shape_text(text, s).len() == x.len() || !is_sym_char(
            x[i + shape_text(text, s).len()],
        ),
    ensures
        lex_from(sid, x, i) == oks(shape_tokens(text, x, i, s)) + lex_from(
            sid,
            x,
            i + shape_text(text, s).len(),
        ),
    decreases s,
{
    let q = shape_text(text, s);
    let n: int = q.len() as int;
    assert forall|k: int| 0 <= k < n implies #[trigger] x[i + k] == q[k] by {
        assert(x.subrange(i, i + n)[k] == x[i + k]);
    }
    match s {
        Shape::Int(m, _) => {
            lemma_int_text_chars(m as int);
            assert forall|k: int| i <= k < i + n implies is_sym_char(#[trigger] x[k]) by {
                assert(x[i + (k - i)] == q[k - i]);
            }
            lemma_lex_atom(sid, x, i, n);
            assert(oks(shape_tokens(text, x, i, s)) =~= seq![
                Ok(Token { kind: TokenKind::Number, span: span_of(x, i, i + n) }),
            ]);
        },
        Shape::Call(_) => {
            assert forall|k: int| i <= k < i + n implies is_sym_char(#[trigger] x[k]) by {
                assert(x[i + (k - i)] == q[k - i]);
            }
            lemma_lex_atom(sid, x, i, n);
            assert(oks(shape_tokens(text, x, i, s)) =~= seq![
                Ok(Token { kind: TokenKind::Symbol, span: span_of(x, i, i + n) }),
            ]);
        },
        Shape::Bind(sp) => {
            let name = span_chars(text, after_sigil(sp));
            lemma_subrange_split(x, i, seq!['$'], name);
            assert(x[i + 0] == q[0]);
            lemma_lex_binding(sid, x, i, n);
            assert(oks(shape_tokens(text, x, i, s)) =~= seq![
                Ok(Token { kind: TokenKind::Bind, span: span_of(x, i, i + n) }),
            ]);
        },
        Shape::Load(sp) => {
            let name = span_chars(text, after_sigil(sp));
            lemma_subrange_split(x, i, seq!['^'], name);
            assert(x[i + 0] == q[0]);
            lemma_lex_binding(sid, x, i, n);
            assert(oks(shape_tokens(text, x, i, s)) =~= seq![
                Ok(Token { kind: TokenKind::Load, span: span_of(x, i, i + n) }),
            ]);
        },
        Shape::Quote(inner, _) => {
            let qi = shape_text(text, *inner);
            lemma_subrange_split(x, i, seq!['\''], qi);
            assert(x[i + 0] == q[0]);
            lemma_lex_single(sid, x, i, TokenKind::Quote);
            lemma_lex_printed(sid, text, x, i + 1, *inner, true);
            let head = seq![Token { kind: TokenKind::Quote, span: span_of(x, i, i + 1) }];
            lemma_oks_concat(head, shape_tokens(text, x, i + 1, *inner));
            assert(oks(head) =~= seq![Ok(Token { kind: TokenKind::Quote, span: span_of(x, i, i + 1) })]);
        },
        Shape::List(items, _) => {
            let qs = shapes_text(text, items);
            lemma_subrange_split(x, i, seq!['('] + qs, seq![')']);
            lemma_subrange_split(x, i, seq!['('], qs);
            assert(x[i + 0] == q[0]);
            assert(x[i + (n - 1)] == q[n - 1]);
            lemma_lex_single(sid, x, i, TokenKind::ListStart);
            lemma_lex_printed_seq(sid, text, x, i + 1, items, true);
            lemma_lex_single(sid, x, i + n - 1, TokenKind::ListEnd);
            let head = seq![Token { kind: TokenKind::ListStart, span: span_of(x, i, i + 1) }];
            let mid = shapes_tokens(text, x, i + 1, items);
            let end = seq![Token { kind: TokenKind::ListEnd, span: span_of(x, i + n - 1, i + n) }];
            lemma_oks_concat(head, mid);
            lemma_oks_concat(head + mid, end);
            assert(oks(head) =~= seq![Ok(head[0])]);
            assert(oks(end) =~= seq![Ok(end[0])]);
        },
        Shape::Vector(items, _) => {
            let qs = shapes_text(text, items);
            lemma_subrange_split(x, i, seq!['['] + qs, seq![']']);
            lemma_subrange_split(x, i, seq!['['], qs);
            assert(x[i + 0] == q[0]);
            assert(x[i + (n - 1)] == q[n - 1]);
            lemma_lex_single(sid, x, i, TokenKind::VecStart);
            lemma_lex_printed_seq(sid, text, x, i + 1, items, datum);
            lemma_lex_single(sid, x, i + n - 1, TokenKind::VecEnd);
            let head = seq![Token { kind: TokenKind::VecStart, span: span_of(x, i, i + 1) }];
            let mid = shapes_tokens(text, x, i + 1, items);
            let end = seq![Token { kind: TokenKind::VecEnd, span: span_of(x, i + n - 1, i + n) }];
            lemma_oks_concat(head, mid);
            lemma_oks_concat(head + mid, end);
            assert(oks(head) =~= seq![Ok(head[0])]);
            assert(oks(end) =~= seq![Ok(end[0])]);
        },
    }
}

/// Lexing the printed shapes `ss` where they stand in `x` yields their
/// tokens and goes on after them.
pub proof fn lemma_lex_printed_seq(
    sid: SourceId,
    text: Seq<char>,
    x: Seq<char>,
    i: int,
    ss: Seq<Shape>,
    datum: bool,
)
    requires
        all_printable(text, ss, datum),
        0 <= i,
        i + shapes_text(text, ss).len() <= x.len(),
        x.subrange(i, i + shapes_text(text, ss).len()) == shapes_text(text, ss),
        i + shapes_text(text, ss).len() == x.len() || !is_sym_char(
            x[i + shapes_text(text, ss).len()],
        ),
    ensures
        lex_from(sid, x, i) == oks(shapes_tokens(text, x, i, ss)) + lex_from(
            sid,
            x,
            i + shapes_text(text, ss).len(),
        ),
    decreases ss,
{
    if ss.len() == 0 {
        assert(oks(Seq::<Token>::empty()) =~= Seq::<Result<Token, LexError>>::empty());
        assert(Seq::<Result<Token, LexError>>::empty() + lex_from(sid, x, i) =~= lex_from(sid, x, i));
    } else if ss.len() == 1 {
        assert(printable(text, ss[0], datum));
        lemma_lex_printed(sid, text, x, i, ss[0], datum);
    } else {
        let t0 = shape_text(text, ss[0]);
        let rest = ss.subrange(1, ss.len() as int);
        let tr = shapes_text(text, rest);
        let n0: int = t0.len() as int;
        lemma_subrange_split(x, i, t0 + seq![' '], tr);
        lemma_subrange_split(x, i, t0, seq![' ']);
        assert(x[i + n0] == seq![' '][0]) by {
            assert(x.subrange(i + n0, i + n0 + 1)[0] == x[i + n0]);
        }
        assert(printable(text, ss[0], datum));
        lemma_lex_printed(sid, text, x, i, ss[0], datum);
        lemma_lex_space(sid, x, i + n0);
        assert(all_printable(text, rest, datum)) by {
            assert forall|k: int| 0 <= k < rest.len() implies printable(text, #[trigger] rest[k], datum) by {
                assert(rest[k] == ss[k + 1]);
            }
        }
        lemma_lex_printed_seq(sid, text, x, i + n0 + 1, rest, datum);
        lemma_oks_concat(
            shape_tokens(text, x, i, ss[0]),
            shapes_tokens(text, x, i + n0 + 1, rest),
        );
    }
}

} // verus!
