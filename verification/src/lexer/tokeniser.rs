//! Main tokeniser runtime.
//!
//! The lexical grammar is stated as specification functions over the
//! characters of a source ([`lex_items`]); [`tokenise`] is proved to produce
//! exactly the tokens and errors it describes.
use vstd::prelude::*;
use crate::diagnostics::Diagnostics;
use crate::diagnostics::conv::reports_lex_error;
use crate::diagnostics::{Diagnostic, count_fatal, is_fatal, lex_class};
use crate::lexer::{LexError, LexErrorKind, Token, TokenKind, is_format, is_format_char};
use crate::source::{
    Source, SourceId, SourceTable, Span, SyntaxOrigin, byte_at, byte_len, is_boundary,
    lemma_byte_at_mono, lemma_byte_at_ends, lemma_byte_at_step, char_width, MAX_SOURCE_LEN,
};

verus! {

/* The lexical grammar */

/// Characters skipped between tokens.
pub open spec fn is_whitespace_char(c: char) -> bool {
    c == '\r' || c == '\n' || c == '\t' || c == ' '
}

/// Characters that separate scalars, and so cannot be part of one.
pub open spec fn is_restricted_char(c: char) -> bool {
    ||| c == '\''
    ||| c == '^'
    ||| c == '$'
    ||| c == '('
    ||| c == ')'
    ||| c == '['
    ||| c == ']'
    ||| c == ';'
    ||| is_whitespace_char(c)
}

/// The Unicode `Cc` (control) category.
pub open spec fn is_control_char(c: char) -> bool {
    c <= '\u{1f}' || ('\u{7f}' <= c && c <= '\u{9f}')
}

/// Characters that may be part of a symbol.
pub open spec fn is_sym_char(c: char) -> bool {
    !is_restricted_char(c) && !is_control_char(c) && !is_format_char(c)
}

/// Length of the run of symbol characters starting at `i`.
pub open spec fn sym_run(text: Seq<char>, i: int) -> nat
    decreases text.len() - i,
{
    if 0 <= i < text.len() && is_sym_char(text[i]) {
        1 + sym_run(text, i + 1)
    } else {
        0
    }
}

/// Length of the run of whitespace starting at `i`.
pub open spec fn ws_run(text: Seq<char>, i: int) -> nat
    decreases text.len() - i,
{
    if 0 <= i < text.len() && is_whitespace_char(text[i]) {
        1 + ws_run(text, i + 1)
    } else {
        0
    }
}

/// Length of the run of characters other than a line feed starting at `i`.
pub open spec fn line_run(text: Seq<char>, i: int) -> nat
    decreases text.len() - i,
{
    if 0 <= i < text.len() && text[i] != '\n' {
        1 + line_run(text, i + 1)
    } else {
        0
    }
}

/// A run never leaves the text.
pub proof fn lemma_runs_bounded(text: Seq<char>, i: int)
    requires
        0 <= i <= text.len(),
    ensures
        i + sym_run(text, i) <= text.len(),
        i + ws_run(text, i) <= text.len(),
        i + line_run(text, i) <= text.len(),
    decreases text.len() - i,
{
    if i < text.len() {
        lemma_runs_bounded(text, i + 1);
    }
}

/// The first character at or after `i` that is not whitespace or comment.
pub open spec fn skip_trivia(text: Seq<char>, i: int) -> int
    decreases text.len() - i,
{
    if i < 0 || i > text.len() {
        i
    } else {
        let j = i + ws_run(text, i);
        if j < text.len() && text[j] == ';' {
            proof {
                lemma_runs_bounded(text, i);
                lemma_runs_bounded(text, j + 1);
            }
            skip_trivia(text, j + 1 + line_run(text, j + 1))
        } else {
            j
        }
    }
}

/// Skipping trivia moves forward and stays within the text.
pub proof fn lemma_skip_trivia_bounded(text: Seq<char>, i: int)
    requires
        0 <= i <= text.len(),
    ensures
        i <= skip_trivia(text, i) <= text.len(),
    decreases text.len() - i,
{
    lemma_runs_bounded(text, i);
    let j = i + ws_run(text, i);
    if j < text.len() && text[j] == ';' {
        lemma_runs_bounded(text, j + 1);
        lemma_skip_trivia_bounded(text, j + 1 + line_run(text, j + 1));
    }
}

/// Whether `c` is an ASCII digit.
pub open spec fn is_digit(c: char) -> bool {
    '0' <= c && c <= '9'
}

/// `s` without a leading minus sign.
pub open spec fn unsigned_part(s: Seq<char>) -> Seq<char> {
    if s.len() > 0 && s[0] == '-' {
        s.drop_first()
    } else {
        s
    }
}

/// Whether `s` is `-?[0-9]+`.
pub open spec fn is_integer_text(s: Seq<char>) -> bool {
    &&& unsigned_part(s).len() > 0
    &&& forall|k: int| 0 <= k < unsigned_part(s).len() ==> is_digit(#[trigger] unsigned_part(s)[k])
}

/// Integer literals are exactly a run of one or more ASCII digits, with at
/// most one leading minus sign: no other sign, no other character.
pub proof fn lemma_integer_text_is_minus_and_digits(s: Seq<char>)
    ensures
        is_integer_text(s) <==> ((s.len() > 0 && forall|k: int|
            0 <= k < s.len() ==> '0' <= #[trigger] s[k] && s[k] <= '9') || (s.len() > 1 && s[0]
            == '-' && forall|k: int| 1 <= k < s.len() ==> '0' <= #[trigger] s[k] && s[k] <= '9')),
{
    if s.len() > 0 && s[0] == '-' {
        assert forall|k: int| 0 <= k < s.len() - 1 implies #[trigger] s.drop_first()[k] == s[k + 1] by {}
        if is_integer_text(s) {
            assert forall|k: int| 1 <= k < s.len() implies '0' <= #[trigger] s[k] && s[k] <= '9' by {
                assert(is_digit(unsigned_part(s)[k - 1]));
            }
        }
        if s.len() > 1 && forall|k: int| 1 <= k < s.len() ==> '0' <= #[trigger] s[k] && s[k] <= '9' {
            assert forall|k: int| 0 <= k < unsigned_part(s).len() implies is_digit(
                #[trigger] unsigned_part(s)[k],
            ) by {
                assert(s[k + 1] == unsigned_part(s)[k]);
            }
        }
        assert(!('0' <= s[0] && s[0] <= '9'));
    } else {
        if is_integer_text(s) {
            assert forall|k: int| 0 <= k < s.len() implies '0' <= #[trigger] s[k] && s[k] <= '9' by {
                assert(is_digit(unsigned_part(s)[k]));
            }
        }
    }
}

/// A scalar run lexes as a number exactly when it is one or more ASCII
/// digits after at most one leading minus sign, and as a symbol otherwise.
pub proof fn lemma_scalar_runs_are_numbers_or_symbols(text: Seq<char>, i: int)
    requires
        0 <= i <= text.len(),
        sym_run(text, i) > 0,
    ensures
        ({
            let run = text.subrange(i, i + sym_run(text, i));
            let digits_from = |from: int|
                forall|k: int| from <= k < run.len() ==> '0' <= #[trigger] run[k] && run[k] <= '9';
            scan_scalar_spec(text, i) == Some((
                if (run.len() > 0 && digits_from(0)) || (run.len() > 1 && run[0] == '-'
                    && digits_from(1)) {
                    TokenKind::Number
                } else {
                    TokenKind::Symbol
                },
                sym_run(text, i),
            ))
        }),
{
    lemma_runs_bounded(text, i);
    lemma_integer_text_is_minus_and_digits(text.subrange(i, i + sym_run(text, i)));
}

/// A scalar run lexes as a number exactly when it is an integer literal: a
/// run that starts with `+`, for one, is a symbol.
pub proof fn lemma_plus_signed_runs_are_symbols(text: Seq<char>, i: int)
    requires
        0 <= i < text.len(),
        text[i] == '+',
        sym_run(text, i) > 0,
    ensures
        scan_scalar_spec(text, i) == Some((TokenKind::Symbol, sym_run(text, i))),
{
    let run = text.subrange(i, i + sym_run(text, i));
    lemma_runs_bounded(text, i);
    assert(run[0] == '+');
    lemma_integer_text_is_minus_and_digits(run);
}

/// Classify the scalar run at `i`: its kind and length, or nothing when no
/// symbol character starts there.
pub open spec fn scan_scalar_spec(text: Seq<char>, i: int) -> Option<(TokenKind, nat)> {
    let len = sym_run(text, i);
    if len == 0 {
        None
    } else if is_integer_text(text.subrange(i, i + len)) {
        Some((TokenKind::Number, len))
    } else {
        Some((TokenKind::Symbol, len))
    }
}

/// The span between character indices `i` and `j`, in bytes.
pub open spec fn span_of(text: Seq<char>, i: int, j: int) -> Span {
    Span { start: byte_at(text, i) as u32, end: byte_at(text, j) as u32 }
}

/// A lexing error of `kind` over characters `i..j`.
pub open spec fn error_at(sid: SourceId, text: Seq<char>, kind: LexErrorKind, i: int, j: int) -> LexError {
    LexError { origin: SyntaxOrigin { source: sid, span: span_of(text, i, j) }, kind }
}

/// Lex a sigil at `i` that must be immediately followed by a symbol.
pub open spec fn lex_binding_spec(
    sid: SourceId,
    text: Seq<char>,
    i: int,
    kind: TokenKind,
    error_kind: LexErrorKind,
) -> (Result<Token, LexError>, int) {
    match scan_scalar_spec(text, i + 1) {
        None => (Err(error_at(sid, text, error_kind, i, i + 1)), i + 1),
        Some((found, len)) => {
            let end = i + 1 + len;
            if found == TokenKind::Symbol {
                (Ok(Token { kind, span: span_of(text, i, end) }), end)
            } else {
                (Err(error_at(sid, text, error_kind, i, end)), end)
            }
        },
    }
}

/// A single-character token at `i`.
pub open spec fn single(text: Seq<char>, kind: TokenKind, i: int) -> (Result<Token, LexError>, int) {
    (Ok(Token { kind, span: span_of(text, i, i + 1) }), i + 1)
}

/// Lex one token (or error) at `i`, which is not trivia; the position after
/// it comes second.
pub open spec fn lex_one(sid: SourceId, text: Seq<char>, i: int) -> (Result<Token, LexError>, int) {
    let c = text[i];
    if c == '[' {
        single(text, TokenKind::VecStart, i)
    } else if c == ']' {
        single(text, TokenKind::VecEnd, i)
    } else if c == '(' {
        single(text, TokenKind::ListStart, i)
    } else if c == ')' {
        single(text, TokenKind::ListEnd, i)
    } else if c == '\'' {
        single(text, TokenKind::Quote, i)
    } else if c == '$' {
        lex_binding_spec(sid, text, i, TokenKind::Bind, LexErrorKind::BindInvalid)
    } else if c == '^' {
        lex_binding_spec(sid, text, i, TokenKind::Load, LexErrorKind::LoadInvalid)
    } else {
        match scan_scalar_spec(text, i) {
            Some((kind, len)) => (Ok(Token { kind, span: span_of(text, i, i + len) }), i + len),
            None => (Err(error_at(sid, text, LexErrorKind::UnknownCharacter, i, i + 1)), i + 1),
        }
    }
}

/// Lexing one item moves forward and stays within the text.
pub proof fn lemma_lex_one_bounded(sid: SourceId, text: Seq<char>, i: int)
    requires
        0 <= i < text.len(),
    ensures
        i < lex_one(sid, text, i).1 <= text.len(),
{
    lemma_runs_bounded(text, i);
    lemma_runs_bounded(text, i + 1);
}

/// Every item lexed from position `i` onwards, in order.
pub open spec fn lex_from(sid: SourceId, text: Seq<char>, i: int) -> Seq<Result<Token, LexError>>
    decreases text.len() - i,
{
    if i < 0 || i > text.len() {
        seq![]
    } else {
        let j = skip_trivia(text, i);
        if j >= text.len() {
            seq![]
        } else {
            proof {
                lemma_skip_trivia_bounded(text, i);
                lemma_lex_one_bounded(sid, text, j);
            }
            seq![lex_one(sid, text, j).0] + lex_from(sid, text, lex_one(sid, text, j).1)
        }
    }
}

/// Where program text starts: a single leading byte order mark is not part
/// of it.
pub open spec fn content_start(text: Seq<char>) -> int {
    if text.len() > 0 && text[0] == '\u{feff}' {
        1
    } else {
        0
    }
}

/// Every item lexed from a source, in order.
pub open spec fn lex_items(sid: SourceId, text: Seq<char>) -> Seq<Result<Token, LexError>> {
    lex_from(sid, text, content_start(text))
}

/// The tokens among lexed items, in order.
pub open spec fn ok_tokens(items: Seq<Result<Token, LexError>>) -> Seq<Token>
    decreases items.len(),
{
    if items.len() == 0 {
        seq![]
    } else {
        let prev = ok_tokens(items.drop_last());
        match items.last() {
            Ok(t) => prev.push(t),
            Err(_) => prev,
        }
    }
}

/// The errors among lexed items, in order.
pub open spec fn lex_errors(items: Seq<Result<Token, LexError>>) -> Seq<LexError>
    decreases items.len(),
{
    if items.len() == 0 {
        seq![]
    } else {
        let prev = lex_errors(items.drop_last());
        match items.last() {
            Ok(_) => prev,
            Err(e) => prev.push(e),
        }
    }
}

/// Whether `ds` reports exactly the errors `es`, in order.
pub open spec fn reports_lex_errors(ds: Seq<Diagnostic>, es: Seq<LexError>) -> bool {
    &&& ds.len() == es.len()
    &&& forall|k: int| 0 <= k < ds.len() ==> reports_lex_error(#[trigger] ds[k], es[k])
}

/// Lexing diagnostics are all fatal, so they count as errors one for one.
pub proof fn lemma_lex_reports_fatal(ds: Seq<Diagnostic>, es: Seq<LexError>)
    requires
        reports_lex_errors(ds, es),
    ensures
        count_fatal(ds) == ds.len(),
    decreases ds.len(),
{
    if ds.len() > 0 {
        let init = ds.drop_last();
        assert(reports_lex_errors(init, es.drop_last())) by {
            assert forall|k: int| 0 <= k < init.len() implies reports_lex_error(
                #[trigger] init[k],
                es.drop_last()[k],
            ) by {
                assert(init[k] == ds[k]);
            }
        }
        lemma_lex_reports_fatal(init, es.drop_last());
        assert(reports_lex_error(ds[ds.len() - 1], es[ds.len() - 1]));
        assert(is_fatal(lex_class(es[ds.len() - 1].kind)));
    }
}

/// Lexing from `i` yields at most one item per remaining character.
proof fn lemma_lex_from_len(sid: SourceId, text: Seq<char>, i: int)
    requires
        0 <= i <= text.len(),
    ensures
        lex_from(sid, text, i).len() <= text.len() - i,
    decreases text.len() - i,
{
    lemma_skip_trivia_bounded(text, i);
    let j = skip_trivia(text, i);
    if j < text.len() {
        lemma_lex_one_bounded(sid, text, j);
        lemma_lex_from_len(sid, text, lex_one(sid, text, j).1);
    }
}

/// There are no more tokens among items than items.
proof fn lemma_ok_tokens_len(items: Seq<Result<Token, LexError>>)
    ensures
        ok_tokens(items).len() <= items.len(),
    decreases items.len(),
{
    if items.len() > 0 {
        lemma_ok_tokens_len(items.drop_last());
    }
}

/// Lexing a text yields at most one token per character.
pub proof fn lemma_lexed_len(sid: SourceId, text: Seq<char>)
    ensures
        ok_tokens(lex_items(sid, text)).len() <= text.len(),
{
    lemma_lex_from_len(sid, text, content_start(text));
    lemma_ok_tokens_len(lex_items(sid, text));
}

/* What the parser may rely on */

/// Whether `span` is an ordered byte range of `text` whose ends fall between
/// characters.
pub open spec fn span_wf(text: Seq<char>, span: Span) -> bool {
    &&& span.start <= span.end
    &&& span.end <= byte_len(text)
    &&& is_boundary(text, span.start as int)
    &&& is_boundary(text, span.end as int)
}

/// Whether `t` is a token of `text`: its span is well formed, and a binding
/// token carries a name after its one-byte sigil, whose span is well formed
/// too.
pub open spec fn token_wf(text: Seq<char>, t: Token) -> bool {
    &&& span_wf(text, t.span)
    &&& (t.kind is Bind || t.kind is Load) ==> t.span.start + 1 < t.span.end && span_wf(
        text,
        Span { start: (t.span.start + 1) as u32, end: t.span.end },
    )
}

/// Whether every token of `ts` is a token of `text`.
pub open spec fn tokens_wf(text: Seq<char>, ts: Seq<Token>) -> bool {
    forall|k: int| 0 <= k < ts.len() ==> token_wf(text, #[trigger] ts[k])
}

/// Whether the span of every token of `ts` is well formed in `text`.
pub open spec fn spans_wf(text: Seq<char>, ts: Seq<Token>) -> bool {
    forall|k: int| 0 <= k < ts.len() ==> span_wf(text, (#[trigger] ts[k]).span)
}

/// The tokens of a text have spans of that text.
pub proof fn lemma_tokens_have_spans(text: Seq<char>, ts: Seq<Token>)
    requires
        tokens_wf(text, ts),
    ensures
        spans_wf(text, ts),
{
    assert forall|k: int| 0 <= k < ts.len() implies span_wf(text, (#[trigger] ts[k]).span) by {
        assert(token_wf(text, ts[k]));
    }
}

/// Whether a lexed item is a token of `text`, or an error at a well-formed
/// span of source `sid`.
pub open spec fn item_wf(sid: SourceId, text: Seq<char>, item: Result<Token, LexError>) -> bool {
    match item {
        Ok(t) => token_wf(text, t),
        Err(e) => e.origin.source == sid && span_wf(text, e.origin.span),
    }
}

proof fn lemma_span_of_wf(text: Seq<char>, i: int, j: int)
    requires
        0 <= i <= j <= text.len(),
        byte_len(text) <= MAX_SOURCE_LEN,
    ensures
        span_wf(text, span_of(text, i, j)),
        span_of(text, i, j).start == byte_at(text, i),
        span_of(text, i, j).end == byte_at(text, j),
{
    lemma_byte_at_mono(text, i, j);
    lemma_byte_at_mono(text, j, text.len() as int);
    lemma_byte_at_ends(text);
    crate::source::lemma_char_index_of(text, i);
    crate::source::lemma_char_index_of(text, j);
}

proof fn lemma_lex_one_wf(sid: SourceId, text: Seq<char>, i: int)
    requires
        0 <= i < text.len(),
        byte_len(text) <= MAX_SOURCE_LEN,
    ensures
        item_wf(sid, text, lex_one(sid, text, i).0),
{
    lemma_runs_bounded(text, i);
    lemma_runs_bounded(text, i + 1);
    lemma_span_of_wf(text, i, i + 1);
    let len = sym_run(text, i);
    if len > 0 {
        lemma_span_of_wf(text, i, i + len);
    }
    let c = text[i];
    if c == '$' || c == '^' {
        let after = sym_run(text, i + 1);
        lemma_span_of_wf(text, i, i + 1 + after);
        lemma_span_of_wf(text, i + 1, i + 1 + after);
        lemma_byte_at_step(text, i);
        lemma_byte_at_mono(text, i + 1, i + 1 + after);
        assert(char_width(c) == 1);
    }
}

proof fn lemma_lex_from_wf(sid: SourceId, text: Seq<char>, i: int)
    requires
        byte_len(text) <= MAX_SOURCE_LEN,
    ensures
        forall|k: int|
            0 <= k < lex_from(sid, text, i).len() ==> item_wf(
                sid,
                text,
                #[trigger] lex_from(sid, text, i)[k],
            ),
    decreases text.len() - i,
{
    if 0 <= i <= text.len() {
        let j = skip_trivia(text, i);
        if j < text.len() {
            lemma_skip_trivia_bounded(text, i);
            lemma_lex_one_bounded(sid, text, j);
            lemma_lex_one_wf(sid, text, j);
            let next = lex_one(sid, text, j).1;
            lemma_lex_from_wf(sid, text, next);
            let tail = lex_from(sid, text, next);
            let all = lex_from(sid, text, i);
            assert(all == seq![lex_one(sid, text, j).0] + tail);
            assert forall|k: int| 0 <= k < all.len() implies item_wf(sid, text, #[trigger] all[k]) by {
                if k > 0 {
                    assert(all[k] == tail[k - 1]);
                }
            }
        }
    }
}

proof fn lemma_filters_wf(sid: SourceId, text: Seq<char>, items: Seq<Result<Token, LexError>>)
    requires
        forall|k: int| 0 <= k < items.len() ==> item_wf(sid, text, #[trigger] items[k]),
    ensures
        tokens_wf(text, ok_tokens(items)),
        forall|k: int|
            0 <= k < lex_errors(items).len() ==> (#[trigger] lex_errors(items)[k]).origin.source
                == sid && span_wf(text, lex_errors(items)[k].origin.span),
    decreases items.len(),
{
    if items.len() > 0 {
        let prev = items.drop_last();
        assert forall|k: int| 0 <= k < prev.len() implies item_wf(sid, text, #[trigger] prev[k]) by {
            assert(prev[k] == items[k]);
        }
        lemma_filters_wf(sid, text, prev);
        assert(item_wf(sid, text, items[items.len() - 1]));
    }
}

/// Everything the lexer produces lies within the source it lexed: tokens are
/// tokens of the text, and errors sit at well-formed spans of that source.
pub proof fn lemma_lexed_wf(sid: SourceId, text: Seq<char>)
    requires
        byte_len(text) <= MAX_SOURCE_LEN,
    ensures
        tokens_wf(text, ok_tokens(lex_items(sid, text))),
        forall|k: int|
            0 <= k < lex_errors(lex_items(sid, text)).len() ==> (#[trigger] lex_errors(
                lex_items(sid, text),
            )[k]).origin.source == sid && span_wf(text, lex_errors(lex_items(sid, text))[k].origin.span),
{
    lemma_lex_from_wf(sid, text, content_start(text));
    lemma_filters_wf(sid, text, lex_items(sid, text));
}

/* Executable tokeniser */

/// Which characters a run is made of.
enum Run {
    /// Whitespace.
    Whitespace,
    /// Anything but a line feed.
    Line,
    /// Symbol material.
    Symbol,
}

spec fn run_spec(run: Run, text: Seq<char>, i: int) -> nat {
    match run {
        Run::Whitespace => ws_run(text, i),
        Run::Line => line_run(text, i),
        Run::Symbol => sym_run(text, i),
    }
}

/// Check if a given character is a valid character to be part of a symbol.
///
/// Control characters (`Cc`) and format characters (`Cf`) are excluded beyond
/// the restricted set, because both render as nothing.
pub fn is_valid_sym_char(c: char) -> (r: bool)
    ensures
        r == is_sym_char(c),
{
    let restricted = c == '\'' || c == '^' || c == '$' || c == '(' || c == ')' || c == '[' || c
        == ']' || c == ';' || is_whitespace(c);
    let control = c <= '\u{1f}' || ('\u{7f}' <= c && c <= '\u{9f}');
    !restricted && !control && !is_format(c)
}

/// Whether `c` is whitespace the lexer skips.
fn is_whitespace(c: char) -> (r: bool)
    ensures
        r == is_whitespace_char(c),
{
    c == '\r' || c == '\n' || c == '\t' || c == ' '
}

/// Check if the characters `text[start..end]` are `-?[0-9]+`.
pub fn is_integer(text: &Vec<char>, start: usize, end: usize) -> (r: bool)
    requires
        start <= end <= text@.len(),
    ensures
        r == is_integer_text(text@.subrange(start as int, end as int)),
{
    let ghost s = text@.subrange(start as int, end as int);
    let first = if start < end && text[start] == '-' {
        start + 1
    } else {
        start
    };
    let ghost digits = unsigned_part(s);
    assert(digits =~= text@.subrange(first as int, end as int));
    if first == end {
        return false;
    }
    let mut k = first;
    while k < end
        invariant
            first <= k <= end <= text@.len(),
            digits =~= text@.subrange(first as int, end as int),
            digits == unsigned_part(s),
            s == text@.subrange(start as int, end as int),
            forall|m: int| 0 <= m < k - first ==> is_digit(#[trigger] digits[m]),
        decreases end - k,
    {
        let c = text[k];
        if !('0' <= c && c <= '9') {
            assert(digits[k - first] == c);
            assert(!is_digit(digits[k - first]));
            return false;
        }
        k = k + 1;
    }
    true
}

/// Tokeniser state.
struct Tokeniser<'a> {
    /// Source being tokenised.
    source_id: SourceId,
    /// The source itself.
    source: &'a Source,
    /// The characters of the source.
    text: &'a Vec<char>,
    /// Character index of the current position.
    cursor: usize,
}

impl<'a> Tokeniser<'a> {
    spec fn inv(&self) -> bool {
        &&& self.source.wf()
        &&& self.text@ == self.source@
        &&& self.cursor <= self.text@.len()
        &&& self.text@.len() <= usize::MAX
    }

    /// Construct a tokeniser positioned at the start of program text.
    fn new(source_id: SourceId, table: &'a SourceTable) -> (r: Self)
        requires
            table.wf(),
            table.has_source(source_id),
        ensures
            r.inv(),
            r.source_id == source_id,
            r.text@ == table.text(source_id),
            r.cursor == content_start(r.text@),
    {
        let source = table.get_source(source_id);
        let text = source.char_vec();
        let _len = text.len();
        // A leading byte order mark is not program text.
        let cursor = if text.len() > 0 && text[0] == '\u{feff}' {
            1
        } else {
            0
        };
        Tokeniser { source_id, source, text, cursor }
    }

    /// The character at the cursor, or nothing at the end of the source.
    fn peek(&self) -> (r: Option<char>)
        requires
            self.inv(),
        ensures
            self.cursor < self.text@.len() ==> r == Some(self.text@[self.cursor as int]),
            self.cursor >= self.text@.len() ==> r is None,
    {
        if self.cursor < self.text.len() {
            Some(self.text[self.cursor])
        } else {
            None
        }
    }

    /// Length, in characters, of the maximal run of `run` characters starting
    /// at `from`.
    fn run_len(&self, run: Run, from: usize) -> (r: usize)
        requires
            self.inv(),
            from <= self.text@.len(),
        ensures
            r == run_spec(run, self.text@, from as int),
            from + r <= self.text@.len(),
    {
        let mut k = from;
        loop
            invariant
                from <= k <= self.text@.len(),
                run_spec(run, self.text@, from as int) == (k - from) + run_spec(
                    run,
                    self.text@,
                    k as int,
                ),
            ensures
                from <= k <= self.text@.len(),
                run_spec(run, self.text@, from as int) == k - from,
            decreases self.text@.len() - k,
        {
            if k >= self.text.len() {
                assert(run_spec(run, self.text@, k as int) == 0);
                break;
            }
            let c = self.text[k];
            let member = match run {
                Run::Whitespace => is_whitespace(c),
                Run::Line => c != '\n',
                Run::Symbol => is_valid_sym_char(c),
            };
            if !member {
                assert(run_spec(run, self.text@, k as int) == 0);
                break;
            }
            assert(run_spec(run, self.text@, k as int) == 1 + run_spec(run, self.text@, k + 1));
            k = k + 1;
        }
        k - from
    }

    /// Skip whitespace and comments from the cursor, stopping at the first
    /// character that begins a token.
    ///
    /// Trivia is liberal in what it swallows: nothing within it becomes a
    /// name, so a character that could not appear in a symbol is skipped here
    /// rather than reported.  Only a line feed ends a comment.
    fn skip_trivia(&mut self)
        requires
            old(self).inv(),
        ensures
            final(self).inv(),
            final(self).source == old(self).source,
            final(self).text == old(self).text,
            final(self).source_id == old(self).source_id,
            final(self).cursor == skip_trivia(old(self).text@, old(self).cursor as int),
    {
        let ghost text = self.text@;
        loop
            invariant
                self.inv(),
                self.source == old(self).source,
                self.text == old(self).text,
                text == self.text@,
                self.source_id == old(self).source_id,
                skip_trivia(text, self.cursor as int) == skip_trivia(text, old(self).cursor as int),
            decreases text.len() - self.cursor,
        {
            let ghost c = self.cursor as int;
            let ws = self.run_len(Run::Whitespace, self.cursor);
            assert(ws == ws_run(text, c));
            let j = self.cursor + ws;
            if j < self.text.len() && self.text[j] == ';' {
                let rest = self.run_len(Run::Line, j + 1);
                assert(skip_trivia(text, c) == skip_trivia(text, j + 1 + rest));
                self.cursor = j + 1 + rest;
            } else {
                assert(skip_trivia(text, c) == j);
                self.cursor = j;
                return;
            }
        }
    }

    /// The span of characters `cursor..cursor + len`.
    fn new_span(&self, len: usize) -> (r: Span)
        requires
            self.inv(),
            self.cursor + len <= self.text@.len(),
        ensures
            r == span_of(self.text@, self.cursor as int, self.cursor + len),
    {
        self.span_between(self.cursor, self.cursor + len)
    }

    /// The span of characters `i..j`.
    fn span_between(&self, i: usize, j: usize) -> (r: Span)
        requires
            self.inv(),
            i <= j <= self.text@.len(),
        ensures
            r == span_of(self.text@, i as int, j as int),
    {
        proof {
            lemma_byte_at_mono(self.text@, i as int, j as int);
        }
        Span::from_u32(self.source.offset_of(i), self.source.offset_of(j))
    }

    /// Construct a [`LexError`] of the given kind over `span`.
    fn error(&self, kind: LexErrorKind, span: Span) -> (r: LexError)
        ensures
            r == (LexError { origin: SyntaxOrigin { source: self.source_id, span }, kind }),
    {
        LexError { origin: SyntaxOrigin { source: self.source_id, span }, kind }
    }

    /// A token of `kind` covering exactly `len` characters at the cursor,
    /// advancing the cursor past them.
    fn emit_token(&mut self, kind: TokenKind, len: usize) -> (r: Token)
        requires
            old(self).inv(),
            old(self).cursor + len <= old(self).text@.len(),
        ensures
            final(self).inv(),
            final(self).source == old(self).source,
            final(self).text == old(self).text,
            final(self).source_id == old(self).source_id,
            final(self).cursor == old(self).cursor + len,
            r == (Token {
                kind,
                span: span_of(old(self).text@, old(self).cursor as int, old(self).cursor + len),
            }),
    {
        let token = Token { kind, span: self.new_span(len) };
        self.cursor = self.cursor + len;
        token
    }

    /// Classify the scalar run at `from` without consuming it.
    fn scan_scalar(&self, from: usize) -> (r: Option<(TokenKind, usize)>)
        requires
            self.inv(),
            from <= self.text@.len(),
        ensures
            r matches Some((k, len)) ==> scan_scalar_spec(self.text@, from as int) == Some(
                (k, len as nat),
            ) && from + len <= self.text@.len(),
            r is None ==> scan_scalar_spec(self.text@, from as int) is None,
    {
        let len = self.run_len(Run::Symbol, from);
        if len == 0 {
            None
        } else if is_integer(self.text, from, from + len) {
            Some((TokenKind::Number, len))
        } else {
            Some((TokenKind::Symbol, len))
        }
    }

    /// Lex a scalar (a number or a symbol) at the cursor, if there is one.
    fn lex_scalar(&mut self) -> (r: Option<Token>)
        requires
            old(self).inv(),
            old(self).cursor < old(self).text@.len(),
        ensures
            final(self).inv(),
            final(self).source == old(self).source,
            final(self).text == old(self).text,
            final(self).source_id == old(self).source_id,
            match scan_scalar_spec(old(self).text@, old(self).cursor as int) {
                Some((kind, len)) => r == Some(
                    Token {
                        kind,
                        span: span_of(old(self).text@, old(self).cursor as int, old(self).cursor + len),
                    },
                ) && final(self).cursor == old(self).cursor + len,
                None => r is None && final(self).cursor == old(self).cursor,
            },
    {
        match self.scan_scalar(self.cursor) {
            Some((kind, len)) => Some(self.emit_token(kind, len)),
            None => None,
        }
    }

    /// Lex an operator whose sigil sits at the cursor and which must be
    /// immediately followed by a symbol: [`TokenKind::Bind`] after `$` and
    /// [`TokenKind::Load`] after `^`.  The token spans sigil and symbol.
    fn lex_binding(&mut self, kind: TokenKind, error_kind: LexErrorKind) -> (r: Result<
        Token,
        LexError,
    >)
        requires
            old(self).inv(),
            old(self).cursor < old(self).text@.len(),
        ensures
            final(self).inv(),
            final(self).source == old(self).source,
            final(self).text == old(self).text,
            final(self).source_id == old(self).source_id,
            (r, final(self).cursor as int) == lex_binding_spec(
                old(self).source_id,
                old(self).text@,
                old(self).cursor as int,
                kind,
                error_kind,
            ),
    {
        let start = self.cursor;
        self.cursor = self.cursor + 1;
        match self.scan_scalar(self.cursor) {
            None => {
                let span = self.span_between(start, self.cursor);
                Err(self.error(error_kind, span))
            },
            Some((found, len)) => {
                self.cursor = self.cursor + len;
                let span = self.span_between(start, self.cursor);
                if found == TokenKind::Symbol {
                    Ok(Token { kind, span })
                } else {
                    Err(self.error(error_kind, span))
                }
            },
        }
    }

    /// Lex a single token at the cursor, which sits past trivia and before
    /// the end of the source.
    fn lex_singular(&mut self) -> (r: Result<Token, LexError>)
        requires
            old(self).inv(),
            old(self).cursor < old(self).text@.len(),
        ensures
            final(self).inv(),
            final(self).source == old(self).source,
            final(self).text == old(self).text,
            final(self).source_id == old(self).source_id,
            (r, final(self).cursor as int) == lex_one(
                old(self).source_id,
                old(self).text@,
                old(self).cursor as int,
            ),
    {
        let c = self.text[self.cursor];
        if c == '[' {
            Ok(self.emit_token(TokenKind::VecStart, 1))
        } else if c == ']' {
            Ok(self.emit_token(TokenKind::VecEnd, 1))
        } else if c == '(' {
            Ok(self.emit_token(TokenKind::ListStart, 1))
        } else if c == ')' {
            Ok(self.emit_token(TokenKind::ListEnd, 1))
        } else if c == '\'' {
            Ok(self.emit_token(TokenKind::Quote, 1))
        } else if c == '$' {
            self.lex_binding(TokenKind::Bind, LexErrorKind::BindInvalid)
        } else if c == '^' {
            self.lex_binding(TokenKind::Load, LexErrorKind::LoadInvalid)
        } else {
            match self.lex_scalar() {
                Some(token) => Ok(token),
                None => {
                    // Nothing could be lexed here, so skip just this
                    // character and carry on to accumulate further errors.
                    let span = self.new_span(1);
                    self.cursor = self.cursor + 1;
                    Err(self.error(LexErrorKind::UnknownCharacter, span))
                },
            }
        }
    }
}

/// Record a [`LexError`] as a diagnostic.
fn report(diagnostics: &mut Diagnostics, error: LexError)
    ensures
        final(diagnostics)@.len() == old(diagnostics)@.len() + 1,
        final(diagnostics)@.take(old(diagnostics)@.len() as int) == old(diagnostics)@,
        reports_lex_error(final(diagnostics)@.last(), error),
{
    diagnostics.push(Diagnostic::of_lex_error(error));
    assert(diagnostics@.take(old(diagnostics)@.len() as int) =~= old(diagnostics)@);
}

/// Tokenise the source given by `source_id` in `table`.
///
/// Returns the token stream if no errors arise, and always the diagnostics
/// reporting every error, in source order.
pub fn tokenise(source_id: SourceId, table: &SourceTable) -> (r: (Option<Vec<Token>>, Diagnostics))
    requires
        table.wf(),
        table.has_source(source_id),
    ensures
        r.0 is Some <==> lex_errors(lex_items(source_id, table.text(source_id))).len() == 0,
        r.0 matches Some(tokens) ==> tokens@ == ok_tokens(lex_items(source_id, table.text(source_id))),
        reports_lex_errors(r.1@, lex_errors(lex_items(source_id, table.text(source_id)))),
{
    let mut diagnostics = Diagnostics::new();
    let mut tokeniser = Tokeniser::new(source_id, table);
    let mut tokens: Vec<Token> = Vec::new();
    let ghost text = tokeniser.text@;
    let ghost all = lex_items(source_id, text);
    let ghost mut done: Seq<Result<Token, LexError>> = seq![];
    let mut clean = true;
    loop
        invariant
            tokeniser.inv(),
            tokeniser.text@ == text,
            tokeniser.source_id == source_id,
            text == table.text(source_id),
            done + lex_from(source_id, text, tokeniser.cursor as int) == all,
            tokens@ == ok_tokens(done),
            reports_lex_errors(diagnostics@, lex_errors(done)),
            clean == (lex_errors(done).len() == 0),
        ensures
            done == all,
            tokens@ == ok_tokens(done),
            reports_lex_errors(diagnostics@, lex_errors(done)),
            clean == (lex_errors(done).len() == 0),
        decreases text.len() - tokeniser.cursor,
    {
        let ghost before = tokeniser.cursor as int;
        tokeniser.skip_trivia();
        proof {
            lemma_skip_trivia_bounded(text, before);
        }
        if tokeniser.cursor >= tokeniser.text.len() {
            proof {
                assert(lex_from(source_id, text, before) =~= Seq::<Result<Token, LexError>>::empty());
                assert(done =~= all);
            }
            break;
        }
        let ghost at = tokeniser.cursor as int;
        let item = tokeniser.lex_singular();
        proof {
            lemma_lex_one_bounded(source_id, text, at);
            assert(lex_from(source_id, text, before) == seq![item] + lex_from(
                source_id,
                text,
                tokeniser.cursor as int,
            ));
            assert(done + seq![item] + lex_from(source_id, text, tokeniser.cursor as int) =~= all);
            assert((done.push(item)).drop_last() =~= done);
        }
        match item {
            Ok(token) => tokens.push(token),
            Err(error) => {
                let ghost prev = diagnostics@;
                report(&mut diagnostics, error);
                clean = false;
                proof {
                    let es = lex_errors(done.push(item));
                    assert forall|k: int| 0 <= k < diagnostics@.len() implies reports_lex_error(
                        #[trigger] diagnostics@[k],
                        es[k],
                    ) by {
                        if k < prev.len() {
                            assert(diagnostics@[k] == prev[k]);
                        }
                    }
                }
            },
        }
        proof {
            done = done.push(item);
        }
    }
    let tokens = if clean {
        Some(tokens)
    } else {
        None
    };
    (tokens, diagnostics)
}

} // verus!
