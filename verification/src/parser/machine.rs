//! What parsing means.
//!
//! The parser is a pushdown machine: each token either opens a frame, closes
//! one, or yields a form into the frame on top.  This module states that
//! machine over [`Shape`]s, the abstract forms a parse denotes, so that the
//! executable parser can be held to it and the laws of parsing proved once.
use vstd::prelude::*;
use crate::lexer::{Token, TokenKind, is_digit, span_wf, token_wf, tokens_wf};
use crate::parser::{ParseError, ParseErrorKind};
use crate::source::{SourceId, Span, SyntaxOrigin, byte_len, char_index_of};

verus! {

/// The abstract form a piece of syntax denotes: its category, with the span
/// it covers.  Names are not carried: the text under the span is the name.
pub enum Shape {
    /// An integer literal and its value.
    Int(i64, Span),
    /// A bare name.
    Call(Span),
    /// `$x`; the span includes the sigil.
    Bind(Span),
    /// `^x`; the span includes the sigil.
    Load(Span),
    /// A quote and the form it wraps.
    Quote(Box<Shape>, Span),
    /// `( .. )`.
    List(Seq<Shape>, Span),
    /// `[ .. ]`.
    Vector(Seq<Shape>, Span),
}

/// The span a shape covers.
pub open spec fn shape_span(s: Shape) -> Span {
    match s {
        Shape::Int(_, sp) => sp,
        Shape::Call(sp) => sp,
        Shape::Bind(sp) => sp,
        Shape::Load(sp) => sp,
        Shape::Quote(_, sp) => sp,
        Shape::List(_, sp) => sp,
        Shape::Vector(_, sp) => sp,
    }
}

/// Number of shapes in the tree rooted at `s`, `s` included.
pub open spec fn shape_count(s: Shape) -> nat
    decreases s,
{
    match s {
        Shape::Quote(inner, _) => 1 + shape_count(*inner),
        Shape::List(items, _) => 1 + shapes_count(items),
        Shape::Vector(items, _) => 1 + shapes_count(items),
        _ => 1,
    }
}

/// Number of shapes in the trees rooted at `ss`.
pub open spec fn shapes_count(ss: Seq<Shape>) -> nat
    decreases ss,
{
    if ss.len() == 0 {
        0
    } else {
        shapes_count(ss.drop_last()) + shape_count(ss.last())
    }
}

/// The smallest span covering both `a` and `b`.
pub open spec fn join_spans(a: Span, b: Span) -> Span {
    Span {
        start: if a.start <= b.start {
            a.start
        } else {
            b.start
        },
        end: if a.end >= b.end {
            a.end
        } else {
            b.end
        },
    }
}

/// The span of the name a binding token carries: everything after its
/// one-byte sigil.
pub open spec fn after_sigil(sp: Span) -> Span {
    Span { start: (sp.start + 1) as u32, end: sp.end }
}

/// The characters of `text` that `span` covers.
pub open spec fn span_chars(text: Seq<char>, span: Span) -> Seq<char> {
    text.subrange(char_index_of(text, span.start as int), char_index_of(text, span.end as int))
}

/* Integer literals */

/// The value of an ASCII digit.
pub open spec fn digit_value(c: char) -> nat {
    if c == '1' {
        1
    } else if c == '2' {
        2
    } else if c == '3' {
        3
    } else if c == '4' {
        4
    } else if c == '5' {
        5
    } else if c == '6' {
        6
    } else if c == '7' {
        7
    } else if c == '8' {
        8
    } else if c == '9' {
        9
    } else {
        0
    }
}

/// The value of a string of decimal digits.
pub open spec fn digits_value(ds: Seq<char>) -> nat
    decreases ds.len(),
{
    if ds.len() == 0 {
        0
    } else {
        digits_value(ds.drop_last()) * 10 + digit_value(ds.last())
    }
}

/// Whether `s` starts with a sign character.
pub open spec fn signed(s: Seq<char>) -> bool {
    s.len() > 0 && (s[0] == '-' || s[0] == '+')
}

/// The digits of a literal, after its sign if it has one.
pub open spec fn literal_digits(s: Seq<char>) -> Seq<char> {
    if signed(s) {
        s.skip(1)
    } else {
        s
    }
}

/// The value of an integer literal, an optional `+` or `-` followed by at
/// least one decimal digit, or `None` when `s` is not one.
pub open spec fn literal_value(s: Seq<char>) -> Option<int> {
    let ds = literal_digits(s);
    if ds.len() > 0 && forall|k: int| 0 <= k < ds.len() ==> is_digit(#[trigger] ds[k]) {
        Some(
            if s[0] == '-' {
                -digits_value(ds)
            } else {
                digits_value(ds) as int
            },
        )
    } else {
        None
    }
}

/// The `i64` an integer literal denotes, or `None` when `s` is not a literal
/// or its value does not fit.
pub open spec fn i64_literal(s: Seq<char>) -> Option<i64> {
    match literal_value(s) {
        Some(v) => if i64::MIN <= v <= i64::MAX {
            Some(v as i64)
        } else {
            None
        },
        None => None,
    }
}

/* The machine */

/// What a pending frame collects.
pub enum FrameShape {
    /// An open vector and what it holds so far.
    Vector(Seq<Shape>),
    /// An open list and what it holds so far.
    List(Seq<Shape>),
    /// A quote waiting for its form.
    Quote,
}

/// A frame the machine has opened and not yet closed.
pub struct PendingFrame {
    /// What it collects.
    pub kind: FrameShape,
    /// The span of the token that opened it.
    pub opening: Span,
    /// Whether forms yielded into it are in datum position.
    pub is_datum: bool,
}

/// The machine's state between tokens.
pub struct ParseState {
    /// Open frames, innermost last.
    pub stack: Seq<PendingFrame>,
    /// Completed top-level forms.
    pub forms: Seq<Shape>,
    /// Errors reported so far, in report order.
    pub errors: Seq<ParseError>,
}

/// The state before any token.
pub open spec fn initial_state() -> ParseState {
    ParseState { stack: seq![], forms: seq![], errors: seq![] }
}

/// A parse error of `kind` at `span` of source `sid`.
pub open spec fn parse_error_at(sid: SourceId, span: Span, kind: ParseErrorKind) -> ParseError {
    ParseError { origin: SyntaxOrigin { source: sid, span }, kind }
}

/// `st` with `e` reported.
pub open spec fn with_error(st: ParseState, e: ParseError) -> ParseState {
    ParseState { stack: st.stack, forms: st.forms, errors: st.errors.push(e) }
}

/// Whether the innermost open frame is in datum position.
pub open spec fn top_is_datum(stack: Seq<PendingFrame>) -> bool {
    stack.len() > 0 && stack.last().is_datum
}

/// Open a frame of `kind` at `opening`.  A quote or a list puts what it holds
/// in datum position, and datum position passes inward.
pub open spec fn open_frame(st: ParseState, kind: FrameShape, opening: Span) -> ParseState {
    let frame = PendingFrame {
        kind,
        opening,
        is_datum: top_is_datum(st.stack) || kind is Quote || kind is List,
    };
    ParseState { stack: st.stack.push(frame), forms: st.forms, errors: st.errors }
}

/// Yield the completed `form` into the innermost frame.
///
/// With no frame open it becomes a top-level form.  A container takes it as
/// its next element.  A quote is completed by it and is itself yielded to
/// the frame below.  A binding yielded into a frame in datum position is
/// reported, and still kept.
pub open spec fn deposit(sid: SourceId, st: ParseState, form: Shape) -> ParseState
    decreases st.stack.len(),
{
    if st.stack.len() == 0 {
        ParseState { stack: st.stack, forms: st.forms.push(form), errors: st.errors }
    } else {
        let top = st.stack.last();
        let rest = st.stack.drop_last();
        let errors = if top.is_datum && (form is Bind || form is Load) {
            st.errors.push(parse_error_at(sid, shape_span(form), ParseErrorKind::BindingInDatum))
        } else {
            st.errors
        };
        match top.kind {
            FrameShape::Vector(cs) => ParseState {
                stack: rest.push(
                    PendingFrame {
                        kind: FrameShape::Vector(cs.push(form)),
                        opening: top.opening,
                        is_datum: top.is_datum,
                    },
                ),
                forms: st.forms,
                errors,
            },
            FrameShape::List(cs) => ParseState {
                stack: rest.push(
                    PendingFrame {
                        kind: FrameShape::List(cs.push(form)),
                        opening: top.opening,
                        is_datum: top.is_datum,
                    },
                ),
                forms: st.forms,
                errors,
            },
            FrameShape::Quote => deposit(
                sid,
                ParseState { stack: rest, forms: st.forms, errors },
                Shape::Quote(Box::new(form), join_spans(top.opening, shape_span(form))),
            ),
        }
    }
}

/// Close the innermost container with the closer token `closer`.
///
/// A pending quote on top has no form: it is reported and dropped, and the
/// closer tried again below it.  A container of the other kind is reported
/// as mismatched and closed anyway.  With nothing open the closer is
/// reported as unexpected.  A closed container spans from its opener to its
/// closer.
pub open spec fn close(sid: SourceId, st: ParseState, closer: Token) -> ParseState
    decreases st.stack.len(),
{
    if st.stack.len() == 0 {
        with_error(st, parse_error_at(sid, closer.span, ParseErrorKind::UnexpectedCloser))
    } else {
        let top = st.stack.last();
        let popped = ParseState { stack: st.stack.drop_last(), forms: st.forms, errors: st.errors };
        let whole = join_spans(top.opening, closer.span);
        let mismatched = with_error(
            popped,
            parse_error_at(sid, whole, ParseErrorKind::MismatchedCloser),
        );
        match top.kind {
            FrameShape::Vector(cs) => if closer.kind is VecEnd {
                deposit(sid, popped, Shape::Vector(cs, whole))
            } else {
                deposit(sid, mismatched, Shape::Vector(cs, whole))
            },
            FrameShape::List(cs) => if closer.kind is ListEnd {
                deposit(sid, popped, Shape::List(cs, whole))
            } else {
                deposit(sid, mismatched, Shape::List(cs, whole))
            },
            FrameShape::Quote => close(
                sid,
                with_error(
                    popped,
                    parse_error_at(sid, top.opening, ParseErrorKind::QuoteWithoutForm),
                ),
                closer,
            ),
        }
    }
}

/// One step of the machine on token `t` of source `sid`, whose text is
/// `text`.
pub open spec fn step(sid: SourceId, text: Seq<char>, st: ParseState, t: Token) -> ParseState {
    match t.kind {
        TokenKind::VecStart => open_frame(st, FrameShape::Vector(seq![]), t.span),
        TokenKind::ListStart => open_frame(st, FrameShape::List(seq![]), t.span),
        TokenKind::Quote => {
            let reported = if st.stack.len() > 0 && st.stack.last().kind is Quote {
                with_error(
                    st,
                    parse_error_at(
                        sid,
                        join_spans(st.stack.last().opening, t.span),
                        ParseErrorKind::NestedQuote,
                    ),
                )
            } else {
                st
            };
            open_frame(reported, FrameShape::Quote, t.span)
        },
        TokenKind::Number => match i64_literal(span_chars(text, t.span)) {
            Some(n) => deposit(sid, st, Shape::Int(n, t.span)),
            None => with_error(st, parse_error_at(sid, t.span, ParseErrorKind::IntOverflow)),
        },
        TokenKind::Symbol => deposit(sid, st, Shape::Call(t.span)),
        TokenKind::Bind => deposit(sid, st, Shape::Bind(t.span)),
        TokenKind::Load => deposit(sid, st, Shape::Load(t.span)),
        TokenKind::VecEnd => close(sid, st, t),
        TokenKind::ListEnd => close(sid, st, t),
    }
}

/// The machine's state after running over `tokens`.
pub open spec fn run(sid: SourceId, text: Seq<char>, tokens: Seq<Token>) -> ParseState
    decreases tokens.len(),
{
    if tokens.len() == 0 {
        initial_state()
    } else {
        step(sid, text, run(sid, text, tokens.drop_last()), tokens.last())
    }
}

/// The error for a frame still open when the tokens run out.
pub open spec fn unclosed_error(sid: SourceId, f: PendingFrame) -> ParseError {
    parse_error_at(
        sid,
        f.opening,
        match f.kind {
            FrameShape::Vector(_) => ParseErrorKind::UnterminatedVector,
            FrameShape::List(_) => ParseErrorKind::UnterminatedList,
            FrameShape::Quote => ParseErrorKind::QuoteWithoutForm,
        },
    )
}

/// The errors for the frames still open, outermost first.
pub open spec fn unclosed_errors(sid: SourceId, stack: Seq<PendingFrame>) -> Seq<ParseError> {
    stack.map_values(|f: PendingFrame| unclosed_error(sid, f))
}

/// Every error parsing `tokens` reports, in report order.
pub open spec fn parse_errors(sid: SourceId, text: Seq<char>, tokens: Seq<Token>) -> Seq<
    ParseError,
> {
    let st = run(sid, text, tokens);
    st.errors + unclosed_errors(sid, st.stack)
}

/// The top-level shapes parsing `tokens` denotes.
pub open spec fn parse_shapes(sid: SourceId, text: Seq<char>, tokens: Seq<Token>) -> Seq<Shape> {
    run(sid, text, tokens).forms
}

/* Origins a run registers */

/// The spans of the quotes that yielding `form` into `stack` completes,
/// innermost first.
pub open spec fn deposit_spans(stack: Seq<PendingFrame>, form: Shape) -> Seq<Span>
    decreases stack.len(),
{
    if stack.len() == 0 {
        seq![]
    } else if stack.last().kind is Quote {
        let whole = join_spans(stack.last().opening, shape_span(form));
        seq![whole] + deposit_spans(stack.drop_last(), Shape::Quote(Box::new(form), whole))
    } else {
        seq![]
    }
}

/// The spans of the shapes that closing the innermost container with
/// `closer` completes: the container, then the quotes it completes.
/// Pending quotes above it are dropped and complete nothing.
pub open spec fn close_spans(stack: Seq<PendingFrame>, closer: Token) -> Seq<Span>
    decreases stack.len(),
{
    if stack.len() == 0 {
        seq![]
    } else {
        let top = stack.last();
        let whole = join_spans(top.opening, closer.span);
        match top.kind {
            FrameShape::Vector(cs) => seq![whole] + deposit_spans(
                stack.drop_last(),
                Shape::Vector(cs, whole),
            ),
            FrameShape::List(cs) => seq![whole] + deposit_spans(
                stack.drop_last(),
                Shape::List(cs, whole),
            ),
            FrameShape::Quote => close_spans(stack.drop_last(), closer),
        }
    }
}

/// The spans of the shapes one step on token `t` of `text` completes, in
/// order: a literal or name first, then what yielding it completes.
pub open spec fn step_spans(text: Seq<char>, st: ParseState, t: Token) -> Seq<Span> {
    match t.kind {
        TokenKind::Number => match i64_literal(span_chars(text, t.span)) {
            Some(n) => seq![t.span] + deposit_spans(st.stack, Shape::Int(n, t.span)),
            None => seq![],
        },
        TokenKind::Symbol => seq![t.span] + deposit_spans(st.stack, Shape::Call(t.span)),
        TokenKind::Bind => seq![t.span] + deposit_spans(st.stack, Shape::Bind(t.span)),
        TokenKind::Load => seq![t.span] + deposit_spans(st.stack, Shape::Load(t.span)),
        TokenKind::VecEnd => close_spans(st.stack, t),
        TokenKind::ListEnd => close_spans(st.stack, t),
        _ => seq![],
    }
}

/// The spans of every shape a run over `tokens` completes, in order.
pub open spec fn run_spans(sid: SourceId, text: Seq<char>, tokens: Seq<Token>) -> Seq<Span>
    decreases tokens.len(),
{
    if tokens.len() == 0 {
        seq![]
    } else {
        run_spans(sid, text, tokens.drop_last()) + step_spans(
            text,
            run(sid, text, tokens.drop_last()),
            tokens.last(),
        )
    }
}

/// The origins in source `sid` of `spans`.
pub open spec fn origins_in(sid: SourceId, spans: Seq<Span>) -> Seq<SyntaxOrigin> {
    spans.map_values(|sp: Span| SyntaxOrigin { source: sid, span: sp })
}

/* Laws */

/// Whether `t` closes a container.
pub open spec fn is_closer_kind(k: TokenKind) -> bool {
    k is VecEnd || k is ListEnd
}

/// Number of tokens of `ts` that do not close a container.
pub open spec fn non_closer_count(ts: Seq<Token>) -> nat
    decreases ts.len(),
{
    if ts.len() == 0 {
        0
    } else {
        non_closer_count(ts.drop_last()) + if is_closer_kind(ts.last().kind) {
            0nat
        } else {
            1nat
        }
    }
}

/// Number of shapes held by a pending frame, itself included.
pub open spec fn frame_count(f: PendingFrame) -> nat {
    match f.kind {
        FrameShape::Vector(cs) => 1 + shapes_count(cs),
        FrameShape::List(cs) => 1 + shapes_count(cs),
        FrameShape::Quote => 1,
    }
}

/// Number of shapes held by pending frames.
pub open spec fn frames_count(stack: Seq<PendingFrame>) -> nat
    decreases stack.len(),
{
    if stack.len() == 0 {
        0
    } else {
        frames_count(stack.drop_last()) + frame_count(stack.last())
    }
}

/// Number of shapes in a state, counting each open frame as the one it will
/// become.
pub open spec fn state_count(st: ParseState) -> nat {
    shapes_count(st.forms) + frames_count(st.stack)
}

proof fn lemma_shapes_count_push(ss: Seq<Shape>, s: Shape)
    ensures
        shapes_count(ss.push(s)) == shapes_count(ss) + shape_count(s),
{
    assert(ss.push(s).drop_last() =~= ss);
}

proof fn lemma_frames_count_push(stack: Seq<PendingFrame>, f: PendingFrame)
    ensures
        frames_count(stack.push(f)) == frames_count(stack) + frame_count(f),
{
    assert(stack.push(f).drop_last() =~= stack);
}

pub(crate) proof fn lemma_deposit_count(sid: SourceId, st: ParseState, form: Shape)
    ensures
        state_count(deposit(sid, st, form)) == state_count(st) + shape_count(form),
        deposit(sid, st, form).errors.len() >= st.errors.len(),
    decreases st.stack.len(),
{
    if st.stack.len() == 0 {
        lemma_shapes_count_push(st.forms, form);
    } else {
        let top = st.stack.last();
        let rest = st.stack.drop_last();
        assert(rest.push(top) =~= st.stack);
        lemma_frames_count_push(rest, top);
        match top.kind {
            FrameShape::Vector(cs) => {
                let nf = PendingFrame {
                    kind: FrameShape::Vector(cs.push(form)),
                    opening: top.opening,
                    is_datum: top.is_datum,
                };
                lemma_frames_count_push(rest, nf);
                lemma_shapes_count_push(cs, form);
            },
            FrameShape::List(cs) => {
                let nf = PendingFrame {
                    kind: FrameShape::List(cs.push(form)),
                    opening: top.opening,
                    is_datum: top.is_datum,
                };
                lemma_frames_count_push(rest, nf);
                lemma_shapes_count_push(cs, form);
            },
            FrameShape::Quote => {
                let errors = if top.is_datum && (form is Bind || form is Load) {
                    st.errors.push(
                        parse_error_at(sid, shape_span(form), ParseErrorKind::BindingInDatum),
                    )
                } else {
                    st.errors
                };
                lemma_deposit_count(
                    sid,
                    ParseState { stack: rest, forms: st.forms, errors },
                    Shape::Quote(Box::new(form), join_spans(top.opening, shape_span(form))),
                );
            },
        }
    }
}

pub(crate) proof fn lemma_close_count(sid: SourceId, st: ParseState, closer: Token)
    requires
        is_closer_kind(closer.kind),
    ensures
        close(sid, st, closer).errors.len() >= st.errors.len(),
        close(sid, st, closer).errors.len() == 0 ==> state_count(close(sid, st, closer))
            == state_count(st),
    decreases st.stack.len(),
{
    if st.stack.len() > 0 {
        let top = st.stack.last();
        let rest = st.stack.drop_last();
        let popped = ParseState { stack: rest, forms: st.forms, errors: st.errors };
        let whole = join_spans(top.opening, closer.span);
        assert(rest.push(top) =~= st.stack);
        lemma_frames_count_push(rest, top);
        let mismatched = with_error(
            popped,
            parse_error_at(sid, whole, ParseErrorKind::MismatchedCloser),
        );
        match top.kind {
            FrameShape::Vector(cs) => {
                lemma_deposit_count(sid, popped, Shape::Vector(cs, whole));
                lemma_deposit_count(sid, mismatched, Shape::Vector(cs, whole));
            },
            FrameShape::List(cs) => {
                lemma_deposit_count(sid, popped, Shape::List(cs, whole));
                lemma_deposit_count(sid, mismatched, Shape::List(cs, whole));
            },
            FrameShape::Quote => {
                lemma_close_count(
                    sid,
                    with_error(
                        popped,
                        parse_error_at(sid, top.opening, ParseErrorKind::QuoteWithoutForm),
                    ),
                    closer,
                );
            },
        }
    }
}

pub(crate) proof fn lemma_step_count(sid: SourceId, text: Seq<char>, st: ParseState, t: Token)
    ensures
        step(sid, text, st, t).errors.len() >= st.errors.len(),
        step(sid, text, st, t).errors.len() == 0 ==> state_count(step(sid, text, st, t))
            == state_count(st) + if is_closer_kind(t.kind) {
            0nat
        } else {
            1nat
        },
{
    match t.kind {
        TokenKind::VecStart => {
            lemma_frames_count_push(
                st.stack,
                PendingFrame {
                    kind: FrameShape::Vector(seq![]),
                    opening: t.span,
                    is_datum: top_is_datum(st.stack),
                },
            );
        },
        TokenKind::ListStart => {
            lemma_frames_count_push(
                st.stack,
                PendingFrame { kind: FrameShape::List(seq![]), opening: t.span, is_datum: true },
            );
        },
        TokenKind::Quote => {
            lemma_frames_count_push(
                st.stack,
                PendingFrame { kind: FrameShape::Quote, opening: t.span, is_datum: true },
            );
        },
        TokenKind::Number => {
            if let Some(n) = i64_literal(span_chars(text, t.span)) {
                lemma_deposit_count(sid, st, Shape::Int(n, t.span));
            }
        },
        TokenKind::Symbol => {
            lemma_deposit_count(sid, st, Shape::Call(t.span));
        },
        TokenKind::Bind => {
            lemma_deposit_count(sid, st, Shape::Bind(t.span));
        },
        TokenKind::Load => {
            lemma_deposit_count(sid, st, Shape::Load(t.span));
        },
        TokenKind::VecEnd => {
            lemma_close_count(sid, st, t);
        },
        TokenKind::ListEnd => {
            lemma_close_count(sid, st, t);
        },
    }
}

proof fn lemma_run_count(sid: SourceId, text: Seq<char>, tokens: Seq<Token>)
    ensures
        run(sid, text, tokens).errors.len() == 0 ==> state_count(run(sid, text, tokens))
            == non_closer_count(tokens),
    decreases tokens.len(),
{
    if tokens.len() > 0 {
        lemma_run_count(sid, text, tokens.drop_last());
        lemma_step_count(sid, text, run(sid, text, tokens.drop_last()), tokens.last());
    }
}

/// A clean parse loses and invents nothing: it denotes exactly one shape per
/// token that does not close a container.
pub proof fn lemma_clean_parse_count(sid: SourceId, text: Seq<char>, tokens: Seq<Token>)
    requires
        parse_errors(sid, text, tokens).len() == 0,
    ensures
        shapes_count(parse_shapes(sid, text, tokens)) == non_closer_count(tokens),
{
    let st = run(sid, text, tokens);
    lemma_run_count(sid, text, tokens);
    assert(st.stack.len() == 0) by {
        assert(unclosed_errors(sid, st.stack).len() == st.stack.len());
    }
}

/* Where names and literals lie */

/// Whether every name and literal in the tree rooted at `s` covers a well
/// formed span of `text`.
pub open spec fn leaves_wf(text: Seq<char>, s: Shape) -> bool
    decreases s,
{
    match s {
        Shape::Int(_, sp) => span_wf(text, sp),
        Shape::Call(sp) => span_wf(text, sp),
        Shape::Bind(sp) => span_wf(text, sp),
        Shape::Load(sp) => span_wf(text, sp),
        Shape::Quote(inner, _) => leaves_wf(text, *inner),
        Shape::List(items, _) => forall|k: int| 0 <= k < items.len() ==> leaves_wf(text, #[trigger] items[k]),
        Shape::Vector(items, _) => forall|k: int|
            0 <= k < items.len() ==> leaves_wf(text, #[trigger] items[k]),
    }
}

/// [`leaves_wf`] for every shape of `ss`.
pub open spec fn all_leaves_wf(text: Seq<char>, ss: Seq<Shape>) -> bool {
    forall|k: int| 0 <= k < ss.len() ==> leaves_wf(text, #[trigger] ss[k])
}

/// [`leaves_wf`] for everything a frame has collected.
pub open spec fn frame_leaves_wf(text: Seq<char>, f: PendingFrame) -> bool {
    match f.kind {
        FrameShape::Vector(cs) => all_leaves_wf(text, cs),
        FrameShape::List(cs) => all_leaves_wf(text, cs),
        FrameShape::Quote => true,
    }
}

/// [`leaves_wf`] for every form and every frame of a state.
pub open spec fn state_leaves_wf(text: Seq<char>, st: ParseState) -> bool {
    &&& all_leaves_wf(text, st.forms)
    &&& forall|j: int| 0 <= j < st.stack.len() ==> frame_leaves_wf(text, #[trigger] st.stack[j])
}

proof fn lemma_all_leaves_push(text: Seq<char>, ss: Seq<Shape>, s: Shape)
    requires
        all_leaves_wf(text, ss),
        leaves_wf(text, s),
    ensures
        all_leaves_wf(text, ss.push(s)),
{
    assert forall|k: int| 0 <= k < ss.push(s).len() implies leaves_wf(text, #[trigger] ss.push(s)[k]) by {
        if k < ss.len() {
            assert(ss.push(s)[k] == ss[k]);
        }
    }
}

proof fn lemma_deposit_leaves(sid: SourceId, text: Seq<char>, st: ParseState, form: Shape)
    requires
        state_leaves_wf(text, st),
        leaves_wf(text, form),
    ensures
        state_leaves_wf(text, deposit(sid, st, form)),
    decreases st.stack.len(),
{
    if st.stack.len() == 0 {
        lemma_all_leaves_push(text, st.forms, form);
    } else {
        let top = st.stack.last();
        let rest = st.stack.drop_last();
        assert(frame_leaves_wf(text, st.stack[st.stack.len() - 1]));
        let errors = if top.is_datum && (form is Bind || form is Load) {
            st.errors.push(parse_error_at(sid, shape_span(form), ParseErrorKind::BindingInDatum))
        } else {
            st.errors
        };
        match top.kind {
            FrameShape::Vector(cs) => {
                let nf = PendingFrame {
                    kind: FrameShape::Vector(cs.push(form)),
                    opening: top.opening,
                    is_datum: top.is_datum,
                };
                lemma_all_leaves_push(text, cs, form);
                let ns = rest.push(nf);
                assert forall|j: int| 0 <= j < ns.len() implies frame_leaves_wf(text, #[trigger] ns[j]) by {
                    if j < rest.len() {
                        assert(ns[j] == st.stack[j]);
                    }
                }
            },
            FrameShape::List(cs) => {
                let nf = PendingFrame {
                    kind: FrameShape::List(cs.push(form)),
                    opening: top.opening,
                    is_datum: top.is_datum,
                };
                lemma_all_leaves_push(text, cs, form);
                let ns = rest.push(nf);
                assert forall|j: int| 0 <= j < ns.len() implies frame_leaves_wf(text, #[trigger] ns[j]) by {
                    if j < rest.len() {
                        assert(ns[j] == st.stack[j]);
                    }
                }
            },
            FrameShape::Quote => {
                let below = ParseState { stack: rest, forms: st.forms, errors };
                assert forall|j: int| 0 <= j < rest.len() implies frame_leaves_wf(text, #[trigger] rest[j]) by {
                    assert(rest[j] == st.stack[j]);
                }
                let q = Shape::Quote(Box::new(form), join_spans(top.opening, shape_span(form)));
                assert(leaves_wf(text, q));
                lemma_deposit_leaves(sid, text, below, q);
            },
        }
    }
}

proof fn lemma_close_leaves(sid: SourceId, text: Seq<char>, st: ParseState, closer: Token)
    requires
        state_leaves_wf(text, st),
    ensures
        state_leaves_wf(text, close(sid, st, closer)),
    decreases st.stack.len(),
{
    if st.stack.len() > 0 {
        let top = st.stack.last();
        let rest = st.stack.drop_last();
        let popped = ParseState { stack: rest, forms: st.forms, errors: st.errors };
        let whole = join_spans(top.opening, closer.span);
        assert(frame_leaves_wf(text, st.stack[st.stack.len() - 1]));
        assert forall|j: int| 0 <= j < rest.len() implies frame_leaves_wf(text, #[trigger] rest[j]) by {
            assert(rest[j] == st.stack[j]);
        }
        let mismatched = with_error(
            popped,
            parse_error_at(sid, whole, ParseErrorKind::MismatchedCloser),
        );
        match top.kind {
            FrameShape::Vector(cs) => {
                assert(leaves_wf(text, Shape::Vector(cs, whole)));
                lemma_deposit_leaves(sid, text, popped, Shape::Vector(cs, whole));
                lemma_deposit_leaves(sid, text, mismatched, Shape::Vector(cs, whole));
            },
            FrameShape::List(cs) => {
                assert(leaves_wf(text, Shape::List(cs, whole)));
                lemma_deposit_leaves(sid, text, popped, Shape::List(cs, whole));
                lemma_deposit_leaves(sid, text, mismatched, Shape::List(cs, whole));
            },
            FrameShape::Quote => {
                lemma_close_leaves(
                    sid,
                    text,
                    with_error(
                        popped,
                        parse_error_at(sid, top.opening, ParseErrorKind::QuoteWithoutForm),
                    ),
                    closer,
                );
            },
        }
    }
}

proof fn lemma_step_leaves(sid: SourceId, text: Seq<char>, st: ParseState, t: Token)
    requires
        state_leaves_wf(text, st),
        token_wf(text, t),
    ensures
        state_leaves_wf(text, step(sid, text, st, t)),
{
    match t.kind {
        TokenKind::VecStart | TokenKind::ListStart | TokenKind::Quote => {
            let st2 = step(sid, text, st, t);
            assert forall|j: int| 0 <= j < st2.stack.len() implies frame_leaves_wf(
                text,
                #[trigger] st2.stack[j],
            ) by {
                if j < st.stack.len() {
                    assert(st2.stack[j] == st.stack[j]);
                } else {
                    assert(all_leaves_wf(text, Seq::<Shape>::empty()));
                }
            }
        },
        TokenKind::Number => {
            if let Some(n) = i64_literal(span_chars(text, t.span)) {
                lemma_deposit_leaves(sid, text, st, Shape::Int(n, t.span));
            }
        },
        TokenKind::Symbol => {
            lemma_deposit_leaves(sid, text, st, Shape::Call(t.span));
        },
        TokenKind::Bind => {
            lemma_deposit_leaves(sid, text, st, Shape::Bind(t.span));
        },
        TokenKind::Load => {
            lemma_deposit_leaves(sid, text, st, Shape::Load(t.span));
        },
        TokenKind::VecEnd | TokenKind::ListEnd => {
            lemma_close_leaves(sid, text, st, t);
        },
    }
}

/// Every name and literal a parse denotes covers a token of the text.
pub proof fn lemma_parse_leaves_wf(sid: SourceId, text: Seq<char>, tokens: Seq<Token>)
    requires
        tokens_wf(text, tokens),
    ensures
        all_leaves_wf(text, parse_shapes(sid, text, tokens)),
        state_leaves_wf(text, run(sid, text, tokens)),
    decreases tokens.len(),
{
    if tokens.len() > 0 {
        assert(tokens_wf(text, tokens.drop_last())) by {
            assert forall|k: int| 0 <= k < tokens.drop_last().len() implies token_wf(
                text,
                #[trigger] tokens.drop_last()[k],
            ) by {
                assert(tokens.drop_last()[k] == tokens[k]);
            }
        }
        lemma_parse_leaves_wf(sid, text, tokens.drop_last());
        assert(token_wf(text, tokens[tokens.len() - 1]));
        lemma_step_leaves(sid, text, run(sid, text, tokens.drop_last()), tokens.last());
    }
}

/* Where errors lie */

/// Whether parse error `e` lies at a well-formed span of source `sid`, whose
/// text is `text`.
pub open spec fn error_wf(sid: SourceId, text: Seq<char>, e: ParseError) -> bool {
    e.origin.source == sid && span_wf(text, e.origin.span)
}

/// [`error_wf`] for every error of `es`.
pub open spec fn errors_wf(sid: SourceId, text: Seq<char>, es: Seq<ParseError>) -> bool {
    forall|k: int| 0 <= k < es.len() ==> error_wf(sid, text, #[trigger] es[k])
}

/// Whether every error a state reports, and the opening of every frame it
/// holds, lies at a well-formed span.
pub open spec fn state_spans_wf(sid: SourceId, text: Seq<char>, st: ParseState) -> bool {
    &&& errors_wf(sid, text, st.errors)
    &&& forall|j: int| 0 <= j < st.stack.len() ==> span_wf(text, #[trigger] st.stack[j].opening)
}

/// The span covering two well-formed spans is well formed.
proof fn lemma_join_wf(text: Seq<char>, a: Span, b: Span)
    requires
        span_wf(text, a),
        span_wf(text, b),
    ensures
        span_wf(text, join_spans(a, b)),
{
}

proof fn lemma_errors_push(sid: SourceId, text: Seq<char>, es: Seq<ParseError>, e: ParseError)
    requires
        errors_wf(sid, text, es),
        error_wf(sid, text, e),
    ensures
        errors_wf(sid, text, es.push(e)),
{
    assert forall|k: int| 0 <= k < es.push(e).len() implies error_wf(sid, text, #[trigger] es.push(e)[k]) by {
        if k < es.len() {
            assert(es.push(e)[k] == es[k]);
        }
    }
}

proof fn lemma_deposit_spans(sid: SourceId, text: Seq<char>, st: ParseState, form: Shape)
    requires
        state_spans_wf(sid, text, st),
        leaves_wf(text, form),
    ensures
        state_spans_wf(sid, text, deposit(sid, st, form)),
    decreases st.stack.len(),
{
    if st.stack.len() > 0 {
        let top = st.stack.last();
        let rest = st.stack.drop_last();
        let e = parse_error_at(sid, shape_span(form), ParseErrorKind::BindingInDatum);
        if top.is_datum && (form is Bind || form is Load) {
            lemma_errors_push(sid, text, st.errors, e);
        }
        let errors = if top.is_datum && (form is Bind || form is Load) {
            st.errors.push(e)
        } else {
            st.errors
        };
        assert forall|j: int| 0 <= j < rest.len() implies span_wf(text, #[trigger] rest[j].opening) by {
            assert(rest[j] == st.stack[j]);
        }
        assert(span_wf(text, st.stack[st.stack.len() - 1].opening));
        match top.kind {
            FrameShape::Vector(cs) => {
                let ns = rest.push(
                    PendingFrame {
                        kind: FrameShape::Vector(cs.push(form)),
                        opening: top.opening,
                        is_datum: top.is_datum,
                    },
                );
                assert forall|j: int| 0 <= j < ns.len() implies span_wf(text, #[trigger] ns[j].opening) by {
                    if j < rest.len() {
                        assert(ns[j] == rest[j]);
                    }
                }
            },
            FrameShape::List(cs) => {
                let ns = rest.push(
                    PendingFrame {
                        kind: FrameShape::List(cs.push(form)),
                        opening: top.opening,
                        is_datum: top.is_datum,
                    },
                );
                assert forall|j: int| 0 <= j < ns.len() implies span_wf(text, #[trigger] ns[j].opening) by {
                    if j < rest.len() {
                        assert(ns[j] == rest[j]);
                    }
                }
            },
            FrameShape::Quote => {
                let q = Shape::Quote(Box::new(form), join_spans(top.opening, shape_span(form)));
                assert(leaves_wf(text, q));
                lemma_deposit_spans(sid, text, ParseState { stack: rest, forms: st.forms, errors }, q);
            },
        }
    }
}

proof fn lemma_close_spans(sid: SourceId, text: Seq<char>, st: ParseState, closer: Token)
    requires
        state_spans_wf(sid, text, st),
        state_leaves_wf(text, st),
        span_wf(text, closer.span),
    ensures
        state_spans_wf(sid, text, close(sid, st, closer)),
    decreases st.stack.len(),
{
    if st.stack.len() == 0 {
        lemma_errors_push(
            sid,
            text,
            st.errors,
            parse_error_at(sid, closer.span, ParseErrorKind::UnexpectedCloser),
        );
    } else {
        let top = st.stack.last();
        let rest = st.stack.drop_last();
        let popped = ParseState { stack: rest, forms: st.forms, errors: st.errors };
        let whole = join_spans(top.opening, closer.span);
        assert(span_wf(text, st.stack[st.stack.len() - 1].opening));
        assert(frame_leaves_wf(text, st.stack[st.stack.len() - 1]));
        assert forall|j: int| 0 <= j < rest.len() implies span_wf(text, #[trigger] rest[j].opening) by {
            assert(rest[j] == st.stack[j]);
        }
        lemma_join_wf(text, top.opening, closer.span);
        let bad = parse_error_at(sid, whole, ParseErrorKind::MismatchedCloser);
        lemma_errors_push(sid, text, st.errors, bad);
        let mismatched = with_error(popped, bad);
        match top.kind {
            FrameShape::Vector(cs) => {
                assert(leaves_wf(text, Shape::Vector(cs, whole)));
                lemma_deposit_spans(sid, text, popped, Shape::Vector(cs, whole));
                lemma_deposit_spans(sid, text, mismatched, Shape::Vector(cs, whole));
            },
            FrameShape::List(cs) => {
                assert(leaves_wf(text, Shape::List(cs, whole)));
                lemma_deposit_spans(sid, text, popped, Shape::List(cs, whole));
                lemma_deposit_spans(sid, text, mismatched, Shape::List(cs, whole));
            },
            FrameShape::Quote => {
                let missing = parse_error_at(sid, top.opening, ParseErrorKind::QuoteWithoutForm);
                lemma_errors_push(sid, text, st.errors, missing);
                let below = with_error(popped, missing);
                assert forall|j: int| 0 <= j < rest.len() implies frame_leaves_wf(text, #[trigger] rest[j]) by {
                    assert(rest[j] == st.stack[j]);
                }
                lemma_close_spans(sid, text, below, closer);
            },
        }
    }
}

proof fn lemma_step_spans(sid: SourceId, text: Seq<char>, st: ParseState, t: Token)
    requires
        state_spans_wf(sid, text, st),
        state_leaves_wf(text, st),
        token_wf(text, t),
    ensures
        state_spans_wf(sid, text, step(sid, text, st, t)),
{
    match t.kind {
        TokenKind::VecStart | TokenKind::ListStart | TokenKind::Quote => {
            let reported = if t.kind is Quote && st.stack.len() > 0 && st.stack.last().kind is Quote {
                let e = parse_error_at(
                    sid,
                    join_spans(st.stack.last().opening, t.span),
                    ParseErrorKind::NestedQuote,
                );
                assert(span_wf(text, st.stack[st.stack.len() - 1].opening));
                lemma_join_wf(text, st.stack.last().opening, t.span);
                lemma_errors_push(sid, text, st.errors, e);
                with_error(st, e)
            } else {
                st
            };
            let st2 = step(sid, text, st, t);
            assert forall|j: int| 0 <= j < st2.stack.len() implies span_wf(text, #[trigger] st2.stack[j].opening) by {
                if j < st.stack.len() {
                    assert(st2.stack[j] == st.stack[j]);
                }
            }
        },
        TokenKind::Number => {
            match i64_literal(span_chars(text, t.span)) {
                Some(n) => {
                    lemma_deposit_spans(sid, text, st, Shape::Int(n, t.span));
                },
                None => {
                    lemma_errors_push(
                        sid,
                        text,
                        st.errors,
                        parse_error_at(sid, t.span, ParseErrorKind::IntOverflow),
                    );
                },
            }
        },
        TokenKind::Symbol => {
            lemma_deposit_spans(sid, text, st, Shape::Call(t.span));
        },
        TokenKind::Bind => {
            lemma_deposit_spans(sid, text, st, Shape::Bind(t.span));
        },
        TokenKind::Load => {
            lemma_deposit_spans(sid, text, st, Shape::Load(t.span));
        },
        TokenKind::VecEnd | TokenKind::ListEnd => {
            lemma_close_spans(sid, text, st, t);
        },
    }
}

proof fn lemma_run_spans(sid: SourceId, text: Seq<char>, tokens: Seq<Token>)
    requires
        tokens_wf(text, tokens),
    ensures
        state_spans_wf(sid, text, run(sid, text, tokens)),
    decreases tokens.len(),
{
    if tokens.len() > 0 {
        assert(tokens_wf(text, tokens.drop_last())) by {
            assert forall|k: int| 0 <= k < tokens.drop_last().len() implies token_wf(
                text,
                #[trigger] tokens.drop_last()[k],
            ) by {
                assert(tokens.drop_last()[k] == tokens[k]);
            }
        }
        lemma_run_spans(sid, text, tokens.drop_last());
        lemma_parse_leaves_wf(sid, text, tokens.drop_last());
        assert(token_wf(text, tokens[tokens.len() - 1]));
        lemma_step_spans(sid, text, run(sid, text, tokens.drop_last()), tokens.last());
    }
}

/// Every error parsing tokens of a text reports lies at a well-formed span of
/// that source.
pub proof fn lemma_parse_errors_wf(sid: SourceId, text: Seq<char>, tokens: Seq<Token>)
    requires
        tokens_wf(text, tokens),
    ensures
        errors_wf(sid, text, parse_errors(sid, text, tokens)),
{
    let st = run(sid, text, tokens);
    lemma_run_spans(sid, text, tokens);
    let es = parse_errors(sid, text, tokens);
    let un = unclosed_errors(sid, st.stack);
    assert forall|k: int| 0 <= k < es.len() implies error_wf(sid, text, #[trigger] es[k]) by {
        if k < st.errors.len() {
            assert(es[k] == st.errors[k]);
        } else {
            assert(es[k] == un[k - st.errors.len()]);
            assert(span_wf(text, st.stack[k - st.errors.len()].opening));
        }
    }
}

} // verus!
