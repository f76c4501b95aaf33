//! Parser from token streams.
//!
//! This is the core routine which compiles a stream of [`Token`]s to
//! [`HirForm`]s.  It runs the machine of [`step`] on concrete forms: every
//! frame and form it holds denotes the machine's frame or shape.
use vstd::prelude::*;
use vstd::multiset::Multiset;
use crate::diagnostics::{
    Diagnostic, Diagnostics, count_fatal, is_fatal, parse_class,
};
use crate::diagnostics::conv::reports_parse_error;
use crate::interner::{Interner, SymId, interned};
use crate::lexer::{Token, TokenKind, token_wf, tokens_wf};
use crate::parser::{
    FrameShape, HirForm, HirKind, ParseError, ParseErrorKind, ParseState, PendingFrame, Shape,
    after_sigil, close, close_spans, deposit, deposit_spans, digit_value, form_ids, forms_ids,
    fresh_ids, ids_fresh, kind_ids, lemma_fresh_ids_of, digits_value, form_denotes, forms_denote,
    i64_literal, initial_state, join_spans, kind_denotes, lemma_clean_parse_count,
    lemma_form_denotes_grow, lemma_forms_denote_count, lemma_forms_denote_grow,
    lemma_forms_denote_push, literal_digits, names_extend, names_symbol, non_closer_count,
    open_frame, origins_in, parse_error_at, parse_errors, parse_shapes, preorder_seq, run, run_spans,
    shape_span, step_spans,
    span_chars, step, top_is_datum, unclosed_error, unclosed_errors, with_error,
};
use crate::source::{SourceId, SourceTable, Span, SyntaxOrigin, byte_len};

verus! {

/// Whether `ds` reports exactly the errors `es`, in order.
pub open spec fn reports_parse_errors(ds: Seq<Diagnostic>, es: Seq<ParseError>) -> bool {
    &&& ds.len() == es.len()
    &&& forall|k: int| 0 <= k < ds.len() ==> reports_parse_error(#[trigger] ds[k], es[k])
}

/// The name token `t` of `text` carries: a symbol's whole text, or what
/// follows a binding's sigil.  Other tokens carry none.
pub open spec fn token_name(text: Seq<char>, t: Token) -> Option<Seq<char>> {
    match t.kind {
        TokenKind::Symbol => Some(span_chars(text, t.span)),
        TokenKind::Bind => Some(span_chars(text, after_sigil(t.span))),
        TokenKind::Load => Some(span_chars(text, after_sigil(t.span))),
        _ => None,
    }
}

/// The interned `names` once the name token `t` of `text` carries, if any,
/// is interned.
pub open spec fn names_step(names: Seq<Seq<char>>, text: Seq<char>, t: Token) -> Seq<Seq<char>> {
    match token_name(text, t) {
        Some(name) => interned(names, name),
        None => names,
    }
}

/// The interned `names` once the names `tokens` of `text` carry are
/// interned, in token order.
pub open spec fn names_after(names: Seq<Seq<char>>, text: Seq<char>, tokens: Seq<Token>) -> Seq<
    Seq<char>,
>
    decreases tokens.len(),
{
    if tokens.len() == 0 {
        names
    } else {
        names_step(names_after(names, text, tokens.drop_last()), text, tokens.last())
    }
}

/// Whether `span` is an ordered byte range within `text`.
pub open spec fn bounded(text: Seq<char>, span: Span) -> bool {
    span.start <= span.end && span.end <= byte_len(text)
}

/// Whether every open frame's opener lies within `text`.
pub open spec fn openings_bounded(text: Seq<char>, stack: Seq<PendingFrame>) -> bool {
    forall|i: int| 0 <= i < stack.len() ==> bounded(text, #[trigger] stack[i].opening)
}

/// Number of quotes waiting for their form: each will register one origin.
pub open spec fn quote_count(stack: Seq<PendingFrame>) -> nat
    decreases stack.len(),
{
    if stack.len() == 0 {
        0
    } else {
        quote_count(stack.drop_last()) + if stack.last().kind is Quote {
            1nat
        } else {
            0nat
        }
    }
}

/// Parse the token stream of the source given by [`SourceId`] in a
/// [`SourceTable`], returning the body of [`HirForm`]s if no errors arise,
/// otherwise `None`.
///
/// This constructs its own [`Diagnostics`] which is always passed back to the
/// caller.
///
/// `table` is taken mutably because every form registers its origin through
/// [`SourceTable::add_origin`].  Each token registers at most one origin and
/// interns at most one name, which is why both must have room for one per
/// token.  Every form returned carries the id of its own newly registered
/// origin: no two share one, and none was in the table before.
pub fn parse(
    source_id: SourceId,
    tokens: &[Token],
    table: &mut SourceTable,
    interner: &mut Interner,
) -> (r: (Option<Vec<HirForm>>, Diagnostics))
    requires
        old(table).wf(),
        old(table).has_source(source_id),
        tokens_wf(old(table).text(source_id), tokens@),
        old(table).origins().len() + tokens@.len() <= u32::MAX,
        old(interner)@.len() + tokens@.len() < u32::MAX,
    ensures
        final(table).wf(),
        final(table).extends(old(table)),
        final(table).sources() == old(table).sources(),
        names_extend(final(interner)@, old(interner)@),
        final(interner)@ == names_after(old(interner)@, old(table).text(source_id), tokens@),
        final(table).origins() == old(table).origins() + origins_in(
            source_id,
            run_spans(source_id, old(table).text(source_id), tokens@),
        ),
        final(table).origins().len() <= old(table).origins().len() + tokens@.len(),
        final(interner)@.len() <= old(interner)@.len() + tokens@.len(),
        reports_parse_errors(r.1@, parse_errors(source_id, old(table).text(source_id), tokens@)),
        r.0 is Some <==> parse_errors(source_id, old(table).text(source_id), tokens@).len() == 0,
        r.0 is Some <==> r.1@.len() == 0,
        r.0 matches Some(fs) ==> forms_denote(
            *final(table),
            final(interner)@,
            source_id,
            fs@,
            parse_shapes(source_id, old(table).text(source_id), tokens@),
        ),
        r.0 matches Some(fs) ==> preorder_seq(fs@, 0).len() == non_closer_count(tokens@),
        r.0 matches Some(fs) ==> fresh_ids(
            fs@,
            old(table).origins().len() as nat,
            final(table).origins().len() as nat,
        ),
{
    let ghost text = table.text(source_id);
    let ghost names0 = interner@;
    let ghost base = table.origins().len();
    let mut parser = Parser::new(source_id);
    proof {
        broadcast use vstd::multiset::group_multiset_axioms;

        assert(parser.forms@ =~= Seq::<HirForm>::empty());
        assert(parser.stack@ =~= Seq::<Frame>::empty());
        assert(parser.held_ids() =~= Multiset::<nat>::empty());
    }
    let mut i: usize = 0;
    proof {
        table.lemma_extends_refl();
        crate::parser::lemma_names_extend_refl(names0);
    }
    assert(tokens@.take(0) =~= Seq::<Token>::empty());
    while i < tokens.len()
        invariant
            i <= tokens@.len(),
            table.wf(),
            table.has_source(source_id),
            table.text(source_id) == text,
            table.extends(old(table)),
            table.sources() == old(table).sources(),
            tokens_wf(text, tokens@),
            parser.source_id == source_id,
            parser.denotes(*table, interner@, run(source_id, text, tokens@.take(i as int))),
            openings_bounded(text, run(source_id, text, tokens@.take(i as int)).stack),
            table.origins().len() + quote_count(run(source_id, text, tokens@.take(i as int)).stack)
                <= base + i,
            table.origins() == old(table).origins() + origins_in(
                source_id,
                run_spans(source_id, text, tokens@.take(i as int)),
            ),
            base + tokens@.len() <= u32::MAX,
            names_extend(interner@, names0),
            interner@ == names_after(names0, text, tokens@.take(i as int)),
            interner@.len() <= names0.len() + i,
            names0.len() + tokens@.len() < u32::MAX,
            base <= table.origins().len(),
            ids_fresh(parser.held_ids(), base, table.origins().len()),
        decreases tokens@.len() - i,
    {
        let token = tokens[i];
        let ghost before = run(source_id, text, tokens@.take(i as int));
        let ghost t0 = *table;
        let ghost n0 = interner@;
        assert(token_wf(text, tokens@[i as int]));
        parser.parse_singular(
            table,
            interner,
            token,
            Ghost(before),
            Ghost((base + i + 1) as nat),
            Ghost(base),
        );
        proof {
            assert(tokens@.take(i + 1).drop_last() =~= tokens@.take(i as int));
            assert(tokens@.take(i + 1).last() == token);
            SourceTable::lemma_extends_trans(old(table), &t0, table);
            assert(names_extend(interner@, names0)) by {
                assert(interner@.subrange(0, names0.len() as int) =~= n0.subrange(
                    0,
                    names0.len() as int,
                ));
            }
        }
        i = i + 1;
    }
    assert(tokens@.take(i as int) =~= tokens@);
    let ghost last = run(source_id, text, tokens@);
    proof {
        lemma_ids_fresh_part(
            forms_ids(parser.forms@),
            stack_ids(parser.stack@),
            base,
            table.origins().len() as nat,
            table.origins().len() as nat,
        );
    }
    parser.report_unclosed(Ghost(*table), Ghost(interner@), Ghost(last));
    let Parser { source_id: _, stack: _, forms, diagnostics } = parser;
    proof {
        lemma_parse_reports_fatal(diagnostics@, parse_errors(source_id, text, tokens@));
        lemma_fresh_ids_of(forms@, base, table.origins().len() as nat);
    }
    let clean = !diagnostics.has_errors();
    if clean {
        proof {
            lemma_clean_parse_count(source_id, text, tokens@);
            lemma_forms_denote_count(
                *table,
                interner@,
                source_id,
                forms@,
                parse_shapes(source_id, text, tokens@),
                0,
            );
        }
        (Some(forms), diagnostics)
    } else {
        (None, diagnostics)
    }
}

/// Parse diagnostics are all fatal, so they count as errors one for one.
pub proof fn lemma_parse_reports_fatal(ds: Seq<Diagnostic>, es: Seq<ParseError>)
    requires
        reports_parse_errors(ds, es),
    ensures
        count_fatal(ds) == ds.len(),
    decreases ds.len(),
{
    if ds.len() > 0 {
        let init = ds.drop_last();
        assert(reports_parse_errors(init, es.drop_last())) by {
            assert forall|k: int| 0 <= k < init.len() implies reports_parse_error(
                #[trigger] init[k],
                es.drop_last()[k],
            ) by {
                assert(init[k] == ds[k]);
            }
        }
        lemma_parse_reports_fatal(init, es.drop_last());
        assert(reports_parse_error(ds[ds.len() - 1], es[ds.len() - 1]));
        assert(is_fatal(parse_class(es[ds.len() - 1].kind)));
    }
}

/// Types of [`Frame`]s.
enum FrameKind {
    /// Vector.
    Vector(Vec<HirForm>),
    /// List.
    List(Vec<HirForm>),
    /// Quote.
    Quote,
}

impl FrameKind {
    /// Close this frame kind with `closer`, yielding a [`HirKind`] if
    /// successful.
    ///
    /// # Errors
    /// - If the given `closer` token isn't appropriate for this
    ///   [`FrameKind`], the frame kind is handed back.
    fn close_with(self, closer: TokenKind) -> (r: Result<HirKind, Self>)
        ensures
            match self {
                FrameKind::Vector(cs) => if closer is VecEnd {
                    r == Ok::<HirKind, FrameKind>(HirKind::Vector(cs))
                } else {
                    r == Err::<HirKind, FrameKind>(FrameKind::Vector(cs))
                },
                FrameKind::List(cs) => if closer is ListEnd {
                    r == Ok::<HirKind, FrameKind>(HirKind::List(cs))
                } else {
                    r == Err::<HirKind, FrameKind>(FrameKind::List(cs))
                },
                FrameKind::Quote => r == Err::<HirKind, FrameKind>(FrameKind::Quote),
            },
    {
        match self {
            FrameKind::Vector(cs) => match closer {
                TokenKind::VecEnd => Ok(HirKind::Vector(cs)),
                _ => Err(FrameKind::Vector(cs)),
            },
            FrameKind::List(cs) => match closer {
                TokenKind::ListEnd => Ok(HirKind::List(cs)),
                _ => Err(FrameKind::List(cs)),
            },
            FrameKind::Quote => Err(FrameKind::Quote),
        }
    }
}

/// A frame which accumulates [`HirForm`]s.
struct Frame {
    /// Type of Frame.
    kind: FrameKind,
    /// The Span this frame started on.
    opening: Span,
    /// Is this frame supposed to accumulate datums?
    is_datum: bool,
}

impl Frame {
    /// Construct a new [`Frame`].  `'<x>` and `(<xs>)` are both in datum
    /// position, and so is anything inside a frame that is.
    fn new(kind: FrameKind, opening: Span, parent_is_datum: bool) -> (r: Self)
        ensures
            r.opening == opening,
            r.is_datum == (parent_is_datum || kind is Quote || kind is List),
            r.kind == kind,
    {
        let is_datum = parent_is_datum || match kind {
            FrameKind::Quote | FrameKind::List(_) => true,
            FrameKind::Vector(_) => false,
        };
        Frame { kind, opening, is_datum }
    }
}

/// Whether frame `f` denotes the pending frame `p`.
spec fn frame_denotes(
    table: SourceTable,
    names: Seq<Seq<char>>,
    sid: SourceId,
    f: Frame,
    p: PendingFrame,
) -> bool {
    &&& f.opening == p.opening
    &&& f.is_datum == p.is_datum
    &&& match f.kind {
        FrameKind::Vector(v) => p.kind matches FrameShape::Vector(cs) && forms_denote(
            table,
            names,
            sid,
            v@,
            cs,
        ),
        FrameKind::List(v) => p.kind matches FrameShape::List(cs) && forms_denote(
            table,
            names,
            sid,
            v@,
            cs,
        ),
        FrameKind::Quote => p.kind is Quote,
    }
}

/// Whether the frames `fs` denote the pending frames `ps`, one for one.
spec fn stack_denotes(
    table: SourceTable,
    names: Seq<Seq<char>>,
    sid: SourceId,
    fs: Seq<Frame>,
    ps: Seq<PendingFrame>,
) -> bool {
    &&& fs.len() == ps.len()
    &&& forall|i: int| 0 <= i < fs.len() ==> frame_denotes(table, names, sid, #[trigger] fs[i], ps[i])
}

proof fn lemma_frame_denotes_grow(
    t1: SourceTable,
    n1: Seq<Seq<char>>,
    t2: SourceTable,
    n2: Seq<Seq<char>>,
    sid: SourceId,
    f: Frame,
    p: PendingFrame,
)
    requires
        t2.extends(&t1),
        t1.has_source(sid),
        names_extend(n2, n1),
        frame_denotes(t1, n1, sid, f, p),
    ensures
        frame_denotes(t2, n2, sid, f, p),
{
    match f.kind {
        FrameKind::Vector(v) => {
            if let FrameShape::Vector(cs) = p.kind {
                lemma_forms_denote_grow(t1, n1, t2, n2, sid, v@, cs);
            }
        },
        FrameKind::List(v) => {
            if let FrameShape::List(cs) = p.kind {
                lemma_forms_denote_grow(t1, n1, t2, n2, sid, v@, cs);
            }
        },
        FrameKind::Quote => {},
    }
}

/// The ids held in what frame `f` has collected.
spec fn frame_ids(f: Frame) -> Multiset<nat> {
    match f.kind {
        FrameKind::Vector(v) => forms_ids(v@),
        FrameKind::List(v) => forms_ids(v@),
        FrameKind::Quote => Multiset::empty(),
    }
}

/// The ids held in what the frames `fs` have collected.
spec fn stack_ids(fs: Seq<Frame>) -> Multiset<nat>
    decreases fs.len(),
{
    if fs.len() == 0 {
        Multiset::empty()
    } else {
        stack_ids(fs.drop_last()).add(frame_ids(fs.last()))
    }
}

proof fn lemma_stack_ids_push(fs: Seq<Frame>, f: Frame)
    ensures
        stack_ids(fs.push(f)) == stack_ids(fs).add(frame_ids(f)),
{
    assert(fs.push(f).drop_last() =~= fs);
}

proof fn lemma_forms_ids_push(fs: Seq<HirForm>, f: HirForm)
    ensures
        forms_ids(fs.push(f)) == forms_ids(fs).add(form_ids(f)),
{
    assert(fs.push(f).drop_last() =~= fs);
}

/// Adding the next id to ids held once each below it keeps them fresh.
proof fn lemma_ids_fresh_next(m: Multiset<nat>, lo: nat, hi: nat)
    requires
        ids_fresh(m, lo, hi),
        lo <= hi,
    ensures
        ids_fresh(m.add(Multiset::singleton(hi)), lo, hi + 1),
{
    broadcast use vstd::multiset::group_multiset_axioms;

    assert(m.count(hi) == 0);
    assert forall|x: nat| #[trigger] m.add(Multiset::singleton(hi)).count(x) > 0 implies m.add(
        Multiset::singleton(hi),
    ).count(x) == 1 && lo <= x < hi + 1 by {
        if x != hi {
            assert(Multiset::singleton(hi).count(x) == 0);
        }
    }
}

/// Fewer ids held, or a wider range, keep them fresh.
proof fn lemma_ids_fresh_part(m1: Multiset<nat>, m2: Multiset<nat>, lo: nat, hi: nat, hi2: nat)
    requires
        ids_fresh(m1.add(m2), lo, hi),
        hi <= hi2,
    ensures
        ids_fresh(m1, lo, hi2),
{
    broadcast use vstd::multiset::group_multiset_axioms;

    assert forall|x: nat| #[trigger] m1.count(x) > 0 implies m1.count(x) == 1 && lo <= x < hi2 by {
        assert(m1.add(m2).count(x) > 0);
    }
}

/// Parser state structure.
struct Parser {
    /// [`SourceId`] of the Source being parsed.
    source_id: SourceId,
    /// Stack of [`Frame`]s used during parsing.
    stack: Vec<Frame>,
    /// Accumulation of [`HirForm`]s.
    forms: Vec<HirForm>,
    /// [`Diagnostics`] to accumulate in.
    diagnostics: Diagnostics,
}

impl Parser {
    /// Whether this parser's frames, forms and diagnostics are those of the
    /// machine state `st`, reading origins from `table` and names from
    /// `names`.
    spec fn denotes(&self, table: SourceTable, names: Seq<Seq<char>>, st: ParseState) -> bool {
        &&& stack_denotes(table, names, self.source_id, self.stack@, st.stack)
        &&& forms_denote(table, names, self.source_id, self.forms@, st.forms)
        &&& reports_parse_errors(self.diagnostics@, st.errors)
    }

    /// The ids held in the completed forms and in what the open frames have
    /// collected.
    spec fn held_ids(&self) -> Multiset<nat> {
        forms_ids(self.forms@).add(stack_ids(self.stack@))
    }

    proof fn lemma_denotes_grow(
        &self,
        t1: SourceTable,
        n1: Seq<Seq<char>>,
        t2: SourceTable,
        n2: Seq<Seq<char>>,
        st: ParseState,
    )
        requires
            t2.extends(&t1),
            t1.has_source(self.source_id),
            names_extend(n2, n1),
            self.denotes(t1, n1, st),
        ensures
            self.denotes(t2, n2, st),
    {
        lemma_forms_denote_grow(t1, n1, t2, n2, self.source_id, self.forms@, st.forms);
        assert forall|i: int| 0 <= i < self.stack@.len() implies frame_denotes(
            t2,
            n2,
            self.source_id,
            #[trigger] self.stack@[i],
            st.stack[i],
        ) by {
            lemma_frame_denotes_grow(t1, n1, t2, n2, self.source_id, self.stack@[i], st.stack[i]);
        }
    }

    /// Construct new parser state.
    fn new(source_id: SourceId) -> (r: Self)
        ensures
            r.source_id == source_id,
            r.stack@.len() == 0,
            r.forms@.len() == 0,
            r.diagnostics@.len() == 0,
    {
        Parser { source_id, stack: Vec::new(), forms: Vec::new(), diagnostics: Diagnostics::new() }
    }
}


proof fn lemma_stack_denotes_pop(
    table: SourceTable,
    names: Seq<Seq<char>>,
    sid: SourceId,
    fs: Seq<Frame>,
    ps: Seq<PendingFrame>,
)
    requires
        stack_denotes(table, names, sid, fs, ps),
        fs.len() > 0,
    ensures
        stack_denotes(table, names, sid, fs.drop_last(), ps.drop_last()),
        frame_denotes(table, names, sid, fs.last(), ps.last()),
{
    assert(frame_denotes(table, names, sid, fs[fs.len() - 1], ps[ps.len() - 1]));
    assert forall|i: int| 0 <= i < fs.drop_last().len() implies frame_denotes(
        table,
        names,
        sid,
        #[trigger] fs.drop_last()[i],
        ps.drop_last()[i],
    ) by {
        assert(fs.drop_last()[i] == fs[i]);
        assert(ps.drop_last()[i] == ps[i]);
    }
}

proof fn lemma_stack_denotes_push(
    table: SourceTable,
    names: Seq<Seq<char>>,
    sid: SourceId,
    fs: Seq<Frame>,
    ps: Seq<PendingFrame>,
    f: Frame,
    p: PendingFrame,
)
    requires
        stack_denotes(table, names, sid, fs, ps),
        frame_denotes(table, names, sid, f, p),
    ensures
        stack_denotes(table, names, sid, fs.push(f), ps.push(p)),
{
    assert forall|i: int| 0 <= i < fs.push(f).len() implies frame_denotes(
        table,
        names,
        sid,
        #[trigger] fs.push(f)[i],
        ps.push(p)[i],
    ) by {
        if i < fs.len() {
            assert(fs.push(f)[i] == fs[i]);
            assert(ps.push(p)[i] == ps[i]);
        }
    }
}

proof fn lemma_openings_push(text: Seq<char>, stack: Seq<PendingFrame>, p: PendingFrame)
    requires
        openings_bounded(text, stack),
        bounded(text, p.opening),
    ensures
        openings_bounded(text, stack.push(p)),
        quote_count(stack.push(p)) == quote_count(stack) + if p.kind is Quote {
            1nat
        } else {
            0nat
        },
{
    assert(stack.push(p).drop_last() =~= stack);
    assert forall|i: int| 0 <= i < stack.push(p).len() implies bounded(
        text,
        #[trigger] stack.push(p)[i].opening,
    ) by {
        if i < stack.len() {
            assert(stack.push(p)[i] == stack[i]);
        }
    }
}

proof fn lemma_openings_pop(text: Seq<char>, stack: Seq<PendingFrame>)
    requires
        openings_bounded(text, stack),
        stack.len() > 0,
    ensures
        openings_bounded(text, stack.drop_last()),
        bounded(text, stack.last().opening),
{
    assert(bounded(text, stack[stack.len() - 1].opening));
    assert forall|i: int| 0 <= i < stack.drop_last().len() implies bounded(
        text,
        #[trigger] stack.drop_last()[i].opening,
    ) by {
        assert(stack.drop_last()[i] == stack[i]);
    }
}

/// The shape a name-carrying token denotes.
pub open spec fn sym_shape(t: Token) -> Shape {
    match t.kind {
        TokenKind::Bind => Shape::Bind(t.span),
        TokenKind::Load => Shape::Load(t.span),
        _ => Shape::Call(t.span),
    }
}

/// The value of an ASCII digit, which `c` must be.
fn digit_u64(c: char) -> (r: u64)
    requires
        '0' <= c <= '9',
    ensures
        r == digit_value(c),
        r < 10,
{
    if c == '1' {
        1
    } else if c == '2' {
        2
    } else if c == '3' {
        3
    } else if c == '4' {
        4
    } else if c == '5' {
        5
    } else if c == '6' {
        6
    } else if c == '7' {
        7
    } else if c == '8' {
        8
    } else if c == '9' {
        9
    } else {
        0
    }
}

proof fn lemma_digits_value_prefix(ds: Seq<char>, j: int)
    requires
        0 <= j <= ds.len(),
    ensures
        digits_value(ds.take(j)) <= digits_value(ds),
    decreases ds.len(),
{
    if j < ds.len() {
        assert(ds.drop_last().take(j) =~= ds.take(j));
        lemma_digits_value_prefix(ds.drop_last(), j);
    } else {
        assert(ds.take(j) =~= ds);
    }
}

/// Convert an integer literal the way `i64`'s `FromStr` does: an optional
/// `+` or `-`, then at least one decimal digit, within range.
fn parse_i64(text: &str) -> (r: Option<i64>)
    ensures
        r == i64_literal(text@),
{
    let mut chars: Vec<char> = Vec::new();
    crate::chars::push_str(&mut chars, text);
    assert(chars@ == text@);
    let n = chars.len();
    let neg = n > 0 && chars[0] == '-';
    let start: usize = if n > 0 && (chars[0] == '-' || chars[0] == '+') {
        1
    } else {
        0
    };
    let ghost ds = literal_digits(text@);
    assert(ds =~= chars@.subrange(start as int, n as int));
    if start == n {
        return None;
    }
    let mut acc: u64 = 0;
    let mut i = start;
    assert(ds.take(0) =~= Seq::<char>::empty());
    while i < n
        invariant
            start <= i <= n,
            n == chars@.len(),
            ds == chars@.subrange(start as int, n as int),
            forall|k: int| 0 <= k < i - start ==> crate::lexer::is_digit(#[trigger] ds[k]),
            acc == digits_value(ds.take(i - start)),
            acc <= 9223372036854775808,
            ds == literal_digits(text@),
            chars@ == text@,
            ds.len() > 0,
            neg == (text@.len() > 0 && text@[0] == '-'),
        decreases n - i,
    {
        let c = chars[i];
        assert(c == ds[i - start]);
        if !('0' <= c && c <= '9') {
            assert(!crate::lexer::is_digit(ds[i - start]));
            return None;
        }
        let d = digit_u64(c);
        assert(ds.take(i - start + 1).drop_last() =~= ds.take(i - start));
        assert(ds.take(i - start + 1).last() == c);
        assert(digits_value(ds.take(i - start + 1)) == acc * 10 + d);
        if acc > 922337203685477580 {
            proof {
                lemma_digits_value_prefix(ds, i - start + 1);
            }
            return None;
        }
        let next = acc * 10 + d;
        if next > 9223372036854775808 {
            proof {
                lemma_digits_value_prefix(ds, i - start + 1);
            }
            return None;
        }
        acc = next;
        i = i + 1;
    }
    assert(ds.take(n - start) =~= ds);
    if neg {
        if acc == 9223372036854775808 {
            Some(i64::MIN)
        } else {
            Some(-(acc as i64))
        }
    } else if acc > 9223372036854775807 {
        None
    } else {
        Some(acc as i64)
    }
}

impl Parser {
    /// Get the text of a given [`Span`].
    fn text_of<'t>(&self, table: &'t SourceTable, span: Span) -> (r: &'t str)
        requires
            table.wf(),
            table.resolvable(SyntaxOrigin { source: self.source_id, span }),
        ensures
            r@ == span_chars(table.text(self.source_id), span),
    {
        table.text_at(&SyntaxOrigin { source: self.source_id, span })
    }

    /// Mint a [`SyntaxOrigin`] for the given [`Span`].
    fn add_syntax(&self, table: &mut SourceTable, span: Span) -> (r: crate::source::SyntaxId)
        requires
            old(table).wf(),
            old(table).has_source(self.source_id),
            bounded(old(table).text(self.source_id), span),
            old(table).origins().len() <= u32::MAX,
        ensures
            final(table).wf(),
            final(table).extends(old(table)),
            final(table).sources() == old(table).sources(),
            final(table).origins().len() == old(table).origins().len() + 1,
            final(table).origins() == old(table).origins().push(
                SyntaxOrigin { source: self.source_id, span },
            ),
            final(table).has_origin(r),
            final(table).origin(r) == (SyntaxOrigin { source: self.source_id, span }),
            r.spec_index() == old(table).origins().len(),
    {
        table.add_origin(self.source_id, span)
    }

    /// Intern the contents of [`Span`].
    fn intern_span(&self, table: &SourceTable, interner: &mut Interner, span: Span) -> (r: SymId)
        requires
            table.wf(),
            table.resolvable(SyntaxOrigin { source: self.source_id, span }),
            old(interner)@.len() < u32::MAX,
        ensures
            names_extend(final(interner)@, old(interner)@),
            final(interner)@.len() <= old(interner)@.len() + 1,
            names_symbol(final(interner)@, r, span_chars(table.text(self.source_id), span)),
            final(interner)@ == interned(old(interner)@, span_chars(table.text(self.source_id), span)),
    {
        let text = table.text_at(&SyntaxOrigin { source: self.source_id, span });
        let r = interner.intern(text);
        proof {
            assert(interner@.subrange(0, old(interner)@.len() as int) =~= old(interner)@);
        }
        r
    }

    /// Check if the top of the [`Frame`] stack is a datum.
    fn top_is_datum(&self) -> (r: bool)
        ensures
            r == (self.stack@.len() > 0 && self.stack@.last().is_datum),
    {
        let n = self.stack.len();
        if n == 0 {
            false
        } else {
            self.stack[n - 1].is_datum
        }
    }

    /// Construct a new [`ParseError`] of kind [`ParseErrorKind`] at the given
    /// [`Span`].
    fn error(&self, span: Span, kind: ParseErrorKind) -> (r: ParseError)
        ensures
            r == parse_error_at(self.source_id, span, kind),
    {
        ParseError { origin: SyntaxOrigin { source: self.source_id, span }, kind }
    }

    /// Report a [`ParseError`] into the diagnostics, after `errs`.
    fn report(&mut self, error: ParseError, Ghost(errs): Ghost<Seq<ParseError>>)
        requires
            reports_parse_errors(old(self).diagnostics@, errs),
        ensures
            reports_parse_errors(final(self).diagnostics@, errs.push(error)),
            final(self).stack@ == old(self).stack@,
            final(self).forms@ == old(self).forms@,
            final(self).source_id == old(self).source_id,
    {
        self.diagnostics.push(Diagnostic::of_parse_error(error));
        proof {
            assert forall|k: int| 0 <= k < self.diagnostics@.len() implies reports_parse_error(
                #[trigger] self.diagnostics@[k],
                errs.push(error)[k],
            ) by {
                if k < errs.len() {
                    assert(self.diagnostics@[k] == old(self).diagnostics@[k]);
                }
            }
        }
    }

    /// Push a new [`Frame`] onto the [`Frame`] stack of [`FrameKind`] opening
    /// at a given [`Span`].
    fn push_frame(&mut self, kind: FrameKind, opening: Span)
        ensures
            final(self).stack@ == old(self).stack@.push(
                Frame {
                    kind,
                    opening,
                    is_datum: (old(self).stack@.len() > 0 && old(self).stack@.last().is_datum)
                        || kind is Quote || kind is List,
                },
            ),
            final(self).forms@ == old(self).forms@,
            final(self).diagnostics@ == old(self).diagnostics@,
            final(self).source_id == old(self).source_id,
    {
        let parent = self.top_is_datum();
        self.stack.push(Frame::new(kind, opening, parent));
    }

    /// Register an origin spanning `opening` to `closing` for a form of
    /// `kind`, so the form's origin spans the whole construct rather than just
    /// its opening token.
    fn close(&self, table: &mut SourceTable, kind: HirKind, opening: Span, closing: Span) -> (r:
        HirForm)
        requires
            old(table).wf(),
            old(table).has_source(self.source_id),
            bounded(old(table).text(self.source_id), opening),
            bounded(old(table).text(self.source_id), closing),
            old(table).origins().len() <= u32::MAX,
        ensures
            final(table).wf(),
            final(table).extends(old(table)),
            final(table).sources() == old(table).sources(),
            final(table).origins().len() == old(table).origins().len() + 1,
            final(table).origins() == old(table).origins().push(
                SyntaxOrigin { source: self.source_id, span: join_spans(opening, closing) },
            ),
            final(table).has_origin(r.id),
            final(table).origin(r.id) == (SyntaxOrigin {
                source: self.source_id,
                span: join_spans(opening, closing),
            }),
            r.kind == kind,
            r.id.spec_index() == old(table).origins().len(),
    {
        let id = table.add_origin(self.source_id, opening.join(closing));
        HirForm::new(id, kind)
    }
}


impl Parser {
    /// Yield the given `form` with respect to the current [`Frame`] stack.
    ///
    /// If the [`Frame`] stack is empty, `form` is simply pushed into the
    /// accumulated forms.  Otherwise, let `F` be the top of the [`Frame`]
    /// stack:
    /// - If `F` is a container then the given `form` is simply added to the
    ///   container's collection of [`HirForm`]s.
    /// - If `F` is a quote then it is closed via [`Self::close`] (making a
    ///   [`HirKind::Quote`] form), and is then iteratively yielded into the
    ///   parent frame.
    ///
    /// Reports a [`ParseErrorKind::BindingInDatum`] if `F` is a datum frame
    /// and `form` is a [`HirKind::Load`] or [`HirKind::Bind`].  The `form` is
    /// still deposited.
    fn yield_form(
        &mut self,
        table: &mut SourceTable,
        form: HirForm,
        Ghost(names): Ghost<Seq<Seq<char>>>,
        Ghost(st): Ghost<ParseState>,
        Ghost(shape): Ghost<Shape>,
        Ghost(cap): Ghost<nat>,
        Ghost(lo): Ghost<nat>,
    )
        requires
            old(table).wf(),
            old(table).has_source(old(self).source_id),
            old(self).denotes(*old(table), names, st),
            form_denotes(*old(table), names, old(self).source_id, form, shape),
            openings_bounded(old(table).text(old(self).source_id), st.stack),
            bounded(old(table).text(old(self).source_id), shape_span(shape)),
            old(table).origins().len() + quote_count(st.stack) <= cap,
            cap <= u32::MAX,
            lo <= old(table).origins().len(),
            ids_fresh(old(self).held_ids().add(form_ids(form)), lo, old(table).origins().len()),
        ensures
            final(table).wf(),
            final(table).extends(old(table)),
            final(table).sources() == old(table).sources(),
            final(self).source_id == old(self).source_id,
            final(self).denotes(*final(table), names, deposit(old(self).source_id, st, shape)),
            openings_bounded(
                old(table).text(old(self).source_id),
                deposit(old(self).source_id, st, shape).stack,
            ),
            final(table).origins().len() + quote_count(
                deposit(old(self).source_id, st, shape).stack,
            ) <= cap,
            final(table).origins() == old(table).origins() + origins_in(
                old(self).source_id,
                deposit_spans(st.stack, shape),
            ),
            ids_fresh(final(self).held_ids(), lo, final(table).origins().len() as nat),
    {
        let ghost sid = self.source_id;
        let ghost text = table.text(sid);
        let ghost target = deposit(sid, st, shape);
        let ghost mut cur = st;
        let ghost mut sh = shape;
        let mut form = form;
        proof {
            table.lemma_extends_refl();
            crate::parser::lemma_names_extend_refl(names);
        }
        loop
            invariant
                table.wf(),
                table.has_source(sid),
                table.text(sid) == text,
                table.extends(old(table)),
                table.sources() == old(table).sources(),
                self.source_id == sid,
                self.denotes(*table, names, cur),
                form_denotes(*table, names, sid, form, sh),
                openings_bounded(text, cur.stack),
                bounded(text, shape_span(sh)),
                table.origins().len() + quote_count(cur.stack) <= cap,
                cap <= u32::MAX,
                lo <= table.origins().len(),
                ids_fresh(self.held_ids().add(form_ids(form)), lo, table.origins().len()),
                deposit(sid, cur, sh) == target,
                table.origins() + origins_in(sid, deposit_spans(cur.stack, sh)) == old(table).origins()
                    + origins_in(sid, deposit_spans(st.stack, shape)),
                sid == old(self).source_id,
                text == old(table).text(sid),
                target == deposit(sid, st, shape),
                names_extend(names, names),
            decreases self.stack@.len(),
        {
            let ghost pre_stack = self.stack@;
            let ghost held_start = self.held_ids();
            match self.stack.pop() {
                None => {
                    let ghost pre_forms = self.forms@;
                    let ghost pre_held = self.held_ids();
                    let ghost fid = form_ids(form);
                    self.forms.push(form);
                    proof {
                        lemma_forms_denote_push(*table, names, sid, pre_forms, cur.forms, form, sh);
                        lemma_forms_ids_push(pre_forms, form);
                        broadcast use vstd::multiset::group_multiset_axioms;

                        assert(self.held_ids() =~= pre_held.add(fid));
                    }
                    return ;
                },
                Some(top) => {
                    let ghost top_s = cur.stack.last();
                    let ghost rest = cur.stack.drop_last();
                    let ghost top_g = pre_stack.last();
                    let ghost fid = form_ids(form);
                    proof {
                        assert(pre_stack.drop_last().push(top_g) =~= pre_stack);
                        lemma_stack_ids_push(pre_stack.drop_last(), top_g);
                    }
                    proof {
                        lemma_stack_denotes_pop(*table, names, sid, pre_stack, cur.stack);
                        lemma_openings_pop(text, cur.stack);
                        assert(self.stack@ == pre_stack.drop_last());
                    }
                    let Frame { kind, opening, is_datum } = top;
                    let is_binding = match &form.kind {
                        HirKind::Bind(_) | HirKind::Load(_) => true,
                        _ => false,
                    };
                    proof {
                        assert(is_binding == (sh is Bind || sh is Load));
                    }
                    let ghost errs = if top_s.is_datum && (sh is Bind || sh is Load) {
                        cur.errors.push(
                            parse_error_at(sid, shape_span(sh), ParseErrorKind::BindingInDatum),
                        )
                    } else {
                        cur.errors
                    };
                    if is_datum && is_binding {
                        let span = table.get_origin(form.id).span;
                        let e = self.error(span, ParseErrorKind::BindingInDatum);
                        self.report(e, Ghost(cur.errors));
                    }
                    let ghost popped = ParseState { stack: rest, forms: cur.forms, errors: errs };
                    assert(self.denotes(*table, names, popped));
                    match kind {
                        FrameKind::Vector(mut cs) => {
                            let ghost pre_cs = cs@;
                            let ghost cs_s = top_s.kind->Vector_0;
                            proof {
                                lemma_forms_ids_push(pre_cs, form);
                            }
                            cs.push(form);
                            proof {
                                lemma_forms_denote_push(*table, names, sid, pre_cs, cs_s, form, sh);
                            }
                            let frame = Frame { kind: FrameKind::Vector(cs), opening, is_datum };
                            proof {
                                lemma_stack_ids_push(self.stack@, frame);
                            }
                            let ghost frame_s = PendingFrame {
                                kind: FrameShape::Vector(cs_s.push(sh)),
                                opening,
                                is_datum,
                            };
                            let ghost pre = self.stack@;
                            self.stack.push(frame);
                            proof {
                                lemma_stack_denotes_push(*table, names, sid, pre, rest, frame, frame_s);
                                lemma_openings_push(text, rest, frame_s);
                                assert(rest.push(top_s) =~= cur.stack);
                                broadcast use vstd::multiset::group_multiset_axioms;

                                assert(self.held_ids() =~= held_start.add(fid)) by {
                                    assert(self.stack@.drop_last() =~= pre_stack.drop_last());
                                    lemma_stack_ids_push(pre_stack.drop_last(), self.stack@.last());
                                }
                            }
                            return ;
                        },
                        FrameKind::List(mut cs) => {
                            let ghost pre_cs = cs@;
                            let ghost cs_s = top_s.kind->List_0;
                            proof {
                                lemma_forms_ids_push(pre_cs, form);
                            }
                            cs.push(form);
                            proof {
                                lemma_forms_denote_push(*table, names, sid, pre_cs, cs_s, form, sh);
                            }
                            let frame = Frame { kind: FrameKind::List(cs), opening, is_datum };
                            proof {
                                lemma_stack_ids_push(self.stack@, frame);
                            }
                            let ghost frame_s = PendingFrame {
                                kind: FrameShape::List(cs_s.push(sh)),
                                opening,
                                is_datum,
                            };
                            let ghost pre = self.stack@;
                            self.stack.push(frame);
                            proof {
                                lemma_stack_denotes_push(*table, names, sid, pre, rest, frame, frame_s);
                                lemma_openings_push(text, rest, frame_s);
                                assert(rest.push(top_s) =~= cur.stack);
                                broadcast use vstd::multiset::group_multiset_axioms;

                                assert(self.held_ids() =~= held_start.add(fid)) by {
                                    assert(self.stack@.drop_last() =~= pre_stack.drop_last());
                                    lemma_stack_ids_push(pre_stack.drop_last(), self.stack@.last());
                                }
                            }
                            return ;
                        },
                        FrameKind::Quote => {
                            let span = table.get_origin(form.id).span;
                            let ghost t0 = *table;
                            let ghost inner = form;
                            let ghost len0: nat = table.origins().len();
                            let ghost held0 = self.held_ids();
                            let id = table.add_origin(self.source_id, opening.join(span));
                            form = HirForm::new(id, HirKind::Quote(Box::new(form)));
                            proof {
                                broadcast use vstd::multiset::group_multiset_axioms;

                                assert(form_ids(form) =~= Multiset::singleton(len0 as nat).add(fid));
                                assert(frame_ids(top_g) =~= Multiset::<nat>::empty());
                                assert(held0 =~= held_start);
                                lemma_ids_fresh_next(held_start.add(fid), lo, len0 as nat);
                                assert(held0.add(form_ids(form)) =~= held_start.add(fid).add(
                                    Multiset::singleton(len0 as nat),
                                ));
                            }
                            proof {
                                self.lemma_denotes_grow(t0, names, *table, names, popped);
                                lemma_form_denotes_grow(t0, names, *table, names, sid, inner, sh);
                                assert(names_extend(names, names)) by {
                                    assert(names.subrange(0, names.len() as int) =~= names);
                                }
                                let new_sh = Shape::Quote(
                                    Box::new(sh),
                                    join_spans(opening, shape_span(sh)),
                                );
                                assert(kind_denotes(*table, names, sid, form.kind, new_sh));
                                SourceTable::lemma_extends_trans(old(table), &t0, table);
                                t0.lemma_extends(old(table));
                                table.lemma_extends(&t0);
                                cur = popped;
                                sh = new_sh;
                            }
                        },
                    }
                },
            }
        }
    }

    /// Close a frame using the given [`Token`] which should be a general
    /// container closer.
    ///
    /// If the [`TokenKind`] is not appropriate given the [`Frame`] stack, this
    /// will report a diagnostic regarding the specifics.
    fn close_frame(
        &mut self,
        table: &mut SourceTable,
        token: Token,
        Ghost(names): Ghost<Seq<Seq<char>>>,
        Ghost(st): Ghost<ParseState>,
        Ghost(cap): Ghost<nat>,
        Ghost(lo): Ghost<nat>,
    )
        requires
            token.kind is VecEnd || token.kind is ListEnd,
            old(table).wf(),
            old(table).has_source(old(self).source_id),
            old(self).denotes(*old(table), names, st),
            openings_bounded(old(table).text(old(self).source_id), st.stack),
            bounded(old(table).text(old(self).source_id), token.span),
            old(table).origins().len() + quote_count(st.stack) + 1 <= cap,
            cap <= u32::MAX,
            lo <= old(table).origins().len(),
            ids_fresh(old(self).held_ids(), lo, old(table).origins().len()),
        ensures
            final(table).wf(),
            final(table).extends(old(table)),
            final(table).sources() == old(table).sources(),
            final(self).source_id == old(self).source_id,
            final(self).denotes(*final(table), names, close(old(self).source_id, st, token)),
            openings_bounded(
                old(table).text(old(self).source_id),
                close(old(self).source_id, st, token).stack,
            ),
            final(table).origins().len() + quote_count(close(old(self).source_id, st, token).stack)
                <= cap,
            final(table).origins() == old(table).origins() + origins_in(
                old(self).source_id,
                close_spans(st.stack, token),
            ),
            ids_fresh(final(self).held_ids(), lo, final(table).origins().len() as nat),
    {
        let ghost sid = self.source_id;
        let ghost text = table.text(sid);
        let ghost target = close(sid, st, token);
        let ghost mut cur = st;
        proof {
            table.lemma_extends_refl();
            crate::parser::lemma_names_extend_refl(names);
        }
        loop
            invariant
                table.wf(),
                table.has_source(sid),
                table.text(sid) == text,
                table.extends(old(table)),
                table.sources() == old(table).sources(),
                self.source_id == sid,
                self.denotes(*table, names, cur),
                openings_bounded(text, cur.stack),
                bounded(text, token.span),
                token.kind is VecEnd || token.kind is ListEnd,
                table.origins().len() + quote_count(cur.stack) + 1 <= cap,
                cap <= u32::MAX,
                close(sid, cur, token) == target,
                lo <= table.origins().len(),
                ids_fresh(self.held_ids(), lo, table.origins().len()),
                table.origins() + origins_in(sid, close_spans(cur.stack, token)) == old(table).origins()
                    + origins_in(sid, close_spans(st.stack, token)),
                names_extend(names, names),
                sid == old(self).source_id,
                text == old(table).text(sid),
                target == close(sid, st, token),
            decreases self.stack@.len(),
        {
            let ghost pre_stack = self.stack@;
            let ghost held_start = self.held_ids();
            match self.stack.pop() {
                None => {
                    let e = self.error(token.span, ParseErrorKind::UnexpectedCloser);
                    self.report(e, Ghost(cur.errors));
                    return ;
                },
                Some(top) => {
                    let ghost top_s = cur.stack.last();
                    let ghost rest = cur.stack.drop_last();
                    let ghost popped = ParseState { stack: rest, forms: cur.forms, errors: cur.errors };
                    let ghost whole = join_spans(top_s.opening, token.span);
                    let ghost top_g = pre_stack.last();
                    proof {
                        assert(pre_stack.drop_last().push(top_g) =~= pre_stack);
                        lemma_stack_ids_push(pre_stack.drop_last(), top_g);
                        broadcast use vstd::multiset::group_multiset_axioms;

                        assert(held_start =~= self.held_ids().add(frame_ids(top_g)));
                    }
                    proof {
                        lemma_stack_denotes_pop(*table, names, sid, pre_stack, cur.stack);
                        lemma_openings_pop(text, cur.stack);
                        assert(self.stack@ == pre_stack.drop_last());
                        assert(self.denotes(*table, names, popped));
                    }
                    let Frame { kind, opening, is_datum: _ } = top;
                    let ghost kind_g = kind;
                    match kind.close_with(token.kind) {
                        Ok(hirkind) => {
                            let ghost t0 = *table;
                            let ghost hk = hirkind;
                            let ghost len0: nat = table.origins().len();
                            let form = self.close(table, hirkind, opening, token.span);
                            proof {
                                broadcast use vstd::multiset::group_multiset_axioms;

                                assert(kind_ids(hk) == frame_ids(top_g));
                                assert(form_ids(form) =~= Multiset::singleton(len0 as nat).add(
                                    frame_ids(top_g),
                                ));
                                lemma_ids_fresh_next(held_start, lo, len0 as nat);
                                assert(self.held_ids().add(form_ids(form)) =~= held_start.add(
                                    Multiset::singleton(len0 as nat),
                                ));
                            }
                            let ghost shape = match top_s.kind {
                                FrameShape::Vector(cs) => Shape::Vector(cs, whole),
                                FrameShape::List(cs) => Shape::List(cs, whole),
                                FrameShape::Quote => Shape::Vector(seq![], whole),
                            };
                            proof {
                                self.lemma_denotes_grow(t0, names, *table, names, popped);
                                match kind_g {
                                    FrameKind::Vector(v) => {
                                        lemma_forms_denote_grow(
                                            t0,
                                            names,
                                            *table,
                                            names,
                                            sid,
                                            v@,
                                            top_s.kind->Vector_0,
                                        );
                                    },
                                    FrameKind::List(v) => {
                                        lemma_forms_denote_grow(
                                            t0,
                                            names,
                                            *table,
                                            names,
                                            sid,
                                            v@,
                                            top_s.kind->List_0,
                                        );
                                    },
                                    FrameKind::Quote => {},
                                }
                                assert(kind_denotes(*table, names, sid, form.kind, shape));
                                assert(form_denotes(*table, names, sid, form, shape));
                                SourceTable::lemma_extends_trans(old(table), &t0, table);
                            }
                            let ghost t1 = *table;
                            self.yield_form(table, form, Ghost(names), Ghost(popped), Ghost(shape), Ghost(cap), Ghost(lo));
                            proof {
                                SourceTable::lemma_extends_trans(old(table), &t1, table);
                            }
                            return ;
                        },
                        Err(FrameKind::Vector(cs)) => {
                            let span = opening.join(token.span);
                            let e = self.error(span, ParseErrorKind::MismatchedCloser);
                            self.report(e, Ghost(cur.errors));
                            let ghost reported = with_error(popped, e);
                            let ghost t0 = *table;
                            let ghost cs_g = cs;
                            let ghost len0: nat = table.origins().len();
                            let form = self.close(table, HirKind::Vector(cs), opening, token.span);
                            proof {
                                broadcast use vstd::multiset::group_multiset_axioms;

                                assert(form_ids(form) =~= Multiset::singleton(len0 as nat).add(
                                    frame_ids(top_g),
                                ));
                                lemma_ids_fresh_next(held_start, lo, len0 as nat);
                                assert(self.held_ids().add(form_ids(form)) =~= held_start.add(
                                    Multiset::singleton(len0 as nat),
                                ));
                            }
                            let ghost shape = Shape::Vector(top_s.kind->Vector_0, whole);
                            proof {
                                self.lemma_denotes_grow(t0, names, *table, names, reported);
                                lemma_forms_denote_grow(t0, names, *table, names, sid, cs_g@, top_s.kind->Vector_0);
                                assert(kind_denotes(*table, names, sid, form.kind, shape));
                                SourceTable::lemma_extends_trans(old(table), &t0, table);
                            }
                            let ghost t1 = *table;
                            self.yield_form(table, form, Ghost(names), Ghost(reported), Ghost(shape), Ghost(cap), Ghost(lo));
                            proof {
                                SourceTable::lemma_extends_trans(old(table), &t1, table);
                            }
                            return ;
                        },
                        Err(FrameKind::List(cs)) => {
                            let span = opening.join(token.span);
                            let e = self.error(span, ParseErrorKind::MismatchedCloser);
                            self.report(e, Ghost(cur.errors));
                            let ghost reported = with_error(popped, e);
                            let ghost t0 = *table;
                            let ghost cs_g = cs;
                            let ghost len0: nat = table.origins().len();
                            let form = self.close(table, HirKind::List(cs), opening, token.span);
                            proof {
                                broadcast use vstd::multiset::group_multiset_axioms;

                                assert(form_ids(form) =~= Multiset::singleton(len0 as nat).add(
                                    frame_ids(top_g),
                                ));
                                lemma_ids_fresh_next(held_start, lo, len0 as nat);
                                assert(self.held_ids().add(form_ids(form)) =~= held_start.add(
                                    Multiset::singleton(len0 as nat),
                                ));
                            }
                            let ghost shape = Shape::List(top_s.kind->List_0, whole);
                            proof {
                                self.lemma_denotes_grow(t0, names, *table, names, reported);
                                lemma_forms_denote_grow(t0, names, *table, names, sid, cs_g@, top_s.kind->List_0);
                                assert(kind_denotes(*table, names, sid, form.kind, shape));
                                SourceTable::lemma_extends_trans(old(table), &t0, table);
                            }
                            let ghost t1 = *table;
                            self.yield_form(table, form, Ghost(names), Ghost(reported), Ghost(shape), Ghost(cap), Ghost(lo));
                            proof {
                                SourceTable::lemma_extends_trans(old(table), &t1, table);
                            }
                            return ;
                        },
                        Err(FrameKind::Quote) => {
                            let e = self.error(opening, ParseErrorKind::QuoteWithoutForm);
                            self.report(e, Ghost(cur.errors));
                            proof {
                                cur = with_error(popped, e);
                                broadcast use vstd::multiset::group_multiset_axioms;

                                assert(frame_ids(top_g) =~= Multiset::<nat>::empty());
                                assert(self.held_ids() =~= held_start);
                            }
                        },
                    }
                },
            }
        }
    }

    /// Attempt to parse an integer.
    ///
    /// # Errors
    /// - If the token's text is not an `i64` literal.
    fn parse_int(&mut self, table: &mut SourceTable, token: Token, Ghost(names): Ghost<Seq<Seq<char>>>) -> (r: Result<HirForm, ParseError>)
        requires
            old(table).wf(),
            old(table).has_source(old(self).source_id),
            token_wf(old(table).text(old(self).source_id), token),
            old(table).origins().len() <= u32::MAX,
        ensures
            *final(self) == *old(self),
            final(table).wf(),
            final(table).extends(old(table)),
            final(table).sources() == old(table).sources(),
            match i64_literal(span_chars(old(table).text(old(self).source_id), token.span)) {
                Some(n) => r matches Ok(f) && form_denotes(*final(table), names, old(self).source_id, f, Shape::Int(n, token.span))
                    && final(table).origins().len() == old(table).origins().len() + 1
                    && final(table).origins() == old(table).origins().push(
                        SyntaxOrigin { source: old(self).source_id, span: token.span },
                    ) && form_ids(f) == Multiset::singleton(old(table).origins().len() as nat),
                None => r == Err::<HirForm, ParseError>(parse_error_at(old(self).source_id, token.span, ParseErrorKind::IntOverflow))
                    && final(table).origins() == old(table).origins(),
            },
    {
        let text = self.text_of(table, token.span);
        match parse_i64(text) {
            Some(n) => {
                let id = self.add_syntax(table, token.span);
                let f = HirForm::new(id, HirKind::Int(n));
                proof {
                    broadcast use vstd::multiset::group_multiset_axioms;

                    assert(form_ids(f) =~= Multiset::singleton(id.spec_index() as nat));
                }
                Ok(f)
            },
            None => {
                proof {
                    table.lemma_extends_refl();
                }
                Err(self.error(token.span, ParseErrorKind::IntOverflow))
            },
        }
    }

    /// Parse a name-carrying [`Token`]: a symbol, a binding or a load.
    fn parse_sym_like(&mut self, table: &mut SourceTable, interner: &mut Interner, token: Token) -> (r: HirForm)
        requires
            token.kind is Symbol || token.kind is Bind || token.kind is Load,
            old(table).wf(),
            old(table).has_source(old(self).source_id),
            token_wf(old(table).text(old(self).source_id), token),
            old(table).origins().len() <= u32::MAX,
            old(interner)@.len() < u32::MAX,
        ensures
            *final(self) == *old(self),
            final(table).wf(),
            final(table).extends(old(table)),
            final(table).sources() == old(table).sources(),
            final(table).origins().len() == old(table).origins().len() + 1,
            final(table).origins() == old(table).origins().push(
                SyntaxOrigin { source: old(self).source_id, span: token.span },
            ),
            form_ids(r) == Multiset::singleton(old(table).origins().len() as nat),
            names_extend(final(interner)@, old(interner)@),
            final(interner)@.len() <= old(interner)@.len() + 1,
            final(interner)@ == names_step(old(interner)@, old(table).text(old(self).source_id), token),
            form_denotes(*final(table), final(interner)@, old(self).source_id, r, sym_shape(token)),
    {
        let ghost t0 = *table;
        let syntax_id = self.add_syntax(table, token.span);
        proof {
            table.lemma_extends(&t0);
        }
        let name_span = token.symbol_span();
        let sym_id = self.intern_span(table, interner, name_span);
        let kind = match token.kind {
            TokenKind::Bind => HirKind::Bind(sym_id),
            TokenKind::Load => HirKind::Load(sym_id),
            _ => HirKind::Call(sym_id),
        };
        let r = HirForm::new(syntax_id, kind);
        proof {
            assert(name_span == if token.kind is Bind || token.kind is Load {
                after_sigil(token.span)
            } else {
                token.span
            });
            assert(kind_denotes(*table, interner@, self.source_id, r.kind, sym_shape(token)));
            broadcast use vstd::multiset::group_multiset_axioms;

            assert(form_ids(r) =~= Multiset::singleton(syntax_id.spec_index() as nat));
        }
        r
    }
}


impl Parser {
    /// Parse a singular [`Token`].
    ///
    /// This essentially acts as the transition function for the [`Parser`]
    /// state machine, using the singular [`Token`] as input.
    fn parse_singular(
        &mut self,
        table: &mut SourceTable,
        interner: &mut Interner,
        token: Token,
        Ghost(st): Ghost<ParseState>,
        Ghost(cap): Ghost<nat>,
        Ghost(lo): Ghost<nat>,
    )
        requires
            old(table).wf(),
            old(table).has_source(old(self).source_id),
            token_wf(old(table).text(old(self).source_id), token),
            old(self).denotes(*old(table), old(interner)@, st),
            openings_bounded(old(table).text(old(self).source_id), st.stack),
            old(table).origins().len() + quote_count(st.stack) + 1 <= cap,
            cap <= u32::MAX,
            old(interner)@.len() < u32::MAX,
            lo <= old(table).origins().len(),
            ids_fresh(old(self).held_ids(), lo, old(table).origins().len()),
        ensures
            final(table).wf(),
            final(table).extends(old(table)),
            final(table).sources() == old(table).sources(),
            final(self).source_id == old(self).source_id,
            final(self).denotes(
                *final(table),
                final(interner)@,
                step(old(self).source_id, old(table).text(old(self).source_id), st, token),
            ),
            openings_bounded(
                old(table).text(old(self).source_id),
                step(old(self).source_id, old(table).text(old(self).source_id), st, token).stack,
            ),
            final(table).origins().len() + quote_count(
                step(old(self).source_id, old(table).text(old(self).source_id), st, token).stack,
            ) <= cap,
            names_extend(final(interner)@, old(interner)@),
            final(interner)@.len() <= old(interner)@.len() + 1,
            final(interner)@ == names_step(old(interner)@, old(table).text(old(self).source_id), token),
            final(table).origins() == old(table).origins() + origins_in(
                old(self).source_id,
                step_spans(old(table).text(old(self).source_id), st, token),
            ),
            ids_fresh(final(self).held_ids(), lo, final(table).origins().len() as nat),
    {
        let ghost sid = self.source_id;
        let ghost text = table.text(sid);
        let ghost names = interner@;
        let ghost t0 = *table;
        let ghost held0 = self.held_ids();
        let ghost len0: nat = table.origins().len();
        assert(names_extend(names, names)) by {
            assert(names.subrange(0, names.len() as int) =~= names);
        }
        proof {
            t0.lemma_extends_refl();
        }
        match token.kind {
            TokenKind::VecStart => {
                let ghost pre = self.stack@;
                let ghost ps = self.stack@;
                self.push_frame(FrameKind::Vector(Vec::new()), token.span);
                proof {
                    lemma_stack_ids_push(ps, self.stack@.last());
                    assert(ps.push(self.stack@.last()) =~= self.stack@);
                    broadcast use vstd::multiset::group_multiset_axioms;

                    assert(frame_ids(self.stack@.last()) =~= Multiset::<nat>::empty());
                    assert(self.held_ids() =~= held0);
                }
                proof {
                    let p = PendingFrame {
                        kind: FrameShape::Vector(seq![]),
                        opening: token.span,
                        is_datum: top_is_datum(st.stack),
                    };
                    if pre.len() > 0 {
                        lemma_stack_denotes_pop(*table, names, sid, pre, st.stack);
                    }
                    assert(forms_denote(*table, names, sid, Seq::<HirForm>::empty(), Seq::<Shape>::empty()));
                    lemma_stack_denotes_push(*table, names, sid, pre, st.stack, self.stack@.last(), p);
                    assert(pre.push(self.stack@.last()) =~= self.stack@);
                    lemma_openings_push(text, st.stack, p);
                }
            },
            TokenKind::ListStart => {
                let ghost pre = self.stack@;
                let ghost ps = self.stack@;
                self.push_frame(FrameKind::List(Vec::new()), token.span);
                proof {
                    lemma_stack_ids_push(ps, self.stack@.last());
                    assert(ps.push(self.stack@.last()) =~= self.stack@);
                    broadcast use vstd::multiset::group_multiset_axioms;

                    assert(frame_ids(self.stack@.last()) =~= Multiset::<nat>::empty());
                    assert(self.held_ids() =~= held0);
                }
                proof {
                    let p = PendingFrame {
                        kind: FrameShape::List(seq![]),
                        opening: token.span,
                        is_datum: true,
                    };
                    assert(forms_denote(*table, names, sid, Seq::<HirForm>::empty(), Seq::<Shape>::empty()));
                    lemma_stack_denotes_push(*table, names, sid, pre, st.stack, self.stack@.last(), p);
                    assert(pre.push(self.stack@.last()) =~= self.stack@);
                    lemma_openings_push(text, st.stack, p);
                }
            },
            TokenKind::Quote => {
                // We've got a new quote despite there already being a quote on
                // the frame stack => error.
                let n = self.stack.len();
                let ghost reported = if st.stack.len() > 0 && st.stack.last().kind is Quote {
                    with_error(
                        st,
                        parse_error_at(
                            sid,
                            join_spans(st.stack.last().opening, token.span),
                            ParseErrorKind::NestedQuote,
                        ),
                    )
                } else {
                    st
                };
                if n > 0 {
                    proof {
                        lemma_stack_denotes_pop(*table, names, sid, self.stack@, st.stack);
                        lemma_openings_pop(text, st.stack);
                    }
                    let top_is_quote = match &self.stack[n - 1].kind {
                        FrameKind::Quote => true,
                        _ => false,
                    };
                    if top_is_quote {
                        let opening = self.stack[n - 1].opening;
                        let span = opening.join(token.span);
                        let e = self.error(span, ParseErrorKind::NestedQuote);
                        self.report(e, Ghost(st.errors));
                    }
                }
                let ghost pre = self.stack@;
                let ghost ps = self.stack@;
                self.push_frame(FrameKind::Quote, token.span);
                proof {
                    lemma_stack_ids_push(ps, self.stack@.last());
                    assert(ps.push(self.stack@.last()) =~= self.stack@);
                    broadcast use vstd::multiset::group_multiset_axioms;

                    assert(frame_ids(self.stack@.last()) =~= Multiset::<nat>::empty());
                    assert(self.held_ids() =~= held0);
                }
                proof {
                    let p = PendingFrame { kind: FrameShape::Quote, opening: token.span, is_datum: true };
                    lemma_stack_denotes_push(*table, names, sid, pre, st.stack, self.stack@.last(), p);
                    assert(pre.push(self.stack@.last()) =~= self.stack@);
                    lemma_openings_push(text, st.stack, p);
                }
            },
            TokenKind::Number => {
                let parsed = self.parse_int(table, token, Ghost(names));
                proof {
                    if parsed is Ok {
                        broadcast use vstd::multiset::group_multiset_axioms;

                        lemma_ids_fresh_next(held0, lo, len0 as nat);
                        assert(held0.add(Multiset::singleton(len0 as nat)) =~= self.held_ids().add(
                            form_ids(parsed->Ok_0),
                        ));
                    }
                }
                proof {
                    self.lemma_denotes_grow(t0, names, *table, names, st);
                }
                match parsed {
                    Ok(form) => {
                        let ghost n = i64_literal(span_chars(text, token.span))->Some_0;
                        let ghost t1 = *table;
                        self.yield_form(
                            table,
                            form,
                            Ghost(names),
                            Ghost(st),
                            Ghost(Shape::Int(n, token.span)),
                            Ghost(cap),
                            Ghost(lo),
                        );
                        proof {
                            SourceTable::lemma_extends_trans(&t0, &t1, table);
                        }
                    },
                    Err(e) => {
                        self.report(e, Ghost(st.errors));
                    },
                }
            },
            TokenKind::Symbol | TokenKind::Bind | TokenKind::Load => {
                let form = self.parse_sym_like(table, interner, token);
                proof {
                    lemma_ids_fresh_next(held0, lo, len0 as nat);
                }
                proof {
                    self.lemma_denotes_grow(t0, names, *table, interner@, st);
                }
                let ghost t1 = *table;
                self.yield_form(
                    table,
                    form,
                    Ghost(interner@),
                    Ghost(st),
                    Ghost(sym_shape(token)),
                    Ghost(cap),
                    Ghost(lo),
                );
                proof {
                    SourceTable::lemma_extends_trans(&t0, &t1, table);
                }
            },
            TokenKind::VecEnd | TokenKind::ListEnd => {
                self.close_frame(table, token, Ghost(names), Ghost(st), Ghost(cap), Ghost(lo));
            },
        }
    }

    /// Report errors from unclosed [`Frame`]s in the [`Frame`] stack.
    ///
    /// This should be called after the token stream has been completely
    /// parsed by the [`Parser`] state machine.  It catches stray frames and
    /// reports errors for them, outermost first, and clears the stack.
    fn report_unclosed(
        &mut self,
        Ghost(table): Ghost<SourceTable>,
        Ghost(names): Ghost<Seq<Seq<char>>>,
        Ghost(st): Ghost<ParseState>,
    )
        requires
            old(self).denotes(table, names, st),
        ensures
            final(self).source_id == old(self).source_id,
            final(self).forms@ == old(self).forms@,
            reports_parse_errors(
                final(self).diagnostics@,
                st.errors + unclosed_errors(old(self).source_id, st.stack),
            ),
    {
        let ghost sid = self.source_id;
        let mut stack: Vec<Frame> = Vec::new();
        std::mem::swap(&mut stack, &mut self.stack);
        let mut i: usize = 0;
        assert(st.errors + unclosed_errors(sid, st.stack.take(0)) =~= st.errors);
        while i < stack.len()
            invariant
                i <= stack@.len(),
                self.source_id == sid,
                self.forms@ == old(self).forms@,
                stack_denotes(table, names, sid, stack@, st.stack),
                reports_parse_errors(
                    self.diagnostics@,
                    st.errors + unclosed_errors(sid, st.stack.take(i as int)),
                ),
            decreases stack@.len() - i,
        {
            assert(frame_denotes(table, names, sid, stack@[i as int], st.stack[i as int]));
            let error_kind = match &stack[i].kind {
                FrameKind::Vector(_) => ParseErrorKind::UnterminatedVector,
                FrameKind::List(_) => ParseErrorKind::UnterminatedList,
                FrameKind::Quote => ParseErrorKind::QuoteWithoutForm,
            };
            let e = self.error(stack[i].opening, error_kind);
            self.report(e, Ghost(st.errors + unclosed_errors(sid, st.stack.take(i as int))));
            proof {
                assert(e == unclosed_error(sid, st.stack[i as int]));
                assert(st.errors + unclosed_errors(sid, st.stack.take(i + 1)) =~= (st.errors
                    + unclosed_errors(sid, st.stack.take(i as int))).push(e));
            }
            i = i + 1;
        }
        assert(st.stack.take(i as int) =~= st.stack);
    }
}

} // verus!
