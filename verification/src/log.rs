//! Compiler phase logging.
use vstd::prelude::*;
use crate::chars::{decimal, push_decimal, push_repeat, push_str, repeat, string_of};
use crate::context::Compilation;
use crate::drivers::{stream_views, total_tokens};
use crate::lexer::{Token, token_kind_name, spans_wf};
use crate::parser::{
    HirForm, HirKind, Shape, dfs, form_denotes, forms_denote, is_leaf, kind_label, kind_preorder,
    leaf_origins_ok, preorder, preorder_seq, shape_span, span_chars,
};
use crate::source::{SourceId, SourceTable, SyntaxOrigin, byte_len};
use vstd::utf8::encode_utf8;

verus! {

/// Set of compiler phases to log.
///
/// One bit per stage, so several may be requested at once.  The field is
/// private and the constructors below are the only ones, so a value holding
/// bits no stage owns cannot be built.
#[derive(Debug, PartialEq, Eq, Structural, Copy, Clone)]
pub struct Log(u8);

impl Log {
    /// The bits of the stages in this set: one for tokens, two for forms.
    pub closed spec fn bits(self) -> u8 {
        self.0
    }

    /// Whether every stage of `other` is in this set.
    pub open spec fn has(self, other: Log) -> bool {
        self.bits() & other.bits() == other.bits()
    }

    /// No logs.
    pub fn none() -> (r: Self)
        ensures
            r.bits() == 0,
    {
        Log(0)
    }

    /// Log the tokens lexing produces.
    pub fn tokens() -> (r: Self)
        ensures
            r.bits() == 1,
    {
        Log(1)
    }

    /// Log the [`HirForm`]s parsing produces.
    pub fn hir() -> (r: Self)
        ensures
            r.bits() == 2,
    {
        Log(2)
    }

    /// Whether every stage in `other` is set in this set.
    pub fn contains(self, other: Self) -> (r: bool)
        ensures
            r == self.has(other),
    {
        self.0 & other.0 == other.0
    }

    /// Add every stage in `other` to this set.
    pub fn insert(&mut self, other: Self)
        ensures
            final(self).bits() == old(self).bits() | other.bits(),
    {
        self.0 = self.0 | other.0;
    }
}

/// Whether `log` asks for the tokens.
pub open spec fn logs_tokens(log: Log) -> bool {
    log.bits() & 1 == 1
}

/// Whether `log` asks for the forms.
pub open spec fn logs_hir(log: Log) -> bool {
    log.bits() & 2 == 2
}

/// `one` when `n` is one, else `many`.
pub open spec fn plural(n: nat, one: Seq<char>, many: Seq<char>) -> Seq<char> {
    if n == 1 {
        one
    } else {
        many
    }
}

/// A count followed by its noun: `1 token`, `2 tokens`.
pub open spec fn counted(n: nat, one: Seq<char>, many: Seq<char>) -> Seq<char> {
    decimal(n) + " "@ + plural(n, one, many)
}

/// How a token of `text` is logged.
pub open spec fn token_entry(text: Seq<char>, t: Token) -> Seq<char> {
    token_kind_name(t.kind) + "("@ + span_chars(text, t.span) + "), "@
}

/// How the tokens of `ts` are logged, one after the other.
pub open spec fn token_entries(text: Seq<char>, ts: Seq<Token>) -> Seq<char>
    decreases ts.len(),
{
    if ts.len() == 0 {
        seq![]
    } else {
        token_entries(text, ts.drop_last()) + token_entry(text, ts.last())
    }
}

/// The head line of the tokens of a source named `name` with text `text`.
pub open spec fn source_head(name: Seq<char>, text: Seq<char>, n: nat) -> Seq<char> {
    name + ": "@ + counted(byte_len(text), "byte"@, "bytes"@) + " => "@ + counted(
        n,
        "token"@,
        "tokens"@,
    ) + "\n"@
}

/// How the tokens `ts` of source `id` are logged.
pub open spec fn source_log(table: SourceTable, id: SourceId, ts: Seq<Token>) -> Seq<char> {
    let text = table.text(id);
    source_head(table.sources()[id.spec_index() as int].name_view(), text, ts.len()) + token_entries(
        text,
        ts,
    ) + "\n"@
}

/// How the first `n` sources of `ids`, with their streams, are logged.
pub open spec fn tokens_log_upto(
    table: SourceTable,
    ids: Seq<SourceId>,
    streams: Seq<Seq<Token>>,
    n: nat,
) -> Seq<char>
    decreases n,
{
    if n == 0 {
        seq![]
    } else {
        tokens_log_upto(table, ids, streams, (n - 1) as nat) + source_log(
            table,
            ids[n - 1],
            streams[n - 1],
        )
    }
}

/// How the sources `ids` are logged with their streams, paired in order as
/// far as both go.
pub open spec fn tokens_log(table: SourceTable, ids: Seq<SourceId>, streams: Seq<Seq<Token>>) -> Seq<
    char,
> {
    tokens_log_upto(table, ids, streams, if ids.len() <= streams.len() {
        ids.len()
    } else {
        streams.len()
    })
}

/// The token log of a source opens with its name, then its length in UTF-8
/// bytes (not in characters), then the number of tokens it lexed to.
pub proof fn lemma_token_log_counts_bytes(table: SourceTable, id: SourceId, ts: Seq<Token>)
    ensures
        ({
            let bytes = encode_utf8(table.text(id)).len();
            let head = table.sources()[id.spec_index() as int].name_view() + ": "@ + decimal(bytes)
                + " "@ + (if bytes == 1 {
                "byte"@
            } else {
                "bytes"@
            }) + " => "@ + decimal(ts.len()) + " "@ + (if ts.len() == 1 {
                "token"@
            } else {
                "tokens"@
            }) + "\n"@;
            &&& head.is_prefix_of(source_log(table, id, ts))
            &&& head.is_prefix_of(tokens_log(table, seq![id], seq![ts]))
        }),
{
    let log = source_log(table, id, ts);
    let head = source_head(table.sources()[id.spec_index() as int].name_view(), table.text(id), ts.len());
    assert(log =~= head + (token_entries(table.text(id), ts) + "\n"@));
    assert(tokens_log_upto(table, seq![id], seq![ts], 0) =~= Seq::<char>::empty());
    assert(tokens_log(table, seq![id], seq![ts]) =~= log);
}

/// Append `n` and its noun.
fn push_counted(out: &mut Vec<char>, n: usize, one: &str, many: &str)
    ensures
        final(out)@ == old(out)@ + counted(n as nat, one@, many@),
{
    push_decimal(out, n as u64);
    push_str(out, " ");
    if n == 1 {
        push_str(out, one);
    } else {
        push_str(out, many);
    }
    assert(final(out)@ =~= old(out)@ + counted(n as nat, one@, many@));
}

/// Append the head line of a source's tokens.
fn push_source_head(out: &mut Vec<char>, name: &str, bytes: usize, n: usize)
    ensures
        final(out)@ == old(out)@ + name@ + ": "@ + counted(bytes as nat, "byte"@, "bytes"@) + " => "@
            + counted(n as nat, "token"@, "tokens"@) + "\n"@,
{
    push_str(out, name);
    push_str(out, ": ");
    push_counted(out, bytes, "byte", "bytes");
    push_str(out, " => ");
    push_counted(out, n, "token", "tokens");
    push_str(out, "\n");
}

/// Append how the tokens of one source are logged.
fn push_source_log(out: &mut Vec<char>, table: &SourceTable, id: SourceId, tokens: &Vec<Token>)
    requires
        table.wf(),
        table.has_source(id),
        spans_wf(table.text(id), tokens@),
    ensures
        final(out)@ == old(out)@ + source_log(*table, id, tokens@),
{
    let source = table.get_source(id);
    let ghost text = table.text(id);
    let ghost start = out@;
    push_source_head(out, source.source_name(), source.len(), tokens.len());
    let ghost head = out@;
    assert(head =~= start + source_head(
        table.sources()[id.spec_index() as int].name_view(),
        text,
        tokens@.len(),
    ));
    let mut i: usize = 0;
    assert(tokens@.take(0) =~= Seq::<Token>::empty());
    assert(head + token_entries(text, tokens@.take(0)) =~= head);
    while i < tokens.len()
        invariant
            i <= tokens@.len(),
            source.wf(),
            source@ == text,
            spans_wf(text, tokens@),
            out@ == head + token_entries(text, tokens@.take(i as int)),
        decreases tokens@.len() - i,
    {
        let token = tokens[i];
        assert(crate::lexer::span_wf(text, tokens@[i as int].span));
        let ghost before = out@;
        push_str(out, token.kind.name());
        push_str(out, "(");
        push_str(out, source.span_text(token.span));
        push_str(out, "), ");
        proof {
            assert(tokens@.take(i + 1).drop_last() =~= tokens@.take(i as int));
            assert(out@ =~= before + token_entry(text, token));
        }
        i = i + 1;
    }
    assert(tokens@.take(i as int) =~= tokens@);
    push_str(out, "\n");
    assert(out@ =~= start + source_log(*table, id, tokens@));
}

/// Log the tokens of each source if and only if `log` contains
/// [`Log::tokens`].
pub fn log_tokens(sources: &[SourceId], lexes: &[Vec<Token>], log: Log, ctx: &Compilation, log_out: &mut String)
    requires
        ctx.table.wf(),
        forall|k: int|
            0 <= k < sources@.len() && k < lexes@.len() ==> ctx.table.has_source(
                #[trigger] sources@[k],
            ) && spans_wf(ctx.table.text(sources@[k]), lexes@[k]@),
    ensures
        final(log_out)@ == old(log_out)@ + if logs_tokens(log) {
            tokens_log(ctx.table, sources@, stream_views(lexes@))
        } else {
            Seq::<char>::empty()
        },
{
    if log.contains(Log::tokens()) {
        let ghost streams = stream_views(lexes@);
        let mut text: Vec<char> = Vec::new();
        push_str(&mut text, log_out.as_str());
        let n = if sources.len() <= lexes.len() {
            sources.len()
        } else {
            lexes.len()
        };
        let mut i: usize = 0;
        while i < n
            invariant
                i <= n,
                n <= sources@.len(),
                n <= lexes@.len(),
                n == (if sources@.len() <= streams.len() {
                    sources@.len()
                } else {
                    streams.len()
                }),
                streams == stream_views(lexes@),
                ctx.table.wf(),
                forall|k: int|
                    0 <= k < sources@.len() && k < lexes@.len() ==> ctx.table.has_source(
                        #[trigger] sources@[k],
                    ) && spans_wf(ctx.table.text(sources@[k]), lexes@[k]@),
                text@ == old(log_out)@ + tokens_log_upto(ctx.table, sources@, streams, i as nat),
            decreases n - i,
        {
            assert(ctx.table.has_source(sources@[i as int]));
            assert(streams[i as int] == lexes@[i as int]@);
            push_source_log(&mut text, &ctx.table, sources[i], &lexes[i]);
            i = i + 1;
            assert(text@ =~= old(log_out)@ + tokens_log_upto(ctx.table, sources@, streams, i as nat));
        }
        *log_out = string_of(&text);
    } else {
        assert(log_out@ =~= old(log_out)@ + Seq::<char>::empty());
    }
}

/// What follows the label of a visited form.
pub open spec fn visit_detail(table: SourceTable, f: HirForm) -> Seq<char> {
    match f.kind {
        HirKind::Vector(xs) => "["@ + decimal(xs@.len()) + "]\n"@,
        HirKind::List(xs) => "["@ + decimal(xs@.len()) + "]\n"@,
        HirKind::Quote(_) => "\n"@,
        _ => "`"@ + table.origin_text(table.origin(f.id)) + "`\n"@,
    }
}

/// How a form visited at `depth` is logged.
pub open spec fn visit_line(table: SourceTable, f: HirForm, depth: nat) -> Seq<char> {
    repeat(' ', depth) + repeat(' ', depth) + kind_label(f.kind) + " "@ + visit_detail(table, f)
}

/// How the visits of a walk are logged, one line each.
pub open spec fn visit_lines(table: SourceTable, visits: Seq<(HirForm, nat)>) -> Seq<char>
    decreases visits.len(),
{
    if visits.len() == 0 {
        seq![]
    } else {
        visit_lines(table, visits.drop_last()) + visit_line(table, visits.last().0, visits.last().1)
    }
}

/// How the forms parsed from `streams` are logged: a count line, then every
/// form in pre-order, indented by its depth.
pub open spec fn hir_log(table: SourceTable, streams: Seq<Seq<Token>>, forms: Seq<HirForm>) -> Seq<
    char,
> {
    let visits = preorder_seq(forms, 0);
    counted(total_tokens(streams), "token"@, "tokens"@) + " => "@ + counted(
        visits.len(),
        "form"@,
        "forms"@,
    ) + "\n"@ + visit_lines(table, visits)
}

/// Append how one visited form is logged.
fn push_visit(out: &mut Vec<char>, table: &SourceTable, form: &HirForm, depth: usize)
    requires
        table.wf(),
        is_leaf(form.kind) ==> table.has_origin(form.id) && table.resolvable(table.origin(form.id)),
    ensures
        final(out)@ == old(out)@ + visit_line(*table, *form, depth as nat),
{
    let ghost start = out@;
    push_repeat(out, ' ', depth);
    push_repeat(out, ' ', depth);
    push_str(out, form.kind.label_str());
    push_str(out, " ");
    let ghost mid = out@;
    match &form.kind {
        HirKind::Vector(xs) => {
            push_str(out, "[");
            push_decimal(out, xs.len() as u64);
            push_str(out, "]\n");
        },
        HirKind::List(xs) => {
            push_str(out, "[");
            push_decimal(out, xs.len() as u64);
            push_str(out, "]\n");
        },
        HirKind::Quote(_) => {
            push_str(out, "\n");
        },
        _ => {
            push_str(out, "`");
            push_str(out, table.text_of(form.id));
            push_str(out, "`\n");
        },
    }
    assert(out@ =~= mid + visit_detail(*table, *form));
    assert(out@ =~= start + visit_line(*table, *form, depth as nat));
}

/// Sum the lengths of the token streams.
fn count_tokens(token_streams: &[Vec<Token>]) -> (n: usize)
    requires
        total_tokens(stream_views(token_streams@)) <= usize::MAX,
    ensures
        n == total_tokens(stream_views(token_streams@)),
{
    let ghost views = stream_views(token_streams@);
    let mut n: usize = 0;
    let mut i: usize = 0;
    assert(views.take(0) =~= Seq::<Seq<Token>>::empty());
    while i < token_streams.len()
        invariant
            i <= token_streams@.len(),
            views == stream_views(token_streams@),
            total_tokens(views) <= usize::MAX,
            n == total_tokens(views.take(i as int)),
        decreases token_streams@.len() - i,
    {
        proof {
            assert(views.take(i + 1).drop_last() =~= views.take(i as int));
            assert(views.take(i + 1).last() == token_streams@[i as int]@);
            crate::drivers::lemma_total_tokens_prefix(views, i + 1);
        }
        n = n + token_streams[i].len();
        i = i + 1;
    }
    assert(views.take(i as int) =~= views);
    n
}

/// Log the forms, in pre-order, if and only if `log` contains [`Log::hir`].
pub fn log_hir(
    token_streams: &[Vec<Token>],
    forms: &[HirForm],
    log: Log,
    ctx: &Compilation,
    log_out: &mut String,
)
    requires
        ctx.table.wf(),
        total_tokens(stream_views(token_streams@)) <= usize::MAX,
        preorder_seq(forms@, 0).len() <= usize::MAX,
        leaf_origins_ok(ctx.table, preorder_seq(forms@, 0)),
    ensures
        final(log_out)@ == old(log_out)@ + if logs_hir(log) {
            hir_log(ctx.table, stream_views(token_streams@), forms@)
        } else {
            Seq::<char>::empty()
        },
{
    if log.contains(Log::hir()) {
        let ghost visits = preorder_seq(forms@, 0);
        let walk = dfs(forms);
        let token_count = count_tokens(token_streams);
        let mut text: Vec<char> = Vec::new();
        push_str(&mut text, log_out.as_str());
        push_counted(&mut text, token_count, "token", "tokens");
        push_str(&mut text, " => ");
        push_counted(&mut text, walk.len(), "form", "forms");
        push_str(&mut text, "\n");
        let ghost head = text@;
        assert(walk@.len() == visits.len());
        let mut i: usize = 0;
        assert(visits.take(0) =~= Seq::<(HirForm, nat)>::empty());
        while i < walk.len()
            invariant
                i <= walk@.len(),
                crate::parser::as_visits(walk@) == visits,
                ctx.table.wf(),
                leaf_origins_ok(ctx.table, visits),
                text@ == head + visit_lines(ctx.table, visits.take(i as int)),
            decreases walk@.len() - i,
        {
            let (form, depth) = walk[i];
            proof {
                assert(visits[i as int] == (*form, depth as nat));
                assert(visits.take(i + 1).drop_last() =~= visits.take(i as int));
            }
            push_visit(&mut text, &ctx.table, form, depth);
            i = i + 1;
        }
        assert(visits.take(i as int) =~= visits);
        assert(text@ =~= old(log_out)@ + hir_log(ctx.table, stream_views(token_streams@), forms@));
        *log_out = string_of(&text);
    } else {
        assert(log_out@ =~= old(log_out)@ + Seq::<char>::empty());
    }
}

/* The form log, read from what the forms denote */

/// The name of the category of shape `s`, as it is logged.
pub open spec fn shape_label(s: Shape) -> Seq<char> {
    match s {
        Shape::Int(_, _) => "Int"@,
        Shape::Quote(_, _) => "Quote"@,
        Shape::List(_, _) => "List"@,
        Shape::Vector(_, _) => "Vector"@,
        Shape::Bind(_) => "Bind"@,
        Shape::Load(_) => "Load"@,
        Shape::Call(_) => "Call"@,
    }
}

/// What follows the label of a visited shape of source `sid`.
pub open spec fn shape_detail(table: SourceTable, sid: SourceId, s: Shape) -> Seq<char> {
    match s {
        Shape::Vector(items, _) => "["@ + decimal(items.len()) + "]\n"@,
        Shape::List(items, _) => "["@ + decimal(items.len()) + "]\n"@,
        Shape::Quote(_, _) => "\n"@,
        _ => "`"@ + table.origin_text(SyntaxOrigin { source: sid, span: shape_span(s) }) + "`\n"@,
    }
}

/// How a shape of source `sid` visited at `depth` is logged.
pub open spec fn shape_line(table: SourceTable, sid: SourceId, s: Shape, depth: nat) -> Seq<char> {
    repeat(' ', depth) + repeat(' ', depth) + shape_label(s) + " "@ + shape_detail(table, sid, s)
}

/// How a pre-order walk of shape `s` of source `sid`, which sits at
/// `depth`, is logged.
pub open spec fn shape_lines(table: SourceTable, sid: SourceId, s: Shape, depth: nat) -> Seq<char>
    decreases s,
{
    shape_line(table, sid, s, depth) + match s {
        Shape::Quote(inner, _) => shape_lines(table, sid, *inner, depth + 1),
        Shape::List(items, _) => shapes_lines(table, sid, items, depth + 1),
        Shape::Vector(items, _) => shapes_lines(table, sid, items, depth + 1),
        _ => seq![],
    }
}

/// How pre-order walks of the shapes `ss` of source `sid`, all at `depth`,
/// are logged, in order.
pub open spec fn shapes_lines(table: SourceTable, sid: SourceId, ss: Seq<Shape>, depth: nat) -> Seq<
    char,
>
    decreases ss,
{
    if ss.len() == 0 {
        seq![]
    } else {
        shape_lines(table, sid, ss[0], depth) + shapes_lines(
            table,
            sid,
            ss.subrange(1, ss.len() as int),
            depth,
        )
    }
}

/// Appending visits appends their lines.
pub(crate) proof fn lemma_visit_lines_append(table: SourceTable, a: Seq<(HirForm, nat)>, b: Seq<(HirForm, nat)>)
    ensures
        visit_lines(table, a + b) == visit_lines(table, a) + visit_lines(table, b),
    decreases b.len(),
{
    if b.len() == 0 {
        assert(a + b =~= a);
        assert(visit_lines(table, a) + visit_lines(table, b) =~= visit_lines(table, a));
    } else {
        lemma_visit_lines_append(table, a, b.drop_last());
        assert((a + b).drop_last() =~= a + b.drop_last());
        assert((a + b).last() == b.last());
        assert(visit_lines(table, a + b) =~= visit_lines(table, a) + visit_lines(table, b));
    }
}

/// A form logs, visited at `depth`, as the shape it denotes.
pub proof fn lemma_visit_denoted(
    table: SourceTable,
    names: Seq<Seq<char>>,
    sid: SourceId,
    f: HirForm,
    s: Shape,
    depth: nat,
)
    requires
        form_denotes(table, names, sid, f, s),
    ensures
        visit_lines(table, preorder(f, depth)) == shape_lines(table, sid, s, depth),
    decreases f,
{
    let head = seq![(f, depth)];
    lemma_visit_lines_append(table, head, kind_preorder(f.kind, depth + 1));
    assert(head.drop_last() =~= Seq::<(HirForm, nat)>::empty());
    assert(visit_lines(table, Seq::<(HirForm, nat)>::empty()) =~= Seq::<char>::empty());
    assert(head.last() == (f, depth));
    assert(visit_lines(table, head) =~= visit_line(table, f, depth));
    match f.kind {
        HirKind::Quote(b) => {
            if let Shape::Quote(inner, _) = s {
                lemma_visit_denoted(table, names, sid, *b, *inner, depth + 1);
            }
        },
        HirKind::List(v) => {
            if let Shape::List(items, _) = s {
                lemma_visits_denoted(table, names, sid, v@, items, depth + 1);
            }
        },
        HirKind::Vector(v) => {
            if let Shape::Vector(items, _) = s {
                lemma_visits_denoted(table, names, sid, v@, items, depth + 1);
            }
        },
        _ => {
            assert(visit_lines(table, Seq::<(HirForm, nat)>::empty()) =~= Seq::<char>::empty());
        },
    }
}

/// Forms log, visited at `depth`, as the shapes they denote.
pub proof fn lemma_visits_denoted(
    table: SourceTable,
    names: Seq<Seq<char>>,
    sid: SourceId,
    fs: Seq<HirForm>,
    ss: Seq<Shape>,
    depth: nat,
)
    requires
        forms_denote(table, names, sid, fs, ss),
    ensures
        visit_lines(table, preorder_seq(fs, depth)) == shapes_lines(table, sid, ss, depth),
    decreases fs,
{
    if fs.len() == 0 {
        assert(visit_lines(table, Seq::<(HirForm, nat)>::empty()) =~= Seq::<char>::empty());
    } else {
        let fr = fs.subrange(1, fs.len() as int);
        let sr = ss.subrange(1, ss.len() as int);
        assert(form_denotes(table, names, sid, fs[0], ss[0]));
        lemma_visit_denoted(table, names, sid, fs[0], ss[0], depth);
        assert forall|k: int| 0 <= k < fr.len() implies form_denotes(
            table,
            names,
            sid,
            #[trigger] fr[k],
            sr[k],
        ) by {
            assert(fr[k] == fs[k + 1]);
            assert(sr[k] == ss[k + 1]);
        }
        lemma_visits_denoted(table, names, sid, fr, sr, depth);
        lemma_visit_lines_append(table, preorder(fs[0], depth), preorder_seq(fr, depth));
    }
}

} // verus!
