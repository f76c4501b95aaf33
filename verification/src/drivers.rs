//! Generalised drivers for each phase of the compiler.
//!
//! Each driver attempts every source, accumulates the diagnostics together,
//! and gates once at the phase boundary.
use vstd::prelude::*;
use crate::context::Compilation;
use crate::log::{
    Log, counted, hir_log, lemma_visit_denoted, lemma_visit_lines_append, log_hir, log_tokens, logs_hir,
    logs_tokens, shape_lines, tokens_log, tokens_log_upto, visit_lines,
};
use crate::diagnostics::conv::too_large_message;
use crate::diagnostics::{
    Aborted, Class, Diagnostic, Diagnostics, Phase, Site, count_fatal, lemma_sites_ok_extends, sites_ok,
};
use crate::lexer::{
    LexError, Token, lemma_lex_reports_fatal, lex_errors, lex_items, ok_tokens, reports_lex_errors,
    tokenise,
};
use crate::chars::{decimal, push_decimal, push_str, string_of};
use crate::parser::{
    HirForm, ParseError, Shape, dfs, fresh_ids, lemma_fresh_ids_append, lemma_fresh_ids_empty,
    lemma_fresh_ids_wider, preorder, shape_count, form_denotes, forms_denote, leaf_origins_ok,
    lemma_form_denotes_grow, lemma_forms_leaves_ok, lemma_leaf_origins_concat,
    lemma_leaf_origins_grow, lemma_parse_leaves_wf, lemma_parse_reports_fatal,
    lemma_preorder_seq_append, lemma_parse_errors_wf, names_extend, non_closer_count, parse,
    parse_errors, parse_shapes, preorder_seq,
};
use crate::parser::{names_after, origins_in, reports_parse_errors, run_spans};
use crate::diagnostics::conv::reports_parse_error;
use crate::lexer::{lemma_lexed_len, lemma_lexed_wf, lemma_tokens_have_spans, spans_wf, tokens_wf};
use crate::source::{MAX_SOURCE_LEN, Source, SourceId, SourceTable, SyntaxOrigin, byte_len};

verus! {

/// A file to compile: its name, and the outcome of reading it (its contents,
/// or a description of why it could not be read).
pub type FileRead = (String, Result<String, String>);

/* Sources */

/// Whether reading a file with outcome `read` yields a source.
pub open spec fn read_accepted(read: Result<String, String>) -> bool {
    read matches Ok(c) && byte_len(c@) <= MAX_SOURCE_LEN
}

/// Whether `d` reports that the file `name`, read with outcome `read`, gave
/// no source.
pub open spec fn reports_rejected(d: Diagnostic, name: Seq<char>, read: Result<String, String>) -> bool {
    &&& d.site == Site::Nowhere
    &&& match read {
        Ok(c) => d.class == Class::SourceTooLarge && d.message@ == too_large_message(
            name,
            byte_len(c@),
            MAX_SOURCE_LEN as nat,
        ),
        Err(e) => d.class == Class::SourceReadError && d.message@ == name + ": "@ + e@,
    }
}

/// The files of `files` that yield no source, in order.
pub open spec fn rejected_files(files: Seq<FileRead>) -> Seq<FileRead>
    decreases files.len(),
{
    if files.len() == 0 {
        seq![]
    } else {
        let prev = rejected_files(files.drop_last());
        if read_accepted(files.last().1) {
            prev
        } else {
            prev.push(files.last())
        }
    }
}

/// Whether `ds` reports exactly the files of `files` that yield no source,
/// in order.
pub open spec fn reports_rejections(ds: Seq<Diagnostic>, files: Seq<FileRead>) -> bool {
    let rs = rejected_files(files);
    &&& ds.len() == rs.len()
    &&& forall|k: int| 0 <= k < ds.len() ==> reports_rejected(#[trigger] ds[k], rs[k].0@, rs[k].1)
}

/// The ids the sources of `n` files receive in a table already holding
/// `base` sources.
pub open spec fn new_ids(base: nat, n: nat) -> Seq<SourceId> {
    Seq::new(n, |k: int| SourceId::from_index((base + k) as nat))
}

/// The files among `files` that were read and are within bounds, in order.
pub open spec fn accepted_files(files: Seq<FileRead>) -> Seq<FileRead>
    decreases files.len(),
{
    if files.len() == 0 {
        seq![]
    } else {
        let prev = accepted_files(files.drop_last());
        if read_accepted(files.last().1) {
            prev.push(files.last())
        } else {
            prev
        }
    }
}

/// Whether `sources` are what the files `files` become: one source per
/// file, in order, holding what was read under the file's name.
pub open spec fn sources_of(sources: Seq<Source>, files: Seq<FileRead>) -> bool {
    &&& sources.len() == files.len()
    &&& forall|k: int|
        0 <= k < files.len() ==> ((#[trigger] files[k]).1 matches Ok(c) && sources[k]@ == c@)
            && sources[k].name_view() == files[k].0@
}

/// Rejection reports only fail: every one of them is fatal.
proof fn lemma_rejections_fatal(ds: Seq<Diagnostic>, files: Seq<FileRead>)
    requires
        reports_rejections(ds, files),
    ensures
        count_fatal(ds) == ds.len(),
    decreases ds.len(),
{
    if ds.len() > 0 {
        let rs = rejected_files(files);
        let init = ds.drop_last();
        let rinit = rs.drop_last();
        assert forall|k: int| 0 <= k < init.len() implies reports_rejected(
            #[trigger] init[k],
            rinit[k].0@,
            rinit[k].1,
        ) by {
            assert(init[k] == ds[k]);
            assert(rinit[k] == rs[k]);
        }
        lemma_reports_rejected_fatal(init, rinit);
        assert(reports_rejected(ds[ds.len() - 1], rs[ds.len() - 1].0@, rs[ds.len() - 1].1));
    }
}

/// [`lemma_rejections_fatal`] over the rejected files themselves.
proof fn lemma_reports_rejected_fatal(ds: Seq<Diagnostic>, rs: Seq<FileRead>)
    requires
        ds.len() == rs.len(),
        forall|k: int| 0 <= k < ds.len() ==> reports_rejected(#[trigger] ds[k], rs[k].0@, rs[k].1),
    ensures
        count_fatal(ds) == ds.len(),
    decreases ds.len(),
{
    if ds.len() > 0 {
        let init = ds.drop_last();
        let rinit = rs.drop_last();
        assert forall|k: int| 0 <= k < init.len() implies reports_rejected(
            #[trigger] init[k],
            rinit[k].0@,
            rinit[k].1,
        ) by {
            assert(init[k] == ds[k]);
            assert(rinit[k] == rs[k]);
        }
        lemma_reports_rejected_fatal(init, rinit);
        assert(reports_rejected(ds[ds.len() - 1], rs[ds.len() - 1].0@, rs[ds.len() - 1].1));
    }
}

/// Pass a phase's results through only if that phase reported no errors.
///
/// The merge is unconditional.  The decision reads the phase's own
/// [`Diagnostics`] so errors from an earlier phase do not gate this one.
pub fn gate<T>(global_diags: &mut Diagnostics, local_diags: Diagnostics, container: T, phase: Phase) -> (r:
    Result<T, Aborted>)
    ensures
        final(global_diags)@ == old(global_diags)@ + local_diags@,
        r is Ok <==> count_fatal(local_diags@) == 0,
        r matches Ok(v) ==> v == container,
        r matches Err(a) ==> a.0 == phase,
{
    let succeeded = !local_diags.has_errors();
    global_diags.merge(local_diags);
    if succeeded {
        Ok(container)
    } else {
        Err(Aborted::new(phase))
    }
}

/// Add a set of files, each given with the outcome of reading it, to the
/// context's source table, attempting every file.
///
/// Fails, after reporting every file that gave no source, if any did.
pub fn sources_from_files(
    files: Vec<FileRead>,
    diagnostics: &mut Diagnostics,
    ctx: &mut Compilation,
) -> (r: Result<Vec<SourceId>, Aborted>)
    requires
        old(ctx).table.wf(),
        old(ctx).table.sources().len() + files@.len() <= u32::MAX,
    ensures
        final(ctx).table.wf(),
        final(ctx).table.extends(&old(ctx).table),
        final(ctx).table.origins() == old(ctx).table.origins(),
        final(ctx).interner == old(ctx).interner,
        final(ctx).primitives == old(ctx).primitives,
        final(diagnostics)@.len() >= old(diagnostics)@.len(),
        final(diagnostics)@.take(old(diagnostics)@.len() as int) == old(diagnostics)@,
        reports_rejections(final(diagnostics)@.skip(old(diagnostics)@.len() as int), files@),
        sites_ok(final(ctx).table, final(diagnostics)@.skip(old(diagnostics)@.len() as int)),
        r is Ok <==> rejected_files(files@).len() == 0,
        r matches Err(a) ==> a.0 == Phase::Source,
        sources_of(
            final(ctx).table.sources().skip(old(ctx).table.sources().len() as int),
            accepted_files(files@),
        ),
        r matches Ok(ids) ==> {
            &&& ids@ == new_ids(old(ctx).table.sources().len(), files@.len())
            &&& final(ctx).table.sources().len() == old(ctx).table.sources().len() + files@.len()
            &&& forall|k: int|
                0 <= k < files@.len() ==> ((#[trigger] files@[k]).1 matches Ok(c)
                    && final(ctx).table.text(ids@[k]) == c@)
        },
{
    let ghost all = files@;
    let ghost t0 = ctx.table;
    let ghost base = t0.sources().len();
    let mut files = files;
    let mut local = Diagnostics::new();
    let mut ids: Vec<SourceId> = Vec::new();
    let mut i: usize = 0;
    proof {
        t0.lemma_extends_refl();
        assert(all.take(0) =~= Seq::<FileRead>::empty());
        assert(all.skip(0) =~= all);
    }
    while files.len() > 0
        invariant
            i <= all.len(),
            files@ == all.skip(i as int),
            base == t0.sources().len(),
            base + all.len() <= u32::MAX,
            ctx.table.wf(),
            ctx.table.extends(&t0),
            ctx.table.origins() == t0.origins(),
            ctx.table.sources().len() <= base + i,
            ctx.interner == old(ctx).interner,
            ctx.primitives == old(ctx).primitives,
            t0 == old(ctx).table,
            reports_rejections(local@, all.take(i as int)),
            sources_of(ctx.table.sources().skip(base as int), accepted_files(all.take(i as int))),
            rejected_files(all.take(i as int)).len() == 0 ==> {
                &&& ids@ == new_ids(base, i as nat)
                &&& ctx.table.sources().len() == base + i
                &&& forall|k: int|
                    0 <= k < i ==> ((#[trigger] all[k]).1 matches Ok(c) && ctx.table.text(
                        ids@[k],
                    ) == c@)
            },
        decreases files@.len(),
    {
        let ghost before = ctx.table;
        let ghost prev_ids = ids@;
        let ghost prev_local = local@;
        let (name, read) = files.remove(0);
        proof {
            assert(all[i as int] == (name, read));
            assert(all.take(i + 1).drop_last() =~= all.take(i as int));
            assert(all.take(i + 1).last() == all[i as int]);
            assert(files@ =~= all.skip(i + 1));
        }
        let added = ctx.table.add_source_file(name.as_str(), read);
        proof {
            SourceTable::lemma_extends_trans(&t0, &before, &ctx.table);
        }
        match added {
            Ok(id) => {
                ids.push(id);
                proof {
                    assert(rejected_files(all.take(i + 1)) == rejected_files(all.take(i as int)));
                    if rejected_files(all.take(i as int)).len() == 0 {
                        crate::source::lemma_source_index_round(id);
                        assert(ids@ =~= new_ids(base, (i + 1) as nat));
                        ctx.table.lemma_extends(&before);
                        assert forall|k: int| 0 <= k < i + 1 implies ((#[trigger] all[k]).1 matches Ok(
                            c,
                        ) && ctx.table.text(ids@[k]) == c@) by {
                            if k < i {
                                assert(ids@[k] == prev_ids[k]);
                                assert(prev_ids[k] == SourceId::from_index((base + k) as nat));
                                crate::source::lemma_source_from_index((base + k) as nat);
                                assert(before.has_source(prev_ids[k]));
                            }
                        }
                    }
                }
            },
            Err(e) => {
                local.push(Diagnostic::of_source_table_error(e));
                proof {
                    let rs = rejected_files(all.take(i + 1));
                    assert(rs == rejected_files(all.take(i as int)).push(all[i as int]));
                    assert forall|k: int| 0 <= k < local@.len() implies reports_rejected(
                        #[trigger] local@[k],
                        rs[k].0@,
                        rs[k].1,
                    ) by {
                        if k < prev_local.len() {
                            assert(local@[k] == prev_local[k]);
                        }
                    }
                }
            },
        }
        i = i + 1;
    }
    proof {
        assert(all.take(i as int) =~= all);
        lemma_rejections_fatal(local@, all);
        assert forall|k: int| 0 <= k < local@.len() implies crate::diagnostics::site_ok(
            ctx.table,
            #[trigger] local@[k].site,
        ) by {
            let rs = rejected_files(all);
            assert(reports_rejected(local@[k], rs[k].0@, rs[k].1));
        }
    }
    let ghost before = diagnostics@;
    let r = gate(diagnostics, local, ids, Phase::Source);
    assert(diagnostics@.skip(before.len() as int) =~= local@);
    r
}

/* Lexing */

/// The tokens lexing source `id` of `table` gives.
pub open spec fn lexed(table: SourceTable, id: SourceId) -> Seq<Token> {
    ok_tokens(lex_items(id, table.text(id)))
}

/// The tokens of each source of `ids`, in order.
pub open spec fn lexed_all(table: SourceTable, ids: Seq<SourceId>) -> Seq<Seq<Token>> {
    Seq::new(ids.len(), |k: int| lexed(table, ids[k]))
}

/// The errors lexing each source of `ids` reports, source after source.
pub open spec fn lex_errors_of(table: SourceTable, ids: Seq<SourceId>) -> Seq<LexError>
    decreases ids.len(),
{
    if ids.len() == 0 {
        seq![]
    } else {
        lex_errors_of(table, ids.drop_last()) + lex_errors(lex_items(ids.last(), table.text(ids.last())))
    }
}

/// The tokens of each stream of `streams`.
pub open spec fn stream_views(streams: Seq<Vec<Token>>) -> Seq<Seq<Token>> {
    Seq::new(streams.len(), |k: int| streams[k]@)
}

/// Reports of two runs of errors, one after the other, report the errors of
/// both.
proof fn lemma_reports_lex_concat(a: Seq<Diagnostic>, ea: Seq<LexError>, b: Seq<Diagnostic>, eb: Seq<LexError>)
    requires
        reports_lex_errors(a, ea),
        reports_lex_errors(b, eb),
    ensures
        reports_lex_errors(a + b, ea + eb),
{
    assert forall|k: int| 0 <= k < (a + b).len() implies crate::diagnostics::conv::reports_lex_error(
        #[trigger] (a + b)[k],
        (ea + eb)[k],
    ) by {
        if k < a.len() {
            assert((a + b)[k] == a[k]);
            assert((ea + eb)[k] == ea[k]);
        } else {
            assert((a + b)[k] == b[k - a.len()]);
            assert((ea + eb)[k] == eb[k - a.len()]);
        }
    }
}

/// Every error lexing sources of a table reports can be cut out of it.
pub proof fn lemma_lex_errors_of_resolvable(table: SourceTable, ids: Seq<SourceId>)
    requires
        table.wf(),
        forall|k: int| 0 <= k < ids.len() ==> table.has_source(#[trigger] ids[k]),
    ensures
        forall|k: int|
            0 <= k < lex_errors_of(table, ids).len() ==> table.resolvable(
                #[trigger] lex_errors_of(table, ids)[k].origin,
            ),
    decreases ids.len(),
{
    if ids.len() > 0 {
        let init = ids.drop_last();
        assert forall|k: int| 0 <= k < init.len() implies table.has_source(#[trigger] init[k]) by {
            assert(init[k] == ids[k]);
        }
        lemma_lex_errors_of_resolvable(table, init);
        let id = ids.last();
        assert(table.has_source(ids[ids.len() - 1]));
        table.sources()[id.spec_index() as int].lemma_wf_len();
        lemma_lexed_wf(id, table.text(id));
        let prev = lex_errors_of(table, init);
        let more = lex_errors(lex_items(id, table.text(id)));
        assert forall|k: int| 0 <= k < lex_errors_of(table, ids).len() implies table.resolvable(
            #[trigger] lex_errors_of(table, ids)[k].origin,
        ) by {
            if k < prev.len() {
                assert(lex_errors_of(table, ids)[k] == prev[k]);
            } else {
                assert(lex_errors_of(table, ids)[k] == more[k - prev.len()]);
            }
        }
    }
}

/// Reports of errors that can be cut out of a table render against it.
proof fn lemma_lex_reports_render(table: SourceTable, ds: Seq<Diagnostic>, es: Seq<LexError>)
    requires
        reports_lex_errors(ds, es),
        forall|k: int| 0 <= k < es.len() ==> table.resolvable(#[trigger] es[k].origin),
    ensures
        sites_ok(table, ds),
{
    assert forall|k: int| 0 <= k < ds.len() implies crate::diagnostics::site_ok(table, #[trigger] ds[k].site) by {
        assert(crate::diagnostics::conv::reports_lex_error(ds[k], es[k]));
        assert(table.resolvable(es[k].origin));
    }
}

/// Lex every source of `ids` into its token stream.
///
/// Fails, after reporting every lexing error of every source, if any source
/// has one: the tokens of clean sources are then discarded too.
pub fn lex_sources(source_ids: &[SourceId], diagnostics: &mut Diagnostics, ctx: &Compilation) -> (r: Result<
    Vec<Vec<Token>>,
    Aborted,
>)
    requires
        ctx.table.wf(),
        forall|k: int| 0 <= k < source_ids@.len() ==> ctx.table.has_source(#[trigger] source_ids@[k]),
    ensures
        final(diagnostics)@.len() >= old(diagnostics)@.len(),
        final(diagnostics)@.take(old(diagnostics)@.len() as int) == old(diagnostics)@,
        reports_lex_errors(
            final(diagnostics)@.skip(old(diagnostics)@.len() as int),
            lex_errors_of(ctx.table, source_ids@),
        ),
        sites_ok(ctx.table, final(diagnostics)@.skip(old(diagnostics)@.len() as int)),
        r is Ok <==> lex_errors_of(ctx.table, source_ids@).len() == 0,
        r matches Err(a) ==> a.0 == Phase::Lex,
        r matches Ok(streams) ==> stream_views(streams@) == lexed_all(ctx.table, source_ids@),
{
    let ghost ids = source_ids@;
    let mut local = Diagnostics::new();
    let mut streams: Vec<Vec<Token>> = Vec::new();
    let mut i: usize = 0;
    assert(ids.take(0) =~= Seq::<SourceId>::empty());
    while i < source_ids.len()
        invariant
            ids == source_ids@,
            i <= ids.len(),
            ctx.table.wf(),
            forall|k: int| 0 <= k < ids.len() ==> ctx.table.has_source(#[trigger] ids[k]),
            reports_lex_errors(local@, lex_errors_of(ctx.table, ids.take(i as int))),
            lex_errors_of(ctx.table, ids.take(i as int)).len() == 0 ==> stream_views(streams@)
                == lexed_all(ctx.table, ids.take(i as int)),
        decreases ids.len() - i,
    {
        let id = source_ids[i];
        let ghost prev = local@;
        let ghost prev_streams = streams@;
        let ghost errs = lex_errors(lex_items(id, ctx.table.text(id)));
        assert(ctx.table.has_source(ids[i as int]));
        let (tokens, mut lexer_diags) = tokenise(id, &ctx.table);
        proof {
            lemma_lex_reports_fatal(lexer_diags@, errs);
            assert(ids.take(i + 1).drop_last() =~= ids.take(i as int));
            assert(ids.take(i + 1).last() == id);
        }
        // `tokenise` withholds its tokens only when it reported.  No tokens
        // and no errors means the phase dropped its output.
        if tokens.is_none() && !lexer_diags.has_errors() {
            lexer_diags.push(
                Diagnostic::new(Class::ICEDroppedOutput, Site::Source(id), "lexing produced no tokens"),
            );
        }
        local.merge(lexer_diags);
        proof {
            lemma_reports_lex_concat(prev, lex_errors_of(ctx.table, ids.take(i as int)), lexer_diags@, errs);
        }
        match tokens {
            Some(ts) => {
                streams.push(ts);
                proof {
                    if lex_errors_of(ctx.table, ids.take(i + 1)).len() == 0 {
                        assert(stream_views(streams@) =~= lexed_all(ctx.table, ids.take(i + 1))) by {
                            assert forall|k: int| 0 <= k < i + 1 implies #[trigger] stream_views(streams@)[k]
                                == lexed_all(ctx.table, ids.take(i + 1))[k] by {
                                if k < i {
                                    assert(streams@[k] == prev_streams[k]);
                                    assert(stream_views(prev_streams)[k] == lexed_all(ctx.table, ids.take(i as int))[k]);
                                }
                            }
                        }
                    }
                }
            },
            None => {},
        }
        i = i + 1;
    }
    proof {
        assert(ids.take(i as int) =~= ids);
        lemma_lex_reports_fatal(local@, lex_errors_of(ctx.table, ids));
        lemma_lex_errors_of_resolvable(ctx.table, ids);
        lemma_lex_reports_render(ctx.table, local@, lex_errors_of(ctx.table, ids));
    }
    let ghost before = diagnostics@;
    let r = gate(diagnostics, local, streams, Phase::Lex);
    assert(diagnostics@.skip(before.len() as int) =~= local@);
    r
}

/* Parsing */

/// The errors parsing each stream of `streams` reports, stream after stream;
/// each stream is read against the source at the same position of `ids`.
pub open spec fn parse_errors_of(table: SourceTable, ids: Seq<SourceId>, streams: Seq<Seq<Token>>) -> Seq<
    ParseError,
>
    decreases ids.len(),
{
    if ids.len() == 0 {
        seq![]
    } else {
        parse_errors_of(table, ids.drop_last(), streams.drop_last()) + parse_errors(
            ids.last(),
            table.text(ids.last()),
            streams.last(),
        )
    }
}

/// Shapes of source `sid`, each paired with that source.
pub open spec fn tagged(sid: SourceId, ss: Seq<Shape>) -> Seq<(SourceId, Shape)> {
    Seq::new(ss.len(), |k: int| (sid, ss[k]))
}

/// The top-level shapes parsing each stream of `streams` denotes, stream
/// after stream, each paired with the source it was read against.
pub open spec fn body_shapes(table: SourceTable, ids: Seq<SourceId>, streams: Seq<Seq<Token>>) -> Seq<
    (SourceId, Shape),
>
    decreases ids.len(),
{
    if ids.len() == 0 {
        seq![]
    } else {
        body_shapes(table, ids.drop_last(), streams.drop_last()) + tagged(
            ids.last(),
            parse_shapes(ids.last(), table.text(ids.last()), streams.last()),
        )
    }
}

/// Whether the forms of `body` denote the shapes of `shapes`, one for one,
/// each of the source it is paired with.
pub open spec fn body_denotes(
    table: SourceTable,
    names: Seq<Seq<char>>,
    body: Seq<HirForm>,
    shapes: Seq<(SourceId, Shape)>,
) -> bool {
    &&& body.len() == shapes.len()
    &&& forall|k: int|
        0 <= k < body.len() ==> form_denotes(table, names, shapes[k].0, #[trigger] body[k], shapes[k].1)
}

/// Number of tokens over all of `streams`.
pub open spec fn total_tokens(streams: Seq<Seq<Token>>) -> nat
    decreases streams.len(),
{
    if streams.len() == 0 {
        0
    } else {
        total_tokens(streams.drop_last()) + streams.last().len()
    }
}

/// A prefix of the streams holds no more tokens than all of them.
pub proof fn lemma_total_tokens_prefix(streams: Seq<Seq<Token>>, i: int)
    requires
        0 <= i <= streams.len(),
    ensures
        total_tokens(streams.take(i)) <= total_tokens(streams),
    decreases streams.len(),
{
    if i < streams.len() {
        assert(streams.drop_last().take(i) =~= streams.take(i));
        lemma_total_tokens_prefix(streams.drop_last(), i);
    } else {
        assert(streams.take(i) =~= streams);
    }
}

/// Reports of two runs of parsing errors, one after the other, report the
/// errors of both.
proof fn lemma_reports_parse_concat(
    a: Seq<Diagnostic>,
    ea: Seq<ParseError>,
    b: Seq<Diagnostic>,
    eb: Seq<ParseError>,
)
    requires
        reports_parse_errors(a, ea),
        reports_parse_errors(b, eb),
    ensures
        reports_parse_errors(a + b, ea + eb),
{
    assert forall|k: int| 0 <= k < (a + b).len() implies reports_parse_error(
        #[trigger] (a + b)[k],
        (ea + eb)[k],
    ) by {
        if k < a.len() {
            assert((a + b)[k] == a[k]);
            assert((ea + eb)[k] == ea[k]);
        } else {
            assert((a + b)[k] == b[k - a.len()]);
            assert((ea + eb)[k] == eb[k - a.len()]);
        }
    }
}

/// A body keeps denoting what it did as the table and the names grow.
proof fn lemma_body_denotes_grow(
    t1: SourceTable,
    n1: Seq<Seq<char>>,
    t2: SourceTable,
    n2: Seq<Seq<char>>,
    body: Seq<HirForm>,
    shapes: Seq<(SourceId, Shape)>,
)
    requires
        t1.wf(),
        t2.extends(&t1),
        names_extend(n2, n1),
        body_denotes(t1, n1, body, shapes),
    ensures
        body_denotes(t2, n2, body, shapes),
{
    assert forall|k: int| 0 <= k < body.len() implies form_denotes(
        t2,
        n2,
        shapes[k].0,
        #[trigger] body[k],
        shapes[k].1,
    ) by {
        assert(form_denotes(t1, n1, shapes[k].0, body[k], shapes[k].1));
        assert(t1.in_bounds(t1.origins()[body[k].id.spec_index() as int]));
        lemma_form_denotes_grow(t1, n1, t2, n2, shapes[k].0, body[k], shapes[k].1);
    }
}

/// Appending the forms of one source to a body appends their shapes.
proof fn lemma_body_denotes_append(
    table: SourceTable,
    names: Seq<Seq<char>>,
    body: Seq<HirForm>,
    shapes: Seq<(SourceId, Shape)>,
    sid: SourceId,
    fs: Seq<HirForm>,
    ss: Seq<Shape>,
)
    requires
        body_denotes(table, names, body, shapes),
        forms_denote(table, names, sid, fs, ss),
    ensures
        body_denotes(table, names, body + fs, shapes + tagged(sid, ss)),
{
    let b = body + fs;
    let s = shapes + tagged(sid, ss);
    assert forall|k: int| 0 <= k < b.len() implies form_denotes(table, names, s[k].0, #[trigger] b[k], s[k].1) by {
        if k < body.len() {
            assert(b[k] == body[k]);
            assert(s[k] == shapes[k]);
        } else {
            assert(b[k] == fs[k - body.len()]);
            assert(s[k] == (sid, ss[k - body.len()]));
        }
    }
}

/// Every error parsing well-formed token streams of a table's sources
/// reports can be cut out of that table.
pub proof fn lemma_parse_errors_of_resolvable(table: SourceTable, ids: Seq<SourceId>, streams: Seq<Seq<Token>>)
    requires
        table.wf(),
        ids.len() == streams.len(),
        forall|k: int|
            0 <= k < ids.len() ==> table.has_source(#[trigger] ids[k]) && tokens_wf(
                table.text(ids[k]),
                streams[k],
            ),
    ensures
        forall|k: int|
            0 <= k < parse_errors_of(table, ids, streams).len() ==> table.resolvable(
                #[trigger] parse_errors_of(table, ids, streams)[k].origin,
            ),
    decreases ids.len(),
{
    if ids.len() > 0 {
        let init = ids.drop_last();
        let sinit = streams.drop_last();
        assert forall|k: int| 0 <= k < init.len() implies table.has_source(#[trigger] init[k])
            && tokens_wf(table.text(init[k]), sinit[k]) by {
            assert(init[k] == ids[k]);
            assert(sinit[k] == streams[k]);
        }
        lemma_parse_errors_of_resolvable(table, init, sinit);
        let id = ids.last();
        assert(table.has_source(ids[ids.len() - 1]) && tokens_wf(
            table.text(ids[ids.len() - 1]),
            streams[streams.len() - 1],
        ));
        lemma_parse_errors_wf(id, table.text(id), streams.last());
        let prev = parse_errors_of(table, init, sinit);
        let more = parse_errors(id, table.text(id), streams.last());
        assert forall|k: int| 0 <= k < parse_errors_of(table, ids, streams).len() implies table.resolvable(
            #[trigger] parse_errors_of(table, ids, streams)[k].origin,
        ) by {
            if k < prev.len() {
                assert(parse_errors_of(table, ids, streams)[k] == prev[k]);
            } else {
                assert(parse_errors_of(table, ids, streams)[k] == more[k - prev.len()]);
                assert(crate::parser::error_wf(id, table.text(id), more[k - prev.len()]));
            }
        }
    }
}

/// Reports of parsing errors that can be cut out of a table render against
/// it.
proof fn lemma_parse_reports_render(table: SourceTable, ds: Seq<Diagnostic>, es: Seq<ParseError>)
    requires
        reports_parse_errors(ds, es),
        forall|k: int| 0 <= k < es.len() ==> table.resolvable(#[trigger] es[k].origin),
    ensures
        sites_ok(table, ds),
{
    assert forall|k: int| 0 <= k < ds.len() implies crate::diagnostics::site_ok(table, #[trigger] ds[k].site) by {
        assert(reports_parse_error(ds[k], es[k]));
        assert(table.resolvable(es[k].origin));
    }
}

/// No more tokens fail to close a container than there are tokens.
proof fn lemma_non_closers_bounded(ts: Seq<Token>)
    ensures
        non_closer_count(ts) <= ts.len(),
    decreases ts.len(),
{
    if ts.len() > 0 {
        lemma_non_closers_bounded(ts.drop_last());
    }
}

/// Count the tokens of `tokens` that do not close a container.
fn count_non_closers(tokens: &[Token]) -> (n: usize)
    ensures
        n == non_closer_count(tokens@),
{
    let mut n: usize = 0;
    let mut i: usize = 0;
    while i < tokens.len()
        invariant
            i <= tokens@.len(),
            n == non_closer_count(tokens@.take(i as int)),
            n <= i,
        decreases tokens@.len() - i,
    {
        proof {
            assert(tokens@.take(i + 1).drop_last() =~= tokens@.take(i as int));
        }
        if !tokens[i].kind.is_closer() {
            n = n + 1;
        }
        i = i + 1;
    }
    assert(tokens@.take(i as int) =~= tokens@);
    n
}

/// The message of a parse that yielded `got` forms from `expected`
/// non-closing tokens.
pub open spec fn dropped_forms_text(got: nat, expected: nat) -> Seq<char> {
    "parsed "@ + decimal(got) + " forms from "@ + decimal(expected) + " non-closing tokens"@
}

/// The message of a parse that dropped or invented forms.
fn dropped_forms_message(got: usize, expected: usize) -> (r: String)
    ensures
        r@ == dropped_forms_text(got as nat, expected as nat),
{
    let mut text: Vec<char> = Vec::new();
    push_str(&mut text, "parsed ");
    push_decimal(&mut text, got as u64);
    push_str(&mut text, " forms from ");
    push_decimal(&mut text, expected as u64);
    push_str(&mut text, " non-closing tokens");
    assert(text@ =~= dropped_forms_text(got as nat, expected as nat));
    string_of(&text)
}

/// The interned `names` once the names every stream carries are interned,
/// stream by stream, each read against the text of its source in `table`.
pub open spec fn names_after_all(
    names: Seq<Seq<char>>,
    table: SourceTable,
    ids: Seq<SourceId>,
    streams: Seq<Seq<Token>>,
) -> Seq<Seq<char>>
    decreases ids.len(),
{
    if ids.len() == 0 {
        names
    } else {
        names_after(
            names_after_all(names, table, ids.drop_last(), streams.drop_last()),
            table.text(ids.last()),
            streams.last(),
        )
    }
}

/// The origins parsing every stream registers, stream by stream, each
/// read against the text of its source in `table`.
pub open spec fn origins_after_all(table: SourceTable, ids: Seq<SourceId>, streams: Seq<Seq<Token>>) -> Seq<
    SyntaxOrigin,
>
    decreases ids.len(),
{
    if ids.len() == 0 {
        seq![]
    } else {
        origins_after_all(table, ids.drop_last(), streams.drop_last()) + origins_in(
            ids.last(),
            run_spans(ids.last(), table.text(ids.last()), streams.last()),
        )
    }
}

/// Tables holding the same sources register alike.
proof fn lemma_origins_after_all_same(
    t1: SourceTable,
    t2: SourceTable,
    ids: Seq<SourceId>,
    streams: Seq<Seq<Token>>,
)
    requires
        t1.sources() == t2.sources(),
    ensures
        origins_after_all(t1, ids, streams) == origins_after_all(t2, ids, streams),
    decreases ids.len(),
{
    if ids.len() > 0 {
        lemma_origins_after_all_same(t1, t2, ids.drop_last(), streams.drop_last());
        assert(t1.text(ids.last()) == t2.text(ids.last()));
    }
}

/// Tables holding the same sources intern alike.
proof fn lemma_names_after_all_same(
    names: Seq<Seq<char>>,
    t1: SourceTable,
    t2: SourceTable,
    ids: Seq<SourceId>,
    streams: Seq<Seq<Token>>,
)
    requires
        t1.sources() == t2.sources(),
    ensures
        names_after_all(names, t1, ids, streams) == names_after_all(names, t2, ids, streams),
    decreases ids.len(),
{
    if ids.len() > 0 {
        lemma_names_after_all_same(names, t1, t2, ids.drop_last(), streams.drop_last());
        assert(t1.text(ids.last()) == t2.text(ids.last()));
    }
}

/// Parse each token stream against the source at the same position of
/// `source_ids`, merging their forms, in the order of the streams, into one
/// body.
///
/// Fails, after reporting every parsing error of every stream, if any stream
/// has one.  Every form of the body carries the id of its own newly
/// registered origin: no two share one, and none was in the table before.
pub fn parse_streams(
    source_ids: &[SourceId],
    token_streams: &[Vec<Token>],
    diagnostics: &mut Diagnostics,
    ctx: &mut Compilation,
) -> (r: Result<Vec<HirForm>, Aborted>)
    requires
        old(ctx).table.wf(),
        source_ids@.len() == token_streams@.len(),
        forall|k: int|
            0 <= k < source_ids@.len() ==> old(ctx).table.has_source(#[trigger] source_ids@[k])
                && tokens_wf(old(ctx).table.text(source_ids@[k]), token_streams@[k]@),
        old(ctx).table.origins().len() + total_tokens(stream_views(token_streams@)) <= u32::MAX,
        old(ctx).interner@.len() + total_tokens(stream_views(token_streams@)) < u32::MAX,
    ensures
        final(ctx).table.wf(),
        final(ctx).table.extends(&old(ctx).table),
        final(ctx).table.sources() == old(ctx).table.sources(),
        names_extend(final(ctx).interner@, old(ctx).interner@),
        final(ctx).interner@ == names_after_all(
            old(ctx).interner@,
            old(ctx).table,
            source_ids@,
            stream_views(token_streams@),
        ),
        final(ctx).table.origins() == old(ctx).table.origins() + origins_after_all(
            old(ctx).table,
            source_ids@,
            stream_views(token_streams@),
        ),
        final(ctx).primitives == old(ctx).primitives,
        final(diagnostics)@.len() >= old(diagnostics)@.len(),
        final(diagnostics)@.take(old(diagnostics)@.len() as int) == old(diagnostics)@,
        reports_parse_errors(
            final(diagnostics)@.skip(old(diagnostics)@.len() as int),
            parse_errors_of(old(ctx).table, source_ids@, stream_views(token_streams@)),
        ),
        sites_ok(final(ctx).table, final(diagnostics)@.skip(old(diagnostics)@.len() as int)),
        r is Ok <==> parse_errors_of(old(ctx).table, source_ids@, stream_views(token_streams@)).len()
            == 0,
        r matches Err(a) ==> a.0 == Phase::Parse,
        final(ctx).table.origins().len() <= old(ctx).table.origins().len() + total_tokens(
            stream_views(token_streams@),
        ),
        final(ctx).interner@.len() <= old(ctx).interner@.len() + total_tokens(
            stream_views(token_streams@),
        ),
        r matches Ok(body) ==> body_denotes(
            final(ctx).table,
            final(ctx).interner@,
            body@,
            body_shapes(old(ctx).table, source_ids@, stream_views(token_streams@)),
        ),
        r matches Ok(body) ==> leaf_origins_ok(final(ctx).table, preorder_seq(body@, 0)),
        r matches Ok(body) ==> fresh_ids(
            body@,
            old(ctx).table.origins().len() as nat,
            final(ctx).table.origins().len() as nat,
        ),
        r matches Ok(body) ==> preorder_seq(body@, 0).len() <= total_tokens(
            stream_views(token_streams@),
        ),
{
    let ghost ids = source_ids@;
    let ghost views = stream_views(token_streams@);
    let ghost t0 = ctx.table;
    let ghost n0 = ctx.interner@;
    let mut local = Diagnostics::new();
    let mut body: Vec<HirForm> = Vec::new();
    let mut i: usize = 0;
    proof {
        t0.lemma_extends_refl();
        crate::parser::lemma_names_extend_refl(n0);
        assert(ids.take(0) =~= Seq::<SourceId>::empty());
        assert(views.take(0) =~= Seq::<Seq<Token>>::empty());
        assert(preorder_seq(Seq::<HirForm>::empty(), 0) =~= Seq::<(HirForm, nat)>::empty());
        lemma_fresh_ids_empty(t0.origins().len() as nat, t0.origins().len() as nat);
    }
    while i < source_ids.len()
        invariant
            ids == source_ids@,
            views == stream_views(token_streams@),
            ids.len() == views.len(),
            i <= ids.len(),
            t0 == old(ctx).table,
            n0 == old(ctx).interner@,
            forall|k: int|
                0 <= k < ids.len() ==> t0.has_source(#[trigger] ids[k]) && tokens_wf(
                    t0.text(ids[k]),
                    views[k],
                ),
            t0.origins().len() + total_tokens(views) <= u32::MAX,
            n0.len() + total_tokens(views) < u32::MAX,
            ctx.table.wf(),
            ctx.table.extends(&t0),
            ctx.table.sources() == t0.sources(),
            ctx.table.origins().len() <= t0.origins().len() + total_tokens(views.take(i as int)),
            names_extend(ctx.interner@, n0),
            fresh_ids(body@, t0.origins().len() as nat, ctx.table.origins().len() as nat),
            ctx.interner@ == names_after_all(n0, t0, ids.take(i as int), views.take(i as int)),
            ctx.table.origins() == t0.origins() + origins_after_all(
                t0,
                ids.take(i as int),
                views.take(i as int),
            ),
            ctx.interner@.len() <= n0.len() + total_tokens(views.take(i as int)),
            ctx.primitives == old(ctx).primitives,
            reports_parse_errors(local@, parse_errors_of(t0, ids.take(i as int), views.take(i as int))),
            parse_errors_of(t0, ids.take(i as int), views.take(i as int)).len() == 0 ==> body_denotes(
                ctx.table,
                ctx.interner@,
                body@,
                body_shapes(t0, ids.take(i as int), views.take(i as int)),
            ),
            parse_errors_of(t0, ids.take(i as int), views.take(i as int)).len() == 0 ==> {
                &&& leaf_origins_ok(ctx.table, preorder_seq(body@, 0))
                &&& preorder_seq(body@, 0).len() <= total_tokens(views.take(i as int))
            },
        decreases ids.len() - i,
    {
        let source_id = source_ids[i];
        let token_stream = &token_streams[i];
        let ghost t1 = ctx.table;
        let ghost n1 = ctx.interner@;
        let ghost prev = local@;
        let ghost prev_body = body@;
        let ghost errs = parse_errors(source_id, t0.text(source_id), token_stream@);
        proof {
            assert(views[i as int] == token_stream@);
            assert(ids.take(i + 1).drop_last() =~= ids.take(i as int));
            assert(views.take(i + 1).drop_last() =~= views.take(i as int));
            assert(ids.take(i + 1).last() == source_id);
            assert(views.take(i + 1).last() == token_stream@);
            assert(total_tokens(views.take(i + 1)) == total_tokens(views.take(i as int))
                + token_stream@.len());
            lemma_total_tokens_prefix(views, i + 1);
            t1.lemma_extends(&t0);
            assert(t1.text(source_id) == t0.text(source_id));
        }
        let (forms, mut parse_diags) = parse(
            source_id,
            token_stream.as_slice(),
            &mut ctx.table,
            &mut ctx.interner,
        );
        proof {
            lemma_parse_reports_fatal(parse_diags@, errs);
            SourceTable::lemma_extends_trans(&t0, &t1, &ctx.table);
            assert(names_extend(ctx.interner@, n0)) by {
                assert(ctx.interner@.subrange(0, n0.len() as int) =~= n1.subrange(0, n0.len() as int));
            }
        }
        // `parse` withholds its body only when it reported.  No body and no
        // errors means the phase dropped its output.
        if forms.is_none() && !parse_diags.has_errors() {
            parse_diags.push(
                Diagnostic::new(Class::ICEDroppedOutput, Site::Source(source_id), "parsing produced no forms"),
            );
        }
        // Every form comes from exactly one non-closing token, so the two
        // counts agree on a clean parse.
        match &forms {
            Some(fs) => {
                let expected = count_non_closers(token_stream.as_slice());
                proof {
                    lemma_non_closers_bounded(token_stream@);
                }
                let slice = fs.as_slice();
                let got = dfs(slice).len();
                if got != expected {
                    let message = dropped_forms_message(got, expected);
                    parse_diags.push(
                        Diagnostic::new(Class::ICEDroppedOutput, Site::Source(source_id), message.as_str()),
                    );
                }
            },
            None => {},
        }
        local.merge(parse_diags);
        proof {
            lemma_reports_parse_concat(prev, parse_errors_of(t0, ids.take(i as int), views.take(i as int)), parse_diags@, errs);
        }
        match forms {
            Some(mut fs) => {
                let ghost added = fs@;
                body.append(&mut fs);
                proof {
                    lemma_fresh_ids_append(
                        prev_body,
                        added,
                        t0.origins().len() as nat,
                        t1.origins().len() as nat,
                        ctx.table.origins().len() as nat,
                    );
                    if parse_errors_of(t0, ids.take(i + 1), views.take(i + 1)).len() == 0 {
                        lemma_body_denotes_grow(t1, n1, ctx.table, ctx.interner@, prev_body, body_shapes(t0, ids.take(i as int), views.take(i as int)));
                        lemma_body_denotes_append(
                            ctx.table,
                            ctx.interner@,
                            prev_body,
                            body_shapes(t0, ids.take(i as int), views.take(i as int)),
                            source_id,
                            added,
                            parse_shapes(source_id, t0.text(source_id), token_stream@),
                        );
                        lemma_leaf_origins_grow(t1, ctx.table, preorder_seq(prev_body, 0));
                        lemma_parse_leaves_wf(source_id, t0.text(source_id), token_stream@);
                        lemma_forms_leaves_ok(
                            ctx.table,
                            ctx.interner@,
                            source_id,
                            added,
                            parse_shapes(source_id, t0.text(source_id), token_stream@),
                            0,
                        );
                        lemma_preorder_seq_append(prev_body, added, 0);
                        lemma_leaf_origins_concat(
                            ctx.table,
                            preorder_seq(prev_body, 0),
                            preorder_seq(added, 0),
                        );
                        lemma_non_closers_bounded(token_stream@);
                    }
                }
            },
            None => {
                proof {
                    lemma_fresh_ids_wider(
                        body@,
                        t0.origins().len() as nat,
                        t1.origins().len() as nat,
                        ctx.table.origins().len() as nat,
                    );
                }
            },
        }
        i = i + 1;
    }
    proof {
        assert(ids.take(i as int) =~= ids);
        assert(views.take(i as int) =~= views);
        lemma_parse_reports_fatal(local@, parse_errors_of(t0, ids, views));
        lemma_parse_errors_of_resolvable(t0, ids, views);
        lemma_parse_reports_render(t0, local@, parse_errors_of(t0, ids, views));
        lemma_sites_ok_extends(t0, ctx.table, local@);
    }
    let ghost before = diagnostics@;
    let r = gate(diagnostics, local, body, Phase::Parse);
    assert(diagnostics@.skip(before.len() as int) =~= local@);
    r
}

/* The whole front end */

/// Number of characters over the contents of every file that yields a
/// source.
pub open spec fn total_chars(files: Seq<FileRead>) -> nat
    decreases files.len(),
{
    if files.len() == 0 {
        0
    } else {
        total_chars(files.drop_last()) + match files.last().1 {
            Ok(c) => if byte_len(c@) <= MAX_SOURCE_LEN {
                c@.len()
            } else {
                0
            },
            Err(_) => 0,
        }
    }
}

/// Whether compiling `files`, whose sources are `ids` of `table`, succeeds:
/// every file yields a source, and no source has a lexing or parsing error.
pub open spec fn compiles(table: SourceTable, ids: Seq<SourceId>, files: Seq<FileRead>) -> bool {
    &&& rejected_files(files).len() == 0
    &&& lex_errors_of(table, ids).len() == 0
    &&& parse_errors_of(table, ids, lexed_all(table, ids)).len() == 0
}

/// The phase compiling `files` stops at, if it stops.
pub open spec fn failing_phase(table: SourceTable, ids: Seq<SourceId>, files: Seq<FileRead>) -> Option<
    Phase,
> {
    if rejected_files(files).len() > 0 {
        Some(Phase::Source)
    } else if lex_errors_of(table, ids).len() > 0 {
        Some(Phase::Lex)
    } else if parse_errors_of(table, ids, lexed_all(table, ids)).len() > 0 {
        Some(Phase::Parse)
    } else {
        None
    }
}

/// Whether `ds` reports exactly what compiling `files` reports: the errors
/// of the first phase that has any, or the (absent) errors of the last.
pub open spec fn reports_compile(
    ds: Seq<Diagnostic>,
    table: SourceTable,
    ids: Seq<SourceId>,
    files: Seq<FileRead>,
) -> bool {
    if rejected_files(files).len() > 0 {
        reports_rejections(ds, files)
    } else if lex_errors_of(table, ids).len() > 0 {
        reports_lex_errors(ds, lex_errors_of(table, ids))
    } else {
        reports_parse_errors(ds, parse_errors_of(table, ids, lexed_all(table, ids)))
    }
}

/// What compiling logs of the tokens: nothing unless `log` asks for them.
pub open spec fn tokens_part(log: Log, table: SourceTable, ids: Seq<SourceId>) -> Seq<char> {
    if logs_tokens(log) {
        tokens_log(table, ids, lexed_all(table, ids))
    } else {
        Seq::empty()
    }
}

/// Number of shapes over all the trees of a body.
pub open spec fn body_count(shapes: Seq<(SourceId, Shape)>) -> nat
    decreases shapes.len(),
{
    if shapes.len() == 0 {
        0
    } else {
        body_count(shapes.drop_last()) + shape_count(shapes.last().1)
    }
}

/// How a pre-order walk of a body is logged: every top-level shape, with
/// the source it belongs to, at depth 0.
pub open spec fn body_lines(table: SourceTable, shapes: Seq<(SourceId, Shape)>) -> Seq<char>
    decreases shapes.len(),
{
    if shapes.len() == 0 {
        seq![]
    } else {
        body_lines(table, shapes.drop_last()) + shape_lines(
            table,
            shapes.last().0,
            shapes.last().1,
            0,
        )
    }
}

/// How the forms parsed from `streams` are logged, read from the shapes
/// they denote: a count line, then every form in pre-order, indented by its
/// depth.
pub open spec fn shapes_hir_log(
    table: SourceTable,
    streams: Seq<Seq<Token>>,
    shapes: Seq<(SourceId, Shape)>,
) -> Seq<char> {
    counted(total_tokens(streams), "token"@, "tokens"@) + " => "@ + counted(
        body_count(shapes),
        "form"@,
        "forms"@,
    ) + "\n"@ + body_lines(table, shapes)
}

/// Forms log as the shapes they denote.
pub proof fn lemma_hir_log_denoted(
    table: SourceTable,
    names: Seq<Seq<char>>,
    streams: Seq<Seq<Token>>,
    body: Seq<HirForm>,
    shapes: Seq<(SourceId, Shape)>,
)
    requires
        body_denotes(table, names, body, shapes),
    ensures
        hir_log(table, streams, body) == shapes_hir_log(table, streams, shapes),
{
    lemma_body_lines_denoted(table, names, body, shapes);
}

proof fn lemma_body_lines_denoted(
    table: SourceTable,
    names: Seq<Seq<char>>,
    body: Seq<HirForm>,
    shapes: Seq<(SourceId, Shape)>,
)
    requires
        body_denotes(table, names, body, shapes),
    ensures
        visit_lines(table, preorder_seq(body, 0)) == body_lines(table, shapes),
        preorder_seq(body, 0).len() == body_count(shapes),
    decreases body.len(),
{
    if body.len() == 0 {
        assert(preorder_seq(body, 0) =~= Seq::<(HirForm, nat)>::empty());
        assert(visit_lines(table, Seq::<(HirForm, nat)>::empty()) =~= Seq::<char>::empty());
    } else {
        let init = body.drop_last();
        let n: int = body.len() - 1;
        assert(body_denotes(table, names, init, shapes.drop_last())) by {
            assert forall|k: int| 0 <= k < init.len() implies form_denotes(
                table,
                names,
                shapes.drop_last()[k].0,
                #[trigger] init[k],
                shapes.drop_last()[k].1,
            ) by {
                assert(init[k] == body[k]);
                assert(shapes.drop_last()[k] == shapes[k]);
            }
        }
        lemma_body_lines_denoted(table, names, init, shapes.drop_last());
        assert(form_denotes(table, names, shapes[n].0, body[n], shapes[n].1));
        assert(init.push(body.last()) =~= body);
        crate::parser::lemma_preorder_seq_push(init, body.last(), 0);
        lemma_visit_lines_append(table, preorder_seq(init, 0), preorder(body.last(), 0));
        lemma_visit_denoted(table, names, shapes[n].0, body[n], shapes[n].1, 0);
        crate::parser::lemma_form_denotes_count(table, names, shapes[n].0, body[n], shapes[n].1, 0);
    }
}

/// What compiling logs of the forms it parsed: nothing unless `log` asks
/// for them.
pub open spec fn hir_part(log: Log, table: SourceTable, ids: Seq<SourceId>) -> Seq<char> {
    if logs_hir(log) {
        shapes_hir_log(
            table,
            lexed_all(table, ids),
            body_shapes(table, ids, lexed_all(table, ids)),
        )
    } else {
        Seq::empty()
    }
}

/// Tables holding the same sources lex, parse and log those sources alike.
proof fn lemma_same_sources(t1: SourceTable, t2: SourceTable, ids: Seq<SourceId>, streams: Seq<Seq<Token>>)
    requires
        t1.sources() == t2.sources(),
        ids.len() == streams.len(),
    ensures
        lex_errors_of(t1, ids) == lex_errors_of(t2, ids),
        lexed_all(t1, ids) == lexed_all(t2, ids),
        parse_errors_of(t1, ids, streams) == parse_errors_of(t2, ids, streams),
        body_shapes(t1, ids, streams) == body_shapes(t2, ids, streams),
        tokens_log_upto(t1, ids, streams, ids.len()) == tokens_log_upto(t2, ids, streams, ids.len()),
    decreases ids.len(),
{
    assert(lexed_all(t1, ids) =~= lexed_all(t2, ids));
    if ids.len() > 0 {
        lemma_same_sources(t1, t2, ids.drop_last(), streams.drop_last());
        lemma_tokens_log_same(t1, t2, ids, streams, ids.len());
    }
}

proof fn lemma_tokens_log_same(t1: SourceTable, t2: SourceTable, ids: Seq<SourceId>, streams: Seq<Seq<Token>>, n: nat)
    requires
        t1.sources() == t2.sources(),
    ensures
        tokens_log_upto(t1, ids, streams, n) == tokens_log_upto(t2, ids, streams, n),
    decreases n,
{
    if n > 0 {
        lemma_tokens_log_same(t1, t2, ids, streams, (n - 1) as nat);
    }
}

/// A file's tokens are no more than its characters.
proof fn lemma_total_lexed(table: SourceTable, ids: Seq<SourceId>, files: Seq<FileRead>)
    requires
        ids.len() == files.len(),
        rejected_files(files).len() == 0,
        forall|k: int|
            0 <= k < files.len() ==> ((#[trigger] files[k]).1 matches Ok(c) && table.text(ids[k]) == c@),
    ensures
        total_tokens(lexed_all(table, ids)) <= total_chars(files),
    decreases files.len(),
{
    if files.len() > 0 {
        assert(lexed_all(table, ids.drop_last()) =~= lexed_all(table, ids).drop_last());
        assert forall|k: int| 0 <= k < files.drop_last().len() implies ((#[trigger] files.drop_last()[k]).1 matches Ok(
            c,
        ) && table.text(ids.drop_last()[k]) == c@) by {
            assert(files.drop_last()[k] == files[k]);
            assert(files[k].1 matches Ok(c) && table.text(ids[k]) == c@);
        }
        lemma_total_lexed(table, ids.drop_last(), files.drop_last());
        assert(files[files.len() - 1].1 matches Ok(c) && table.text(ids[ids.len() - 1]) == c@);
        assert(read_accepted(files.last().1));
        lemma_lexed_len(ids.last(), table.text(ids.last()));
    }
}

/// Compile a set of files, each given with the outcome of reading it.
///
/// Each phase attempts everything before it gates: a failing phase reports
/// all its errors and stops the compilation.  The tokens are logged after
/// lexing, and the forms after parsing, as `log` asks.
pub fn compile(
    files: Vec<FileRead>,
    ctx: &mut Compilation,
    diagnostics: &mut Diagnostics,
    log: Log,
    log_out: &mut String,
) -> (r: Result<(), Aborted>)
    requires
        old(ctx).table.wf(),
        old(ctx).table.sources().len() + files@.len() <= u32::MAX,
        old(ctx).table.origins().len() + total_chars(files@) <= u32::MAX,
        old(ctx).interner@.len() + total_chars(files@) < u32::MAX,
    ensures
        final(ctx).table.wf(),
        final(ctx).table.extends(&old(ctx).table),
        names_extend(final(ctx).interner@, old(ctx).interner@),
        sources_of(
            final(ctx).table.sources().skip(old(ctx).table.sources().len() as int),
            accepted_files(files@),
        ),
        final(ctx).table.origins() == old(ctx).table.origins() + if rejected_files(files@).len() > 0
            || lex_errors_of(
            final(ctx).table,
            new_ids(old(ctx).table.sources().len(), files@.len()),
        ).len() > 0 {
            Seq::<SyntaxOrigin>::empty()
        } else {
            origins_after_all(
                final(ctx).table,
                new_ids(old(ctx).table.sources().len(), files@.len()),
                lexed_all(final(ctx).table, new_ids(old(ctx).table.sources().len(), files@.len())),
            )
        },
        final(ctx).interner@ == if rejected_files(files@).len() > 0 || lex_errors_of(
            final(ctx).table,
            new_ids(old(ctx).table.sources().len(), files@.len()),
        ).len() > 0 {
            old(ctx).interner@
        } else {
            names_after_all(
                old(ctx).interner@,
                final(ctx).table,
                new_ids(old(ctx).table.sources().len(), files@.len()),
                lexed_all(final(ctx).table, new_ids(old(ctx).table.sources().len(), files@.len())),
            )
        },
        final(ctx).primitives == old(ctx).primitives,
        final(diagnostics)@.len() >= old(diagnostics)@.len(),
        final(diagnostics)@.take(old(diagnostics)@.len() as int) == old(diagnostics)@,
        reports_compile(
            final(diagnostics)@.skip(old(diagnostics)@.len() as int),
            final(ctx).table,
            new_ids(old(ctx).table.sources().len(), files@.len()),
            files@,
        ),
        sites_ok(final(ctx).table, final(diagnostics)@.skip(old(diagnostics)@.len() as int)),
        r is Ok <==> compiles(
            final(ctx).table,
            new_ids(old(ctx).table.sources().len(), files@.len()),
            files@,
        ),
        r matches Err(a) ==> Some(a.0) == failing_phase(
            final(ctx).table,
            new_ids(old(ctx).table.sources().len(), files@.len()),
            files@,
        ),
        rejected_files(files@).len() == 0 ==> forall|k: int|
            0 <= k < files@.len() ==> ((#[trigger] files@[k]).1 matches Ok(c) && final(ctx).table.text(
                new_ids(old(ctx).table.sources().len(), files@.len())[k],
            ) == c@),
        rejected_files(files@).len() > 0 || lex_errors_of(
            final(ctx).table,
            new_ids(old(ctx).table.sources().len(), files@.len()),
        ).len() > 0 ==> final(log_out)@ == old(log_out)@,
        r is Err && rejected_files(files@).len() == 0 && lex_errors_of(
            final(ctx).table,
            new_ids(old(ctx).table.sources().len(), files@.len()),
        ).len() == 0 ==> final(log_out)@ == old(log_out)@ + tokens_part(
            log,
            final(ctx).table,
            new_ids(old(ctx).table.sources().len(), files@.len()),
        ),
        r is Ok ==> final(log_out)@ == old(log_out)@ + tokens_part(
            log,
            final(ctx).table,
            new_ids(old(ctx).table.sources().len(), files@.len()),
        ) + hir_part(log, final(ctx).table, new_ids(old(ctx).table.sources().len(), files@.len())),
{
    let ghost t0 = ctx.table;
    let ghost n0 = ctx.interner@;
    let ghost all = files@;
    let ghost ids = new_ids(t0.sources().len(), files@.len());
    let ghost d0 = diagnostics@;
    let ghost out0 = log_out@;
    let sources = match sources_from_files(files, diagnostics, ctx) {
        Ok(sources) => sources,
        Err(a) => {
            proof {
                crate::parser::lemma_names_extend_refl(n0);
            }
            return Err(a);
        },
    };
    let ghost t1 = ctx.table;
    let ghost d1 = diagnostics@;
    let source_slice = sources.as_slice();
    proof {
        assert(source_slice@ == ids);
        assert forall|k: int| 0 <= k < ids.len() implies t1.has_source(#[trigger] ids[k]) by {
            crate::source::lemma_source_from_index((t0.sources().len() + k) as nat);
        }
        assert(d1.skip(d0.len() as int).len() == 0);
    }
    let lexes = match lex_sources(source_slice, diagnostics, ctx) {
        Ok(lexes) => lexes,
        Err(a) => {
            proof {
                crate::parser::lemma_names_extend_refl(n0);
                assert(diagnostics@.skip(d0.len() as int) =~= diagnostics@.skip(d1.len() as int));
                assert(diagnostics@.take(d0.len() as int) =~= d0) by {
                    assert(diagnostics@.take(d1.len() as int) == d1);
                    assert(d1.take(d0.len() as int) == d0);
                }
            }
            return Err(a);
        },
    };
    let ghost d2 = diagnostics@;
    let lex_slice = lexes.as_slice();
    proof {
        assert(stream_views(lex_slice@) == lexed_all(t1, ids));
        assert forall|k: int| 0 <= k < ids.len() implies t1.has_source(#[trigger] source_slice@[k])
            && tokens_wf(t1.text(source_slice@[k]), lex_slice@[k]@) by {
            crate::source::lemma_source_from_index((t0.sources().len() + k) as nat);
            t1.sources()[ids[k].spec_index() as int].lemma_wf_len();
            lemma_lexed_wf(ids[k], t1.text(ids[k]));
            assert(stream_views(lex_slice@)[k] == lex_slice@[k]@);
        }
        assert forall|k: int| 0 <= k < ids.len() implies spans_wf(
            t1.text(#[trigger] source_slice@[k]),
            lex_slice@[k]@,
        ) by {
            lemma_tokens_have_spans(t1.text(source_slice@[k]), lex_slice@[k]@);
        }
        lemma_total_lexed(t1, ids, all);
        assert(lex_slice@.len() == ids.len());
        assert(tokens_log(t1, ids, lexed_all(t1, ids)) == tokens_log_upto(t1, ids, lexed_all(t1, ids), ids.len()));
    }
    log_tokens(source_slice, lex_slice, log, ctx, log_out);
    let ghost out1 = log_out@;
    let parsed = parse_streams(source_slice, lex_slice, diagnostics, ctx);
    proof {
        lemma_same_sources(t1, ctx.table, ids, lexed_all(t1, ids));
        lemma_names_after_all_same(n0, t1, ctx.table, ids, lexed_all(t1, ids));
        lemma_origins_after_all_same(t1, ctx.table, ids, lexed_all(t1, ids));
        assert(diagnostics@.skip(d0.len() as int) =~= diagnostics@.skip(d2.len() as int));
        assert(diagnostics@.take(d0.len() as int) =~= d0) by {
            assert(diagnostics@.take(d2.len() as int) == d2);
            assert(d2.take(d0.len() as int) == d0);
        }
    }
    let body = match parsed {
        Ok(body) => body,
        Err(a) => {
            return Err(a);
        },
    };
    let body_slice = body.as_slice();
    log_hir(lex_slice, body_slice, log, ctx, log_out);
    proof {
        let shapes = body_shapes(ctx.table, ids, lexed_all(ctx.table, ids));
        assert(body_denotes(ctx.table, ctx.interner@, body_slice@, shapes));
        lemma_hir_log_denoted(ctx.table, ctx.interner@, lexed_all(ctx.table, ids), body_slice@, shapes);
        assert(log_out@ == out0 + tokens_part(log, ctx.table, ids) + hir_part(log, ctx.table, ids));
    }
    Ok(())
}

} // verus!
