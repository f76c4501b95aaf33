//! Generalised renderer for all diagnostics.
//!
//! This is the generator of text for a diagnostic or a collection of them.
//! Text is built a character at a time; the specification functions here say
//! what the text is.
use vstd::prelude::*;
use crate::chars::{decimal, push_decimal, push_repeat, push_str, repeat, string_of};
use crate::diagnostics::{
    Class, Diagnostic, Diagnostics, Severity, Site, class_code, class_phase, class_severity,
    phase_name, site_ok, sites_ok,
};
use crate::source::{
    SourceId, SourceTable, SyntaxId, SyntaxOrigin, char_index_of, col_of, last_line_of, line_of, line_starts_of,
    line_text_spec,
};

verus! {

/// The default number of diagnostics that are rendered, after which
/// diagnostics are "suppressed" instead.
pub const DEFAULT_RENDERING_CAP: usize = 20;

/// The label of a severity.
pub open spec fn severity_label(s: Severity) -> Seq<char> {
    match s {
        Severity::Note => "note"@,
        Severity::Warning => "warning"@,
        Severity::Error => "error"@,
        Severity::Bug => "bug"@,
    }
}

/// How a class is rendered: `severity[phase::CODE]: `.
pub open spec fn class_text(c: Class) -> Seq<char> {
    severity_label(class_severity(c)) + "["@ + phase_name(class_phase(c)) + "::"@ + class_code(c)
        + "]: "@
}

/// The name of source `id`.
pub open spec fn source_name_of(table: SourceTable, id: SourceId) -> Seq<char> {
    table.sources()[id.spec_index() as int].name_view()
}

/// The line on which byte `b` of source `id` lies.
pub open spec fn line_at(table: SourceTable, id: SourceId, b: int) -> nat {
    line_of(table.text(id), char_index_of(table.text(id), b))
}

/// The column at which byte `b` of source `id` lies.
pub open spec fn col_at(table: SourceTable, id: SourceId, b: int) -> nat {
    col_of(table.text(id), char_index_of(table.text(id), b))
}

/// The origin a site covers, if it covers one.
pub open spec fn site_origin(table: SourceTable, site: Site) -> Option<SyntaxOrigin> {
    match site {
        Site::Nowhere => None,
        Site::Source(_) => None,
        Site::Raw(origin) => Some(origin),
        Site::Syntax(id) => Some(table.origin(id)),
    }
}

/// How a site is rendered: nothing, a source's name, or where an origin
/// starts as `name:line:col`, followed by `: `.
pub open spec fn site_text(table: SourceTable, site: Site) -> Seq<char> {
    match site {
        Site::Source(id) => source_name_of(table, id) + ": "@,
        _ => match site_origin(table, site) {
            Some(o) => source_name_of(table, o.source) + ":"@ + decimal(
                line_at(table, o.source, o.span.start as int),
            ) + ":"@ + decimal(col_at(table, o.source, o.span.start as int)) + ": "@,
            None => seq![],
        },
    }
}

/// `s` without one trailing carriage return.
pub open spec fn strip_cr(s: Seq<char>) -> Seq<char> {
    if s.len() > 0 && s.last() == '\r' {
        s.drop_last()
    } else {
        s
    }
}

/// The text of `line` of source `id` as a snippet shows it.
pub open spec fn shown_line(table: SourceTable, id: SourceId, line: nat) -> Seq<char> {
    strip_cr(line_text_spec(table.text(id), line as int))
}

/// `n` right-aligned in `width` columns.
pub open spec fn right_aligned(n: nat, width: nat) -> Seq<char> {
    repeat(' ', if decimal(n).len() < width {
        (width - decimal(n).len()) as nat
    } else {
        0
    }) + decimal(n)
}

/// A source line of a snippet: its number right-aligned, and its text.
pub open spec fn number_line(table: SourceTable, id: SourceId, line: nat, width: nat) -> Seq<char> {
    right_aligned(line, width) + " | "@ + shown_line(table, id, line) + "\n"@
}

/// The caret line under a source line, marking columns `from` up to `to`
/// (at least one caret).
pub open spec fn caret_line(width: nat, from: nat, to: nat) -> Seq<char> {
    repeat(' ', width) + " | "@ + repeat(' ', (from - 1) as nat) + repeat(
        '^',
        if to > from {
            (to - from) as nat
        } else {
            1
        },
    ) + "\n"@
}

/// One line of a snippet with the carets under it.
pub open spec fn line_block(
    table: SourceTable,
    id: SourceId,
    line: nat,
    width: nat,
    from: nat,
    to: nat,
) -> Seq<char> {
    number_line(table, id, line, width) + caret_line(width, from, to)
}

/// The empty gutter line framing a snippet.
pub open spec fn gutter(width: nat) -> Seq<char> {
    repeat(' ', width) + " |"@ + "\n"@
}

/// The line marking lines left out between the two a snippet shows.
pub open spec fn elision(width: nat) -> Seq<char> {
    repeat(' ', width) + " | ..."@ + "\n"@
}

/// The column up to which the carets under `line` run: the column at which
/// the origin ends when it ends on that line, else one past the line's text.
pub open spec fn end_col_on(table: SourceTable, o: SyntaxOrigin, line: nat) -> nat {
    if line_at(table, o.source, o.span.end as int) == line {
        col_at(table, o.source, o.span.end as int)
    } else {
        shown_line(table, o.source, line).len() + 1
    }
}

/// The lines of a snippet between its gutters.
pub open spec fn snippet_body(table: SourceTable, o: SyntaxOrigin) -> Seq<char> {
    let id = o.source;
    let sl = line_at(table, id, o.span.start as int);
    let el = last_line_of(table.text(id), o.span);
    let sc = col_at(table, id, o.span.start as int);
    let width = decimal(el).len();
    if sl == el {
        line_block(table, id, sl, width, sc, end_col_on(table, o, sl))
    } else {
        line_block(table, id, sl, width, sc, shown_line(table, id, sl).len() + 1) + (if sl + 1
            < el {
            elision(width)
        } else {
            seq![]
        }) + line_block(table, id, el, width, 1, end_col_on(table, o, el))
    }
}

/// The snippet of an origin: the line it starts on and the line its last
/// character lies on, with carets under it, and an elision line between them
/// when they are not adjacent.
pub open spec fn snippet_of(table: SourceTable, o: SyntaxOrigin) -> Seq<char> {
    let width = decimal(last_line_of(table.text(o.source), o.span)).len();
    gutter(width) + snippet_body(table, o) + gutter(width)
}

/// A snippet over several lines shows, between its two gutter lines, the
/// line it starts on and the line it ends on, each with its carets, and
/// between them the line `{pad} | ...` exactly when lines were left out: when
/// the last line is more than one after the first.  Adjacent lines follow
/// each other with nothing between.
pub proof fn lemma_snippet_elides_skipped_lines(table: SourceTable, o: SyntaxOrigin)
    requires
        line_at(table, o.source, o.span.start as int) < last_line_of(table.text(o.source), o.span),
    ensures
        ({
            let id = o.source;
            let first = line_at(table, id, o.span.start as int);
            let last = last_line_of(table.text(id), o.span);
            let w = decimal(last).len();
            let pad = repeat(' ', w);
            let first_lines = number_line(table, id, first, w) + caret_line(
                w,
                col_at(table, id, o.span.start as int),
                shown_line(table, id, first).len() + 1,
            );
            let last_lines = number_line(table, id, last, w) + caret_line(
                w,
                1,
                end_col_on(table, o, last),
            );
            let between = if last > first + 1 {
                pad + " | ..."@ + "\n"@
            } else {
                seq![]
            };
            snippet_of(table, o) == pad + " |"@ + "\n"@ + first_lines + between + last_lines + pad
                + " |"@ + "\n"@
        }),
{
    let id = o.source;
    let first = line_at(table, id, o.span.start as int);
    let last = last_line_of(table.text(id), o.span);
    let w = decimal(last).len();
    let pad = repeat(' ', w);
    let first_lines = number_line(table, id, first, w) + caret_line(
        w,
        col_at(table, id, o.span.start as int),
        shown_line(table, id, first).len() + 1,
    );
    let last_lines = number_line(table, id, last, w) + caret_line(w, 1, end_col_on(table, o, last));
    let between = if last > first + 1 {
        pad + " | ..."@ + "\n"@
    } else {
        seq![]
    };
    assert(snippet_body(table, o) == first_lines + between + last_lines);
    assert(snippet_of(table, o) =~= pad + " |"@ + "\n"@ + first_lines + between + last_lines + pad
        + " |"@ + "\n"@);
}

/// How a diagnostic is rendered: site, class and message on one line, then
/// the snippet of what it covers, if anything.
pub open spec fn diagnostic_text(table: SourceTable, d: Diagnostic) -> Seq<char> {
    site_text(table, d.site) + class_text(d.class) + d.message@ + "\n"@ + match site_origin(
        table,
        d.site,
    ) {
        Some(o) => snippet_of(table, o),
        None => seq![],
    }
}

/// The diagnostics of `ds`, rendered one after another.
pub open spec fn diagnostics_text(table: SourceTable, ds: Seq<Diagnostic>) -> Seq<char>
    decreases ds.len(),
{
    if ds.len() == 0 {
        seq![]
    } else {
        diagnostics_text(table, ds.drop_last()) + diagnostic_text(table, ds.last())
    }
}

/// The note on how many diagnostics the cap dropped.
pub open spec fn suppressed_text(count: nat, separate: bool) -> Seq<char> {
    (if separate {
        "\n"@
    } else {
        seq![]
    }) + decimal(count) + " "@ + (if count == 1 {
        "diagnostic"@
    } else {
        "diagnostics"@
    }) + " suppressed"@ + "\n"@
}

/// Whether a diagnostic reports a bug.
pub open spec fn is_bug(d: Diagnostic) -> bool {
    class_severity(d.class) is Bug
}

/// Renderer state: the [`SourceTable`] diagnostics refer to and the text
/// rendered so far.
pub struct Renderer<'a> {
    /// [`SourceTable`] that diagnostics refer to.
    table: &'a SourceTable,
    /// Text rendered so far.
    out: Vec<char>,
}

/// Convert a given [`Site`] to a possible [`SyntaxOrigin`].
pub fn site_to_origin(table: &SourceTable, site: Site) -> (r: Option<SyntaxOrigin>)
    requires
        site_ok(*table, site),
    ensures
        r == site_origin(*table, site),
{
    match site {
        Site::Nowhere | Site::Source(_) => None,
        Site::Raw(origin) => Some(origin),
        Site::Syntax(id) => Some(*table.get_origin(id)),
    }
}

impl<'a> Renderer<'a> {
    /// The table diagnostics are rendered against.
    pub closed spec fn source_table(&self) -> SourceTable {
        *self.table
    }

    /// The text rendered so far.
    pub closed spec fn written(&self) -> Seq<char> {
        self.out@
    }

    /// Construct a new renderer using the given [`SourceTable`] as backing,
    /// with nothing rendered yet.
    pub fn new(table: &'a SourceTable) -> (r: Self)
        ensures
            r.source_table() == *table,
            r.written() == Seq::<char>::empty(),
    {
        Renderer { table, out: Vec::new() }
    }

    /// The text rendered so far.
    pub fn text(&self) -> (r: String)
        ensures
            r@ == self.written(),
    {
        string_of(&self.out)
    }

    /// Render the location represented by [`Site`].
    fn render_site(&mut self, site: Site)
        requires
            old(self).source_table().wf(),
            site_ok(old(self).source_table(), site),
        ensures
            final(self).source_table() == old(self).source_table(),
            final(self).written() == old(self).written() + site_text(old(self).source_table(), site),
    {
        match site {
            Site::Source(id) => {
                let source = self.table.get_source(id);
                push_str(&mut self.out, source.source_name());
                push_str(&mut self.out, ": ");
            },
            _ => {
                match site_to_origin(self.table, site) {
                    Some(origin) => {
                        let location = self.table.location_at(&origin);
                        push_str(&mut self.out, location.name);
                        push_str(&mut self.out, ":");
                        push_decimal(&mut self.out, location.start.line as u64);
                        push_str(&mut self.out, ":");
                        push_decimal(&mut self.out, location.start.col as u64);
                        push_str(&mut self.out, ": ");
                    },
                    None => {},
                }
            },
        }
        assert(self.written() =~= old(self).written() + site_text(old(self).source_table(), site));
    }

    /// Render the given `class`.
    fn render_class(&mut self, class: Class)
        ensures
            final(self).source_table() == old(self).source_table(),
            final(self).written() == old(self).written() + class_text(class),
    {
        let label = match class.severity() {
            Severity::Note => "note",
            Severity::Warning => "warning",
            Severity::Error => "error",
            Severity::Bug => "bug",
        };
        push_str(&mut self.out, label);
        push_str(&mut self.out, "[");
        push_str(&mut self.out, class.phase().as_str());
        push_str(&mut self.out, "::");
        push_str(&mut self.out, class.as_code());
        push_str(&mut self.out, "]: ");
        assert(self.written() =~= old(self).written() + class_text(class));
    }

    /// Render the count of diagnostics dropped by the rendering cap.
    ///
    /// `separate` inserts a blank line first, and is set when something has
    /// already been rendered above.
    pub fn render_suppressed(&mut self, count: usize, separate: bool)
        ensures
            final(self).source_table() == old(self).source_table(),
            final(self).written() == old(self).written() + suppressed_text(count as nat, separate),
    {
        if separate {
            push_str(&mut self.out, "\n");
        }
        push_decimal(&mut self.out, count as u64);
        push_str(&mut self.out, " ");
        if count == 1 {
            push_str(&mut self.out, "diagnostic");
        } else {
            push_str(&mut self.out, "diagnostics");
        }
        push_str(&mut self.out, " suppressed");
        push_str(&mut self.out, "\n");
        assert(self.written() =~= old(self).written() + suppressed_text(count as nat, separate));
    }
}


/// The line on which byte `b` of a source lies is one of its lines.
proof fn lemma_line_at_valid(table: SourceTable, id: SourceId, b: int)
    requires
        table.has_source(id),
        crate::source::is_boundary(table.text(id), b),
    ensures
        1 <= line_at(table, id, b) <= line_starts_of(table.text(id)).len(),
        col_at(table, id, b) >= 1,
{
    let text = table.text(id);
    let i = char_index_of(text, b);
    assert(0 <= i <= text.len());
    crate::source::lemma_line_floor(text, i);
}

/// The line on which an origin's last character lies is one of its source's
/// lines.
proof fn lemma_last_line_valid(table: SourceTable, o: SyntaxOrigin)
    requires
        table.resolvable(o),
    ensures
        1 <= last_line_of(table.text(o.source), o.span) <= line_starts_of(table.text(o.source)).len(),
{
    let text = table.text(o.source);
    let s = char_index_of(text, o.span.start as int);
    let e = char_index_of(text, o.span.end as int);
    if o.span.start < o.span.end {
        if e <= s {
            crate::source::lemma_byte_at_mono(text, e, s);
        }
        crate::source::lemma_line_floor(text, e - 1);
    } else {
        crate::source::lemma_line_floor(text, e);
    }
}

/// The caret line under a source line, marking columns `from` up to `last`.
fn caret_line_of(width: usize, from: usize, last: usize) -> (r: Vec<char>)
    requires
        from >= 1,
    ensures
        r@ == caret_line(width as nat, from as nat, (last + 1) as nat),
{
    let mut out: Vec<char> = Vec::new();
    push_repeat(&mut out, ' ', width);
    push_str(&mut out, " | ");
    push_repeat(&mut out, ' ', from - 1);
    let carets = if last >= from {
        last - from + 1
    } else {
        1
    };
    push_repeat(&mut out, '^', carets);
    push_str(&mut out, "\n");
    assert(out@ =~= caret_line(width as nat, from as nat, (last + 1) as nat));
    out
}

/// Append a gutter line.
fn push_gutter(out: &mut Vec<char>, width: usize)
    ensures
        final(out)@ == old(out)@ + gutter(width as nat),
{
    push_repeat(out, ' ', width);
    push_str(out, " |");
    push_str(out, "\n");
    assert(final(out)@ =~= old(out)@ + gutter(width as nat));
}

/// Append an elision line.
fn push_elision(out: &mut Vec<char>, width: usize)
    ensures
        final(out)@ == old(out)@ + elision(width as nat),
{
    push_repeat(out, ' ', width);
    push_str(out, " | ...");
    push_str(out, "\n");
    assert(final(out)@ =~= old(out)@ + elision(width as nat));
}

impl<'a> Renderer<'a> {
    /// The text of `line` of source `id` as a snippet shows it: without its
    /// line feed or a carriage return before it.
    fn shown_line(&self, id: SourceId, line: usize) -> (r: Vec<char>)
        requires
            self.source_table().wf(),
            self.source_table().has_source(id),
            1 <= line <= line_starts_of(self.source_table().text(id)).len(),
        ensures
            r@ == shown_line(self.source_table(), id, line as nat),
    {
        let text = self.table.line_text(id, line);
        let mut chars: Vec<char> = Vec::new();
        push_str(&mut chars, text);
        assert(chars@ =~= text@);
        let n = chars.len();
        if n > 0 && chars[n - 1] == '\r' {
            let _ = chars.pop();
            assert(chars@ =~= text@.drop_last());
        }
        chars
    }

    /// The last column the carets under `line` cover, given the line and
    /// column at which `origin` ends.
    fn last_col_on(&self, origin: &SyntaxOrigin, line: usize, end_line: usize, end_col: usize) -> (r:
        usize)
        requires
            self.source_table().wf(),
            self.source_table().has_source(origin.source),
            1 <= line <= line_starts_of(self.source_table().text(origin.source)).len(),
            end_line == line_at(self.source_table(), origin.source, origin.span.end as int),
            end_col == col_at(self.source_table(), origin.source, origin.span.end as int),
            end_col >= 1,
        ensures
            r + 1 == end_col_on(self.source_table(), *origin, line as nat),
    {
        if end_line == line {
            end_col - 1
        } else {
            let text = self.shown_line(origin.source, line);
            text.len()
        }
    }

    /// Render one line of a snippet, right-aligned in `width` columns, with
    /// carets under columns `from` up to `last`.
    fn render_line(&mut self, id: SourceId, line: usize, width: usize, from: usize, last: usize)
        requires
            old(self).source_table().wf(),
            old(self).source_table().has_source(id),
            1 <= line <= line_starts_of(old(self).source_table().text(id)).len(),
            from >= 1,
        ensures
            final(self).source_table() == old(self).source_table(),
            final(self).written() == old(self).written() + line_block(
                old(self).source_table(),
                id,
                line as nat,
                width as nat,
                from as nat,
                (last + 1) as nat,
            ),
    {
        let mut numbered = self.number_line(id, line, width);
        let mut carets = caret_line_of(width, from, last);
        self.out.append(&mut numbered);
        self.out.append(&mut carets);
        assert(self.written() =~= old(self).written() + line_block(
            old(self).source_table(),
            id,
            line as nat,
            width as nat,
            from as nat,
            (last + 1) as nat,
        ));
    }

    /// A source line of a snippet.
    fn number_line(&self, id: SourceId, line: usize, width: usize) -> (r: Vec<char>)
        requires
            self.source_table().wf(),
            self.source_table().has_source(id),
            1 <= line <= line_starts_of(self.source_table().text(id)).len(),
        ensures
            r@ == number_line(self.source_table(), id, line as nat, width as nat),
    {
        let mut digits: Vec<char> = Vec::new();
        push_decimal(&mut digits, line as u64);
        let pad = if digits.len() < width {
            width - digits.len()
        } else {
            0
        };
        let mut out: Vec<char> = Vec::new();
        push_repeat(&mut out, ' ', pad);
        push_decimal(&mut out, line as u64);
        push_str(&mut out, " | ");
        let mut text = self.shown_line(id, line);
        out.append(&mut text);
        push_str(&mut out, "\n");
        assert(out@ =~= number_line(self.source_table(), id, line as nat, width as nat));
        out
    }

    /// Render the source snippet for a diagnostic: the lines of source the
    /// span lies in, with carets marking the span.
    ///
    /// Only [`Site::Raw`] / [`Site::Syntax`] sites produce a snippet;
    /// [`Site::Nowhere`] and source-wide [`Site::Source`] render nothing.
    ///
    /// A span crossing adjacent lines renders them separately, but a span
    /// crossing several lines renders its start and end lines joined by an
    /// elision line.
    #[verifier::rlimit(40)]
    fn render_snippet(&mut self, site: Site)
        requires
            old(self).source_table().wf(),
            site_ok(old(self).source_table(), site),
        ensures
            final(self).source_table() == old(self).source_table(),
            final(self).written() == old(self).written() + match site_origin(
                old(self).source_table(),
                site,
            ) {
                Some(o) => snippet_of(old(self).source_table(), o),
                None => seq![],
            },
    {
        let origin = match site_to_origin(self.table, site) {
            Some(o) => o,
            None => {
                assert(self.written() =~= old(self).written() + Seq::<char>::empty());
                return ;
            },
        };
        let ghost table = self.source_table();
        proof {
            lemma_line_at_valid(table, origin.source, origin.span.start as int);
            lemma_line_at_valid(table, origin.source, origin.span.end as int);
        }
        let (start_line, end_line) = self.table.lines_of(&origin);
        proof {
            lemma_last_line_valid(table, origin);
        }
        let location = self.table.location_at(&origin);
        let mut digits: Vec<char> = Vec::new();
        push_decimal(&mut digits, end_line as u64);
        let width = digits.len();
        push_gutter(&mut self.out, width);
        let ghost open = self.written();
        if start_line == end_line {
            let last = self.last_col_on(&origin, start_line, location.end.line, location.end.col);
            self.render_line(origin.source, start_line, width, location.start.col, last);
        } else {
            let first = self.shown_line(origin.source, start_line);
            self.render_line(origin.source, start_line, width, location.start.col, first.len());
            if end_line > start_line && end_line - start_line > 1 {
                push_elision(&mut self.out, width);
            }
            let last = self.last_col_on(&origin, end_line, location.end.line, location.end.col);
            self.render_line(origin.source, end_line, width, 1, last);
        }
        assert(self.written() =~= open + snippet_body(table, origin));
        push_gutter(&mut self.out, width);
        assert(self.written() =~= old(self).written() + snippet_of(table, origin));
    }

    /// Render a singular [`Diagnostic`].
    pub fn render(&mut self, diag: &Diagnostic)
        requires
            old(self).source_table().wf(),
            site_ok(old(self).source_table(), diag.site),
        ensures
            final(self).source_table() == old(self).source_table(),
            final(self).written() == old(self).written() + diagnostic_text(
                old(self).source_table(),
                *diag,
            ),
    {
        let ghost table = self.source_table();
        let ghost w0 = self.written();
        self.render_site(diag.site);
        self.render_class(diag.class);
        push_str(&mut self.out, diag.message.as_str());
        push_str(&mut self.out, "\n");
        let ghost head = site_text(table, diag.site) + class_text(diag.class) + diag.message@ + "\n"@;
        assert(self.written() =~= w0 + head);
        let ghost w1 = self.written();
        self.render_snippet(diag.site);
        let ghost tail = self.written().skip(w1.len() as int);
        assert(self.written() =~= w1 + tail);
        assert(diagnostic_text(table, *diag) == head + tail);
        assert(self.written() =~= w0 + (head + tail));
    }
}


/// A diagnostic sited at a form renders exactly as one sited at the raw
/// origin the form has in the table.
pub proof fn lemma_raw_and_syntax_render_alike(table: SourceTable, d: Diagnostic, id: SyntaxId)
    requires
        d.site == Site::Syntax(id),
    ensures
        diagnostic_text(table, d) == diagnostic_text(
            table,
            Diagnostic { class: d.class, message: d.message, site: Site::Raw(table.origin(id)) },
        ),
{
}

/* Ordering and the cap */

/// Where a site renders, which orders diagnostics: nowhere first, then by
/// source, a whole source before any position in it, then by offset.
pub open spec fn position_key(table: SourceTable, site: Site) -> Option<(SourceId, Option<u32>)> {
    match site {
        Site::Nowhere => None,
        Site::Source(id) => Some((id, None)),
        Site::Raw(origin) => Some((origin.source, Some(origin.span.start))),
        Site::Syntax(id) => Some((table.origin(id).source, Some(table.origin(id).span.start))),
    }
}

/// Whether offset `a` orders strictly before offset `b`; no offset comes
/// first.
pub open spec fn offset_lt(a: Option<u32>, b: Option<u32>) -> bool {
    match (a, b) {
        (None, Some(_)) => true,
        (Some(x), Some(y)) => x < y,
        _ => false,
    }
}

/// Whether position `a` orders strictly before position `b`.
pub open spec fn key_lt(a: Option<(SourceId, Option<u32>)>, b: Option<(SourceId, Option<u32>)>) -> bool {
    match (a, b) {
        (None, Some(_)) => true,
        (Some((s1, o1)), Some((s2, o2))) => s1.spec_index() < s2.spec_index() || (s1.spec_index()
            == s2.spec_index() && offset_lt(o1, o2)),
        _ => false,
    }
}

/// Where `d` goes among the first `j` of `sorted`: after every diagnostic
/// that does not order after it.
pub open spec fn insert_pos(table: SourceTable, sorted: Seq<Diagnostic>, d: Diagnostic, j: int) -> int
    decreases j,
{
    if j <= 0 {
        0
    } else if key_lt(position_key(table, d.site), position_key(table, sorted[j - 1].site)) {
        insert_pos(table, sorted, d, j - 1)
    } else {
        j
    }
}

/// `ds` stably sorted by position: each diagnostic is placed after those
/// before it that do not order after it.
pub open spec fn sorted_by_position(table: SourceTable, ds: Seq<Diagnostic>) -> Seq<Diagnostic>
    decreases ds.len(),
{
    if ds.len() == 0 {
        seq![]
    } else {
        let s = sorted_by_position(table, ds.drop_last());
        s.insert(insert_pos(table, s, ds.last(), s.len() as int), ds.last())
    }
}

/// The diagnostics of `ds` that are not bugs, in order.
pub open spec fn ordinary(ds: Seq<Diagnostic>) -> Seq<Diagnostic>
    decreases ds.len(),
{
    if ds.len() == 0 {
        seq![]
    } else if is_bug(ds.last()) {
        ordinary(ds.drop_last())
    } else {
        ordinary(ds.drop_last()).push(ds.last())
    }
}

/// The bugs of `ds`, in order.
pub open spec fn bugs(ds: Seq<Diagnostic>) -> Seq<Diagnostic>
    decreases ds.len(),
{
    if ds.len() == 0 {
        seq![]
    } else if is_bug(ds.last()) {
        bugs(ds.drop_last()).push(ds.last())
    } else {
        bugs(ds.drop_last())
    }
}

/// The trailing section of bugs.
pub open spec fn bugs_text(table: SourceTable, ds: Seq<Diagnostic>, separate: bool) -> Seq<char> {
    (if separate {
        "\n"@
    } else {
        seq![]
    }) + diagnostics_text(table, bugs(ds)) + "this is a bug in rforsp; please report it"@ + "\n"@
}

/// What rendering `ds` against `table` with cap `cap` produces: the
/// ordinary diagnostics in source order up to the cap, a note on how many
/// the cap dropped, then every bug.
pub open spec fn rendered_text(table: SourceTable, ds: Seq<Diagnostic>, cap: nat) -> Seq<char> {
    let ordered = sorted_by_position(table, ds);
    let ord = ordinary(ordered);
    let shown = if ord.len() < cap {
        ord.len()
    } else {
        cap
    };
    let suppressed = (ord.len() - shown) as nat;
    diagnostics_text(table, ord.take(shown as int)) + (if suppressed > 0 {
        suppressed_text(suppressed, shown > 0)
    } else {
        seq![]
    }) + (if ordered.len() > ord.len() {
        bugs_text(table, ordered, shown > 0 || suppressed > 0)
    } else {
        seq![]
    })
}

/// The diagnostics behind references, in order.
pub open spec fn derefs(s: Seq<&Diagnostic>) -> Seq<Diagnostic> {
    s.map_values(|d: &Diagnostic| *d)
}

/// The position a [`Site`] renders at, which orders diagnostics.
pub fn position_of(table: &SourceTable, site: Site) -> (r: Option<(SourceId, Option<u32>)>)
    requires
        site_ok(*table, site),
    ensures
        r == position_key(*table, site),
{
    match site {
        Site::Nowhere => None,
        Site::Source(id) => Some((id, None)),
        Site::Raw(origin) => Some((origin.source, Some(origin.span.start))),
        Site::Syntax(id) => {
            let origin = table.get_origin(id);
            Some((origin.source, Some(origin.span.start)))
        },
    }
}

/// Whether position `a` orders strictly before position `b`.
fn position_before(a: Option<(SourceId, Option<u32>)>, b: Option<(SourceId, Option<u32>)>) -> (r:
    bool)
    ensures
        r == key_lt(a, b),
{
    match (a, b) {
        (None, Some(_)) => true,
        (Some((s1, o1)), Some((s2, o2))) => {
            let i1 = s1.index();
            let i2 = s2.index();
            if i1 < i2 {
                true
            } else if i1 == i2 {
                match (o1, o2) {
                    (None, Some(_)) => true,
                    (Some(x), Some(y)) => x < y,
                    _ => false,
                }
            } else {
                false
            }
        },
        _ => false,
    }
}

/// The diagnostics of `ds`, stably sorted by the position they render at.
fn sort_by_position<'d>(table: &SourceTable, ds: &'d [Diagnostic]) -> (r: Vec<&'d Diagnostic>)
    requires
        sites_ok(*table, ds@),
    ensures
        derefs(r@) == sorted_by_position(*table, ds@),
        sites_ok(*table, derefs(r@)),
{
    let mut ordered: Vec<&Diagnostic> = Vec::new();
    let mut i: usize = 0;
    assert(ds@.take(0) =~= Seq::<Diagnostic>::empty());
    assert(derefs(ordered@) =~= Seq::<Diagnostic>::empty());
    while i < ds.len()
        invariant
            i <= ds@.len(),
            sites_ok(*table, ds@),
            derefs(ordered@) == sorted_by_position(*table, ds@.take(i as int)),
            sites_ok(*table, derefs(ordered@)),
        decreases ds@.len() - i,
    {
        let d = &ds[i];
        assert(site_ok(*table, ds@[i as int].site));
        let key = position_of(table, d.site);
        let ghost sorted = derefs(ordered@);
        let mut j = ordered.len();
        while j > 0
            invariant
                j <= ordered@.len(),
                sorted == derefs(ordered@),
                sites_ok(*table, sorted),
                key == position_key(*table, d.site),
                insert_pos(*table, sorted, *d, sorted.len() as int) == insert_pos(
                    *table,
                    sorted,
                    *d,
                    j as int,
                ),
            ensures
                j <= ordered@.len(),
                sorted == derefs(ordered@),
                insert_pos(*table, sorted, *d, sorted.len() as int) == j,
            decreases j,
        {
            assert(site_ok(*table, sorted[j - 1].site));
            assert(sorted[j - 1] == *ordered@[j - 1]);
            let other = position_of(table, ordered[j - 1].site);
            if !position_before(key, other) {
                break;
            }
            j = j - 1;
        }
        ordered.insert(j, d);
        proof {
            let t = ds@.take(i + 1);
            assert(t.drop_last() =~= ds@.take(i as int));
            assert(t.last() == *d);
            assert(derefs(ordered@) =~= sorted.insert(j as int, *d));
            assert forall|k: int| 0 <= k < derefs(ordered@).len() implies site_ok(
                *table,
                #[trigger] derefs(ordered@)[k].site,
            ) by {
                if k < j {
                    assert(derefs(ordered@)[k] == sorted[k]);
                } else if k > j {
                    assert(derefs(ordered@)[k] == sorted[k - 1]);
                }
            }
        }
        i = i + 1;
    }
    assert(ds@.take(i as int) =~= ds@);
    ordered
}


proof fn lemma_ordinary_step(ds: Seq<Diagnostic>, i: int)
    requires
        0 <= i < ds.len(),
    ensures
        ordinary(ds.take(i + 1)) == if is_bug(ds[i]) {
            ordinary(ds.take(i))
        } else {
            ordinary(ds.take(i)).push(ds[i])
        },
        bugs(ds.take(i + 1)) == if is_bug(ds[i]) {
            bugs(ds.take(i)).push(ds[i])
        } else {
            bugs(ds.take(i))
        },
{
    let t = ds.take(i + 1);
    assert(t.drop_last() =~= ds.take(i));
    assert(t.last() == ds[i]);
}

proof fn lemma_text_push(table: SourceTable, ds: Seq<Diagnostic>, d: Diagnostic)
    ensures
        diagnostics_text(table, ds.push(d)) == diagnostics_text(table, ds) + diagnostic_text(table, d),
{
    assert(ds.push(d).drop_last() =~= ds);
}

/// Whether `a` starts no later than `b` where both cover text of one source:
/// the span of `a` begins at or before the span of `b`.
pub open spec fn starts_no_later(table: SourceTable, a: Diagnostic, b: Diagnostic) -> bool {
    match (site_origin(table, a.site), site_origin(table, b.site)) {
        (Some(x), Some(y)) => x.source == y.source ==> x.span.start <= y.span.start,
        _ => true,
    }
}

/// The source a site lies in, if any: a whole source, or the source of the
/// text it covers.
pub open spec fn site_source(table: SourceTable, site: Site) -> Option<SourceId> {
    match site {
        Site::Source(id) => Some(id),
        _ => match site_origin(table, site) {
            Some(o) => Some(o.source),
            None => None,
        },
    }
}

/// Whether `a` may render before `b` as far as sources go: diagnostics with
/// no site come first, then sources in the order they were added, and within
/// a source the diagnostics about the whole source before those at a span.
pub open spec fn sources_no_later(table: SourceTable, a: Diagnostic, b: Diagnostic) -> bool {
    &&& b.site is Nowhere ==> a.site is Nowhere
    &&& match (site_source(table, a.site), site_source(table, b.site)) {
        (Some(x), Some(y)) => x.spec_index() <= y.spec_index() && (x == y && b.site is Source
            ==> a.site is Source),
        _ => true,
    }
}

/// Whether the diagnostics of `ds` come in source order.
pub open spec fn in_source_order(table: SourceTable, ds: Seq<Diagnostic>) -> bool {
    forall|i: int, j: int|
        0 <= i < j < ds.len() ==> sources_no_later(table, #[trigger] ds[i], #[trigger] ds[j])
}

/// Whether the diagnostics of `ds` that cover text of one source come in the
/// order their spans start.
pub open spec fn in_start_order(table: SourceTable, ds: Seq<Diagnostic>) -> bool {
    forall|i: int, j: int|
        0 <= i < j < ds.len() ==> starts_no_later(table, #[trigger] ds[i], #[trigger] ds[j])
}

/// Whether no diagnostic of `ds` orders strictly before one ahead of it.
spec fn key_sorted(table: SourceTable, ds: Seq<Diagnostic>) -> bool {
    forall|i: int, j: int|
        0 <= i < j < ds.len() ==> !key_lt(
            position_key(table, (#[trigger] ds[j]).site),
            position_key(table, (#[trigger] ds[i]).site),
        )
}

/// The order on positions is a strict weak order: asymmetric, and when `a`
/// orders before `c`, any `b` orders after `a` or before `c`.
proof fn lemma_key_lt_weak(
    a: Option<(SourceId, Option<u32>)>,
    b: Option<(SourceId, Option<u32>)>,
    c: Option<(SourceId, Option<u32>)>,
)
    ensures
        key_lt(a, b) ==> !key_lt(b, a),
        key_lt(a, c) ==> key_lt(a, b) || key_lt(b, c),
{
}

/// Where `insert_pos` places `d`: every diagnostic it passes orders after
/// `d`, and the one it stops behind does not.
proof fn lemma_insert_pos(table: SourceTable, sorted: Seq<Diagnostic>, d: Diagnostic, j: int)
    requires
        0 <= j <= sorted.len(),
    ensures
        0 <= insert_pos(table, sorted, d, j) <= j,
        insert_pos(table, sorted, d, j) > 0 ==> !key_lt(
            position_key(table, d.site),
            position_key(table, sorted[insert_pos(table, sorted, d, j) - 1].site),
        ),
        forall|k: int|
            insert_pos(table, sorted, d, j) <= k < j ==> key_lt(
                position_key(table, d.site),
                position_key(table, (#[trigger] sorted[k]).site),
            ),
    decreases j,
{
    if j > 0 && key_lt(position_key(table, d.site), position_key(table, sorted[j - 1].site)) {
        lemma_insert_pos(table, sorted, d, j - 1);
    }
}

/// Sorting by position orders by position, and keeps every diagnostic.
proof fn lemma_sorted_by_position_sorted(table: SourceTable, ds: Seq<Diagnostic>)
    ensures
        key_sorted(table, sorted_by_position(table, ds)),
        sorted_by_position(table, ds).to_multiset() == ds.to_multiset(),
    decreases ds.len(),
{
    broadcast use vstd::seq_lib::group_to_multiset_ensures, vstd::seq_lib::to_multiset_insert;

    if ds.len() > 0 {
        lemma_sorted_by_position_sorted(table, ds.drop_last());
        let s = sorted_by_position(table, ds.drop_last());
        let d = ds.last();
        let p = insert_pos(table, s, d, s.len() as int);
        lemma_insert_pos(table, s, d, s.len() as int);
        let t = s.insert(p, d);
        assert(t == sorted_by_position(table, ds));
        let kd = position_key(table, d.site);
        assert forall|i: int, j: int| 0 <= i < j < t.len() implies !key_lt(
            position_key(table, (#[trigger] t[j]).site),
            position_key(table, (#[trigger] t[i]).site),
        ) by {
            if j < p {
                assert(t[i] == s[i] && t[j] == s[j]);
            } else if j == p {
                assert(t[i] == s[i] && t[j] == d);
                let kp = position_key(table, s[p - 1].site);
                let ki = position_key(table, s[i].site);
                if i < p - 1 {
                    assert(!key_lt(kp, position_key(table, s[i].site)));
                }
                lemma_key_lt_weak(kd, kp, ki);
            } else if i < p {
                assert(t[i] == s[i] && t[j] == s[j - 1]);
            } else if i == p {
                assert(t[i] == d && t[j] == s[j - 1]);
                assert(key_lt(kd, position_key(table, s[j - 1].site)));
                lemma_key_lt_weak(kd, position_key(table, s[j - 1].site), kd);
            } else {
                assert(t[i] == s[i - 1] && t[j] == s[j - 1]);
            }
        }
        assert(ds =~= ds.drop_last().push(d));
    }
}

/// Every diagnostic kept among the ordinary ones is one of `ds`, and they
/// keep their order: the `i`-th kept lies before the `j`-th kept in `ds`.
proof fn lemma_ordinary_keeps_order(ds: Seq<Diagnostic>)
    ensures
        forall|i: int, j: int|
            0 <= i < j < ordinary(ds).len() ==> exists|a: int, b: int|
                0 <= a < b < ds.len() && ds[a] == #[trigger] ordinary(ds)[i] && ds[b]
                    == #[trigger] ordinary(ds)[j],
        forall|i: int|
            0 <= i < ordinary(ds).len() ==> exists|a: int|
                0 <= a < ds.len() && ds[a] == #[trigger] ordinary(ds)[i],
    decreases ds.len(),
{
    if ds.len() > 0 {
        let init = ds.drop_last();
        lemma_ordinary_keeps_order(init);
        let o = ordinary(ds);
        let oi = ordinary(init);
        assert forall|i: int| 0 <= i < o.len() implies exists|a: int|
            0 <= a < ds.len() && ds[a] == #[trigger] o[i] by {
            if i < oi.len() {
                assert(o[i] == oi[i]);
                let a = choose|a: int| 0 <= a < init.len() && init[a] == oi[i];
                assert(ds[a] == init[a]);
            } else {
                assert(o[i] == ds[ds.len() - 1]);
            }
        }
        assert forall|i: int, j: int| 0 <= i < j < o.len() implies exists|a: int, b: int|
            0 <= a < b < ds.len() && ds[a] == #[trigger] o[i] && ds[b] == #[trigger] o[j] by {
            if j < oi.len() {
                assert(o[i] == oi[i] && o[j] == oi[j]);
                let (a, b) = choose|a: int, b: int|
                    0 <= a < b < init.len() && init[a] == oi[i] && init[b] == oi[j];
                assert(ds[a] == init[a] && ds[b] == init[b]);
            } else {
                assert(o[j] == ds[ds.len() - 1]);
                assert(o[i] == oi[i]);
                let a = choose|a: int| 0 <= a < init.len() && init[a] == oi[i];
                assert(ds[a] == init[a]);
                assert(ds[ds.len() - 1] == o[j]);
            }
        }
    }
}

/// Whether positions `a` and `b` tie: neither orders before the other.
pub open spec fn same_position(a: Option<(SourceId, Option<u32>)>, b: Option<(SourceId, Option<u32>)>) -> bool {
    !key_lt(a, b) && !key_lt(b, a)
}

/// The diagnostics of `ds` that render at a position tying with `k`, in order.
pub open spec fn at_position(table: SourceTable, ds: Seq<Diagnostic>, k: Option<(SourceId, Option<u32>)>) -> Seq<Diagnostic> {
    ds.filter(|d: Diagnostic| same_position(position_key(table, d.site), k))
}

/// Sorting by position is stable: the diagnostics at any one position come
/// out in the order they were reported in.
pub proof fn lemma_sorting_is_stable(table: SourceTable, ds: Seq<Diagnostic>, k: Option<(SourceId, Option<u32>)>)
    ensures
        at_position(table, sorted_by_position(table, ds), k) == at_position(table, ds, k),
    decreases ds.len(),
{
    broadcast use vstd::seq_lib::group_seq_properties;

    let pred = |d: Diagnostic| same_position(position_key(table, d.site), k);
    if ds.len() == 0 {
        return;
    }
    lemma_sorting_is_stable(table, ds.drop_last(), k);
    let s = sorted_by_position(table, ds.drop_last());
    let d = ds.last();
    let p = insert_pos(table, s, d, s.len() as int);
    lemma_insert_pos(table, s, d, s.len() as int);
    let kd = position_key(table, d.site);
    let head = s.take(p);
    let tail = s.skip(p);
    assert(s =~= head + tail);
    assert(s.insert(p, d) =~= head + seq![d] + tail);
    Seq::filter_distributes_over_add(head, tail, pred);
    Seq::filter_distributes_over_add(head + seq![d], tail, pred);
    Seq::filter_distributes_over_add(head, seq![d], pred);
    assert(seq![d] =~= Seq::<Diagnostic>::empty().push(d));
    Seq::<Diagnostic>::empty().lemma_filter_push(d, pred);
    assert(Seq::<Diagnostic>::empty().filter(pred) =~= Seq::<Diagnostic>::empty()) by {
        reveal(Seq::filter);
    }
    assert(ds =~= ds.drop_last().push(d));
    ds.drop_last().lemma_filter_push(d, pred);
    if pred(d) {
        assert forall|i: int| 0 <= i < tail.len() implies !pred(#[trigger] tail[i]) by {
            let ke = position_key(table, tail[i].site);
            assert(tail[i] == s[p + i]);
            assert(key_lt(kd, ke));
            lemma_key_lt_weak(kd, k, ke);
            lemma_key_lt_weak(k, ke, k);
        }
        assert(tail.all(|x: Diagnostic| !pred(x)));
        tail.lemma_all_neg_filter_empty(pred);
        assert(tail.filter(pred) =~= Seq::<Diagnostic>::empty());
        assert(sorted_by_position(table, ds).filter(pred) =~= head.filter(pred).push(d));
        assert(s.filter(pred) =~= head.filter(pred));
    } else {
        assert(sorted_by_position(table, ds).filter(pred) =~= head.filter(pred) + tail.filter(pred));
    }
}

/// Diagnostics are rendered in the order they start in their source: once
/// sorted, and among the ordinary diagnostics rendering shows, one covering
/// text of a source never follows one whose span starts earlier in that
/// source.  Sorting drops and adds nothing.
pub proof fn lemma_rendered_in_start_order(table: SourceTable, ds: Seq<Diagnostic>)
    ensures
        in_start_order(table, sorted_by_position(table, ds)),
        in_start_order(table, ordinary(sorted_by_position(table, ds))),
        in_source_order(table, sorted_by_position(table, ds)),
        in_source_order(table, ordinary(sorted_by_position(table, ds))),
        sorted_by_position(table, ds).to_multiset() == ds.to_multiset(),
{
    lemma_sorted_by_position_sorted(table, ds);
    let s = sorted_by_position(table, ds);
    assert forall|i: int, j: int| 0 <= i < j < s.len() implies starts_no_later(
        table,
        #[trigger] s[i],
        #[trigger] s[j],
    ) by {
        assert(!key_lt(position_key(table, s[j].site), position_key(table, s[i].site)));
    }
    assert forall|i: int, j: int| 0 <= i < j < s.len() implies sources_no_later(
        table,
        #[trigger] s[i],
        #[trigger] s[j],
    ) by {
        assert(!key_lt(position_key(table, s[j].site), position_key(table, s[i].site)));
    }
    lemma_ordinary_keeps_order(s);
    let o = ordinary(s);
    assert forall|i: int, j: int| 0 <= i < j < o.len() implies starts_no_later(
        table,
        #[trigger] o[i],
        #[trigger] o[j],
    ) && sources_no_later(table, o[i], o[j]) by {
        let (a, b) = choose|a: int, b: int| 0 <= a < b < s.len() && s[a] == o[i] && s[b] == o[j];
        assert(starts_no_later(table, s[a], s[b]));
        assert(sources_no_later(table, s[a], s[b]));
    }
}

impl<'a> Renderer<'a> {
    /// Render every bug among `items` as a trailing section.
    ///
    /// These are never suppressed, so this runs after the cap has been
    /// applied to everything else and renders whatever it finds.
    ///
    /// `separate` inserts a blank line first, and is set when something has
    /// already been rendered above.
    pub fn render_bugs(&mut self, items: &[&Diagnostic], separate: bool)
        requires
            old(self).source_table().wf(),
            sites_ok(old(self).source_table(), derefs(items@)),
        ensures
            final(self).source_table() == old(self).source_table(),
            final(self).written() == old(self).written() + bugs_text(
                old(self).source_table(),
                derefs(items@),
                separate,
            ),
    {
        let ghost table = self.source_table();
        let ghost ds = derefs(items@);
        if separate {
            push_str(&mut self.out, "\n");
        }
        let ghost start = self.written();
        let mut i: usize = 0;
        assert(ds.take(0) =~= Seq::<Diagnostic>::empty());
        assert(start =~= start + diagnostics_text(table, bugs(ds.take(0))));
        while i < items.len()
            invariant
                i <= items@.len(),
                ds == derefs(items@),
                table == self.source_table(),
                table.wf(),
                sites_ok(table, ds),
                self.written() == start + diagnostics_text(table, bugs(ds.take(i as int))),
            decreases items@.len() - i,
        {
            let d = items[i];
            assert(ds[i as int] == *d);
            proof {
                lemma_ordinary_step(ds, i as int);
            }
            if d.class.severity() == Severity::Bug {
                assert(site_ok(table, ds[i as int].site));
                self.render(d);
                proof {
                    lemma_text_push(table, bugs(ds.take(i as int)), *d);
                }
            }
            i = i + 1;
        }
        assert(ds.take(i as int) =~= ds);
        push_str(&mut self.out, "this is a bug in rforsp; please report it");
        push_str(&mut self.out, "\n");
        assert(self.written() =~= old(self).written() + bugs_text(table, ds, separate));
    }
}

/// Render a collection of [`Diagnostics`] related to a [`SourceTable`],
/// appending to `out`, with at most [`DEFAULT_RENDERING_CAP`] ordinary
/// diagnostics shown.
pub fn render_diagnostics(diags: &Diagnostics, table: &SourceTable, out: &mut String)
    requires
        table.wf(),
        sites_ok(*table, diags@),
    ensures
        final(out)@ == old(out)@ + rendered_text(*table, diags@, DEFAULT_RENDERING_CAP as nat),
{
    render_diagnostics_with_cap(diags, table, DEFAULT_RENDERING_CAP, out)
}

/// Render a collection of [`Diagnostics`] related to a [`SourceTable`],
/// appending to `out`.  `cap` decides how many are suppressed.
///
/// Diagnostics are rendered in source order rather than the order the
/// phases happened to report them in.
///
/// Bugs are exempt from `cap` and rendered as a trailing section always as
/// they're critical if found during real word cases.  Ordering runs before
/// the cap, so what survives it is the head of the file rather than
/// whichever diagnostics happened to be reported first.
pub fn render_diagnostics_with_cap(
    diags: &Diagnostics,
    table: &SourceTable,
    cap: usize,
    out: &mut String,
)
    requires
        table.wf(),
        sites_ok(*table, diags@),
    ensures
        final(out)@ == old(out)@ + rendered_text(*table, diags@, cap as nat),
{
    let ordered = sort_by_position(table, diags.items());
    let ghost os = derefs(ordered@);
    let ghost ord = ordinary(os);
    let mut len: usize = 0;
    let mut i: usize = 0;
    assert(os.take(0) =~= Seq::<Diagnostic>::empty());
    while i < ordered.len()
        invariant
            i <= ordered@.len(),
            os == derefs(ordered@),
            len == ordinary(os.take(i as int)).len(),
            len <= i,
        decreases ordered@.len() - i,
    {
        proof {
            lemma_ordinary_step(os, i as int);
        }
        assert(os[i as int] == *ordered@[i as int]);
        if ordered[i].class.severity() != Severity::Bug {
            len = len + 1;
        }
        i = i + 1;
    }
    assert(os.take(i as int) =~= os);
    let to_render = if len < cap {
        len
    } else {
        cap
    };
    let suppressed = if len > cap {
        len - cap
    } else {
        0
    };
    let mut renderer = Renderer::new(table);
    let mut rendered: usize = 0;
    let mut i: usize = 0;
    assert(ordinary(os.take(0)).take(0) =~= Seq::<Diagnostic>::empty());
    while i < ordered.len()
        invariant
            i <= ordered@.len(),
            os == derefs(ordered@),
            ord == ordinary(os),
            to_render <= ord.len(),
            table.wf(),
            sites_ok(*table, os),
            renderer.source_table() == *table,
            rendered == if ordinary(os.take(i as int)).len() < to_render {
                ordinary(os.take(i as int)).len()
            } else {
                to_render as nat
            },
            renderer.written() == diagnostics_text(
                *table,
                ordinary(os.take(i as int)).take(rendered as int),
            ),
        decreases ordered@.len() - i,
    {
        let ghost before = ordinary(os.take(i as int));
        proof {
            lemma_ordinary_step(os, i as int);
        }
        let d = ordered[i];
        assert(os[i as int] == *d);
        if d.class.severity() != Severity::Bug && rendered < to_render {
            assert(site_ok(*table, os[i as int].site));
            renderer.render(d);
            proof {
                assert(before.take(rendered as int) =~= before);
                assert(before.push(*d).take(rendered + 1) =~= before.push(*d));
                lemma_text_push(*table, before, *d);
            }
            rendered = rendered + 1;
        } else if d.class.severity() != Severity::Bug {
            assert(before.push(*d).take(rendered as int) =~= before.take(rendered as int));
        }
        i = i + 1;
    }
    assert(os.take(i as int) =~= os);
    let mut written = to_render > 0;
    if suppressed > 0 {
        renderer.render_suppressed(suppressed, written);
        written = true;
    }
    if ordered.len() > len {
        renderer.render_bugs(ordered.as_slice(), written);
    }
    let mut text: Vec<char> = Vec::new();
    push_str(&mut text, out.as_str());
    let rendered_text_now = renderer.text();
    push_str(&mut text, rendered_text_now.as_str());
    *out = string_of(&text);
    assert(out@ =~= old(out)@ + rendered_text(*table, diags@, cap as nat));
}

} // verus!
