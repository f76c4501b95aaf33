//! The session source table.
//!
//! The append-only [`SourceTable`] holds every [`Source`] and assigns each a
//! unique [`SourceId`], registers [`SyntaxOrigin`]s as [`SyntaxId`]s, and
//! resolves them back to [`Location`]s and text for diagnostics.
use vstd::prelude::*;
use crate::source::{Position, Source, SourceError, Span};
use crate::source::text::{
    byte_len, char_index_of, col_of, count_newlines, is_boundary, last_line_of, line_of, line_start_before,
    line_starts_of, line_text_spec,
};

verus! {

/// ID for a [`Source`] in the [`SourceTable`].
#[derive(Debug, PartialEq, Eq, Structural, Copy, Clone, Hash, PartialOrd, Ord)]
pub struct SourceId(u32);

/// ID for a [`SyntaxOrigin`] in the [`SourceTable`].
#[derive(Debug, PartialEq, Eq, Structural, Copy, Clone, Hash, PartialOrd, Ord)]
pub struct SyntaxId(u32);

impl SourceId {
    /// Position of the source in its table.
    pub closed spec fn spec_index(self) -> nat {
        self.0 as nat
    }

    /// The id of the source at position `n` of its table.
    pub closed spec fn from_index(n: nat) -> Self {
        SourceId(n as u32)
    }

    /// Position of the source in its table.
    pub fn index(&self) -> (r: u32)
        ensures
            r == self.spec_index(),
    {
        self.0
    }
}

impl SyntaxId {
    /// Position of the origin in its table.
    pub closed spec fn spec_index(self) -> nat {
        self.0 as nat
    }

    /// A position fits a `u32`.
    pub proof fn lemma_index_bounded(self)
        ensures
            self.spec_index() <= u32::MAX,
    {
    }

    /// Position of the origin in its table.
    pub fn index(&self) -> (r: u32)
        ensures
            r == self.spec_index(),
    {
        self.0
    }
}

/// A source id built from a position names that position, where the position
/// fits an id.
pub broadcast proof fn lemma_source_from_index(n: nat)
    requires
        n <= u32::MAX,
    ensures
        #[trigger] SourceId::from_index(n).spec_index() == n,
{
}

/// A source id is the id built from its own position.
pub broadcast proof fn lemma_source_index_round(x: SourceId)
    ensures
        #[trigger] SourceId::from_index(x.spec_index()) == x,
{
}

/// Special syntactical structure within a [`Source`], specified by a [`Span`].
#[derive(Debug, Copy, Clone, PartialEq, Eq, Structural)]
pub struct SyntaxOrigin {
    /// The [`SourceId`] of the [`Source`] this origin is located in.
    pub source: SourceId,
    /// The [`Span`] within the [`Source`] that this origin relates to.
    pub span: Span,
}

/// Collated metadata for the location of code within the [`SourceTable`].
#[derive(Debug, Copy, Clone)]
pub struct Location<'a> {
    /// Name of the [`Source`] this location relates to.
    pub name: &'a str,
    /// Starting [`Position`] of this location.
    pub start: Position,
    /// End [`Position`] (one past the last character) of this location.
    pub end: Position,
}

/// Session-time table of [`Source`]s.
#[derive(Debug)]
pub struct SourceTable {
    /// Collection of [`Source`]s managed by this table.
    sources: Vec<Source>,
    /// Collection of [`SyntaxOrigin`]s pointing at sources within this table.
    origins: Vec<SyntaxOrigin>,
}

/// Possible errors that may arise during [`Source`] construction.
#[derive(Debug)]
pub enum SourceTableError {
    /// Error arose when creating the raw [`Source`].
    SourceCreate(SourceError),
    /// Error arose when reading the named file; `err` describes it.
    Io {
        /// Name of the file.
        name: String,
        /// Description of the failure.
        err: String,
    },
}

impl SourceTable {
    /// The sources in the table, indexed by [`SourceId`].
    pub closed spec fn sources(&self) -> Seq<Source> {
        self.sources@
    }

    /// The origins in the table, indexed by [`SyntaxId`].
    pub closed spec fn origins(&self) -> Seq<SyntaxOrigin> {
        self.origins@
    }

    /// Every source is well formed and every origin lies within its source.
    pub open spec fn wf(&self) -> bool {
        &&& self.sources().len() <= u32::MAX + 1
        &&& self.origins().len() <= u32::MAX + 1
        &&& forall|i: int| 0 <= i < self.sources().len() ==> (#[trigger] self.sources()[i]).wf()
        &&& forall|i: int|
            0 <= i < self.origins().len() ==> self.in_bounds(#[trigger] self.origins()[i])
    }

    /// Whether `id` names a source of this table.
    pub open spec fn has_source(&self, id: SourceId) -> bool {
        id.spec_index() < self.sources().len()
    }

    /// Whether `id` names an origin of this table.
    pub open spec fn has_origin(&self, id: SyntaxId) -> bool {
        id.spec_index() < self.origins().len()
    }

    /// The text of source `id`.
    pub open spec fn text(&self, id: SourceId) -> Seq<char> {
        self.sources()[id.spec_index() as int]@
    }

    /// The origin named by `id`.
    pub open spec fn origin(&self, id: SyntaxId) -> SyntaxOrigin {
        self.origins()[id.spec_index() as int]
    }

    /// Whether `origin` names a source of this table and lies within it.
    pub open spec fn in_bounds(&self, origin: SyntaxOrigin) -> bool {
        &&& self.has_source(origin.source)
        &&& origin.span.start <= byte_len(self.text(origin.source))
        &&& origin.span.end <= byte_len(self.text(origin.source))
    }

    /// Whether the text of `origin` can be cut out of its source: it lies
    /// within the source, is ordered, and both ends fall between characters.
    pub open spec fn resolvable(&self, origin: SyntaxOrigin) -> bool {
        &&& self.in_bounds(origin)
        &&& origin.span.start <= origin.span.end
        &&& is_boundary(self.text(origin.source), origin.span.start as int)
        &&& is_boundary(self.text(origin.source), origin.span.end as int)
    }

    /// The characters `origin` covers.
    pub open spec fn origin_text(&self, origin: SyntaxOrigin) -> Seq<char> {
        let text = self.text(origin.source);
        text.subrange(
            char_index_of(text, origin.span.start as int),
            char_index_of(text, origin.span.end as int),
        )
    }

    /// Whether this table grew out of `older`: every source and origin of
    /// `older` is still here, under the same id.
    pub open spec fn extends(&self, older: &SourceTable) -> bool {
        &&& older.sources().len() <= self.sources().len()
        &&& older.origins().len() <= self.origins().len()
        &&& self.sources().take(older.sources().len() as int) == older.sources()
        &&& self.origins().take(older.origins().len() as int) == older.origins()
    }

    /// Growth keeps what the older table said of its sources and origins.
    pub proof fn lemma_extends(&self, older: &SourceTable)
        requires
            self.extends(older),
        ensures
            forall|id: SourceId|
                older.has_source(id) ==> self.has_source(id) && #[trigger] self.text(id)
                    == older.text(id) && self.sources()[id.spec_index() as int]
                    == older.sources()[id.spec_index() as int],
            forall|id: SyntaxId|
                older.has_origin(id) ==> self.has_origin(id) && #[trigger] self.origin(id)
                    == older.origin(id),
            forall|o: SyntaxOrigin| older.resolvable(o) ==> #[trigger] self.resolvable(o),
            forall|o: SyntaxOrigin| older.in_bounds(o) ==> #[trigger] self.in_bounds(o),
            forall|o: SyntaxOrigin|
                older.resolvable(o) ==> #[trigger] self.origin_text(o) == older.origin_text(o),
    {
        assert forall|id: SourceId| older.has_source(id) implies self.has_source(id)
            && #[trigger] self.text(id) == older.text(id) && self.sources()[id.spec_index() as int]
            == older.sources()[id.spec_index() as int] by {
            assert(self.sources().take(older.sources().len() as int)[id.spec_index() as int]
                == self.sources()[id.spec_index() as int]);
        }
        assert forall|id: SyntaxId| older.has_origin(id) implies self.has_origin(id)
            && #[trigger] self.origin(id) == older.origin(id) by {
            assert(self.origins().take(older.origins().len() as int)[id.spec_index() as int]
                == self.origins()[id.spec_index() as int]);
        }
        assert forall|o: SyntaxOrigin| older.in_bounds(o) implies #[trigger] self.in_bounds(o) by {
            assert(self.sources().take(older.sources().len() as int)[o.source.spec_index() as int]
                == self.sources()[o.source.spec_index() as int]);
        }
        assert forall|o: SyntaxOrigin| older.resolvable(o) implies #[trigger] self.resolvable(o) by {
            assert(self.sources().take(older.sources().len() as int)[o.source.spec_index() as int]
                == self.sources()[o.source.spec_index() as int]);
        }
        assert forall|o: SyntaxOrigin| older.resolvable(o) implies #[trigger] self.origin_text(o)
            == older.origin_text(o) by {
            assert(self.sources().take(older.sources().len() as int)[o.source.spec_index() as int]
                == self.sources()[o.source.spec_index() as int]);
        }
    }

    /// A source reads back as it was added, whatever else the table gains
    /// after: growth by any number of additions is an extension, so the
    /// same id names the same source, with the same name and text.
    pub proof fn lemma_source_round_trip(older: &SourceTable, newer: &SourceTable, id: SourceId)
        requires
            newer.extends(older),
            older.has_source(id),
        ensures
            newer.has_source(id),
            newer.sources()[id.spec_index() as int] == older.sources()[id.spec_index() as int],
            newer.text(id) == older.text(id),
            newer.sources()[id.spec_index() as int].name_view() == older.sources()[
                id.spec_index() as int
            ].name_view(),
    {
        newer.lemma_extends(older);
    }

    /// An origin reads back as it was added, whatever else the table gains
    /// after.
    pub proof fn lemma_origin_round_trip(older: &SourceTable, newer: &SourceTable, id: SyntaxId)
        requires
            newer.extends(older),
            older.has_origin(id),
        ensures
            newer.has_origin(id),
            newer.origin(id) == older.origin(id),
    {
        newer.lemma_extends(older);
    }

    /// Ids handed out later are larger: an id already in a table is below
    /// every id an addition to any extension of it returns, since additions
    /// return the next position.
    pub proof fn lemma_later_ids_larger(
        older: &SourceTable,
        newer: &SourceTable,
        early: SyntaxId,
        late: SyntaxId,
    )
        requires
            newer.extends(older),
            older.has_origin(early),
            late.spec_index() >= newer.origins().len(),
        ensures
            early.spec_index() < late.spec_index(),
    {
    }

    /// Every table extends itself.
    pub proof fn lemma_extends_refl(&self)
        ensures
            self.extends(self),
    {
        assert(self.sources().take(self.sources().len() as int) =~= self.sources());
        assert(self.origins().take(self.origins().len() as int) =~= self.origins());
    }

    /// Growth is transitive.
    pub proof fn lemma_extends_trans(a: &SourceTable, b: &SourceTable, c: &SourceTable)
        requires
            b.extends(a),
            c.extends(b),
        ensures
            c.extends(a),
    {
        assert(c.sources().take(a.sources().len() as int) =~= a.sources()) by {
            assert forall|i: int| 0 <= i < a.sources().len() implies c.sources()[i] == a.sources()[i] by {
                assert(c.sources().take(b.sources().len() as int)[i] == c.sources()[i]);
                assert(b.sources().take(a.sources().len() as int)[i] == b.sources()[i]);
            }
        }
        assert(c.origins().take(a.origins().len() as int) =~= a.origins()) by {
            assert forall|i: int| 0 <= i < a.origins().len() implies c.origins()[i] == a.origins()[i] by {
                assert(c.origins().take(b.origins().len() as int)[i] == c.origins()[i]);
                assert(b.origins().take(a.origins().len() as int)[i] == b.origins()[i]);
            }
        }
    }

    /// Construct a new, empty source table.
    pub fn new() -> (r: Self)
        ensures
            r.wf(),
            r.sources().len() == 0,
            r.origins().len() == 0,
    {
        SourceTable { sources: Vec::new(), origins: Vec::new() }
    }

    /// Add a new source named `file_name` from the outcome of reading that
    /// file: its contents, or a description of why it could not be read.
    ///
    /// Fails when the file could not be read, or when its contents are longer
    /// than [`MAX_SOURCE_LEN`][crate::source::MAX_SOURCE_LEN] bytes.
    pub fn add_source_file(&mut self, file_name: &str, read: Result<String, String>) -> (r: Result<
        SourceId,
        SourceTableError,
    >)
        requires
            old(self).wf(),
            old(self).sources().len() <= u32::MAX,
        ensures
            final(self).wf(),
            final(self).extends(old(self)),
            final(self).origins() == old(self).origins(),
            r is Ok <==> (read matches Ok(c) && byte_len(c@) <= crate::source::MAX_SOURCE_LEN),
            r is Err ==> final(self).sources() == old(self).sources(),
            read matches Err(e) ==> (r matches Err(SourceTableError::Io { name, err }) && name@
                == file_name@ && err@ == e@),
            read matches Ok(c) ==> (r matches Err(e) ==> e matches SourceTableError::SourceCreate(
                SourceError::TooLarge { name, len, limit },
            ) && name@ == file_name@ && len == byte_len(c@) && limit
                == crate::source::MAX_SOURCE_LEN),
            read matches Ok(c) ==> (r matches Ok(id) ==> {
                &&& id.spec_index() == old(self).sources().len()
                &&& final(self).sources().len() == old(self).sources().len() + 1
                &&& final(self).text(id) == c@
                &&& final(self).sources()[id.spec_index() as int].name_view() == file_name@
            }),
    {
        match read {
            Ok(contents) => self.add_source_raw(file_name, contents),
            Err(err) => {
                proof {
                    self.lemma_extends_refl();
                }
                Err(SourceTableError::Io { name: file_name.to_owned(), err })
            },
        }
    }

    /// Add a new source given `source_name` and `contents`.
    ///
    /// Fails when the contents are longer than
    /// [`MAX_SOURCE_LEN`][crate::source::MAX_SOURCE_LEN] bytes.
    pub fn add_source_raw(&mut self, source_name: &str, contents: String) -> (r: Result<
        SourceId,
        SourceTableError,
    >)
        requires
            old(self).wf(),
            old(self).sources().len() <= u32::MAX,
        ensures
            final(self).wf(),
            final(self).extends(old(self)),
            final(self).origins() == old(self).origins(),
            byte_len(contents@) <= crate::source::MAX_SOURCE_LEN <==> r is Ok,
            r is Err ==> final(self).sources() == old(self).sources(),
            r matches Err(SourceTableError::SourceCreate(SourceError::TooLarge { name, len, limit }))
                ==> name@ == source_name@ && len == byte_len(contents@) && limit
                == crate::source::MAX_SOURCE_LEN,
            r matches Err(e) ==> e is SourceCreate,
            r matches Ok(id) ==> {
                &&& id.spec_index() == old(self).sources().len()
                &&& final(self).sources().len() == old(self).sources().len() + 1
                &&& final(self).sources().take(old(self).sources().len() as int) == old(
                    self,
                ).sources()
                &&& final(self).text(id) == contents@
                &&& final(self).sources()[id.spec_index() as int].name_view() == source_name@
            },
    {
        match Source::from_contents(source_name, contents) {
            Ok(source) => {
                let id = SourceId(self.sources.len() as u32);
                self.sources.push(source);
                proof {
                    assert(self.sources@.take(old(self).sources@.len() as int) =~= old(
                        self,
                    ).sources@);
                    assert(self.origins@.take(old(self).origins@.len() as int) =~= old(
                        self,
                    ).origins@);
                    assert forall|i: int| 0 <= i < self.origins@.len() implies self.in_bounds(
                        #[trigger] self.origins@[i],
                    ) by {
                        assert(old(self).in_bounds(old(self).origins@[i]));
                        assert(self.sources@[self.origins@[i].source.spec_index() as int]
                            == old(self).sources@[self.origins@[i].source.spec_index() as int]);
                    }
                }
                Ok(id)
            },
            Err(e) => {
                proof {
                    assert(self.sources@.take(old(self).sources@.len() as int) =~= old(
                        self,
                    ).sources@);
                    assert(self.origins@.take(old(self).origins@.len() as int) =~= old(
                        self,
                    ).origins@);
                }
                Err(SourceTableError::SourceCreate(e))
            },
        }
    }

    /// Get the source related to the given `id`, which must be in the table.
    pub fn get_source(&self, id: SourceId) -> (r: &Source)
        requires
            self.wf(),
            self.has_source(id),
        ensures
            r == self.sources()[id.spec_index() as int],
            r.wf(),
    {
        &self.sources[id.0 as usize]
    }

    /// Add a new [`SyntaxOrigin`] given the `id` and `span`.
    ///
    /// The span must lie within the source named by `id`.
    pub fn add_origin(&mut self, id: SourceId, span: Span) -> (r: SyntaxId)
        requires
            old(self).wf(),
            old(self).has_source(id),
            span.start <= byte_len(old(self).text(id)),
            span.end <= byte_len(old(self).text(id)),
            old(self).origins().len() <= u32::MAX,
        ensures
            final(self).wf(),
            final(self).extends(old(self)),
            final(self).sources() == old(self).sources(),
            final(self).origins() == old(self).origins().push(SyntaxOrigin { source: id, span }),
            r.spec_index() == old(self).origins().len(),
            final(self).has_origin(r),
            final(self).origin(r) == (SyntaxOrigin { source: id, span }),
    {
        let syn_id = SyntaxId(self.origins.len() as u32);
        self.origins.push(SyntaxOrigin { source: id, span });
        proof {
            assert(self.sources@.take(old(self).sources@.len() as int) =~= old(self).sources@);
            assert(self.origins@.take(old(self).origins@.len() as int) =~= old(self).origins@);
            assert forall|i: int| 0 <= i < self.origins@.len() implies self.in_bounds(
                #[trigger] self.origins@[i],
            ) by {
                if i < old(self).origins@.len() {
                    assert(old(self).in_bounds(old(self).origins@[i]));
                }
            }
        }
        syn_id
    }

    /// Get the [`SyntaxOrigin`] associated to the given `id`, which must be in
    /// the table.
    pub fn get_origin(&self, id: SyntaxId) -> (r: &SyntaxOrigin)
        requires
            self.has_origin(id),
        ensures
            *r == self.origin(id),
    {
        &self.origins[id.0 as usize]
    }

    /// Get the [`Location`] within its source of a given origin.
    pub fn location_at(&self, origin: &SyntaxOrigin) -> (r: Location<'_>)
        requires
            self.wf(),
            self.resolvable(*origin),
        ensures
            r.name@ == self.sources()[origin.source.spec_index() as int].name_view(),
            r.start.line == line_of(
                self.text(origin.source),
                char_index_of(self.text(origin.source), origin.span.start as int),
            ),
            r.start.col == col_of(
                self.text(origin.source),
                char_index_of(self.text(origin.source), origin.span.start as int),
            ),
            r.end.line == line_of(
                self.text(origin.source),
                char_index_of(self.text(origin.source), origin.span.end as int),
            ),
            r.end.col == col_of(
                self.text(origin.source),
                char_index_of(self.text(origin.source), origin.span.end as int),
            ),
    {
        let source = self.get_source(origin.source);
        let (start, end) = source.span_positions(origin.span);
        Location { name: source.source_name(), start, end }
    }

    /// Get the [`Location`] within the source of a given `id`.
    pub fn location_of(&self, id: SyntaxId) -> (r: Location<'_>)
        requires
            self.wf(),
            self.has_origin(id),
            self.resolvable(self.origin(id)),
        ensures
            r.name@ == self.sources()[self.origin(id).source.spec_index() as int].name_view(),
            r.start.line == line_of(
                self.text(self.origin(id).source),
                char_index_of(self.text(self.origin(id).source), self.origin(id).span.start as int),
            ),
            r.start.col == col_of(
                self.text(self.origin(id).source),
                char_index_of(self.text(self.origin(id).source), self.origin(id).span.start as int),
            ),
            r.end.line == line_of(
                self.text(self.origin(id).source),
                char_index_of(self.text(self.origin(id).source), self.origin(id).span.end as int),
            ),
            r.end.col == col_of(
                self.text(self.origin(id).source),
                char_index_of(self.text(self.origin(id).source), self.origin(id).span.end as int),
            ),
    {
        let origin = self.get_origin(id);
        self.location_at(origin)
    }

    /// Get the text an origin covers.
    pub fn text_at(&self, origin: &SyntaxOrigin) -> (r: &str)
        requires
            self.wf(),
            self.resolvable(*origin),
        ensures
            r@ == self.origin_text(*origin),
    {
        let source = self.get_source(origin.source);
        source.span_text(origin.span)
    }

    /// Get the text within the source of a given `id`.
    pub fn text_of(&self, id: SyntaxId) -> (r: &str)
        requires
            self.wf(),
            self.has_origin(id),
            self.resolvable(self.origin(id)),
        ensures
            r@ == self.origin_text(self.origin(id)),
    {
        let origin = self.get_origin(id);
        self.text_at(origin)
    }

    /// Get the 1-indexed lines on which `origin` starts and on which its last
    /// character lies; an empty origin lies on the line it starts on.
    pub fn lines_of(&self, origin: &SyntaxOrigin) -> (r: (usize, usize))
        requires
            self.wf(),
            self.resolvable(*origin),
        ensures
            r.0 == line_of(
                self.text(origin.source),
                char_index_of(self.text(origin.source), origin.span.start as int),
            ),
            r.1 == last_line_of(self.text(origin.source), origin.span),
    {
        let location = self.location_at(origin);
        let ghost text = self.text(origin.source);
        let ghost e = char_index_of(text, origin.span.end as int);
        proof {
            let s = char_index_of(text, origin.span.start as int);
            if origin.span.start < origin.span.end {
                if e <= s {
                    crate::source::text::lemma_byte_at_mono(text, e, s);
                }
                assert(text[e - 1] == '\n' ==> line_start_before(text, e) == e);
                assert(text[e - 1] != '\n' ==> line_start_before(text, e) == line_start_before(text, e - 1));
                crate::source::text::lemma_line_floor(text, e - 1);
                assert(count_newlines(text, e) == count_newlines(text, e - 1) + if text[e - 1] == '\n' {
                    1nat
                } else {
                    0nat
                });
            }
        }
        let last = if origin.span.start < origin.span.end && location.end.col == 1 {
            location.end.line - 1
        } else {
            location.end.line
        };
        (location.start.line, last)
    }

    /// Get the text of a 1-indexed `line` of source `id`, without its line
    /// feed.
    pub fn line_text(&self, id: SourceId, line: usize) -> (r: &str)
        requires
            self.wf(),
            self.has_source(id),
            1 <= line <= line_starts_of(self.text(id)).len(),
        ensures
            r@ == line_text_spec(self.text(id), line as int),
    {
        self.get_source(id).line_text(line)
    }
}

impl Default for SourceTable {
    /// An empty table.
    fn default() -> (r: Self)
        ensures
            r.wf(),
            r.sources().len() == 0,
            r.origins().len() == 0,
    {
        Self::new()
    }
}

} // verus!
