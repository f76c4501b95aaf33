//! A single thing to report to the user.
use vstd::prelude::*;
use crate::diagnostics::Class;
use crate::source::{SourceId, SourceTable, SyntaxId, SyntaxOrigin};

verus! {

/// Location of a diagnostic.
#[derive(Debug, PartialEq, Eq, Structural, Copy, Clone)]
pub enum Site {
    /// No location: a missing file, a bad argument, any failure that precedes
    /// a [`SourceId`].
    Nowhere,
    /// A whole source, with no meaningful position within it.
    Source(SourceId),
    /// A byte range in a source, for stages running before HIR exists.
    Raw(SyntaxOrigin),
    /// A form that already has an entry in the source table.
    Syntax(SyntaxId),
}

/// A single reported condition.
#[derive(Debug, Clone)]
pub struct Diagnostic {
    /// Classification.
    pub class: Class,
    /// Root message.
    pub message: String,
    /// Location.
    pub site: Site,
}

/// Whether `site` can be rendered against `table`: what it names is in the
/// table, and any text it covers can be cut out of its source.
pub open spec fn site_ok(table: SourceTable, site: Site) -> bool {
    match site {
        Site::Nowhere => true,
        Site::Source(id) => table.has_source(id),
        Site::Raw(origin) => table.resolvable(origin),
        Site::Syntax(id) => table.has_origin(id) && table.resolvable(table.origin(id)),
    }
}

/// Whether every diagnostic of `ds` can be rendered against `table`.
pub open spec fn sites_ok(table: SourceTable, ds: Seq<Diagnostic>) -> bool {
    forall|k: int| 0 <= k < ds.len() ==> site_ok(table, #[trigger] ds[k].site)
}

/// A site that renders against a table renders against any table grown out
/// of it.
pub proof fn lemma_sites_ok_extends(older: SourceTable, newer: SourceTable, ds: Seq<Diagnostic>)
    requires
        newer.extends(&older),
        sites_ok(older, ds),
    ensures
        sites_ok(newer, ds),
{
    newer.lemma_extends(&older);
    assert forall|k: int| 0 <= k < ds.len() implies site_ok(newer, #[trigger] ds[k].site) by {
        assert(site_ok(older, ds[k].site));
        match ds[k].site {
            Site::Syntax(id) => {
                assert(newer.origin(id) == older.origin(id));
            },
            _ => {},
        }
    }
}

impl Diagnostic {
    /// Construct a diagnostic of the given `class` at `site` with `message`.
    pub fn new(class: Class, site: Site, message: &str) -> (r: Self)
        ensures
            r.class == class,
            r.site == site,
            r.message@ == message@,
    {
        Diagnostic { class, message: message.to_owned(), site }
    }
}

} // verus!
