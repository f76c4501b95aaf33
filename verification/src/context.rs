//! Compilation context.
use vstd::prelude::*;
use crate::interner::{Interner, distinguished, interned_all};
use crate::runtime::{PrimitiveRegistry, primitive_names};
use crate::source::SourceTable;

verus! {

/// Compilation context.
///
/// Holds only state that must outlive a single phase.
/// [`Diagnostics`][crate::diagnostics::Diagnostics] are deliberately absent
/// since each phase accumulates its own and the driver gates on them.
pub struct Compilation {
    /// [`SourceTable`] for the current context.
    pub table: SourceTable,
    /// [`Interner`] for the current context.
    pub interner: Interner,
    /// [`PrimitiveRegistry`] for the current context.
    pub primitives: PrimitiveRegistry,
}

/// Whether `ctx` is a fresh context: an empty table, an interner holding the
/// distinguished symbols and then the built-in names, and a registry naming
/// each built-in in order.
pub open spec fn fresh(ctx: Compilation) -> bool {
    &&& ctx.table.wf()
    &&& ctx.table.sources().len() == 0
    &&& ctx.table.origins().len() == 0
    &&& ctx.interner@.len() <= distinguished().len() + primitive_names().len()
    &&& ctx.interner@.subrange(0, distinguished().len() as int) == distinguished()
    &&& ctx.interner@ == interned_all(distinguished(), primitive_names())
    &&& ctx.primitives@.len() == primitive_names().len()
    &&& forall|i: int|
        0 <= i < ctx.primitives@.len() ==> (#[trigger] ctx.primitives@[i]).spec_index()
            < ctx.interner@.len() && ctx.interner@[ctx.primitives@[i].spec_index() as int]
            == primitive_names()[i]
}

impl Compilation {
    /// Construct a new compilation context.
    pub fn new() -> (r: Self)
        ensures
            fresh(r),
    {
        let mut interner = Interner::new();
        let primitives = PrimitiveRegistry::with_builtins(&mut interner);
        Compilation { table: SourceTable::new(), interner, primitives }
    }
}

impl Default for Compilation {
    /// A fresh context.
    fn default() -> (r: Self)
        ensures
            fresh(r),
    {
        Self::new()
    }
}

} // verus!
