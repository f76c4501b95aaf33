//! Types for the resolution pass.
use vstd::prelude::*;
use std::collections::BTreeMap;
use crate::resolution::{BindingId, BindingTable, BodyLayout, CaptureId, CaptureSource};
use crate::runtime::PrimitiveId;
use crate::source::SyntaxId;

verus! {

broadcast use vstd::laws_cmp::group_laws_cmp, vstd::std_specs::btree::group_btree_axioms;

/// Target for a reference (call or load).
#[derive(Debug, PartialEq, Eq, Structural, Copy, Clone)]
pub enum Target {
    /// Local binding.
    Local(BindingId),
    /// Captured binding.
    Captured(CaptureId),
    /// Primitive binding.
    Primitive(PrimitiveId),
}

/// Role of an arm in a recognised conditional.
#[derive(Debug, PartialEq, Eq, Structural, Copy, Clone)]
pub enum ArmRole {
    /// True branch.
    Then,
    /// False branch.
    Else,
}

/// Resolution recorded for a HIR form.
#[derive(Debug)]
pub enum Resolution {
    /// Form is a binding.
    Bound(BindingId),
    /// Form is a reference to some target.
    Ref(Target),
    /// Form makes a closure with the given [`BodyLayout`].
    MakesClosure(BodyLayout),
    /// Form makes a recursive closure with the given [`BodyLayout`].
    MakesRecursiveClosure(BodyLayout),
    /// Form is a branch in a conditional.
    BranchArm(ArmRole),
    /// Form is recognised as the conditional primitive `if`.
    Conditional,
    /// Form is recognised as the primitive `rec`.
    Recursive,
    /// Resolution failed for this form, but the walk continued.
    Poison,
}

/// A resolution as the specification sees it: a layout by its captures and
/// number of locals.
pub enum ResModel {
    /// See [`Resolution::Bound`].
    Bound(BindingId),
    /// See [`Resolution::Ref`].
    Ref(Target),
    /// See [`Resolution::MakesClosure`].
    MakesClosure(Seq<CaptureSource>, nat),
    /// See [`Resolution::MakesRecursiveClosure`].
    MakesRecursiveClosure(Seq<CaptureSource>, nat),
    /// See [`Resolution::BranchArm`].
    BranchArm(ArmRole),
    /// See [`Resolution::Conditional`].
    Conditional,
    /// See [`Resolution::Recursive`].
    Recursive,
    /// See [`Resolution::Poison`].
    Poison,
}

/// The model of a resolution.
pub open spec fn res_model(r: Resolution) -> ResModel {
    match r {
        Resolution::Bound(b) => ResModel::Bound(b),
        Resolution::Ref(t) => ResModel::Ref(t),
        Resolution::MakesClosure(l) => ResModel::MakesClosure(l.capture_list(), l.locals()),
        Resolution::MakesRecursiveClosure(l) => ResModel::MakesRecursiveClosure(
            l.capture_list(),
            l.locals(),
        ),
        Resolution::BranchArm(a) => ResModel::BranchArm(a),
        Resolution::Conditional => ResModel::Conditional,
        Resolution::Recursive => ResModel::Recursive,
        Resolution::Poison => ResModel::Poison,
    }
}

/// Side table of [`Resolution`]s indexed by [`SyntaxId`]s.
#[derive(Debug)]
pub struct ResolutionMap {
    /// Map from a [`SyntaxId`]'s index to its resultant [`Resolution`].
    mapping: BTreeMap<u32, Resolution>,
}

/// Complete output of binding resolution.
#[derive(Debug)]
pub struct ResolutionResult {
    /// Resolutions for forms within the entry body.
    pub map: ResolutionMap,
    /// Metadata for every binding minted during resolution.
    pub bindings: BindingTable,
    /// Frame layout for the entry body.
    pub entry: BodyLayout,
}

impl ResolutionMap {
    /// The resolutions recorded, by the index of the form's [`SyntaxId`].
    pub closed spec fn entries(&self) -> Map<u32, Resolution> {
        self.mapping@
    }

    /// The resolutions recorded, as models.
    pub open spec fn model(&self) -> Map<u32, ResModel> {
        self.entries().map_values(|r: Resolution| res_model(r))
    }

    /// An empty map.
    pub fn new() -> (r: Self)
        ensures
            r.entries() == Map::<u32, Resolution>::empty(),
    {
        ResolutionMap { mapping: BTreeMap::new() }
    }

    /// Get the resolution recorded for a form.
    pub fn get(&self, id: SyntaxId) -> (r: Option<&Resolution>)
        ensures
            match r {
                Some(res) => self.entries().contains_key(id.spec_index() as u32) && *res
                    == self.entries()[id.spec_index() as u32],
                None => !self.entries().contains_key(id.spec_index() as u32),
            },
    {
        let key = id.index();
        self.mapping.get(&key)
    }

    /// Get the number of forms with a resolution entry.
    pub fn len(&self) -> (r: usize)
        ensures
            r == self.entries().len(),
    {
        self.mapping.len()
    }

    /// Whether the map contains no resolution entries.
    pub fn is_empty(&self) -> (r: bool)
        ensures
            r == (self.entries().len() == 0),
    {
        proof {
            assert(self.entries().dom().finite());
            if self.entries().len() == 0 {
                assert(self.entries() =~= Map::<u32, Resolution>::empty()) by {
                    if exists|k: u32| self.entries().contains_key(k) {
                        let k = choose|k: u32| self.entries().contains_key(k);
                        vstd::set_lib::lemma_set_empty_equivalency_len(self.entries().dom());
                        assert(self.entries().dom().contains(k));
                    }
                }
            }
        }
        self.mapping.is_empty()
    }

    /// Record a form's resolution.  A form has at most one resolution.
    pub(crate) fn insert(&mut self, id: SyntaxId, resolution: Resolution)
        requires
            !old(self).entries().contains_key(id.spec_index() as u32),
        ensures
            final(self).entries() == old(self).entries().insert(id.spec_index() as u32, resolution),
    {
        let key = id.index();
        let _ = self.mapping.insert(key, resolution);
    }
}

impl Default for ResolutionMap {
    fn default() -> (r: Self)
        ensures
            r.entries() == Map::<u32, Resolution>::empty(),
    {
        ResolutionMap::new()
    }
}

} // verus!
