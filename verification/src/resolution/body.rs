//! Body analysis data.
use vstd::prelude::*;

verus! {

/// ID for a local within a body.
#[derive(Debug, PartialEq, Eq, Structural, Copy, Clone)]
pub struct LocalId(u32);

/// ID for a capture within a body.
#[derive(Debug, PartialEq, Eq, Structural, Copy, Clone)]
pub struct CaptureId(u32);

impl LocalId {
    /// Position of the local in its body's frame.
    pub closed spec fn spec_index(self) -> nat {
        self.0 as nat
    }

    /// The local at position `n`.
    pub closed spec fn from_index(n: nat) -> Self {
        LocalId(n as u32)
    }

    /// Position of the local in its body's frame.
    pub fn index(&self) -> (r: u32)
        ensures
            r == self.spec_index(),
    {
        self.0
    }
}

impl CaptureId {
    /// Position of the capture in its body's capture list.
    pub closed spec fn spec_index(self) -> nat {
        self.0 as nat
    }

    /// The capture at position `n`.
    pub closed spec fn from_index(n: nat) -> Self {
        CaptureId(n as u32)
    }

    /// Position of the capture in its body's capture list.
    pub fn index(&self) -> (r: u32)
        ensures
            r == self.spec_index(),
    {
        self.0
    }
}

/// An id made from a position that fits has that position.
pub broadcast proof fn lemma_local_from_index(n: nat)
    requires
        n <= u32::MAX,
    ensures
        #[trigger] LocalId::from_index(n).spec_index() == n,
{
}

/// An id is the one made from its own position.
pub broadcast proof fn lemma_local_index_round(x: LocalId)
    ensures
        #[trigger] LocalId::from_index(x.spec_index()) == x,
{
}

/// An id made from a position that fits has that position.
pub broadcast proof fn lemma_capture_from_index(n: nat)
    requires
        n <= u32::MAX,
    ensures
        #[trigger] CaptureId::from_index(n).spec_index() == n,
{
}

/// An id is the one made from its own position.
pub broadcast proof fn lemma_capture_index_round(x: CaptureId)
    ensures
        #[trigger] CaptureId::from_index(x.spec_index()) == x,
{
}

/// The facts relating body ids to their positions.
pub broadcast group group_body_ids {
    lemma_local_from_index,
    lemma_local_index_round,
    lemma_capture_from_index,
    lemma_capture_index_round,
}

/// Source for a value captured by a body.
#[derive(Debug, PartialEq, Eq, Structural, Copy, Clone)]
pub enum CaptureSource {
    /// Capture a local within the enclosing body.
    Local(LocalId),
    /// Capture another capture within the enclosing body.
    Captured(CaptureId),
}

/// Layout of a body after analysis.
#[derive(Debug)]
pub struct BodyLayout {
    /// Captures for this Body, indexed by [`CaptureId`].
    captures: Vec<CaptureSource>,
    /// Number of locals for this Body.
    local_count: usize,
}

/// No capture source occurs twice in `cs`.
pub open spec fn distinct_sources(cs: Seq<CaptureSource>) -> bool {
    forall|i: int, j: int| 0 <= i < j < cs.len() ==> cs[i] != cs[j]
}

/// The captures after adding `source`: unchanged if it is there already,
/// else with it appended.
pub open spec fn captures_with(cs: Seq<CaptureSource>, source: CaptureSource) -> Seq<CaptureSource> {
    if cs.contains(source) {
        cs
    } else {
        cs.push(source)
    }
}

impl BodyLayout {
    /// The capture sources, indexed by [`CaptureId`].
    pub closed spec fn capture_list(&self) -> Seq<CaptureSource> {
        self.captures@
    }

    /// The number of locals.
    pub closed spec fn locals(&self) -> nat {
        self.local_count as nat
    }

    /// Captures are listed once each, and every position fits an id.
    #[verifier::type_invariant]
    spec fn well_formed(self) -> bool {
        &&& distinct_sources(self.captures@)
        &&& self.captures@.len() <= u32::MAX + 1
        &&& self.local_count <= u32::MAX + 1
    }

    /// Construct new [`BodyLayout`].
    pub fn new() -> (r: Self)
        ensures
            r.capture_list() == Seq::<CaptureSource>::empty(),
            r.locals() == 0,
    {
        BodyLayout { captures: Vec::new(), local_count: 0 }
    }

    /// Add a new local to this body layout, returning its [`LocalId`]: the
    /// next position in the frame.
    pub fn add_local(&mut self) -> (r: LocalId)
        requires
            old(self).locals() <= u32::MAX,
            old(self).locals() < usize::MAX,
        ensures
            r.spec_index() == old(self).locals(),
            final(self).locals() == old(self).locals() + 1,
            final(self).capture_list() == old(self).capture_list(),
    {
        proof {
            use_type_invariant(&*self);
        }
        let id = LocalId(crate::u32_index(self.local_count));
        let mut taken = BodyLayout::new();
        std::mem::swap(&mut taken, self);
        let BodyLayout { captures, local_count } = taken;
        *self = BodyLayout { captures, local_count: local_count + 1 };
        id
    }

    /// Add a capture to this body layout, returning its [`CaptureId`].
    ///
    /// If the given `source` is already within the capture list then its
    /// [`CaptureId`] is returned, otherwise a new one is minted.
    pub fn add_capture(&mut self, source: CaptureSource) -> (r: CaptureId)
        requires
            old(self).capture_list().contains(source) || old(self).capture_list().len() <= u32::MAX,
        ensures
            final(self).capture_list() == captures_with(old(self).capture_list(), source),
            r.spec_index() < final(self).capture_list().len(),
            final(self).capture_list()[r.spec_index() as int] == source,
            !old(self).capture_list().contains(source) ==> r.spec_index() == old(
                self,
            ).capture_list().len(),
            final(self).locals() == old(self).locals(),
            distinct_sources(final(self).capture_list()),
    {
        proof {
            use_type_invariant(&*self);
        }
        let mut i: usize = 0;
        while i < self.captures.len()
            invariant
                i <= self.captures@.len(),
                forall|k: int| 0 <= k < i ==> self.captures@[k] != source,
                self.captures@ == old(self).captures@,
                self.local_count == old(self).local_count,
                distinct_sources(self.captures@),
                self.captures@.len() <= u32::MAX + 1,
                old(self).capture_list().contains(source) || old(self).capture_list().len()
                    <= u32::MAX,
            decreases self.captures@.len() - i,
        {
            if self.captures[i] == source {
                proof {
                    assert(self.captures@.contains(source));
                }
                return CaptureId(crate::u32_index(i));
            }
            i = i + 1;
        }
        assert(!self.captures@.contains(source));
        let id = CaptureId(crate::u32_index(self.captures.len()));
        let mut taken = BodyLayout::new();
        std::mem::swap(&mut taken, self);
        let BodyLayout { mut captures, local_count } = taken;
        let ghost before = captures@;
        captures.push(source);
        proof {
            assert forall|a: int, b: int| 0 <= a < b < captures@.len() implies captures@[a]
                != captures@[b] by {
                if b == before.len() {
                    assert(before[a] != source);
                }
            }
        }
        *self = BodyLayout { captures, local_count };
        id
    }

    /// Get a count of the number of locals in this Body.
    pub fn local_count(&self) -> (r: usize)
        ensures
            r == self.locals(),
    {
        self.local_count
    }

    /// Get the Captures within this Body.
    pub fn captures(&self) -> (r: &[CaptureSource])
        ensures
            r@ == self.capture_list(),
    {
        self.captures.as_slice()
    }
}

impl Default for BodyLayout {
    fn default() -> (r: Self)
        ensures
            r.capture_list() == Seq::<CaptureSource>::empty(),
            r.locals() == 0,
    {
        BodyLayout::new()
    }
}

} // verus!
