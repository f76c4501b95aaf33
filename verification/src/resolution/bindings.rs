//! Unique IDs for every binding.
use vstd::prelude::*;
use crate::resolution::LocalId;
use crate::source::SyntaxId;

verus! {

/// Fresh minted ID for a binding.
#[derive(Debug, PartialEq, Eq, Structural, Copy, Clone)]
pub struct BindingId(u32);

impl BindingId {
    /// Position of the binding in its table.
    pub closed spec fn spec_index(self) -> nat {
        self.0 as nat
    }

    /// The binding at position `n`.
    pub closed spec fn from_index(n: nat) -> Self {
        BindingId(n as u32)
    }

    /// Position of the binding in its table.
    pub fn index(&self) -> (r: u32)
        ensures
            r == self.spec_index(),
    {
        self.0
    }
}

/// An id made from a position that fits has that position.
pub broadcast proof fn lemma_binding_from_index(n: nat)
    requires
        n <= u32::MAX,
    ensures
        #[trigger] BindingId::from_index(n).spec_index() == n,
{
}

/// An id is the one made from its own position.
pub broadcast proof fn lemma_binding_index_round(x: BindingId)
    ensures
        #[trigger] BindingId::from_index(x.spec_index()) == x,
{
}

/// Whether the bindings `newer` hold every binding of `older` at the same
/// id: what any number of further additions leaves.
pub open spec fn bindings_extend(newer: Seq<BindingInfo>, older: Seq<BindingInfo>) -> bool {
    older.len() <= newer.len() && newer.take(older.len() as int) == older
}

/// Every table of bindings extends itself.
pub proof fn lemma_bindings_extend_refl(b: Seq<BindingInfo>)
    ensures
        bindings_extend(b, b),
{
    assert(b.take(b.len() as int) =~= b);
}

/// Extension of bindings is transitive, so it spans any chain of additions.
pub proof fn lemma_bindings_extend_trans(a: Seq<BindingInfo>, b: Seq<BindingInfo>, c: Seq<BindingInfo>)
    requires
        bindings_extend(b, a),
        bindings_extend(c, b),
    ensures
        bindings_extend(c, a),
{
    assert(c.take(a.len() as int) =~= a) by {
        assert forall|i: int| 0 <= i < a.len() implies c[i] == a[i] by {
            assert(c.take(b.len() as int)[i] == c[i]);
            assert(b.take(a.len() as int)[i] == b[i]);
        }
    }
}

/// A binding reads back as it was added, whatever bindings are added after.
pub proof fn lemma_binding_round_trip(older: Seq<BindingInfo>, newer: Seq<BindingInfo>, id: BindingId)
    requires
        bindings_extend(newer, older),
        id.spec_index() < older.len(),
    ensures
        id.spec_index() < newer.len(),
        newer[id.spec_index() as int] == older[id.spec_index() as int],
{
    assert(newer.take(older.len() as int)[id.spec_index() as int] == newer[id.spec_index() as int]);
}

/// Information attached to a binding.
#[derive(Debug, Copy, Clone)]
pub struct BindingInfo {
    /// Where did this originate from in the source code?
    pub origin: SyntaxId,
    /// Within the enclosing body, which local is it stored in?
    pub local: LocalId,
}

/// Table that mints new Bindings.
#[derive(Debug)]
pub struct BindingTable {
    /// Raw vector for minting purposes.
    table: Vec<BindingInfo>,
}

impl View for BindingTable {
    type V = Seq<BindingInfo>;

    /// The bindings minted so far, indexed by [`BindingId`].
    closed spec fn view(&self) -> Seq<BindingInfo> {
        self.table@
    }
}

impl BindingTable {
    /// Construct new binding table.
    pub fn new() -> (r: Self)
        ensures
            r@ == Seq::<BindingInfo>::empty(),
    {
        BindingTable { table: Vec::new() }
    }

    /// Mint new [`BindingId`]: the next position in the table.
    pub fn add(&mut self, origin: SyntaxId, local_id: LocalId) -> (r: BindingId)
        requires
            old(self)@.len() <= u32::MAX,
        ensures
            final(self)@ == old(self)@.push(BindingInfo { origin, local: local_id }),
            r.spec_index() == old(self)@.len(),
            bindings_extend(final(self)@, old(self)@),
    {
        let id = BindingId(crate::u32_index(self.table.len()));
        self.table.push(BindingInfo { origin, local: local_id });
        assert(self.table@.take(old(self)@.len() as int) =~= old(self)@);
        id
    }

    /// Get the [`BindingInfo`]s currently available.
    pub fn bindings(&self) -> (r: &[BindingInfo])
        ensures
            r@ == self@,
    {
        self.table.as_slice()
    }

    /// Get the [`BindingInfo`] for an ID, which must have been minted by this
    /// table.
    pub fn get(&self, id: BindingId) -> (r: BindingInfo)
        requires
            id.spec_index() < self@.len(),
        ensures
            r == self@[id.spec_index() as int],
    {
        self.table[id.0 as usize]
    }
}

impl Default for BindingTable {
    fn default() -> (r: Self)
        ensures
            r@ == Seq::<BindingInfo>::empty(),
    {
        BindingTable::new()
    }
}

} // verus!
