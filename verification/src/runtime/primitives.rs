//! Primitive type and registry.
use vstd::prelude::*;
use crate::interner::{Interner, SymId, interned_all};

verus! {

/// ID for an entry in the primitive registry.
#[derive(Debug, PartialEq, Eq, Structural, Copy, Clone)]
pub struct PrimitiveId(usize);

impl PrimitiveId {
    /// Position of the primitive in its registry.
    pub closed spec fn spec_index(self) -> nat {
        self.0 as nat
    }

    /// The primitive at position `n`.
    pub closed spec fn from_index(n: nat) -> Self {
        PrimitiveId(n as usize)
    }

    /// Position of the primitive in its registry.
    pub fn index(&self) -> (r: usize)
        ensures
            r == self.spec_index(),
    {
        self.0
    }
}

/// An id made from a position that fits has that position.
pub broadcast proof fn lemma_primitive_from_index(n: nat)
    requires
        n <= usize::MAX,
    ensures
        #[trigger] PrimitiveId::from_index(n).spec_index() == n,
{
}

/// An id is the one made from its own position.
pub broadcast proof fn lemma_primitive_index_round(x: PrimitiveId)
    ensures
        #[trigger] PrimitiveId::from_index(x.spec_index()) == x,
{
}

/// Type for primitive.
pub struct Primitive {
    /// Symbol attached to this primitive.
    sym: SymId,
}

/// Registry of primitives, filled in during session initialisation.
pub struct PrimitiveRegistry {
    /// Raw vector of primitives from which [`PrimitiveId`] is derived.
    primitives: Vec<Primitive>,
}

/// Names of the default primitives within the rForsp language, in
/// registration order.
pub open spec fn primitive_names() -> Seq<Seq<char>> {
    seq![
        "cons"@, "car"@, "cdr"@, "eq"@, "cswap"@, "tag"@, "read"@, "write"@, "+"@, "-"@, "*"@,
        "/"@, "&"@, "|"@, "~&"@, "<<"@, ">>"@, "rec"@, "if"@, "copy"@, "length"@, "vmake"@,
        "vpush"@, "vpop"@, "vget"@, "vset"@,
    ]
}

impl View for PrimitiveRegistry {
    type V = Seq<SymId>;

    /// The symbol of each primitive, indexed by [`PrimitiveId`].
    closed spec fn view(&self) -> Seq<SymId> {
        self.primitives@.map_values(|p: Primitive| p.sym)
    }
}

/// The built-in names, as string literals.
fn primitive_name_strs() -> (r: Vec<&'static str>)
    ensures
        r@.len() == primitive_names().len(),
        forall|i: int| 0 <= i < r@.len() ==> (#[trigger] r@[i])@ == primitive_names()[i],
{
    let r = vec![
        "cons", "car", "cdr", "eq", "cswap", "tag", "read", "write", "+", "-", "*", "/", "&", "|",
        "~&", "<<", ">>", "rec", "if", "copy", "length", "vmake", "vpush", "vpop", "vget", "vset",
    ];
    proof {
        reveal_strlit("cons");
        reveal_strlit("car");
        reveal_strlit("cdr");
        reveal_strlit("eq");
        reveal_strlit("cswap");
        reveal_strlit("tag");
        reveal_strlit("read");
        reveal_strlit("write");
        reveal_strlit("+");
        reveal_strlit("-");
        reveal_strlit("*");
        reveal_strlit("/");
        reveal_strlit("&");
        reveal_strlit("|");
        reveal_strlit("~&");
        reveal_strlit("<<");
        reveal_strlit(">>");
        reveal_strlit("rec");
        reveal_strlit("if");
        reveal_strlit("copy");
        reveal_strlit("length");
        reveal_strlit("vmake");
        reveal_strlit("vpush");
        reveal_strlit("vpop");
        reveal_strlit("vget");
        reveal_strlit("vset");
    }
    r
}

impl PrimitiveRegistry {
    /// Construct a new, empty [`PrimitiveRegistry`].
    pub fn new() -> (r: Self)
        ensures
            r@ == Seq::<SymId>::empty(),
    {
        PrimitiveRegistry { primitives: Vec::new() }
    }

    /// Construct a new [`PrimitiveRegistry`] holding the built-in primitives,
    /// in order, each under its name interned in `interner`.
    pub fn with_builtins(interner: &mut Interner) -> (r: Self)
        requires
            old(interner)@.len() + primitive_names().len() < u32::MAX,
        ensures
            r@.len() == primitive_names().len(),
            forall|i: int|
                0 <= i < r@.len() ==> (#[trigger] r@[i]).spec_index() < final(interner)@.len()
                    && final(interner)@[r@[i].spec_index() as int] == primitive_names()[i],
            final(interner)@.len() <= old(interner)@.len() + primitive_names().len(),
            final(interner)@.len() >= old(interner)@.len(),
            final(interner)@.subrange(0, old(interner)@.len() as int) == old(interner)@,
            final(interner)@ == interned_all(old(interner)@, primitive_names()),
    {
        let names = primitive_name_strs();
        let mut registry = PrimitiveRegistry::new();
        let mut i: usize = 0;
        assert(primitive_names().take(0) =~= Seq::<Seq<char>>::empty());
        while i < names.len()
            invariant
                i <= names@.len(),
                names@.len() == primitive_names().len(),
                forall|j: int| 0 <= j < names@.len() ==> (#[trigger] names@[j])@ == primitive_names()[j],
                registry@.len() == i,
                forall|j: int|
                    0 <= j < i ==> (#[trigger] registry@[j]).spec_index() < interner@.len()
                        && interner@[registry@[j].spec_index() as int] == primitive_names()[j],
                interner@.len() <= old(interner)@.len() + i,
                interner@.len() >= old(interner)@.len(),
                interner@.subrange(0, old(interner)@.len() as int) == old(interner)@,
                interner@ == interned_all(old(interner)@, primitive_names().take(i as int)),
                old(interner)@.len() + primitive_names().len() < u32::MAX,
            decreases names@.len() - i,
        {
            let ghost before = interner@;
            let ghost reg_before = registry@;
            proof {
                assert(primitive_names().take(i + 1).drop_last() =~= primitive_names().take(i as int));
                assert(primitive_names().take(i + 1).last() == names@[i as int]@);
            }
            let sym = interner.intern(names[i]);
            let _ = registry.add(sym);
            proof {
                assert(interner@.subrange(0, before.len() as int) =~= before);
                assert forall|j: int| 0 <= j < i + 1 implies (#[trigger] registry@[j]).spec_index()
                    < interner@.len() && interner@[registry@[j].spec_index() as int]
                    == primitive_names()[j] by {
                    if j < i {
                        assert(registry@[j] == reg_before[j]);
                        assert(interner@[registry@[j].spec_index() as int] == before[registry@[j].spec_index() as int]);
                    }
                }
                assert(interner@.subrange(0, old(interner)@.len() as int) =~= before.subrange(
                    0,
                    old(interner)@.len() as int,
                ));
            }
            i = i + 1;
        }
        assert(primitive_names().take(i as int) =~= primitive_names());
        registry
    }

    /// Add a primitive to the registry, returning a [`PrimitiveId`] for the
    /// new addition: the next position.
    pub fn add(&mut self, sym: SymId) -> (r: PrimitiveId)
        ensures
            final(self)@ == old(self)@.push(sym),
            r.spec_index() == old(self)@.len(),
    {
        let id = PrimitiveId(self.primitives.len());
        self.primitives.push(Primitive { sym });
        proof {
            assert(self@ =~= old(self)@.push(sym));
        }
        id
    }

    /// The id and symbol of every primitive within the registry, in order.
    pub fn iter_syms(&self) -> (r: Vec<(PrimitiveId, SymId)>)
        ensures
            r@.len() == self@.len(),
            forall|i: int|
                0 <= i < r@.len() ==> (#[trigger] r@[i]).0.spec_index() == i && r@[i].1 == self@[i],
    {
        let mut out: Vec<(PrimitiveId, SymId)> = Vec::new();
        let mut i: usize = 0;
        while i < self.primitives.len()
            invariant
                i <= self.primitives@.len(),
                out@.len() == i,
                forall|j: int|
                    0 <= j < i ==> (#[trigger] out@[j]).0.spec_index() == j && out@[j].1 == self@[j],
            decreases self.primitives@.len() - i,
        {
            out.push((PrimitiveId(i), self.primitives[i].sym));
            i = i + 1;
        }
        out
    }
}

/// The registry that [`PrimitiveRegistry::with_builtins`] builds names exactly
/// the builtins of the language, in this order: the primitive at position
/// `i` is named by the `i`-th of these words, in the interner it was built
/// with.
pub proof fn lemma_builtins_are_the_language_primitives(registry: Seq<SymId>, names: Seq<Seq<char>>)
    requires
        registry.len() == primitive_names().len(),
        forall|i: int|
            0 <= i < registry.len() ==> (#[trigger] registry[i]).spec_index() < names.len()
                && names[registry[i].spec_index() as int] == primitive_names()[i],
    ensures
        registry.len() == 26,
        forall|i: int|
            0 <= i < 26 ==> names[(#[trigger] registry[i]).spec_index() as int] == seq![
                "cons"@, "car"@, "cdr"@, "eq"@, "cswap"@, "tag"@, "read"@, "write"@, "+"@, "-"@,
                "*"@, "/"@, "&"@, "|"@, "~&"@, "<<"@, ">>"@, "rec"@, "if"@, "copy"@, "length"@,
                "vmake"@, "vpush"@, "vpop"@, "vget"@, "vset"@,
            ][i],
{
}

impl Default for PrimitiveRegistry {
    fn default() -> (r: Self)
        ensures
            r@ == Seq::<SymId>::empty(),
    {
        PrimitiveRegistry::new()
    }
}

} // verus!
