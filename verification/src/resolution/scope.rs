//! Scopes for closure analysis.
use vstd::prelude::*;
use std::collections::HashMap;
use crate::interner::SymId;
use crate::resolution::BindingId;
use crate::runtime::{PrimitiveId, PrimitiveRegistry};

verus! {

broadcast use vstd::std_specs::hash::group_hash_axioms;

/// Binding within a scope.
#[derive(Debug, PartialEq, Eq, Structural, Copy, Clone)]
pub enum ScopeBinding {
    /// It's a primitive.
    Primitive(PrimitiveId),
    /// It's a general binding.
    Binding(BindingId),
}

/// Types of scopes that may be created.
#[derive(Debug, PartialEq, Eq, Structural, Copy, Clone)]
pub enum ScopeKind {
    /// Primordial scope - initialised at the start, cannot be popped.  Should
    /// not be constructed by hand.
    Primordial,
    /// Body scope - part of a genuine new body.
    Body,
    /// Arm scope - part of a conditional branch.
    Arm,
}

/// A scope is a map from a symbol's index to its [`ScopeBinding`], lexically
/// closed under itself and its parents.
struct Scope(HashMap<u32, ScopeBinding>);

/// Generalised builder of scopes.
pub struct ScopeBuilder {
    /// Scopes being built.
    scopes: Vec<Scope>,
    /// Kinds of scope.
    kinds: Vec<ScopeKind>,
}

/// The result of lookup in a [`ScopeBuilder`].
#[derive(Debug, PartialEq, Eq, Structural, Copy, Clone)]
pub struct ScopeLookup {
    /// Which [`ScopeBinding`] does the lookup resolve to?
    pub binding: ScopeBinding,
    /// Number of scopes of kind [`ScopeKind::Body`] from the most recent
    /// scope where [`ScopeBinding`] was found.  Is 0 for arm/local lookup
    /// within an enclosing body, and positive for a genuine enclosing
    /// closure.
    pub body_distance: usize,
}

/// The primordial scope of a registry whose symbols are `syms`: each symbol
/// names the last primitive registered under it.
pub open spec fn primordial_scope(syms: Seq<SymId>) -> Map<u32, ScopeBinding>
    decreases syms.len(),
{
    if syms.len() == 0 {
        Map::empty()
    } else {
        primordial_scope(syms.drop_last()).insert(
            syms.last().spec_index() as u32,
            ScopeBinding::Primitive(PrimitiveId::from_index((syms.len() - 1) as nat)),
        )
    }
}

/// Look `key` up in `scopes`, innermost last, counting the body scopes
/// passed over on the way out.
pub open spec fn scope_lookup(scopes: Seq<Map<u32, ScopeBinding>>, kinds: Seq<ScopeKind>, key: u32) -> Option<
    (ScopeBinding, nat),
>
    decreases scopes.len(),
{
    if scopes.len() == 0 {
        None
    } else if scopes.last().contains_key(key) {
        Some((scopes.last()[key], 0))
    } else {
        match scope_lookup(scopes.drop_last(), kinds.drop_last(), key) {
            Some((b, d)) => Some(
                (
                    b,
                    d + if kinds.last() == ScopeKind::Body {
                        1nat
                    } else {
                        0nat
                    },
                ),
            ),
            None => None,
        }
    }
}

/// A lookup result found `extra` body scopes further out.
pub open spec fn shifted(r: Option<(ScopeBinding, nat)>, extra: nat) -> Option<(ScopeBinding, nat)> {
    match r {
        Some((b, d)) => Some((b, d + extra)),
        None => None,
    }
}

impl ScopeBuilder {
    /// The scopes, outermost first, each as a map from a symbol's index.
    pub closed spec fn scope_maps(&self) -> Seq<Map<u32, ScopeBinding>> {
        self.scopes@.map_values(|s: Scope| s.0@)
    }

    /// The kind of each scope, outermost first.
    pub closed spec fn scope_kinds(&self) -> Seq<ScopeKind> {
        self.kinds@
    }

    /// There is a kind for every scope, and only the outermost scope is
    /// primordial.
    #[verifier::type_invariant]
    spec fn well_formed(self) -> bool {
        &&& self.scopes@.len() == self.kinds@.len()
        &&& self.kinds@.len() >= 1
        &&& self.kinds@[0] == ScopeKind::Primordial
        &&& forall|i: int| 1 <= i < self.kinds@.len() ==> self.kinds@[i] != ScopeKind::Primordial
    }

    /// Construct a new [`ScopeBuilder`] whose only scope is the primordial
    /// one, pre-initialised with the primitives of `registry`.
    pub fn new(registry: &PrimitiveRegistry) -> (r: Self)
        requires
            registry@.len() <= usize::MAX,
        ensures
            r.scope_maps() == seq![primordial_scope(registry@)],
            r.scope_kinds() == seq![ScopeKind::Primordial],
    {
        let syms = registry.iter_syms();
        let mut first: HashMap<u32, ScopeBinding> = HashMap::new();
        let mut i: usize = 0;
        assert(registry@.take(0) =~= Seq::<SymId>::empty());
        while i < syms.len()
            invariant
                i <= syms@.len(),
                syms@.len() == registry@.len(),
                forall|j: int|
                    0 <= j < syms@.len() ==> (#[trigger] syms@[j]).0.spec_index() == j && syms@[j].1
                        == registry@[j],
                first@ == primordial_scope(registry@.take(i as int)),
            decreases syms@.len() - i,
        {
            let (id, sym) = syms[i];
            first.insert(sym.index(), ScopeBinding::Primitive(id));
            proof {
                let t = registry@.take(i + 1);
                assert(t.drop_last() =~= registry@.take(i as int));
                assert(t.last() == sym);
                assert(PrimitiveId::from_index(i as nat) == id) by {
                    crate::runtime::lemma_primitive_index_round(id);
                }
            }
            i = i + 1;
        }
        assert(registry@.take(i as int) =~= registry@);
        let r = ScopeBuilder { scopes: vec![Scope(first)], kinds: vec![ScopeKind::Primordial] };
        assert(r.scope_maps() =~= seq![primordial_scope(registry@)]);
        r
    }

    /// Bind onto the most recent scope, which must not be the primordial
    /// one.
    pub fn bind(&mut self, sym: SymId, binding: BindingId)
        requires
            old(self).scope_maps().len() > 1,
        ensures
            final(self).scope_kinds() == old(self).scope_kinds(),
            final(self).scope_maps() == old(self).scope_maps().update(
                old(self).scope_maps().len() - 1,
                old(self).scope_maps().last().insert(
                    sym.spec_index() as u32,
                    ScopeBinding::Binding(binding),
                ),
            ),
    {
        proof {
            use_type_invariant(&*self);
        }
        let mut taken = ScopeBuilder {
            scopes: vec![Scope(HashMap::new())],
            kinds: vec![ScopeKind::Primordial],
        };
        std::mem::swap(&mut taken, self);
        let ScopeBuilder { mut scopes, kinds } = taken;
        let ghost before = scopes@;
        let Scope(mut last) = scopes.pop().unwrap();
        last.insert(sym.index(), ScopeBinding::Binding(binding));
        scopes.push(Scope(last));
        *self = ScopeBuilder { scopes, kinds };
        proof {
            assert(self.scope_maps() =~= old(self).scope_maps().update(
                old(self).scope_maps().len() - 1,
                old(self).scope_maps().last().insert(
                    sym.spec_index() as u32,
                    ScopeBinding::Binding(binding),
                ),
            ));
        }
    }

    /// Open a new scope of kind [`ScopeKind::Body`].
    pub fn push_body(&mut self)
        ensures
            final(self).scope_maps() == old(self).scope_maps().push(Map::empty()),
            final(self).scope_kinds() == old(self).scope_kinds().push(ScopeKind::Body),
    {
        self.push_scope(ScopeKind::Body);
    }

    /// Open a new scope of kind [`ScopeKind::Arm`].
    pub fn push_arm(&mut self)
        ensures
            final(self).scope_maps() == old(self).scope_maps().push(Map::empty()),
            final(self).scope_kinds() == old(self).scope_kinds().push(ScopeKind::Arm),
    {
        self.push_scope(ScopeKind::Arm);
    }

    fn push_scope(&mut self, kind: ScopeKind)
        requires
            kind != ScopeKind::Primordial,
        ensures
            final(self).scope_maps() == old(self).scope_maps().push(Map::empty()),
            final(self).scope_kinds() == old(self).scope_kinds().push(kind),
    {
        proof {
            use_type_invariant(&*self);
        }
        let mut taken = ScopeBuilder {
            scopes: vec![Scope(HashMap::new())],
            kinds: vec![ScopeKind::Primordial],
        };
        std::mem::swap(&mut taken, self);
        let ScopeBuilder { mut scopes, mut kinds } = taken;
        scopes.push(Scope(HashMap::new()));
        kinds.push(kind);
        *self = ScopeBuilder { scopes, kinds };
        proof {
            assert(self.scope_maps() =~= old(self).scope_maps().push(Map::empty()));
        }
    }

    /// Close the most recent scope, which must be of kind
    /// [`ScopeKind::Body`].
    pub fn pop_body(&mut self)
        requires
            old(self).scope_kinds().last() == ScopeKind::Body,
        ensures
            final(self).scope_maps() == old(self).scope_maps().drop_last(),
            final(self).scope_kinds() == old(self).scope_kinds().drop_last(),
    {
        self.pop_scope();
    }

    /// Close the most recent scope, which must be of kind
    /// [`ScopeKind::Arm`].
    pub fn pop_arm(&mut self)
        requires
            old(self).scope_kinds().last() == ScopeKind::Arm,
        ensures
            final(self).scope_maps() == old(self).scope_maps().drop_last(),
            final(self).scope_kinds() == old(self).scope_kinds().drop_last(),
    {
        self.pop_scope();
    }

    fn pop_scope(&mut self)
        requires
            old(self).scope_kinds().last() != ScopeKind::Primordial,
        ensures
            final(self).scope_maps() == old(self).scope_maps().drop_last(),
            final(self).scope_kinds() == old(self).scope_kinds().drop_last(),
    {
        proof {
            use_type_invariant(&*self);
        }
        let mut taken = ScopeBuilder {
            scopes: vec![Scope(HashMap::new())],
            kinds: vec![ScopeKind::Primordial],
        };
        std::mem::swap(&mut taken, self);
        let ScopeBuilder { mut scopes, mut kinds } = taken;
        let _ = scopes.pop();
        let _ = kinds.pop();
        *self = ScopeBuilder { scopes, kinds };
        proof {
            assert(self.scope_maps() =~= old(self).scope_maps().drop_last());
        }
    }

    /// Attempt to resolve a name from the most recent scope outward,
    /// returning a [`ScopeLookup`] if successful and `None` otherwise.
    pub fn lookup(&self, sym: SymId) -> (r: Option<ScopeLookup>)
        ensures
            match scope_lookup(self.scope_maps(), self.scope_kinds(), sym.spec_index() as u32) {
                Some((b, d)) => r == Some(ScopeLookup { binding: b, body_distance: d as usize }),
                None => r is None,
            },
    {
        proof {
            use_type_invariant(self);
        }
        let key = sym.index();
        assert(key == sym.spec_index() as u32);
        let ghost maps = self.scope_maps();
        let ghost kinds = self.scope_kinds();
        let mut body_distance: usize = 0;
        let n = self.scopes.len();
        let mut i = n;
        assert(maps.take(i as int) =~= maps);
        assert(kinds.take(i as int) =~= kinds);
        while i > 0
            invariant
                i <= maps.len(),
                maps == self.scope_maps(),
                kinds == self.scope_kinds(),
                maps.len() == kinds.len(),
                body_distance <= maps.len() - i,
                maps.len() == self.scopes@.len(),
                maps.len() == n,
                key == sym.spec_index() as u32,
                scope_lookup(maps, kinds, key) == shifted(
                    scope_lookup(maps.take(i as int), kinds.take(i as int), key),
                    body_distance as nat,
                ),
            decreases i,
        {
            let ghost t = maps.take(i as int);
            let ghost k = kinds.take(i as int);
            assert(t.drop_last() =~= maps.take(i - 1));
            assert(k.drop_last() =~= kinds.take(i - 1));
            assert(t.last() == self.scopes@[i - 1].0@);
            match self.scopes[i - 1].0.get(&key) {
                Some(binding) => {
                    assert(t.last().contains_key(key));
                    return Some(ScopeLookup { binding: *binding, body_distance });
                },
                None => {},
            }
            if self.kinds[i - 1] == ScopeKind::Body {
                body_distance = body_distance + 1;
            }
            i = i - 1;
        }
        None
    }
}

/// Closing a body restores the lookups from before it was opened.  Once
/// only the body's scope is left above the scopes that were there before
/// (whatever it binds, and whatever scopes were opened and closed inside it
/// in between), popping it makes every lookup what it was: inner bindings
/// vanish and the outer ones they shadowed return, at their old distance.
pub proof fn lemma_pop_body_restores(
    before_maps: Seq<Map<u32, ScopeBinding>>,
    before_kinds: Seq<ScopeKind>,
    now_maps: Seq<Map<u32, ScopeBinding>>,
    now_kinds: Seq<ScopeKind>,
    key: u32,
)
    requires
        now_maps.len() == before_maps.len() + 1,
        now_maps.drop_last() == before_maps,
        now_kinds == before_kinds.push(ScopeKind::Body),
    ensures
        scope_lookup(now_maps.drop_last(), now_kinds.drop_last(), key) == scope_lookup(
            before_maps,
            before_kinds,
            key,
        ),
{
    assert(now_kinds.drop_last() =~= before_kinds);
}

/// Each step on a scope stack deeper than `n` scopes leaves the `n`
/// outermost as they were: binding changes only the innermost scope,
/// opening one adds above it, and closing one above depth `n` removes only
/// it.  So any run of steps that never closes a scope at depth `n` or below
/// keeps them, and with them every lookup they answer.
pub proof fn lemma_scope_steps_keep_below(
    maps: Seq<Map<u32, ScopeBinding>>,
    n: int,
    inner: Map<u32, ScopeBinding>,
    key: u32,
    b: ScopeBinding,
)
    requires
        0 <= n < maps.len(),
    ensures
        maps.update(maps.len() - 1, maps.last().insert(key, b)).take(n) == maps.take(n),
        maps.push(inner).take(n) == maps.take(n),
        n < maps.len() - 1 ==> maps.drop_last().take(n) == maps.take(n),
{
    assert(maps.update(maps.len() - 1, maps.last().insert(key, b)).take(n) =~= maps.take(n));
    assert(maps.push(inner).take(n) =~= maps.take(n));
    if n < maps.len() - 1 {
        assert(maps.drop_last().take(n) =~= maps.take(n));
    }
}

/// Laws of nested scopes: a new body scope sees everything outside it one
/// body further out, a new arm scope sees it at the same distance, leaving a
/// scope restores every lookup, and a binding in the innermost scope shadows
/// its name there.
pub proof fn lemma_scope_laws(
    maps: Seq<Map<u32, ScopeBinding>>,
    kinds: Seq<ScopeKind>,
    inner: Map<u32, ScopeBinding>,
    kind: ScopeKind,
    key: u32,
    b: ScopeBinding,
)
    requires
        maps.len() == kinds.len(),
        maps.len() >= 1,
    ensures
        scope_lookup(maps.push(Map::empty()), kinds.push(ScopeKind::Body), key) == shifted(
            scope_lookup(maps, kinds, key),
            1,
        ),
        scope_lookup(maps.push(Map::empty()), kinds.push(ScopeKind::Arm), key) == scope_lookup(
            maps,
            kinds,
            key,
        ),
        scope_lookup(maps.push(inner).drop_last(), kinds.push(kind).drop_last(), key)
            == scope_lookup(maps, kinds, key),
        scope_lookup(maps.update(maps.len() - 1, maps.last().insert(key, b)), kinds, key) == Some(
            (b, 0nat),
        ),
{
    assert(maps.push(Map::empty()).drop_last() =~= maps);
    assert(kinds.push(ScopeKind::Body).drop_last() =~= kinds);
    assert(kinds.push(ScopeKind::Arm).drop_last() =~= kinds);
    assert(maps.push(inner).drop_last() =~= maps);
    assert(kinds.push(kind).drop_last() =~= kinds);
    let updated = maps.update(maps.len() - 1, maps.last().insert(key, b));
    assert(updated.last().contains_key(key));
}

} // verus!
