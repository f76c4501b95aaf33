//! Symbol interning.
//!
//! The [`Interner`] keeps a unique collection of names, each with the
//! [`SymId`] it was first given.
use vstd::prelude::*;
use vstd::hash_map::StringHashMap;

verus! {

/// ID representing an interned symbol; only an [`Interner`] mints them.
#[derive(Debug, PartialEq, Eq, Structural, Copy, Clone, Hash)]
pub struct SymId(u32);

impl SymId {
    /// Position of the name in its interner.
    pub closed spec fn spec_index(self) -> nat {
        self.0 as nat
    }

    /// Position of the name in its interner.
    pub fn index(&self) -> (r: u32)
        ensures
            r == self.spec_index(),
    {
        self.0
    }
}

/// Symbols at the same position are the same symbol.
pub proof fn lemma_sym_index_injective(a: SymId, b: SymId)
    requires
        a.spec_index() == b.spec_index(),
    ensures
        a == b,
{
}

/// The index of the symbol `if` in every interner.
pub open spec fn if_index() -> nat {
    1
}

/// The index of the symbol `rec` in every interner.
pub open spec fn rec_index() -> nat {
    2
}

/// The symbol `f`, interned first by every [`Interner`].
pub fn sym_f() -> (r: SymId)
    ensures
        r.spec_index() == 0,
{
    SymId(0)
}

/// The symbol `if`, interned second by every [`Interner`].
pub fn sym_if() -> (r: SymId)
    ensures
        r.spec_index() == if_index(),
{
    SymId(1)
}

/// The symbol `rec`, interned third by every [`Interner`].
pub fn sym_rec() -> (r: SymId)
    ensures
        r.spec_index() == rec_index(),
{
    SymId(2)
}

/// The names every interner starts with, in order.
pub open spec fn distinguished() -> Seq<Seq<char>> {
    seq!["f"@, "if"@, "rec"@]
}

/// The names after interning `name`: unchanged when it is already there,
/// else with it appended.
pub open spec fn interned(names: Seq<Seq<char>>, name: Seq<char>) -> Seq<Seq<char>> {
    if names.contains(name) {
        names
    } else {
        names.push(name)
    }
}

/// The names after interning each of `new`, in order.
pub open spec fn interned_all(names: Seq<Seq<char>>, new: Seq<Seq<char>>) -> Seq<Seq<char>>
    decreases new.len(),
{
    if new.len() == 0 {
        names
    } else {
        interned(interned_all(names, new.drop_last()), new.last())
    }
}

/// No name occurs twice in `names`.
pub open spec fn distinct_names(names: Seq<Seq<char>>) -> bool {
    forall|i: int, j: int| 0 <= i < j < names.len() ==> names[i] != names[j]
}

/// A unique collection of names with their [`SymId`]s.
pub struct Interner {
    /// Names, indexed by [`SymId`].
    names: Vec<String>,
    /// Reverse lookup from name to [`SymId`].
    lookup: StringHashMap<SymId>,
}

impl View for Interner {
    type V = Seq<Seq<char>>;

    /// The interned names, indexed by [`SymId`].
    closed spec fn view(&self) -> Seq<Seq<char>> {
        self.names@.map_values(|s: String| s@)
    }
}

impl Interner {
    /// Names and lookup agree: the lookup maps each name to its index and
    /// holds nothing else.
    #[verifier::type_invariant]
    spec fn consistent(self) -> bool {
        &&& self.names@.len() <= u32::MAX + 1
        &&& forall|i: int|
            0 <= i < self.names@.len() ==> #[trigger] self.lookup@.contains_key(self.names@[i]@)
                && self.lookup@[self.names@[i]@].spec_index() == i
        &&& forall|key: Seq<char>|
            #[trigger] self.lookup@.contains_key(key) ==> self.lookup@[key].spec_index()
                < self.names@.len() && self.names@[self.lookup@[key].spec_index() as int]@ == key
    }

    /// The consistency of the lookup makes the names distinct.
    proof fn distinct(&self)
        requires
            self.consistent(),
        ensures
            distinct_names(self@),
    {
        assert forall|i: int, j: int| 0 <= i < j < self@.len() implies self@[i] != self@[j] by {
            assert(self.lookup@.contains_key(self.names@[i]@));
            assert(self.lookup@.contains_key(self.names@[j]@));
        }
    }

    /// Creates a new interner holding the distinguished symbols `f`, `if` and
    /// `rec`, in that order.
    pub fn new() -> (r: Self)
        ensures
            r@ == distinguished(),
            distinct_names(r@),
    {
        let mut interner = Interner { names: Vec::new(), lookup: StringHashMap::new() };
        assert(interner@ =~= Seq::<Seq<char>>::empty());
        proof {
            reveal_strlit("f");
            reveal_strlit("if");
            reveal_strlit("rec");
        }
        let _ = interner.intern("f");
        assert(interner@ =~= seq!["f"@]);
        assert(!interner@.contains("if"@)) by {
            assert("f"@ != "if"@) by {
                assert("f"@.len() != "if"@.len());
            }
        }
        let _ = interner.intern("if");
        assert(interner@ =~= seq!["f"@, "if"@]);
        assert(!interner@.contains("rec"@)) by {
            assert("f"@.len() != "rec"@.len());
            assert("if"@.len() != "rec"@.len());
        }
        let _ = interner.intern("rec");
        assert(interner@ =~= distinguished());
        proof {
            use_type_invariant(&interner);
            interner.distinct();
        }
        interner
    }

    /// Intern a `name`, returning its [`SymId`].  A name seen before keeps
    /// its id and leaves the interner unchanged; a new name is appended.
    pub fn intern(&mut self, name: &str) -> (r: SymId)
        requires
            old(self)@.len() < u32::MAX || old(self)@.contains(name@),
        ensures
            final(self)@ == interned(old(self)@, name@),
            !old(self)@.contains(name@) ==> r.spec_index() == old(self)@.len(),
            r.spec_index() < final(self)@.len(),
            final(self)@[r.spec_index() as int] == name@,
            distinct_names(final(self)@),
    {
        proof {
            use_type_invariant(&*self);
            self.distinct();
        }
        match self.lookup.get(name) {
            Some(id) => {
                let id = *id;
                proof {
                    assert(self@[id.spec_index() as int] == name@);
                }
                id
            },
            None => {
                proof {
                    if self@.contains(name@) {
                        let i = choose|i: int| 0 <= i < self@.len() && self@[i] == name@;
                        assert(self.lookup@.contains_key(self.names@[i]@));
                    }
                }
                let id = SymId(self.names.len() as u32);
                let owned = name.to_owned();
                let mut taken = Interner { names: Vec::new(), lookup: StringHashMap::new() };
                std::mem::swap(&mut taken, self);
                let Interner { mut names, mut lookup } = taken;
                let ghost old_names = names@;
                let ghost old_lookup = lookup@;
                names.push(owned.clone());
                lookup.insert(owned, id);
                proof {
                    assert forall|i: int| 0 <= i < names@.len() implies #[trigger] lookup@.contains_key(
                        names@[i]@,
                    ) && lookup@[names@[i]@].spec_index() == i by {
                        if i < old_names.len() {
                            assert(old_lookup.contains_key(old_names[i]@));
                            if old_names[i]@ == name@ {
                                assert(false);
                            }
                        }
                    }
                    assert forall|key: Seq<char>| #[trigger] lookup@.contains_key(key) implies lookup@[
                        key
                    ].spec_index() < names@.len() && names@[lookup@[key].spec_index() as int]@
                        == key by {
                        if key != name@ {
                            assert(old_lookup.contains_key(key));
                        }
                    }
                }
                *self = Interner { names, lookup };
                proof {
                    assert(self@ =~= old(self)@.push(name@));
                    use_type_invariant(&*self);
                    self.distinct();
                }
                id
            },
        }
    }

    /// Get the [`SymId`] of `name`, or `None` when it was never interned.
    pub fn get(&self, name: &str) -> (r: Option<SymId>)
        ensures
            distinct_names(self@),
            r is None <==> !self@.contains(name@),
            r matches Some(id) ==> id.spec_index() < self@.len() && self@[id.spec_index() as int]
                == name@,
    {
        proof {
            use_type_invariant(self);
            self.distinct();
        }
        match self.lookup.get(name) {
            Some(id) => {
                let id = *id;
                assert(self@[id.spec_index() as int] == name@);
                Some(id)
            },
            None => {
                proof {
                    if self@.contains(name@) {
                        let i = choose|i: int| 0 <= i < self@.len() && self@[i] == name@;
                        assert(self.lookup@.contains_key(self.names@[i]@));
                    }
                }
                None
            },
        }
    }

    /// Resolve the given `id`, which must have been minted by this interner,
    /// to its name.
    pub fn resolve(&self, id: SymId) -> (r: &str)
        requires
            id.spec_index() < self@.len(),
        ensures
            r@ == self@[id.spec_index() as int],
            distinct_names(self@),
    {
        proof {
            use_type_invariant(self);
            self.distinct();
        }
        self.names[id.0 as usize].as_str()
    }

    /// The number of interned names.
    pub fn len(&self) -> (r: usize)
        ensures
            r == self@.len(),
            distinct_names(self@),
    {
        proof {
            use_type_invariant(self);
            self.distinct();
        }
        self.names.len()
    }
}

/// A name has one id: among distinct names, two ids naming the same name are
/// the same id.  So interning a name again, or looking it up, finds the id
/// interning it first returned.
pub proof fn lemma_one_id_per_name(names: Seq<Seq<char>>, name: Seq<char>, a: SymId, b: SymId)
    requires
        distinct_names(names),
        a.spec_index() < names.len(),
        b.spec_index() < names.len(),
        names[a.spec_index() as int] == name,
        names[b.spec_index() as int] == name,
    ensures
        a == b,
{
    if a.spec_index() < b.spec_index() {
        assert(names[a.spec_index() as int] != names[b.spec_index() as int]);
    } else if b.spec_index() < a.spec_index() {
        assert(names[b.spec_index() as int] != names[a.spec_index() as int]);
    }
    lemma_sym_index_injective(a, b);
}

/// Interning is idempotent: interning a name a second time changes nothing,
/// and the name has one id both times, since no name occurs twice.
pub proof fn lemma_interning_is_idempotent(names: Seq<Seq<char>>, name: Seq<char>)
    requires
        distinct_names(names),
    ensures
        interned(interned(names, name), name) == interned(names, name),
        distinct_names(interned(names, name)),
        forall|i: int, j: int|
            0 <= i < interned(names, name).len() && 0 <= j < interned(names, name).len()
                && interned(names, name)[i] == name && interned(names, name)[j] == name ==> i == j,
{
    let once = interned(names, name);
    if !names.contains(name) {
        assert(once[names.len() as int] == name);
        assert forall|i: int, j: int| 0 <= i < j < once.len() implies once[i] != once[j] by {
            if j == names.len() {
                assert(once[i] == names[i]);
                assert(names[i] != name);
            } else {
                assert(once[i] == names[i] && once[j] == names[j]);
            }
        }
    }
    assert(once.contains(name)) by {
        if names.contains(name) {
            let k = choose|k: int| 0 <= k < names.len() && names[k] == name;
            assert(once[k] == name);
        } else {
            assert(once[names.len() as int] == name);
        }
    }
}

/// Interning only ever adds a name at the end: every name, and so every id
/// handed out before, stays where it was.
pub proof fn lemma_interning_keeps_earlier_names(names: Seq<Seq<char>>, name: Seq<char>)
    ensures
        names.len() <= interned(names, name).len(),
        forall|i: int| 0 <= i < names.len() ==> #[trigger] interned(names, name)[i] == names[i],
{
}

/// However many names are interned after it, a name keeps its id: what
/// `resolve` gives for an id `intern` returned stays that name.
pub proof fn lemma_later_interning_keeps_names(names: Seq<Seq<char>>, new: Seq<Seq<char>>)
    ensures
        names.len() <= interned_all(names, new).len(),
        forall|i: int| 0 <= i < names.len() ==> #[trigger] interned_all(names, new)[i] == names[i],
    decreases new.len(),
{
    if new.len() > 0 {
        lemma_later_interning_keeps_names(names, new.drop_last());
        lemma_interning_keeps_earlier_names(interned_all(names, new.drop_last()), new.last());
    }
}

} // verus!
