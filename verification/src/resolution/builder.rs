//! Lexical environment and body layout construction.
use vstd::prelude::*;
use std::collections::HashMap;
use crate::interner::SymId;
use crate::resolution::{
    BindingId, BindingInfo, BindingTable, BodyLayout, CaptureId, CaptureSource, LocalId, Target,
    captures_with, distinct_sources,
};
use crate::runtime::{PrimitiveId, PrimitiveRegistry};
use crate::source::SyntaxId;

verus! {

broadcast use {
    vstd::std_specs::hash::group_hash_axioms,
    crate::resolution::group_body_ids,
    crate::resolution::lemma_binding_from_index,
    crate::resolution::lemma_binding_index_round,
    crate::runtime::lemma_primitive_from_index,
    crate::runtime::lemma_primitive_index_round,
};

/// A body under construction, as the specification sees it.
pub struct BodyModel {
    /// Captures so far, indexed by [`CaptureId`].
    pub captures: Seq<CaptureSource>,
    /// Locals so far.
    pub locals: nat,
    /// The body scope followed by any active arm scopes, each a map from a
    /// symbol's index.
    pub scopes: Seq<Map<u32, BindingId>>,
}

/// An environment, as the specification sees it.
pub struct EnvModel {
    /// Primordial primitive names, by symbol index.
    pub primitives: Map<u32, PrimitiveId>,
    /// Every binding minted, indexed by [`BindingId`].
    pub bindings: Seq<BindingInfo>,
    /// Active bodies from entry body to innermost closure.
    pub bodies: Seq<BodyModel>,
}

/// A body with nothing in it and its body scope active.
pub open spec fn empty_body() -> BodyModel {
    BodyModel { captures: seq![], locals: 0, scopes: seq![Map::empty()] }
}

/// The primitive names of a registry whose symbols are `syms`: each symbol
/// names the last primitive registered under it.
pub open spec fn primitive_map(syms: Seq<SymId>) -> Map<u32, PrimitiveId>
    decreases syms.len(),
{
    if syms.len() == 0 {
        Map::empty()
    } else {
        primitive_map(syms.drop_last()).insert(
            syms.last().spec_index() as u32,
            PrimitiveId::from_index((syms.len() - 1) as nat),
        )
    }
}

/// The environment a resolution starts in: no bindings, and the entry body.
pub open spec fn initial_env(syms: Seq<SymId>) -> EnvModel {
    EnvModel { primitives: primitive_map(syms), bindings: seq![], bodies: seq![empty_body()] }
}

/// Whether an environment is consistent: a body is always active, each body
/// has its body scope, captures are listed once each, and every binding in
/// scope has been minted.
pub open spec fn env_wf(e: EnvModel) -> bool {
    &&& e.bodies.len() >= 1
    &&& forall|i: int|
        0 <= i < e.bodies.len() ==> {
            &&& (#[trigger] e.bodies[i]).scopes.len() >= 1
            &&& distinct_sources(e.bodies[i].captures)
            &&& forall|j: int, k: u32|
                0 <= j < e.bodies[i].scopes.len() && #[trigger] e.bodies[i].scopes[j].contains_key(k) ==> e.bodies[i].scopes[j][k].spec_index() < e.bindings.len()
        }
}

/// Whether an environment has room for `n` more steps of growth: every
/// count that becomes an id stays within `u32`.
pub open spec fn env_room(e: EnvModel, n: nat) -> bool {
    &&& e.bindings.len() + n <= u32::MAX
    &&& forall|i: int|
        0 <= i < e.bodies.len() ==> (#[trigger] e.bodies[i]).captures.len() + n <= u32::MAX
            && e.bodies[i].locals + n <= u32::MAX
}

/// The innermost binding of `key` in the scopes of body `b`.
pub open spec fn body_lookup(scopes: Seq<Map<u32, BindingId>>, key: u32) -> Option<BindingId>
    decreases scopes.len(),
{
    if scopes.len() == 0 {
        None
    } else if scopes.last().contains_key(key) {
        Some(scopes.last()[key])
    } else {
        body_lookup(scopes.drop_last(), key)
    }
}

/// The innermost binding of `key` in `bodies`, with the number of bodies
/// between it and the innermost body.
pub open spec fn env_find(bodies: Seq<BodyModel>, key: u32) -> Option<(BindingId, nat)>
    decreases bodies.len(),
{
    if bodies.len() == 0 {
        None
    } else {
        match body_lookup(bodies.last().scopes, key) {
            Some(b) => Some((b, 0)),
            None => match env_find(bodies.drop_last(), key) {
                Some((b, d)) => Some((b, d + 1)),
                None => None,
            },
        }
    }
}

/// The position of `source` in `captures_with(cs, source)`.
pub open spec fn slot_of(cs: Seq<CaptureSource>, source: CaptureSource) -> nat {
    if cs.contains(source) {
        (choose|i: int| 0 <= i < cs.len() && cs[i] == source) as nat
    } else {
        cs.len()
    }
}

/// Forward `source` through bodies `k..` of `bodies`: each lists what the
/// one outside it passes in, and passes in its own slot for that.
pub open spec fn thread_capture(bodies: Seq<BodyModel>, k: int, source: CaptureSource) -> (Seq<
    BodyModel,
>, CaptureSource)
    decreases bodies.len() - k,
{
    if k >= bodies.len() || k < 0 {
        (bodies, source)
    } else {
        let b = bodies[k];
        let nb = BodyModel {
            captures: captures_with(b.captures, source),
            locals: b.locals,
            scopes: b.scopes,
        };
        thread_capture(
            bodies.update(k, nb),
            k + 1,
            CaptureSource::Captured(CaptureId::from_index(slot_of(b.captures, source))),
        )
    }
}

/// Resolve `sym` in `e`: to a local of the innermost body, to a capture
/// forwarded through every body between it and its binding, or else to a
/// primitive.
pub open spec fn env_resolve(e: EnvModel, sym: SymId) -> (EnvModel, Option<Target>) {
    let key = sym.spec_index() as u32;
    match env_find(e.bodies, key) {
        Some((b, d)) => if d == 0 {
            (e, Some(Target::Local(b)))
        } else {
            let start = e.bodies.len() - d;
            let (bodies, last) = thread_capture(
                e.bodies,
                start,
                CaptureSource::Local(e.bindings[b.spec_index() as int].local),
            );
            (
                EnvModel { primitives: e.primitives, bindings: e.bindings, bodies },
                Some(Target::Captured(last->Captured_0)),
            )
        },
        None => (
            e,
            if e.primitives.contains_key(key) {
                Some(Target::Primitive(e.primitives[key]))
            } else {
                None
            },
        ),
    }
}

/// Whether the symbol of index `key` would resolve to a primitive: no body
/// binds it and the primitives name it.
pub open spec fn key_is_primitive(e: EnvModel, key: u32) -> bool {
    env_find(e.bodies, key) is None && e.primitives.contains_key(key)
}

/// Whether `sym` would resolve to a primitive.
pub open spec fn env_is_primitive(e: EnvModel, sym: SymId) -> bool {
    key_is_primitive(e, sym.spec_index() as u32)
}

/// `e` with the innermost body replaced by `b`.
pub open spec fn with_current(e: EnvModel, b: BodyModel) -> EnvModel {
    EnvModel {
        primitives: e.primitives,
        bindings: e.bindings,
        bodies: e.bodies.update(e.bodies.len() - 1, b),
    }
}

/// Mint a binding of `sym` at `origin` in a fresh local of the innermost
/// body, bound in its innermost scope.
pub open spec fn env_bind(e: EnvModel, origin: SyntaxId, sym: SymId) -> (EnvModel, BindingId) {
    let b = e.bodies.last();
    let id = BindingId::from_index(e.bindings.len());
    let nb = BodyModel {
        captures: b.captures,
        locals: b.locals + 1,
        scopes: b.scopes.update(
            b.scopes.len() - 1,
            b.scopes.last().insert(sym.spec_index() as u32, id),
        ),
    };
    (
        EnvModel {
            primitives: e.primitives,
            bindings: e.bindings.push(BindingInfo { origin, local: LocalId::from_index(b.locals) }),
            bodies: e.bodies.update(e.bodies.len() - 1, nb),
        },
        id,
    )
}

/// Open a nested closure body.
pub open spec fn env_open_body(e: EnvModel) -> EnvModel {
    EnvModel { primitives: e.primitives, bindings: e.bindings, bodies: e.bodies.push(empty_body()) }
}

/// Close the innermost body.
pub open spec fn env_close_body(e: EnvModel) -> EnvModel {
    EnvModel { primitives: e.primitives, bindings: e.bindings, bodies: e.bodies.drop_last() }
}

/// Enter an arm scope in the innermost body.
pub open spec fn env_enter_arm(e: EnvModel) -> EnvModel {
    let b = e.bodies.last();
    with_current(
        e,
        BodyModel { captures: b.captures, locals: b.locals, scopes: b.scopes.push(Map::empty()) },
    )
}

/// Leave the innermost arm scope of the innermost body.
pub open spec fn env_leave_arm(e: EnvModel) -> EnvModel {
    let b = e.bodies.last();
    with_current(
        e,
        BodyModel { captures: b.captures, locals: b.locals, scopes: b.scopes.drop_last() },
    )
}

/// State used to construct one body.
struct BodyBuilder {
    /// Frame layout accumulated for this body.
    layout: BodyLayout,
    /// Body scope followed by any active arm scopes.
    scopes: Vec<HashMap<u32, BindingId>>,
}

impl BodyBuilder {
    spec fn model(&self) -> BodyModel {
        BodyModel {
            captures: self.layout.capture_list(),
            locals: self.layout.locals(),
            scopes: self.scopes@.map_values(|m: HashMap<u32, BindingId>| m@),
        }
    }

    /// Construct an empty body with its body scope active.
    fn new() -> (r: Self)
        ensures
            r.model() == empty_body(),
    {
        let r = BodyBuilder { layout: BodyLayout::new(), scopes: vec![HashMap::new()] };
        assert(r.model().scopes =~= seq![Map::<u32, BindingId>::empty()]);
        r
    }

    /// Look up a binding within this body, innermost scope first.
    fn lookup(&self, sym: SymId) -> (r: Option<BindingId>)
        ensures
            r == body_lookup(self.model().scopes, sym.spec_index() as u32),
    {
        let key = sym.index();
        let ghost scopes = self.model().scopes;
        let mut i = self.scopes.len();
        assert(scopes.take(i as int) =~= scopes);
        while i > 0
            invariant
                i <= scopes.len(),
                scopes == self.model().scopes,
                scopes.len() == self.scopes@.len(),
                key == sym.spec_index() as u32,
                body_lookup(scopes, key) == body_lookup(scopes.take(i as int), key),
            decreases i,
        {
            let ghost t = scopes.take(i as int);
            assert(t.drop_last() =~= scopes.take(i - 1));
            assert(t.last() == self.scopes@[i - 1]@);
            match self.scopes[i - 1].get(&key) {
                Some(b) => {
                    return Some(*b);
                },
                None => {},
            }
            i = i - 1;
        }
        None
    }

    /// Finish this body and return its durable layout.
    fn finish(self) -> (r: BodyLayout)
        requires
            self.model().scopes.len() == 1,
        ensures
            r.capture_list() == self.model().captures,
            r.locals() == self.model().locals,
    {
        self.layout
    }
}

/// The models of `bs`, in order.
spec fn body_models(bs: Seq<BodyBuilder>) -> Seq<BodyModel> {
    bs.map_values(|b: BodyBuilder| b.model())
}

/// In-progress lexical environment for binding resolution.
pub struct Environment {
    /// Primordial primitive names, by symbol index.
    primitives: HashMap<u32, PrimitiveId>,
    /// Metadata for bindings minted in any body.
    bindings: BindingTable,
    /// Active bodies from entry body to innermost closure.
    bodies: Vec<BodyBuilder>,
}

impl Environment {
    /// The environment as the specification sees it.
    pub closed spec fn model(&self) -> EnvModel {
        EnvModel {
            primitives: self.primitives@,
            bindings: self.bindings@,
            bodies: body_models(self.bodies@),
        }
    }

    /// Construct an environment with an active entry body, knowing the
    /// primitives of `registry`.
    pub fn new(registry: &PrimitiveRegistry) -> (r: Self)
        requires
            registry@.len() <= usize::MAX,
        ensures
            r.model() == initial_env(registry@),
            env_wf(r.model()),
    {
        let syms = registry.iter_syms();
        let mut primitives: HashMap<u32, PrimitiveId> = HashMap::new();
        let mut i: usize = 0;
        assert(registry@.take(0) =~= Seq::<SymId>::empty());
        while i < syms.len()
            invariant
                i <= syms@.len(),
                syms@.len() == registry@.len(),
                forall|j: int|
                    0 <= j < syms@.len() ==> (#[trigger] syms@[j]).0.spec_index() == j && syms@[j].1
                        == registry@[j],
                primitives@ == primitive_map(registry@.take(i as int)),
            decreases syms@.len() - i,
        {
            let (id, sym) = syms[i];
            primitives.insert(sym.index(), id);
            proof {
                let t = registry@.take(i + 1);
                assert(t.drop_last() =~= registry@.take(i as int));
                assert(t.last() == sym);
                assert(PrimitiveId::from_index(i as nat) == id);
            }
            i = i + 1;
        }
        assert(registry@.take(i as int) =~= registry@);
        let r = Environment {
            primitives,
            bindings: BindingTable::new(),
            bodies: vec![BodyBuilder::new()],
        };
        assert(r.model().bodies =~= seq![empty_body()]);
        r
    }

    /// Open a nested closure body.
    pub fn open_body(&mut self)
        requires
            env_wf(old(self).model()),
        ensures
            final(self).model() == env_open_body(old(self).model()),
            env_wf(final(self).model()),
    {
        self.bodies.push(BodyBuilder::new());
        assert(self.model().bodies =~= old(self).model().bodies.push(empty_body()));
    }

    /// Close a nested closure body, returning the complete [`BodyLayout`].
    /// The entry body cannot be closed, and the body closed must have no
    /// arm scope active.
    pub fn close_body(&mut self) -> (r: BodyLayout)
        requires
            env_wf(old(self).model()),
            old(self).model().bodies.len() > 1,
            old(self).model().bodies.last().scopes.len() == 1,
        ensures
            final(self).model() == env_close_body(old(self).model()),
            r.capture_list() == old(self).model().bodies.last().captures,
            r.locals() == old(self).model().bodies.last().locals,
            env_wf(final(self).model()),
    {
        let ghost before = self.bodies@;
        let body = self.bodies.pop().unwrap();
        proof {
            assert(before[before.len() - 1] == body);
            assert(self.model().bodies =~= old(self).model().bodies.drop_last());
            let e = self.model();
            assert forall|i: int| 0 <= i < e.bodies.len() implies {
                &&& (#[trigger] e.bodies[i]).scopes.len() >= 1
                &&& distinct_sources(e.bodies[i].captures)
                &&& forall|j: int, k: u32|
                    0 <= j < e.bodies[i].scopes.len() && #[trigger] e.bodies[i].scopes[j].contains_key(k) ==> e.bodies[i].scopes[j][k].spec_index() < e.bindings.len()
            } by {
                assert(e.bodies[i] == old(self).model().bodies[i]);
            }
        }
        body.finish()
    }

    /// Enter an arm-local scope in the innermost body.
    pub fn enter_arm(&mut self)
        requires
            env_wf(old(self).model()),
        ensures
            final(self).model() == env_enter_arm(old(self).model()),
            env_wf(final(self).model()),
    {
        let ghost before = self.bodies@;
        let mut body = self.bodies.pop().unwrap();
        proof {
            assert(before[before.len() - 1] == body);
        }
        let ghost pre = body.model();
        proof {
            let oe = old(self).model();
            assert(oe.bodies[oe.bodies.len() - 1] == pre);
        }
        body.scopes.push(HashMap::new());
        assert(body.model().scopes =~= pre.scopes.push(Map::empty()));
        self.bodies.push(body);
        proof {
            assert(self.model().bodies =~= old(self).model().bodies.update(
                old(self).model().bodies.len() - 1,
                body.model(),
            ));
            let e = self.model();
            let b = e.bodies.last();
            assert forall|j: int, k: u32|
                0 <= j < b.scopes.len() && #[trigger] b.scopes[j].contains_key(k) implies b.scopes[j][k].spec_index() < e.bindings.len() by {
                if j < pre.scopes.len() {
                    assert(b.scopes[j] == pre.scopes[j]);
                    let oe = old(self).model();
                    assert(oe.bodies[oe.bodies.len() - 1].scopes[j].contains_key(k));
                }
            }
            self.lemma_wf_update(old(self).model());
        }
    }

    /// Leave the innermost arm-local scope, which must be active.
    pub fn leave_arm(&mut self)
        requires
            env_wf(old(self).model()),
            old(self).model().bodies.last().scopes.len() > 1,
        ensures
            final(self).model() == env_leave_arm(old(self).model()),
            env_wf(final(self).model()),
    {
        let ghost before = self.bodies@;
        let mut body = self.bodies.pop().unwrap();
        proof {
            assert(before[before.len() - 1] == body);
        }
        let ghost pre = body.model();
        let _ = body.scopes.pop();
        assert(body.model().scopes =~= pre.scopes.drop_last());
        self.bodies.push(body);
        proof {
            assert(self.model().bodies =~= old(self).model().bodies.update(
                old(self).model().bodies.len() - 1,
                body.model(),
            ));
            let e = self.model();
            let b = e.bodies.last();
            assert forall|j: int, k: u32|
                0 <= j < b.scopes.len() && #[trigger] b.scopes[j].contains_key(k) implies b.scopes[j][k].spec_index() < e.bindings.len() by {
                assert(b.scopes[j] == pre.scopes[j]);
            }
            self.lemma_wf_update(old(self).model());
        }
    }

    /// The innermost body of `old` was replaced by a body with its body
    /// scope, distinct captures and minted bindings: consistency holds.
    proof fn lemma_wf_update(&self, old: EnvModel)
        requires
            env_wf(old),
            self.model().bodies.len() == old.bodies.len(),
            old.bindings.len() <= self.model().bindings.len(),
            forall|i: int| 0 <= i < old.bodies.len() - 1 ==> self.model().bodies[i] == old.bodies[i],
            self.model().bodies.last().scopes.len() >= 1,
            distinct_sources(self.model().bodies.last().captures),
            forall|j: int, k: u32|
                0 <= j < self.model().bodies.last().scopes.len() && #[trigger] self.model().bodies.last().scopes[j].contains_key(k)
                    ==> self.model().bodies.last().scopes[j][k].spec_index()
                    < self.model().bindings.len(),
        ensures
            env_wf(self.model()),
    {
        let e = self.model();
        assert forall|i: int| 0 <= i < e.bodies.len() implies {
            &&& (#[trigger] e.bodies[i]).scopes.len() >= 1
            &&& distinct_sources(e.bodies[i].captures)
            &&& forall|j: int, k: u32|
                0 <= j < e.bodies[i].scopes.len() && #[trigger] e.bodies[i].scopes[j].contains_key(k) ==> e.bodies[i].scopes[j][k].spec_index() < e.bindings.len()
        } by {
            if i < e.bodies.len() - 1 {
                assert(e.bodies[i] == old.bodies[i]);
            }
        }
    }
}


/// A search result found `extra` bodies further out.
pub open spec fn farther(r: Option<(BindingId, nat)>, extra: nat) -> Option<(BindingId, nat)> {
    match r {
        Some((b, d)) => Some((b, d + extra)),
        None => None,
    }
}

proof fn lemma_slot_of(cs: Seq<CaptureSource>, source: CaptureSource, r: nat)
    requires
        distinct_sources(captures_with(cs, source)),
        r < captures_with(cs, source).len(),
        captures_with(cs, source)[r as int] == source,
        !cs.contains(source) ==> r == cs.len(),
    ensures
        slot_of(cs, source) == r,
{
    if cs.contains(source) {
        let i = choose|i: int| 0 <= i < cs.len() && cs[i] == source;
        assert(cs[i] == source);
        if i != r {
            if i < r {
                assert(cs[i] != cs[r as int]);
            } else {
                assert(cs[r as int] != cs[i]);
            }
        }
    }
}

impl Environment {
    /// Find the innermost binding of `sym`, with the number of bodies
    /// between it and the innermost body.
    fn find(&self, sym: SymId) -> (r: Option<(BindingId, usize)>)
        ensures
            match env_find(self.model().bodies, sym.spec_index() as u32) {
                Some((b, d)) => r matches Some((rb, rd)) && rb == b && rd == d,
                None => r is None,
            },
    {
        let ghost key = sym.spec_index() as u32;
        let ghost bodies = self.model().bodies;
        let n = self.bodies.len();
        let mut i = n;
        assert(bodies.take(n as int) =~= bodies);
        while i > 0
            invariant
                i <= n,
                n == bodies.len(),
                bodies == self.model().bodies,
                key == sym.spec_index() as u32,
                env_find(bodies, key) == farther(env_find(bodies.take(i as int), key), (n - i) as nat),
            decreases i,
        {
            let ghost t = bodies.take(i as int);
            assert(t.drop_last() =~= bodies.take(i - 1));
            assert(t.last() == self.bodies@[i - 1].model());
            match self.bodies[i - 1].lookup(sym) {
                Some(b) => {
                    return Some((b, n - i));
                },
                None => {},
            }
            i = i - 1;
        }
        None
    }

    /// Whether `sym` resolves to a primitive: no body binds it and the
    /// primitives name it.
    pub fn is_primitive(&self, sym: SymId) -> (r: bool)
        ensures
            r == env_is_primitive(self.model(), sym),
    {
        let key = sym.index();
        self.find(sym).is_none() && self.primitives.contains_key(&key)
    }

    /// Mint and bind a local in the innermost body.
    pub fn bind(&mut self, origin: SyntaxId, sym: SymId) -> (r: BindingId)
        requires
            env_wf(old(self).model()),
            env_room(old(self).model(), 1),
        ensures
            (final(self).model(), r) == env_bind(old(self).model(), origin, sym),
            env_wf(final(self).model()),
    {
        let ghost e = self.model();
        let ghost before = self.bodies@;
        let mut body = self.bodies.pop().unwrap();
        proof {
            assert(before[before.len() - 1] == body);
            assert(e.bodies[e.bodies.len() - 1] == body.model());
        }
        let ghost pre = body.model();
        let local = body.layout.add_local();
        let binding = self.bindings.add(origin, local);
        let ghost scopes_before = body.scopes@;
        let mut scope = body.scopes.pop().unwrap();
        scope.insert(sym.index(), binding);
        body.scopes.push(scope);
        proof {
            assert(scopes_before[scopes_before.len() - 1]@ == pre.scopes.last());
            assert(body.model().scopes =~= pre.scopes.update(
                pre.scopes.len() - 1,
                pre.scopes.last().insert(sym.spec_index() as u32, binding),
            ));
        }
        self.bodies.push(body);
        proof {
            assert(self.model().bodies =~= e.bodies.update(e.bodies.len() - 1, body.model()));
            assert(local == LocalId::from_index(pre.locals));
            assert(binding == BindingId::from_index(e.bindings.len()));
            let f = self.model();
            let b = f.bodies.last();
            assert forall|j: int, k: u32|
                0 <= j < b.scopes.len() && #[trigger] b.scopes[j].contains_key(k) implies b.scopes[j][k].spec_index() < f.bindings.len() by {
                if j < pre.scopes.len() - 1 {
                    assert(b.scopes[j] == pre.scopes[j]);
                    assert(e.bodies[e.bodies.len() - 1].scopes[j].contains_key(k));
                } else if k != sym.spec_index() as u32 {
                    assert(e.bodies[e.bodies.len() - 1].scopes[j].contains_key(k));
                }
            }
            self.lemma_wf_update(e);
        }
        binding
    }

    /// Forward an enclosing binding through every intervening closure,
    /// returning the slot of the innermost body that holds it.
    fn capture(&mut self, binding: BindingId, body_distance: usize) -> (r: CaptureId)
        requires
            env_wf(old(self).model()),
            env_room(old(self).model(), 1),
            1 <= body_distance < old(self).model().bodies.len(),
            binding.spec_index() < old(self).model().bindings.len(),
        ensures
            ({
                let e = old(self).model();
                let (bodies, last) = thread_capture(
                    e.bodies,
                    e.bodies.len() - body_distance,
                    CaptureSource::Local(e.bindings[binding.spec_index() as int].local),
                );
                &&& final(self).model() == EnvModel {
                    primitives: e.primitives,
                    bindings: e.bindings,
                    bodies,
                }
                &&& last == CaptureSource::Captured(r)
            }),
            env_wf(final(self).model()),
    {
        let ghost e = self.model();
        let start = self.bodies.len() - body_distance;
        let mut source = CaptureSource::Local(self.bindings.get(binding).local);
        let ghost src0 = source;
        let ghost target = thread_capture(e.bodies, start as int, src0);
        let mut tail = self.bodies.split_off(start);
        let mut slot: Option<CaptureId> = None;
        let ghost mut full = e.bodies;
        let ghost mut j: int = 0;
        assert(body_models(tail@) =~= e.bodies.subrange(start as int, e.bodies.len() as int));
        assert(body_models(self.bodies@) =~= e.bodies.take(start as int));
        while tail.len() > 0
            invariant
                0 <= j <= e.bodies.len() - start,
                start >= 1,
                start < e.bodies.len(),
                tail@.len() + start + j == full.len(),
                full.len() == e.bodies.len(),
                self.bodies@.len() == start + j,
                body_models(self.bodies@) == full.take(start + j),
                body_models(tail@) == full.subrange(start + j, full.len() as int),
                thread_capture(full, start + j, source) == target,
                j > 0 ==> (slot matches Some(c) && source == CaptureSource::Captured(c)),
                self.bindings@ == e.bindings,
                self.primitives@ == e.primitives,
                env_wf(e),
                env_room(e, 1),
                forall|i: int| 0 <= i < full.len() ==> {
                    &&& (#[trigger] full[i]).scopes == e.bodies[i].scopes
                    &&& full[i].locals == e.bodies[i].locals
                    &&& distinct_sources(full[i].captures)
                    &&& (i >= start + j ==> full[i] == e.bodies[i])
                },
            ensures
                j == e.bodies.len() - start,
                thread_capture(full, start + j, source) == target,
                body_models(self.bodies@) == full.take(start + j),
                slot matches Some(c) && source == CaptureSource::Captured(c),
                self.bindings@ == e.bindings,
                self.primitives@ == e.primitives,
                forall|i: int| 0 <= i < full.len() ==> {
                    &&& (#[trigger] full[i]).scopes == e.bodies[i].scopes
                    &&& full[i].locals == e.bodies[i].locals
                    &&& distinct_sources(full[i].captures)
                },
            decreases tail@.len(),
        {
            let ghost tail_before = tail@;
            let mut body = tail.remove(0);
            proof {
                assert(tail_before.len() > 0);
                assert(body_models(tail_before) == full.subrange(start + j, full.len() as int));
                assert(body_models(tail_before).len() == tail_before.len());
                assert(start + j < full.len());
                assert(tail_before[0] == body);
                assert(body_models(tail_before)[0] == full[start + j]);
                assert(full[start + j] == e.bodies[start + j]);
            }
            let ghost pre = body.model();
            let c = body.layout.add_capture(source);
            proof {
                lemma_slot_of(pre.captures, source, c.spec_index());
                assert(c == CaptureId::from_index(slot_of(pre.captures, source)));
            }
            slot = Some(c);
            let ghost nb = BodyModel {
                captures: captures_with(pre.captures, source),
                locals: pre.locals,
                scopes: pre.scopes,
            };
            assert(body.model() == nb);
            let ghost prev = self.bodies@;
            self.bodies.push(body);
            proof {
                let k = start + j;
                let newfull = full.update(k, nb);
                assert(body_models(prev) == full.take(k));
                assert forall|i: int| 0 <= i < k + 1 implies #[trigger] body_models(self.bodies@)[i]
                    == newfull.take(k + 1)[i] by {
                    if i < k {
                        assert(self.bodies@[i] == prev[i]);
                        assert(body_models(prev)[i] == full.take(k)[i]);
                    }
                }
                assert(body_models(self.bodies@) =~= newfull.take(k + 1));
                assert(tail@ == tail_before.remove(0));
                assert forall|i: int| 0 <= i < tail@.len() implies #[trigger] body_models(tail@)[i]
                    == newfull.subrange(k + 1, full.len() as int)[i] by {
                    assert(tail@[i] == tail_before[i + 1]);
                    assert(body_models(tail_before)[i + 1] == full.subrange(k, full.len() as int)[i + 1]);
                }
                assert(body_models(tail@) =~= newfull.subrange(k + 1, full.len() as int));
                full = newfull;
                j = j + 1;
            }
            source = CaptureSource::Captured(c);
        }
        proof {
            assert(body_models(self.bodies@) =~= full.take(start + j));
            assert(full.take(start + j) =~= full);
        }
        proof {
            let f = self.model();
            assert(f.bodies =~= full);
            assert forall|i: int| 0 <= i < f.bodies.len() implies {
                &&& (#[trigger] f.bodies[i]).scopes.len() >= 1
                &&& distinct_sources(f.bodies[i].captures)
                &&& forall|jj: int, k: u32|
                    0 <= jj < f.bodies[i].scopes.len() && #[trigger] f.bodies[i].scopes[jj].contains_key(k)
                        ==> f.bodies[i].scopes[jj][k].spec_index() < f.bindings.len()
            } by {
                assert(f.bodies[i].scopes == e.bodies[i].scopes);
            }
        }
        slot.unwrap()
    }

    /// Resolve a symbol to a specific [`Target`] given the current state of
    /// the [`Environment`]: a local of the innermost body, a capture
    /// forwarded from an enclosing body, or, as a last resort, a primitive.
    pub fn resolve(&mut self, sym: SymId) -> (r: Option<Target>)
        requires
            env_wf(old(self).model()),
            env_room(old(self).model(), 1),
        ensures
            (final(self).model(), r) == env_resolve(old(self).model(), sym),
            env_wf(final(self).model()),
    {
        let found = self.find(sym);
        let key = sym.index();
        assert(key == sym.spec_index() as u32);
        match found {
            Some((binding, distance)) => {
                proof {
                    lemma_find_valid(self.model(), key);
                }
                if distance == 0 {
                    Some(Target::Local(binding))
                } else {
                    let slot = self.capture(binding, distance);
                    Some(Target::Captured(slot))
                }
            },
            None => {
                match self.primitives.get(&key) {
                    Some(p) => Some(Target::Primitive(*p)),
                    None => None,
                }
            },
        }
    }

    /// Finish the entry body, which must be the only body and have no arm
    /// scope active, and return the bindings minted and its layout.
    pub fn finish(self) -> (r: (BindingTable, BodyLayout))
        requires
            env_wf(self.model()),
            self.model().bodies.len() == 1,
            self.model().bodies[0].scopes.len() == 1,
        ensures
            r.0@ == self.model().bindings,
            r.1.capture_list() == self.model().bodies[0].captures,
            r.1.locals() == self.model().bodies[0].locals,
    {
        let Environment { primitives: _, bindings, mut bodies } = self;
        let ghost before = bodies@;
        let entry = bodies.pop().unwrap();
        assert(before[0] == entry);
        (bindings, entry.finish())
    }
}

/// A binding found in scope has been minted, and its distance names a body.
proof fn lemma_find_valid(e: EnvModel, key: u32)
    requires
        env_wf(e),
    ensures
        env_find(e.bodies, key) matches Some((b, d)) ==> b.spec_index() < e.bindings.len() && d
            < e.bodies.len(),
{
    lemma_find_valid_in(e, e.bodies, key);
}

proof fn lemma_find_valid_in(e: EnvModel, bodies: Seq<BodyModel>, key: u32)
    requires
        env_wf(e),
        bodies.len() <= e.bodies.len(),
        forall|i: int| 0 <= i < bodies.len() ==> #[trigger] bodies[i] == e.bodies[i],
    ensures
        env_find(bodies, key) matches Some((b, d)) ==> b.spec_index() < e.bindings.len() && d
            < bodies.len(),
    decreases bodies.len(),
{
    if bodies.len() > 0 {
        let last = bodies.last();
        assert(last == e.bodies[bodies.len() - 1]);
        lemma_lookup_valid(e, bodies.len() - 1, last.scopes, key);
        let init = bodies.drop_last();
        assert forall|i: int| 0 <= i < init.len() implies #[trigger] init[i] == e.bodies[i] by {
            assert(init[i] == bodies[i]);
        }
        lemma_find_valid_in(e, init, key);
    }
}

proof fn lemma_lookup_valid(e: EnvModel, i: int, scopes: Seq<Map<u32, BindingId>>, key: u32)
    requires
        env_wf(e),
        0 <= i < e.bodies.len(),
        scopes.len() <= e.bodies[i].scopes.len(),
        forall|j: int| 0 <= j < scopes.len() ==> #[trigger] scopes[j] == e.bodies[i].scopes[j],
    ensures
        body_lookup(scopes, key) matches Some(b) ==> b.spec_index() < e.bindings.len(),
    decreases scopes.len(),
{
    if scopes.len() > 0 {
        let j = scopes.len() - 1;
        assert(scopes.last() == e.bodies[i].scopes[j]);
        if scopes.last().contains_key(key) {
            assert(e.bodies[i].scopes[j].contains_key(key));
        } else {
            let init = scopes.drop_last();
            assert forall|jj: int| 0 <= jj < init.len() implies #[trigger] init[jj] == e.bodies[i].scopes[jj] by {
                assert(init[jj] == scopes[jj]);
            }
            lemma_lookup_valid(e, i, init, key);
        }
    }
}

/* Laws of the environment */

/// Whether two runs of bodies hold the same scopes, body for body.
pub open spec fn same_scopes(a: Seq<BodyModel>, b: Seq<BodyModel>) -> bool {
    &&& a.len() == b.len()
    &&& forall|i: int| 0 <= i < a.len() ==> (#[trigger] a[i]).scopes == b[i].scopes
}

/// Bodies with the same scopes find every name alike.
proof fn lemma_same_scopes_find(a: Seq<BodyModel>, b: Seq<BodyModel>, key: u32)
    requires
        same_scopes(a, b),
    ensures
        env_find(a, key) == env_find(b, key),
    decreases a.len(),
{
    if a.len() > 0 {
        assert(same_scopes(a.drop_last(), b.drop_last())) by {
            assert forall|i: int| 0 <= i < a.drop_last().len() implies (#[trigger] a.drop_last()[i]).scopes
                == b.drop_last()[i].scopes by {
                assert(a.drop_last()[i] == a[i]);
                assert(b.drop_last()[i] == b[i]);
            }
        }
        lemma_same_scopes_find(a.drop_last(), b.drop_last(), key);
        assert(a.last().scopes == b.last().scopes);
    }
}

/// Forwarding a capture adds slots and touches no scope.
proof fn lemma_thread_keeps_scopes(bodies: Seq<BodyModel>, k: int, source: CaptureSource)
    ensures
        same_scopes(thread_capture(bodies, k, source).0, bodies),
    decreases bodies.len() - k,
{
    if !(k >= bodies.len() || k < 0) {
        let b = bodies[k];
        let nb = BodyModel {
            captures: captures_with(b.captures, source),
            locals: b.locals,
            scopes: b.scopes,
        };
        let next = CaptureSource::Captured(CaptureId::from_index(slot_of(b.captures, source)));
        lemma_thread_keeps_scopes(bodies.update(k, nb), k + 1, next);
        let r = thread_capture(bodies.update(k, nb), k + 1, next).0;
        assert forall|i: int| 0 <= i < r.len() implies (#[trigger] r[i]).scopes == bodies[i].scopes by {
            assert(r[i].scopes == bodies.update(k, nb)[i].scopes);
        }
    }
}

/// Resolving a name changes what no name means: captures are forwarded, and
/// every name is found where it was before.
pub proof fn lemma_resolve_keeps_meanings(e: EnvModel, sym: SymId, key: u32)
    requires
        env_wf(e),
    ensures
        env_find(env_resolve(e, sym).0.bodies, key) == env_find(e.bodies, key),
        env_resolve(e, sym).0.bindings == e.bindings,
        env_resolve(e, sym).0.bodies.len() == e.bodies.len(),
{
    let k = sym.spec_index() as u32;
    match env_find(e.bodies, k) {
        Some((b, d)) => {
            if d != 0 {
                let start = e.bodies.len() - d;
                let source = CaptureSource::Local(e.bindings[b.spec_index() as int].local);
                lemma_thread_keeps_scopes(e.bodies, start, source);
                lemma_same_scopes_find(thread_capture(e.bodies, start, source).0, e.bodies, key);
            }
        },
        None => {},
    }
}

/// A body opened inside another sees every name of the enclosing bodies one
/// body further out, and leaving it, whatever it bound, restores them.
pub proof fn lemma_body_scopes(e: EnvModel, inner: BodyModel, key: u32)
    ensures
        env_find(env_open_body(e).bodies, key) == match env_find(e.bodies, key) {
            Some((b, d)) => Some((b, d + 1)),
            None => None,
        },
        env_find(
            env_close_body(EnvModel { primitives: e.primitives, bindings: e.bindings, bodies: e.bodies.push(inner) }).bodies,
            key,
        ) == env_find(e.bodies, key),
{
    let opened = env_open_body(e).bodies;
    assert(opened.drop_last() =~= e.bodies);
    let sc = seq![Map::<u32, BindingId>::empty()];
    assert(sc.last() == Map::<u32, BindingId>::empty());
    assert(!sc.last().contains_key(key));
    assert(sc.drop_last() =~= Seq::<Map<u32, BindingId>>::empty());
    assert(body_lookup(sc.drop_last(), key) is None);
    assert(body_lookup(sc, key) is None);
    assert(opened.last() == empty_body());
    assert(e.bodies.push(inner).drop_last() =~= e.bodies);
}

/// A binding shadows its name in the innermost body and leaves every other
/// name as it was.
pub proof fn lemma_bind_shadows(e: EnvModel, origin: SyntaxId, sym: SymId, key: u32)
    requires
        env_wf(e),
    ensures
        env_find(env_bind(e, origin, sym).0.bodies, sym.spec_index() as u32) == Some(
            (env_bind(e, origin, sym).1, 0nat),
        ),
        key != sym.spec_index() as u32 ==> env_find(env_bind(e, origin, sym).0.bodies, key)
            == env_find(e.bodies, key),
{
    let bodies = env_bind(e, origin, sym).0.bodies;
    let b = e.bodies.last();
    assert(e.bodies[e.bodies.len() - 1].scopes.len() >= 1);
    assert(bodies.drop_last() =~= e.bodies.drop_last());
    let ns = bodies.last().scopes;
    assert(ns.drop_last() =~= b.scopes.drop_last());
}

/// Leaving an arm forgets the names it bound, and keeps the frame slots they
/// took: the body finds names as it did before the arm, with its locals
/// untouched.
pub proof fn lemma_arm_scopes(e: EnvModel, arm: Map<u32, BindingId>, locals: nat, key: u32)
    requires
        env_wf(e),
    ensures
        ({
            let b = e.bodies.last();
            let inside = with_current(
                e,
                BodyModel { captures: b.captures, locals, scopes: b.scopes.push(arm) },
            );
            &&& env_find(env_leave_arm(inside).bodies, key) == env_find(e.bodies, key)
            &&& env_leave_arm(inside).bodies.last().locals == locals
        }),
{
    let b = e.bodies.last();
    let inside = with_current(
        e,
        BodyModel { captures: b.captures, locals, scopes: b.scopes.push(arm) },
    );
    let left = env_leave_arm(inside).bodies;
    assert(e.bodies[e.bodies.len() - 1].scopes.len() >= 1);
    assert(b.scopes.push(arm).drop_last() =~= b.scopes);
    assert(left.drop_last() =~= e.bodies.drop_last());
    assert(left.last().scopes == b.scopes);
}

} // verus!
