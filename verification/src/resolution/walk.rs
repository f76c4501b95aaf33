//! What resolution computes.
//!
//! Resolution walks forms with an explicit stack of work.  This module
//! states that walk over models: each step pops one item of work, and may
//! push more, grow the environment, record a resolution or report an error.
//! The executable resolver is held to it.
use vstd::prelude::*;
use crate::interner::SymId;
use crate::parser::{HirForm, HirKind, form_count, forms_count};
use crate::resolution::{
    ArmRole, BodyModel, EnvModel, RecModel, ResModel, ResolutionError, ResolutionErrorKind, Target,
    captures_with, env_bind, env_close_body, env_enter_arm, env_leave_arm, env_open_body,
    env_resolve, env_room, initial_env, recognise_spec, slot_of, thread_capture,
};
use crate::source::SyntaxId;

verus! {

/// An item of work, as the specification sees it.
pub enum WorkModel {
    /// A body of forms to resolve.
    Body(Seq<HirForm>),
    /// Finish a closure body, recording it.
    FinishBody(SyntaxId),
    /// Finish a recursive closure body, recording it.
    FinishRecursiveBody(SyntaxId),
    /// A branch of a conditional that needs to be resolved.
    Arm(HirForm, ArmRole),
    /// Finish the branch arm.
    FinishArm,
}

/// The state of a resolution between steps.
pub struct RState {
    /// Work left, next item last.
    pub work: Seq<WorkModel>,
    /// The lexical environment.
    pub env: EnvModel,
    /// Resolutions recorded, by the index of the form's id.
    pub map: Map<u32, ResModel>,
    /// Errors reported, in order.
    pub errors: Seq<ResolutionError>,
    /// Whether some form was given a second resolution.
    pub clash: bool,
}

/// The state a resolution of `forms` starts in, the primitives being
/// `prims`.
pub open spec fn initial_rstate(forms: Seq<HirForm>, prims: Seq<SymId>) -> RState {
    RState {
        work: seq![WorkModel::Body(forms)],
        env: initial_env(prims),
        map: Map::empty(),
        errors: seq![],
        clash: false,
    }
}

/// `s` with its work replaced.
pub open spec fn with_work(s: RState, work: Seq<WorkModel>) -> RState {
    RState { work, env: s.env, map: s.map, errors: s.errors, clash: s.clash }
}

/// `s` with its environment replaced.
pub open spec fn with_env(s: RState, env: EnvModel) -> RState {
    RState { work: s.work, env, map: s.map, errors: s.errors, clash: s.clash }
}

/// Record resolution `r` for the form `id`.  A form already recorded keeps
/// its resolution, and the clash is noted.
pub open spec fn record(s: RState, id: SyntaxId, r: ResModel) -> RState {
    let key = id.spec_index() as u32;
    RState {
        work: s.work,
        env: s.env,
        map: if s.map.contains_key(key) {
            s.map
        } else {
            s.map.insert(key, r)
        },
        errors: s.errors,
        clash: s.clash || s.map.contains_key(key),
    }
}

/// Report an error of `kind` at the form `id`.
pub open spec fn report(s: RState, id: SyntaxId, kind: ResolutionErrorKind) -> RState {
    RState {
        work: s.work,
        env: s.env,
        map: s.map,
        errors: s.errors.push(ResolutionError { origin: id, kind }),
        clash: s.clash,
    }
}

/// Resolve the reference `f` to `sym`: record its target, or poison it and
/// report it unresolved.
pub open spec fn reference(s: RState, f: HirForm, sym: SymId) -> RState {
    let (e, t) = env_resolve(s.env, sym);
    let s1 = with_env(s, e);
    match t {
        Some(t) => record(s1, f.id, ResModel::Ref(t)),
        None => report(
            record(s1, f.id, ResModel::Poison),
            f.id,
            ResolutionErrorKind::UnresolvedSymbol,
        ),
    }
}

/// Resolve one form: data is left alone, a binding is minted, a reference
/// resolved, and a vector opens a body whose forms are resolved next.
pub open spec fn resolve_form(s: RState, f: HirForm) -> RState {
    match f.kind {
        HirKind::Bind(sym) => {
            let (e, b) = env_bind(s.env, f.id, sym);
            record(with_env(s, e), f.id, ResModel::Bound(b))
        },
        HirKind::Load(sym) => reference(s, f, sym),
        HirKind::Call(sym) => reference(s, f, sym),
        HirKind::Vector(v) => RState {
            work: s.work.push(WorkModel::FinishBody(f.id)).push(WorkModel::Body(v@)),
            env: env_open_body(s.env),
            map: s.map,
            errors: s.errors,
            clash: s.clash,
        },
        _ => s,
    }
}

/// Resolve a recognised pattern.
pub open spec fn apply_recognition(s: RState, rec: RecModel) -> RState {
    match rec {
        RecModel::Conditional(then_arm, else_arm, operator) => {
            let s1 = record(s, operator.id, ResModel::Conditional);
            with_work(
                s1,
                s1.work.push(WorkModel::Arm(else_arm, ArmRole::Else)).push(
                    WorkModel::Arm(then_arm, ArmRole::Then),
                ),
            )
        },
        RecModel::Recursive(operand_id, body, operator) => {
            let s1 = record(s, operator.id, ResModel::Recursive);
            RState {
                work: s1.work.push(WorkModel::FinishRecursiveBody(operand_id)).push(
                    WorkModel::Body(body),
                ),
                env: env_open_body(s1.env),
                map: s1.map,
                errors: s1.errors,
                clash: s1.clash,
            }
        },
        RecModel::RecursiveData(operand_id, operator_id) => report(
            record(record(s, operator_id, ResModel::Recursive), operand_id, ResModel::Poison),
            operand_id,
            ResolutionErrorKind::RecDataOperand,
        ),
    }
}

/// One step: pop the next item of work and do it.
pub open spec fn step(s: RState) -> RState {
    if s.work.len() == 0 {
        s
    } else {
        let rest = with_work(s, s.work.drop_last());
        match s.work.last() {
            WorkModel::Body(fs) => match recognise_spec(fs, s.env) {
                Some((rec, remaining)) => apply_recognition(
                    with_work(rest, rest.work.push(WorkModel::Body(remaining))),
                    rec,
                ),
                None => if fs.len() == 0 {
                    rest
                } else {
                    resolve_form(with_work(rest, rest.work.push(WorkModel::Body(fs.skip(1)))), fs[0])
                },
            },
            WorkModel::FinishBody(id) => record(
                with_env(rest, env_close_body(s.env)),
                id,
                ResModel::MakesClosure(s.env.bodies.last().captures, s.env.bodies.last().locals),
            ),
            WorkModel::FinishRecursiveBody(id) => record(
                with_env(rest, env_close_body(s.env)),
                id,
                ResModel::MakesRecursiveClosure(
                    s.env.bodies.last().captures,
                    s.env.bodies.last().locals,
                ),
            ),
            WorkModel::Arm(f, role) => {
                let s1 = record(rest, f.id, ResModel::BranchArm(role));
                match f.kind {
                    HirKind::Vector(v) => RState {
                        work: s1.work.push(WorkModel::FinishArm).push(WorkModel::Body(v@)),
                        env: env_enter_arm(s1.env),
                        map: s1.map,
                        errors: s1.errors,
                        clash: s1.clash,
                    },
                    _ => s1,
                }
            },
            WorkModel::FinishArm => with_env(rest, env_leave_arm(s.env)),
        }
    }
}

/* Termination */

/// How much an item of work can still do: every form counts three times.
pub open spec fn work_weight(w: WorkModel) -> nat {
    match w {
        WorkModel::Body(fs) => 1 + 3 * forms_count(fs),
        WorkModel::Arm(f, _) => 3 * form_count(f),
        _ => 1,
    }
}

/// How much the work left can still do.
pub open spec fn weight(ws: Seq<WorkModel>) -> nat
    decreases ws.len(),
{
    if ws.len() == 0 {
        0
    } else {
        weight(ws.drop_last()) + work_weight(ws.last())
    }
}

/// The state once all work is done.
pub open spec fn walk(s: RState) -> RState
    decreases weight(s.work),
{
    if s.work.len() == 0 {
        s
    } else {
        proof {
            lemma_step_weight(s);
        }
        walk(step(s))
    }
}

/// What resolving `forms` with primitives `prims` ends in.
pub open spec fn resolution_of(forms: Seq<HirForm>, prims: Seq<SymId>) -> RState {
    walk(initial_rstate(forms, prims))
}

/// Pushing work adds its weight.
pub proof fn lemma_weight_push(ws: Seq<WorkModel>, w: WorkModel)
    ensures
        weight(ws.push(w)) == weight(ws) + work_weight(w),
{
    assert(ws.push(w).drop_last() =~= ws);
}

/// The count of forms splits off its first few trees.
pub proof fn lemma_forms_count_skip(fs: Seq<HirForm>, n: int)
    requires
        0 <= n <= fs.len(),
    ensures
        n >= 1 ==> forms_count(fs) == form_count(fs[0]) + forms_count(fs.skip(1)),
        n >= 2 ==> forms_count(fs) == form_count(fs[0]) + form_count(fs[1]) + forms_count(
            fs.skip(2),
        ),
        n >= 3 ==> forms_count(fs) == form_count(fs[0]) + form_count(fs[1]) + form_count(fs[2])
            + forms_count(fs.skip(3)),
{
    if n >= 1 {
        assert(fs.skip(1) == fs.subrange(1, fs.len() as int));
    }
    if n >= 2 {
        let t = fs.skip(1);
        assert(t[0] == fs[1]);
        assert(t.subrange(1, t.len() as int) =~= fs.skip(2));
    }
    if n >= 3 {
        let t = fs.skip(2);
        assert(t[0] == fs[2]);
        assert(t.subrange(1, t.len() as int) =~= fs.skip(3));
    }
}

/// Every step does some of the work left.
pub proof fn lemma_step_weight(s: RState)
    requires
        s.work.len() > 0,
    ensures
        weight(step(s).work) < weight(s.work),
{
    let ws = s.work;
    let rest = ws.drop_last();
    assert(rest.push(ws.last()) =~= ws);
    lemma_weight_push(rest, ws.last());
    match ws.last() {
        WorkModel::Body(fs) => {
            match recognise_spec(fs, s.env) {
                Some((rec, remaining)) => {
                    let base = rest.push(WorkModel::Body(remaining));
                    lemma_weight_push(rest, WorkModel::Body(remaining));
                    match rec {
                        RecModel::Conditional(t, e, op) => {
                            lemma_forms_count_skip(fs, 3);
                            lemma_weight_push(base, WorkModel::Arm(e, ArmRole::Else));
                            lemma_weight_push(
                                base.push(WorkModel::Arm(e, ArmRole::Else)),
                                WorkModel::Arm(t, ArmRole::Then),
                            );
                        },
                        RecModel::Recursive(operand, body, op) => {
                            lemma_forms_count_skip(fs, 2);
                            lemma_weight_push(base, WorkModel::FinishRecursiveBody(operand));
                            lemma_weight_push(
                                base.push(WorkModel::FinishRecursiveBody(operand)),
                                WorkModel::Body(body),
                            );
                        },
                        RecModel::RecursiveData(_, _) => {
                            lemma_forms_count_skip(fs, 2);
                        },
                    }
                },
                None => {
                    if fs.len() > 0 {
                        lemma_forms_count_skip(fs, 1);
                        let base = rest.push(WorkModel::Body(fs.skip(1)));
                        lemma_weight_push(rest, WorkModel::Body(fs.skip(1)));
                        if let HirKind::Vector(v) = fs[0].kind {
                            lemma_weight_push(base, WorkModel::FinishBody(fs[0].id));
                            lemma_weight_push(
                                base.push(WorkModel::FinishBody(fs[0].id)),
                                WorkModel::Body(v@),
                            );
                        }
                    }
                },
            }
        },
        WorkModel::Arm(f, role) => {
            if let HirKind::Vector(v) = f.kind {
                lemma_weight_push(rest, WorkModel::FinishArm);
                lemma_weight_push(rest.push(WorkModel::FinishArm), WorkModel::Body(v@));
            }
        },
        _ => {},
    }
}

/* Bracketing: the markers left in the work are the bodies and arms open */

/// The finishing markers in `ws`, oldest first: `true` for a body, `false`
/// for an arm.
pub open spec fn marks(ws: Seq<WorkModel>) -> Seq<bool>
    decreases ws.len(),
{
    if ws.len() == 0 {
        seq![]
    } else {
        marks(ws.drop_last()) + match ws.last() {
            WorkModel::FinishBody(_) => seq![true],
            WorkModel::FinishRecursiveBody(_) => seq![true],
            WorkModel::FinishArm => seq![false],
            _ => seq![],
        }
    }
}

/// `n` arm markers.
pub open spec fn arm_marks(n: nat) -> Seq<bool> {
    Seq::new(n, |_i: int| false)
}

/// The bodies and arms open in `bodies`, outermost first: every body but
/// the entry one, each followed by its arm scopes.
pub open spec fn frames(bodies: Seq<BodyModel>) -> Seq<bool>
    decreases bodies.len(),
{
    if bodies.len() == 0 {
        seq![]
    } else {
        frames(bodies.drop_last()) + (if bodies.len() > 1 {
            seq![true]
        } else {
            seq![]
        }) + arm_marks((bodies.last().scopes.len() - 1) as nat)
    }
}

/// Whether two body sequences have the same shape: as many bodies, each
/// with as many scopes.
pub open spec fn same_shape(a: Seq<BodyModel>, b: Seq<BodyModel>) -> bool {
    &&& a.len() == b.len()
    &&& forall|i: int| 0 <= i < a.len() ==> (#[trigger] a[i]).scopes.len() == b[i].scopes.len()
}

/// Bodies of the same scope shape open the same frames.
pub proof fn lemma_frames_shape(a: Seq<BodyModel>, b: Seq<BodyModel>)
    requires
        same_shape(a, b),
    ensures
        frames(a) == frames(b),
    decreases a.len(),
{
    if a.len() > 0 {
        assert(same_shape(a.drop_last(), b.drop_last())) by {
            assert forall|i: int| 0 <= i < a.drop_last().len() implies (#[trigger] a.drop_last()[i]).scopes.len()
                == b.drop_last()[i].scopes.len() by {
                assert(a.drop_last()[i] == a[i]);
                assert(b.drop_last()[i] == b[i]);
            }
        }
        lemma_frames_shape(a.drop_last(), b.drop_last());
        assert(a.last().scopes.len() == b.last().scopes.len());
    }
}

/// Opening a body opens a body frame.
pub proof fn lemma_frames_open(bodies: Seq<BodyModel>, nb: BodyModel)
    requires
        bodies.len() >= 1,
        nb.scopes.len() == 1,
    ensures
        frames(bodies.push(nb)) == frames(bodies).push(true),
{
    assert(bodies.push(nb).drop_last() =~= bodies);
    assert(arm_marks(0) =~= Seq::<bool>::empty());
    assert(frames(bodies.push(nb)) =~= frames(bodies).push(true));
}

/// The frames of bodies are those below the innermost body, a body frame
/// for it unless it is the entry body, and one arm frame per arm it holds.
pub proof fn lemma_frames_last(bodies: Seq<BodyModel>, nb: BodyModel)
    requires
        bodies.len() >= 1,
        forall|i: int| 0 <= i < bodies.len() ==> (#[trigger] bodies[i]).scopes.len() >= 1,
        nb.scopes.len() >= 1,
    ensures
        frames(bodies.update(bodies.len() - 1, nb)) == frames(bodies.drop_last()) + (if bodies.len()
            > 1 {
            seq![true]
        } else {
            seq![]
        }) + arm_marks((nb.scopes.len() - 1) as nat),
        frames(bodies) == frames(bodies.drop_last()) + (if bodies.len() > 1 {
            seq![true]
        } else {
            seq![]
        }) + arm_marks((bodies.last().scopes.len() - 1) as nat),
{
    let u = bodies.update(bodies.len() - 1, nb);
    assert(u.drop_last() =~= bodies.drop_last());
}

/// Entering an arm opens an arm frame.
pub proof fn lemma_frames_enter(bodies: Seq<BodyModel>)
    requires
        bodies.len() >= 1,
        forall|i: int| 0 <= i < bodies.len() ==> (#[trigger] bodies[i]).scopes.len() >= 1,
    ensures
        ({
            let b = bodies.last();
            let nb = BodyModel { captures: b.captures, locals: b.locals, scopes: b.scopes.push(Map::empty()) };
            frames(bodies.update(bodies.len() - 1, nb)) == frames(bodies).push(false)
        }),
{
    let b = bodies.last();
    assert(b == bodies[bodies.len() - 1]);
    let nb = BodyModel { captures: b.captures, locals: b.locals, scopes: b.scopes.push(Map::empty()) };
    lemma_frames_last(bodies, nb);
    let n = (b.scopes.len() - 1) as nat;
    assert(arm_marks(n + 1) =~= arm_marks(n).push(false));
    let x = if bodies.len() > 1 { seq![true] } else { Seq::<bool>::empty() };
    assert(frames(bodies.drop_last()) + x + arm_marks(n).push(false) =~= (frames(bodies.drop_last()) + x + arm_marks(n)).push(false));
}

/// An arm frame on top is the innermost body's last arm, and leaving it
/// closes that frame.
pub proof fn lemma_frames_leave(bodies: Seq<BodyModel>)
    requires
        bodies.len() >= 1,
        forall|i: int| 0 <= i < bodies.len() ==> (#[trigger] bodies[i]).scopes.len() >= 1,
        frames(bodies).len() > 0,
        frames(bodies).last() == false,
    ensures
        bodies.last().scopes.len() > 1,
        ({
            let b = bodies.last();
            let nb = BodyModel { captures: b.captures, locals: b.locals, scopes: b.scopes.drop_last() };
            frames(bodies.update(bodies.len() - 1, nb)) == frames(bodies).drop_last()
        }),
{
    let b = bodies.last();
    assert(b == bodies[bodies.len() - 1]);
    let x = if bodies.len() > 1 { seq![true] } else { Seq::<bool>::empty() };
    lemma_frames_last(bodies, b);
    if b.scopes.len() == 1 {
        assert(arm_marks(0) =~= Seq::<bool>::empty());
        assert(frames(bodies) =~= frames(bodies.drop_last()) + x);
        if bodies.len() == 1 {
            assert(frames(bodies.drop_last()) =~= Seq::<bool>::empty());
        }
        assert(false);
    }
    let nb = BodyModel { captures: b.captures, locals: b.locals, scopes: b.scopes.drop_last() };
    lemma_frames_last(bodies, nb);
    let n = (b.scopes.len() - 2) as nat;
    assert(arm_marks(n + 1) =~= arm_marks(n).push(false));
    assert(frames(bodies.drop_last()) + x + arm_marks(n) =~= (frames(bodies.drop_last()) + x + arm_marks(n).push(false)).drop_last());
}

/// A body frame on top is a body other than the entry body, with no arm
/// open, and closing it closes that frame.
pub proof fn lemma_frames_close(bodies: Seq<BodyModel>)
    requires
        bodies.len() >= 1,
        forall|i: int| 0 <= i < bodies.len() ==> (#[trigger] bodies[i]).scopes.len() >= 1,
        frames(bodies).len() > 0,
        frames(bodies).last() == true,
    ensures
        bodies.len() > 1,
        bodies.last().scopes.len() == 1,
        frames(bodies.drop_last()) == frames(bodies).drop_last(),
{
    let b = bodies.last();
    assert(b == bodies[bodies.len() - 1]);
    lemma_frames_last(bodies, b);
    let x = if bodies.len() > 1 { seq![true] } else { Seq::<bool>::empty() };
    if b.scopes.len() > 1 {
        let n = (b.scopes.len() - 1) as nat;
        assert((frames(bodies.drop_last()) + x + arm_marks(n)).last() == arm_marks(n)[n - 1]);
        assert(false);
    }
    assert(arm_marks(0) =~= Seq::<bool>::empty());
    assert(frames(bodies) =~= frames(bodies.drop_last()) + x);
    if bodies.len() == 1 {
        assert(frames(bodies.drop_last()) =~= Seq::<bool>::empty());
        assert(false);
    }
    assert((frames(bodies.drop_last()) + x).drop_last() =~= frames(bodies.drop_last()));
}

/// With no frame open, only the entry body is left, with no arm open.
pub proof fn lemma_frames_done(bodies: Seq<BodyModel>)
    requires
        bodies.len() >= 1,
        forall|i: int| 0 <= i < bodies.len() ==> (#[trigger] bodies[i]).scopes.len() >= 1,
        frames(bodies).len() == 0,
    ensures
        bodies.len() == 1,
        bodies[0].scopes.len() == 1,
{
    let b = bodies.last();
    assert(b == bodies[bodies.len() - 1]);
    lemma_frames_last(bodies, b);
    let x = if bodies.len() > 1 { seq![true] } else { Seq::<bool>::empty() };
    assert((frames(bodies.drop_last()) + x + arm_marks((b.scopes.len() - 1) as nat)).len() == frames(
        bodies.drop_last(),
    ).len() + x.len() + (b.scopes.len() - 1));
}

/// Pushing work marks the frame it will close, if any.
pub proof fn lemma_marks_push(ws: Seq<WorkModel>, w: WorkModel)
    ensures
        marks(ws.push(w)) == marks(ws) + match w {
            WorkModel::FinishBody(_) => seq![true],
            WorkModel::FinishRecursiveBody(_) => seq![true],
            WorkModel::FinishArm => seq![false],
            _ => seq![],
        },
{
    assert(ws.push(w).drop_last() =~= ws);
}

/* Room: ids minted stay within u32 */

/// Room for more bindings is room for fewer.
pub proof fn lemma_room_weaken(e: EnvModel, n: nat, m: nat)
    requires
        env_room(e, n),
        m <= n,
    ensures
        env_room(e, m),
{
}

/// Binding grows the environment by one binding and one local.
pub proof fn lemma_bind_room(e: EnvModel, origin: SyntaxId, sym: SymId, n: nat)
    requires
        e.bodies.len() >= 1,
        e.bodies.last().scopes.len() >= 1,
        env_room(e, n + 1),
    ensures
        env_room(env_bind(e, origin, sym).0, n),
        same_shape(env_bind(e, origin, sym).0.bodies, e.bodies),
{
    let f = env_bind(e, origin, sym).0;
    assert forall|i: int| 0 <= i < f.bodies.len() implies (#[trigger] f.bodies[i]).captures.len() + n
        <= u32::MAX && f.bodies[i].locals + n <= u32::MAX by {
        assert(e.bodies[i].captures.len() + n + 1 <= u32::MAX);
    }
    assert forall|i: int| 0 <= i < f.bodies.len() implies (#[trigger] f.bodies[i]).scopes.len()
        == e.bodies[i].scopes.len() by {
        if i == f.bodies.len() - 1 {
            assert(e.bodies[i] == e.bodies.last());
        }
    }
}

proof fn lemma_thread_room(bodies: Seq<BodyModel>, k: int, source: crate::resolution::CaptureSource)
    ensures
        thread_capture(bodies, k, source).0.len() == bodies.len(),
        forall|i: int|
            0 <= i < bodies.len() ==> {
                &&& (#[trigger] thread_capture(bodies, k, source).0[i]).captures.len()
                    <= bodies[i].captures.len() + 1
                &&& thread_capture(bodies, k, source).0[i].locals == bodies[i].locals
                &&& thread_capture(bodies, k, source).0[i].scopes == bodies[i].scopes
                &&& (i < k ==> thread_capture(bodies, k, source).0[i] == bodies[i])
            },
    decreases bodies.len() - k,
{
    if 0 <= k < bodies.len() {
        let b = bodies[k];
        let nb = BodyModel {
            captures: captures_with(b.captures, source),
            locals: b.locals,
            scopes: b.scopes,
        };
        let next = crate::resolution::CaptureSource::Captured(
            crate::resolution::CaptureId::from_index(slot_of(b.captures, source)),
        );
        let u = bodies.update(k, nb);
        lemma_thread_room(u, k + 1, next);
        assert(thread_capture(bodies, k, source) == thread_capture(u, k + 1, next));
        let t = thread_capture(u, k + 1, next).0;
        assert forall|i: int| 0 <= i < bodies.len() implies {
            &&& (#[trigger] thread_capture(bodies, k, source).0[i]).captures.len()
                <= bodies[i].captures.len() + 1
            &&& thread_capture(bodies, k, source).0[i].locals == bodies[i].locals
            &&& thread_capture(bodies, k, source).0[i].scopes == bodies[i].scopes
            &&& (i < k ==> thread_capture(bodies, k, source).0[i] == bodies[i])
        } by {
            assert(thread_capture(bodies, k, source).0[i] == t[i]);
            if i == k {
                assert(u[i] == nb);
                assert(t[i] == u[i]);
            } else {
                assert(u[i] == bodies[i]);
            }
        }
    }
}

/// Resolving a name grows each body by at most one capture.
pub proof fn lemma_resolve_room(e: EnvModel, sym: SymId, n: nat)
    requires
        env_room(e, n + 1),
    ensures
        env_room(env_resolve(e, sym).0, n),
        same_shape(env_resolve(e, sym).0.bodies, e.bodies),
        env_resolve(e, sym).0.bindings == e.bindings,
{
    let key = sym.spec_index() as u32;
    let f = env_resolve(e, sym).0;
    match crate::resolution::env_find(e.bodies, key) {
        Some((b, d)) => {
            if d != 0 {
                let start = e.bodies.len() - d;
                let src = crate::resolution::CaptureSource::Local(
                    e.bindings[b.spec_index() as int].local,
                );
                lemma_thread_room(e.bodies, start, src);
                assert forall|i: int| 0 <= i < f.bodies.len() implies (#[trigger] f.bodies[i]).captures.len()
                    + n <= u32::MAX && f.bodies[i].locals + n <= u32::MAX by {
                    assert(f.bodies[i] == thread_capture(e.bodies, start, src).0[i]);
                    assert(e.bodies[i].captures.len() + n + 1 <= u32::MAX);
                }
                assert forall|i: int| 0 <= i < f.bodies.len() implies (#[trigger] f.bodies[i]).scopes.len()
                    == e.bodies[i].scopes.len() by {
                    assert(f.bodies[i] == thread_capture(e.bodies, start, src).0[i]);
                }
            }
        },
        None => {},
    }
}


/// Opening a body keeps room: the new body is empty.
pub proof fn lemma_open_room(e: EnvModel, n: nat)
    requires
        env_room(e, n),
    ensures
        env_room(env_open_body(e), n),
{
    let f = env_open_body(e);
    assert forall|i: int| 0 <= i < f.bodies.len() implies (#[trigger] f.bodies[i]).captures.len() + n
        <= u32::MAX && f.bodies[i].locals + n <= u32::MAX by {
        if i < e.bodies.len() {
            assert(f.bodies[i] == e.bodies[i]);
        }
    }
}

/// Closing a body keeps room.
pub proof fn lemma_close_room(e: EnvModel, n: nat)
    requires
        env_room(e, n),
        e.bodies.len() >= 1,
    ensures
        env_room(env_close_body(e), n),
{
    let f = env_close_body(e);
    assert forall|i: int| 0 <= i < f.bodies.len() implies (#[trigger] f.bodies[i]).captures.len() + n
        <= u32::MAX && f.bodies[i].locals + n <= u32::MAX by {
        assert(f.bodies[i] == e.bodies[i]);
    }
}

/// Entering or leaving an arm keeps room: only scopes change.
pub proof fn lemma_arm_room(e: EnvModel, n: nat)
    requires
        env_room(e, n),
        e.bodies.len() >= 1,
    ensures
        env_room(env_enter_arm(e), n),
        env_room(env_leave_arm(e), n),
{
    let f = env_enter_arm(e);
    let g = env_leave_arm(e);
    assert forall|i: int| 0 <= i < f.bodies.len() implies (#[trigger] f.bodies[i]).captures.len() + n
        <= u32::MAX && f.bodies[i].locals + n <= u32::MAX by {
        assert(e.bodies[i].captures.len() + n <= u32::MAX);
        if i == e.bodies.len() - 1 {
            assert(e.bodies[i] == e.bodies.last());
        }
    }
    assert forall|i: int| 0 <= i < g.bodies.len() implies (#[trigger] g.bodies[i]).captures.len() + n
        <= u32::MAX && g.bodies[i].locals + n <= u32::MAX by {
        assert(e.bodies[i].captures.len() + n <= u32::MAX);
        if i == e.bodies.len() - 1 {
            assert(e.bodies[i] == e.bodies.last());
        }
    }
}

} // verus!
