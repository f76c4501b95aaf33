//! Main resolution routine.
use vstd::prelude::*;
use crate::diagnostics::conv::reports_resolution_error;
use crate::diagnostics::{Diagnostic, Diagnostics};
use crate::interner::Interner;
use crate::parser::{HirForm, HirKind, forms_count};
use crate::resolution::{
    ArmRole, Environment, RState, RecModel, Recognition, ResModel, Resolution, ResolutionError,
    ResolutionErrorKind, ResolutionMap, ResolutionResult, WorkModel, apply_recognition, env_room,
    env_wf, frames, initial_rstate, lemma_bind_room, lemma_frames_close, lemma_frames_done,
    lemma_frames_enter, lemma_frames_leave, lemma_frames_open, lemma_frames_shape, lemma_marks_push,
    lemma_resolve_room, lemma_step_weight, lemma_weight_push, marks, rec_model, recognise,
    recognise_spec, res_model, resolution_of, resolve_form, same_shape, step, walk, weight,
};
use crate::runtime::PrimitiveRegistry;
use crate::source::{SourceTable, SyntaxId};

verus! {

/// Whether `ds` reports exactly the errors `es`, in order.
pub open spec fn reports_resolution_errors(ds: Seq<Diagnostic>, es: Seq<ResolutionError>) -> bool {
    &&& ds.len() == es.len()
    &&& forall|k: int| 0 <= k < ds.len() ==> reports_resolution_error(#[trigger] ds[k], es[k])
}

/// Resolve a complete sequence of [`HirForm`]s.
///
/// This constructs its own [`Diagnostics`] and always passes them back to
/// the caller, with the result.  Every id minted must fit a `u32`, which
/// bounds the number of forms, and no form may be resolved twice, as it
/// would be were two forms to share an id.
pub fn resolve(
    forms: &[HirForm],
    _source_table: &SourceTable,
    _interner: &Interner,
    primitives: &PrimitiveRegistry,
) -> (r: (Option<ResolutionResult>, Diagnostics))
    requires
        primitives@.len() <= usize::MAX,
        1 + 3 * forms_count(forms@) <= u32::MAX,
        !resolution_of(forms@, primitives@).clash,
    ensures
        r.0 matches Some(res) && res.map.model() == resolution_of(forms@, primitives@).map
            && res.bindings@ == resolution_of(forms@, primitives@).env.bindings
            && res.entry.capture_list() == resolution_of(forms@, primitives@).env.bodies[0].captures
            && res.entry.locals() == resolution_of(forms@, primitives@).env.bodies[0].locals,
        reports_resolution_errors(r.1@, resolution_of(forms@, primitives@).errors),
{
    let mut resolver = Resolver::new(primitives);
    proof {
        let s = initial_rstate(forms@, primitives@);
        assert(resolver.abs(seq![Work::Body(forms)]) == s) by {
            assert(works_model(seq![Work::Body(forms)]) =~= seq![WorkModel::Body(forms@)]);
            assert(resolver.map.model() =~= Map::<u32, ResModel>::empty());
        }
        assert(marks(s.work) =~= Seq::<bool>::empty()) by {
            assert(s.work.drop_last() =~= Seq::<WorkModel>::empty());
            assert(marks(Seq::<WorkModel>::empty()) == Seq::<bool>::empty());
        }
        assert(frames(s.env.bodies) =~= Seq::<bool>::empty()) by {
            assert(s.env.bodies.drop_last() =~= Seq::<crate::resolution::BodyModel>::empty());
            assert(frames(Seq::<crate::resolution::BodyModel>::empty()) == Seq::<bool>::empty());
            assert(crate::resolution::arm_marks(0) =~= Seq::<bool>::empty());
        }
        assert(weight(s.work) == 1 + 3 * forms_count(forms@)) by {
            assert(s.work.drop_last() =~= Seq::<WorkModel>::empty());
            assert(weight(Seq::<WorkModel>::empty()) == 0);
        }
    }
    resolver.walk(forms);
    let (result, diagnostics) = resolver.finish();
    (Some(result), diagnostics)
}

/// An explicit traversal action.
enum Work<'forms> {
    /// A body of forms to resolve.
    Body(&'forms [HirForm]),
    /// Finish a closure body, recording it.
    FinishBody(SyntaxId),
    /// Finish a recursive closure body, recording it.
    FinishRecursiveBody(SyntaxId),
    /// A branch of a conditional that needs to be resolved.
    Arm(&'forms HirForm, ArmRole),
    /// Finish the branch arm.
    FinishArm,
}

spec fn work_model(w: Work) -> WorkModel {
    match w {
        Work::Body(fs) => WorkModel::Body(fs@),
        Work::FinishBody(id) => WorkModel::FinishBody(id),
        Work::FinishRecursiveBody(id) => WorkModel::FinishRecursiveBody(id),
        Work::Arm(f, role) => WorkModel::Arm(*f, role),
        Work::FinishArm => WorkModel::FinishArm,
    }
}

spec fn works_model(ws: Seq<Work>) -> Seq<WorkModel> {
    ws.map_values(|w: Work| work_model(w))
}

proof fn lemma_works_push(ws: Seq<Work>, w: Work)
    ensures
        works_model(ws.push(w)) == works_model(ws).push(work_model(w)),
{
    assert(works_model(ws.push(w)) =~= works_model(ws).push(work_model(w)));
}

proof fn lemma_works_pop(ws: Seq<Work>)
    requires
        ws.len() > 0,
    ensures
        works_model(ws.drop_last()) == works_model(ws).drop_last(),
        works_model(ws).last() == work_model(ws.last()),
        works_model(ws).len() == ws.len(),
{
    assert(works_model(ws.drop_last()) =~= works_model(ws).drop_last());
}

/// A clash, once made, stays.
proof fn lemma_walk_clash(s: RState)
    requires
        s.clash,
    ensures
        walk(s).clash,
    decreases weight(s.work),
{
    if s.work.len() > 0 {
        lemma_step_weight(s);
        lemma_walk_clash(step(s));
    }
}

/// Resolver state machine.
struct Resolver {
    /// Active lexical environment and body builders.
    environment: Environment,
    /// Resolutions recorded so far.
    map: ResolutionMap,
    /// Diagnostics reported so far.
    diagnostics: Diagnostics,
    /// The errors the diagnostics report.
    errors: Ghost<Seq<ResolutionError>>,
}

impl Resolver {
    /// The resolver, with work `work` left, as a state of the walk.
    spec fn abs(&self, work: Seq<Work>) -> RState {
        RState {
            work: works_model(work),
            env: self.environment.model(),
            map: self.map.model(),
            errors: self.errors@,
            clash: false,
        }
    }

    /// The environment is consistent and the diagnostics report the errors.
    spec fn ok(&self) -> bool {
        &&& env_wf(self.environment.model())
        &&& reports_resolution_errors(self.diagnostics@, self.errors@)
    }

    /// Construct resolver state for an entry body.
    fn new(registry: &PrimitiveRegistry) -> (r: Self)
        requires
            registry@.len() <= usize::MAX,
        ensures
            r.ok(),
            r.environment.model() == crate::resolution::initial_env(registry@),
            r.map.entries() == Map::<u32, Resolution>::empty(),
            r.errors@ == Seq::<ResolutionError>::empty(),
    {
        Resolver {
            environment: Environment::new(registry),
            map: ResolutionMap::new(),
            diagnostics: Diagnostics::new(),
            errors: Ghost(Seq::empty()),
        }
    }

    /// Record `resolution` for the form `id`, which has none yet.
    fn record(&mut self, id: SyntaxId, resolution: Resolution)
        requires
            !old(self).map.model().contains_key(id.spec_index() as u32),
        ensures
            final(self).map.model() == old(self).map.model().insert(
                id.spec_index() as u32,
                res_model(resolution),
            ),
            final(self).environment == old(self).environment,
            final(self).diagnostics == old(self).diagnostics,
            final(self).errors == old(self).errors,
    {
        let ghost key = id.spec_index() as u32;
        let ghost r = res_model(resolution);
        self.map.insert(id, resolution);
        assert(self.map.model() =~= old(self).map.model().insert(key, r));
    }

    /// Push a new error into the diagnostics.
    fn error(&mut self, origin: SyntaxId, kind: ResolutionErrorKind)
        requires
            old(self).ok(),
        ensures
            final(self).ok(),
            final(self).errors@ == old(self).errors@.push(ResolutionError { origin, kind }),
            final(self).environment == old(self).environment,
            final(self).map == old(self).map,
    {
        let e = ResolutionError { origin, kind };
        self.diagnostics.push(Diagnostic::of_resolution_error(e));
        self.errors = Ghost(self.errors@.push(e));
        proof {
            assert forall|k: int| 0 <= k < self.diagnostics@.len() implies reports_resolution_error(
                #[trigger] self.diagnostics@[k],
                self.errors@[k],
            ) by {
                if k < old(self).errors@.len() {
                    assert(self.diagnostics@[k] == old(self).diagnostics@[k]);
                }
            }
        }
    }

    /// Finish the entry body and return the durable result, with the
    /// diagnostics.
    fn finish(self) -> (r: (ResolutionResult, Diagnostics))
        requires
            self.ok(),
            self.environment.model().bodies.len() == 1,
            self.environment.model().bodies[0].scopes.len() == 1,
        ensures
            r.0.map.model() == self.map.model(),
            r.0.bindings@ == self.environment.model().bindings,
            r.0.entry.capture_list() == self.environment.model().bodies[0].captures,
            r.0.entry.locals() == self.environment.model().bodies[0].locals,
            reports_resolution_errors(r.1@, self.errors@),
    {
        let Resolver { environment, map, diagnostics, errors: _ } = self;
        let (bindings, entry) = environment.finish();
        (ResolutionResult { map, bindings, entry }, diagnostics)
    }
}


impl Resolver {
    /// Resolve the reference `form` to `sym`: record its target, or poison
    /// it and report it unresolved.
    fn reference(&mut self, form: &HirForm, sym: crate::interner::SymId, Ghost(work): Ghost<Seq<Work>>)
        requires
            old(self).ok(),
            env_room(old(self).environment.model(), 1),
            !crate::resolution::reference(old(self).abs(work), *form, sym).clash,
        ensures
            final(self).ok(),
            final(self).abs(work) == crate::resolution::reference(old(self).abs(work), *form, sym),
    {
        match self.environment.resolve(sym) {
            Some(target) => {
                self.record(form.id, Resolution::Ref(target));
            },
            None => {
                self.record(form.id, Resolution::Poison);
                self.error(form.id, ResolutionErrorKind::UnresolvedSymbol);
            },
        }
    }

    /// Resolve a form, recording its resolution and adding the work it
    /// needs: data forms have no effect, a binding mints a local, a
    /// reference resolves, and an unquoted vector opens a body.
    fn resolve_form<'forms>(&mut self, form: &'forms HirForm, work: &mut Vec<Work<'forms>>)
        requires
            old(self).ok(),
            env_room(old(self).environment.model(), 1),
            !resolve_form(old(self).abs(old(work)@), *form).clash,
        ensures
            final(self).ok(),
            final(self).abs(final(work)@) == resolve_form(old(self).abs(old(work)@), *form),
    {
        match &form.kind {
            HirKind::Int(_) | HirKind::Quote(_) | HirKind::List(_) => {},
            HirKind::Bind(sym) => {
                let binding = self.environment.bind(form.id, *sym);
                self.record(form.id, Resolution::Bound(binding));
            },
            HirKind::Load(sym) => {
                self.reference(form, *sym, Ghost(work@));
            },
            HirKind::Call(sym) => {
                self.reference(form, *sym, Ghost(work@));
            },
            HirKind::Vector(forms) => {
                self.environment.open_body();
                let ghost before = work@;
                let slice = forms.as_slice();
                work.push(Work::FinishBody(form.id));
                work.push(Work::Body(slice));
                proof {
                    lemma_works_push(before, Work::FinishBody(form.id));
                    lemma_works_push(before.push(Work::FinishBody(form.id)), Work::Body(slice));
                }
            },
        }
    }

    /// Resolve one recognised HIR pattern.
    fn resolve_recognition<'forms>(
        &mut self,
        recognition: Recognition<'forms>,
        work: &mut Vec<Work<'forms>>,
    )
        requires
            old(self).ok(),
            !apply_recognition(old(self).abs(old(work)@), rec_model(recognition)).clash,
        ensures
            final(self).ok(),
            final(self).abs(final(work)@) == apply_recognition(
                old(self).abs(old(work)@),
                rec_model(recognition),
            ),
    {
        let ghost before = work@;
        match recognition {
            Recognition::Conditional { then_arm, else_arm, operator } => {
                // Mark the operator as a conditional, then resolve the arms,
                // the `then` arm first.
                self.record(operator.id, Resolution::Conditional);
                work.push(Work::Arm(else_arm, ArmRole::Else));
                work.push(Work::Arm(then_arm, ArmRole::Then));
                proof {
                    lemma_works_push(before, Work::Arm(else_arm, ArmRole::Else));
                    lemma_works_push(
                        before.push(Work::Arm(else_arm, ArmRole::Else)),
                        Work::Arm(then_arm, ArmRole::Then),
                    );
                }
            },
            Recognition::Recursive { operand_id, body, operator } => {
                // Mark the operator as recursive, and resolve the inner body.
                self.record(operator.id, Resolution::Recursive);
                self.environment.open_body();
                work.push(Work::FinishRecursiveBody(operand_id));
                work.push(Work::Body(body));
                proof {
                    lemma_works_push(before, Work::FinishRecursiveBody(operand_id));
                    lemma_works_push(
                        before.push(Work::FinishRecursiveBody(operand_id)),
                        Work::Body(body),
                    );
                }
            },
            Recognition::RecursiveData { operand_id, operator_id } => {
                self.record(operator_id, Resolution::Recursive);
                self.record(operand_id, Resolution::Poison);
                self.error(operand_id, ResolutionErrorKind::RecDataOperand);
            },
        }
    }
}


impl Resolver {
    /// Resolve all forms without using the host call stack.
    fn walk<'forms>(&mut self, forms: &'forms [HirForm])
        requires
            old(self).ok(),
            marks(old(self).abs(seq![Work::Body(forms)]).work) == frames(
                old(self).environment.model().bodies,
            ),
            env_room(
                old(self).environment.model(),
                weight(old(self).abs(seq![Work::Body(forms)]).work),
            ),
            !walk(old(self).abs(seq![Work::Body(forms)])).clash,
        ensures
            final(self).ok(),
            final(self).abs(seq![]) == walk(old(self).abs(seq![Work::Body(forms)])),
            final(self).environment.model().bodies.len() == 1,
            final(self).environment.model().bodies[0].scopes.len() == 1,
    {
        let ghost target = walk(self.abs(seq![Work::Body(forms)]));
        let mut work: Vec<Work<'forms>> = vec![Work::Body(forms)];
        assert(work@ =~= seq![Work::Body(forms)]);
        loop
            invariant
                self.ok(),
                walk(self.abs(work@)) == target,
                !target.clash,
                marks(works_model(work@)) == frames(self.environment.model().bodies),
                env_room(self.environment.model(), weight(works_model(work@))),
            ensures
                self.ok(),
                work@.len() == 0,
                walk(self.abs(work@)) == target,
                marks(works_model(work@)) == frames(self.environment.model().bodies),
            decreases weight(works_model(work@)),
        {
            let ghost s = self.abs(work@);
            let ghost ws = work@;
            let action = match work.pop() {
                Some(a) => a,
                None => {
                    break;
                },
            };
            let ghost rest = work@;
            let ghost env = self.environment.model();
            let ghost next = step(s);
            proof {
                lemma_works_pop(ws);
                assert(rest == ws.drop_last());
                assert(s.work.last() == work_model(action));
                lemma_step_weight(s);
                assert(walk(s) == walk(next));
                if next.clash {
                    lemma_walk_clash(next);
                }
                assert(works_model(ws) =~= works_model(rest).push(work_model(action)));
                lemma_weight_push(works_model(rest), work_model(action));
                lemma_marks_push(works_model(rest), work_model(action));
                crate::resolution::lemma_room_weaken(env, weight(s.work), 1);
            }
            match action {
                Work::Body(forms) => {
                    let found = recognise(forms, &self.environment);
                    match found {
                        Some((recognition, remaining)) => {
                            work.push(Work::Body(remaining));
                            proof {
                                lemma_works_push(rest, Work::Body(remaining));
                            }
                            self.resolve_recognition(recognition, &mut work);
                            proof {
                                let pushed = works_model(rest).push(WorkModel::Body(remaining@));
                                lemma_marks_push(works_model(rest), WorkModel::Body(remaining@));
                                match rec_model(recognition) {
                                    RecModel::Conditional(t, e, op) => {
                                        lemma_marks_push(pushed, WorkModel::Arm(e, ArmRole::Else));
                                        lemma_marks_push(
                                            pushed.push(WorkModel::Arm(e, ArmRole::Else)),
                                            WorkModel::Arm(t, ArmRole::Then),
                                        );
                                    },
                                    RecModel::Recursive(operand, body, op) => {
                                        lemma_marks_push(pushed, WorkModel::FinishRecursiveBody(operand));
                                        lemma_marks_push(
                                            pushed.push(WorkModel::FinishRecursiveBody(operand)),
                                            WorkModel::Body(body),
                                        );
                                        lemma_frames_open(env.bodies, crate::resolution::empty_body());
                                        crate::resolution::lemma_open_room(env, weight(next.work));
                                    },
                                    RecModel::RecursiveData(_, _) => {},
                                }
                                crate::resolution::lemma_room_weaken(env, weight(s.work), weight(next.work));
                            }
                        },
                        None => {
                            if forms.len() > 0 {
                                let (_, remaining) = forms.split_at(1);
                                work.push(Work::Body(remaining));
                                proof {
                                    lemma_works_push(rest, Work::Body(remaining));
                                    assert(remaining@ == forms@.skip(1));
                                }
                                self.resolve_form(&forms[0], &mut work);
                                proof {
                                    let pushed = works_model(rest).push(WorkModel::Body(forms@.skip(1)));
                                    lemma_marks_push(works_model(rest), WorkModel::Body(forms@.skip(1)));
                                    let f = forms@[0];
                                    match f.kind {
                                        HirKind::Bind(sym) => {
                                            lemma_bind_room(env, f.id, sym, weight(next.work));
                                            lemma_frames_shape(self.environment.model().bodies, env.bodies);
                                        },
                                        HirKind::Load(sym) => {
                                            lemma_resolve_room(env, sym, weight(next.work));
                                            lemma_frames_shape(self.environment.model().bodies, env.bodies);
                                        },
                                        HirKind::Call(sym) => {
                                            lemma_resolve_room(env, sym, weight(next.work));
                                            lemma_frames_shape(self.environment.model().bodies, env.bodies);
                                        },
                                        HirKind::Vector(v) => {
                                            lemma_marks_push(pushed, WorkModel::FinishBody(f.id));
                                            lemma_marks_push(
                                                pushed.push(WorkModel::FinishBody(f.id)),
                                                WorkModel::Body(v@),
                                            );
                                            lemma_frames_open(env.bodies, crate::resolution::empty_body());
                                            crate::resolution::lemma_open_room(env, weight(next.work));
                                        },
                                        _ => {
                                            crate::resolution::lemma_room_weaken(env, weight(s.work), weight(next.work));
                                        },
                                    }
                                }
                            } else {
                                proof {
                                    crate::resolution::lemma_room_weaken(env, weight(s.work), weight(next.work));
                                }
                            }
                        },
                    }
                },
                Work::FinishBody(id) => {
                    proof {
                        lemma_frames_close(env.bodies);
                    }
                    let body = self.environment.close_body();
                    self.record(id, Resolution::MakesClosure(body));
                    proof {
                        crate::resolution::lemma_close_room(env, weight(s.work));
                        crate::resolution::lemma_room_weaken(
                            self.environment.model(),
                            weight(s.work),
                            weight(next.work),
                        );
                    }
                },
                Work::FinishRecursiveBody(id) => {
                    proof {
                        lemma_frames_close(env.bodies);
                    }
                    let body = self.environment.close_body();
                    self.record(id, Resolution::MakesRecursiveClosure(body));
                    proof {
                        crate::resolution::lemma_close_room(env, weight(s.work));
                        crate::resolution::lemma_room_weaken(
                            self.environment.model(),
                            weight(s.work),
                            weight(next.work),
                        );
                    }
                },
                Work::Arm(form, role) => {
                    self.record(form.id, Resolution::BranchArm(role));
                    match &form.kind {
                        HirKind::Vector(forms) => {
                            self.environment.enter_arm();
                            let slice = forms.as_slice();
                            work.push(Work::FinishArm);
                            work.push(Work::Body(slice));
                            proof {
                                lemma_works_push(rest, Work::FinishArm);
                                lemma_works_push(rest.push(Work::FinishArm), Work::Body(slice));
                                lemma_marks_push(works_model(rest), WorkModel::FinishArm);
                                lemma_marks_push(
                                    works_model(rest).push(WorkModel::FinishArm),
                                    WorkModel::Body(forms@),
                                );
                                lemma_frames_enter(env.bodies);
                                crate::resolution::lemma_arm_room(env, weight(next.work));
                            }
                        },
                        _ => {
                            proof {
                                crate::resolution::lemma_room_weaken(env, weight(s.work), weight(next.work));
                            }
                        },
                    }
                    proof {
                        crate::resolution::lemma_room_weaken(env, weight(s.work), weight(next.work));
                    }
                },
                Work::FinishArm => {
                    proof {
                        lemma_frames_leave(env.bodies);
                    }
                    self.environment.leave_arm();
                    proof {
                        crate::resolution::lemma_arm_room(env, weight(s.work));
                        crate::resolution::lemma_room_weaken(
                            self.environment.model(),
                            weight(s.work),
                            weight(next.work),
                        );
                    }
                },
            }
            assert(self.abs(work@) == next);
        }
        proof {
            lemma_frames_done(self.environment.model().bodies);
            assert(work@ =~= Seq::<Work>::empty());
            assert(works_model(work@) =~= Seq::<WorkModel>::empty());
            assert(walk(self.abs(work@)) == self.abs(work@));
        }
    }
}

} // verus!
