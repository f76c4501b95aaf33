//! Forms with distinct ids are resolved once each.
//!
//! Resolution records a result for a form by the index of its id, and notes
//! a clash if a form was recorded before.  When no two forms share an id, as
//! for everything the parser returns, no id the walk still has to visit is
//! already recorded, and none occurs twice: so no clash ever arises, which
//! is what [`resolve`][crate::resolution::resolve] requires.
use vstd::prelude::*;
use vstd::multiset::Multiset;
use crate::interner::SymId;
use crate::parser::{HirForm, HirKind, form_ids, forms_ids, kind_ids, preorder_seq, visit_ids};
use crate::resolution::{
    RState, RecModel, ResModel, WorkModel, apply_recognition, initial_rstate, lemma_step_weight,
    env_bind, env_resolve, recognise_spec, reference, resolution_of, resolve_form, step, walk, weight, with_env, with_work,
};

verus! {

broadcast use vstd::multiset::group_multiset_axioms;

/// The ids of the forms an item of work still holds, counted with
/// multiplicity.
pub open spec fn work_ids(w: WorkModel) -> Multiset<nat> {
    match w {
        WorkModel::Body(fs) => forms_ids(fs),
        WorkModel::FinishBody(id) => Multiset::singleton(id.spec_index()),
        WorkModel::FinishRecursiveBody(id) => Multiset::singleton(id.spec_index()),
        WorkModel::Arm(f, _) => form_ids(f),
        WorkModel::FinishArm => Multiset::empty(),
    }
}

/// The ids of the forms the work `ws` still holds.
pub open spec fn works_ids(ws: Seq<WorkModel>) -> Multiset<nat>
    decreases ws.len(),
{
    if ws.len() == 0 {
        Multiset::empty()
    } else {
        works_ids(ws.drop_last()).add(work_ids(ws.last()))
    }
}

/// Whether every id of `m` occurs once, fits a `u32` and has no result
/// recorded in `map` yet.
pub open spec fn unrecorded(m: Multiset<nat>, map: Map<u32, ResModel>) -> bool {
    forall|x: nat|
        #[trigger] m.count(x) > 0 ==> m.count(x) == 1 && x <= u32::MAX && !map.contains_key(
            x as u32,
        )
}

/// Whether a resolution state has no clash and every id its work still
/// holds is unrecorded.
pub open spec fn clash_free(s: RState) -> bool {
    !s.clash && unrecorded(works_ids(s.work), s.map)
}

proof fn lemma_works_push(ws: Seq<WorkModel>, w: WorkModel)
    ensures
        works_ids(ws.push(w)) == works_ids(ws).add(work_ids(w)),
{
    assert(ws.push(w).drop_last() =~= ws);
}

/// Fewer ids stay unrecorded.
proof fn lemma_unrecorded_part(m1: Multiset<nat>, m2: Multiset<nat>, map: Map<u32, ResModel>)
    requires
        unrecorded(m1.add(m2), map),
    ensures
        unrecorded(m1, map),
{
    assert forall|x: nat| #[trigger] m1.count(x) > 0 implies m1.count(x) == 1 && x <= u32::MAX
        && !map.contains_key(x as u32) by {
        assert(m1.add(m2).count(x) > 0);
    }
}

/// Recording an unrecorded id leaves the others unrecorded.
proof fn lemma_unrecorded_record(m: Multiset<nat>, x: nat, map: Map<u32, ResModel>, r: ResModel)
    requires
        unrecorded(m.add(Multiset::singleton(x)), map),
    ensures
        x <= u32::MAX,
        !map.contains_key(x as u32),
        unrecorded(m, map.insert(x as u32, r)),
{
    assert(m.add(Multiset::singleton(x)).count(x) > 0);
    assert forall|y: nat| #[trigger] m.count(y) > 0 implies m.count(y) == 1 && y <= u32::MAX
        && !map.insert(x as u32, r).contains_key(y as u32) by {
        assert(m.add(Multiset::singleton(x)).count(y) > 0);
        if y == x {
            assert(m.add(Multiset::singleton(x)).count(y) >= 2);
        }
    }
}

/// The ids of forms split off their first tree.
proof fn lemma_forms_ids_front(fs: Seq<HirForm>)
    requires
        fs.len() > 0,
    ensures
        forms_ids(fs) == form_ids(fs[0]).add(forms_ids(fs.skip(1))),
    decreases fs.len(),
{
    if fs.len() == 1 {
        assert(fs.drop_last() =~= Seq::<HirForm>::empty());
        assert(fs.skip(1) =~= Seq::<HirForm>::empty());
        assert(forms_ids(fs) =~= form_ids(fs[0]).add(forms_ids(fs.skip(1))));
    } else {
        let init = fs.drop_last();
        lemma_forms_ids_front(init);
        assert(fs.skip(1).drop_last() =~= init.skip(1));
        assert(fs.skip(1).last() == fs.last());
        assert(init[0] == fs[0]);
        assert(forms_ids(fs) =~= form_ids(fs[0]).add(forms_ids(fs.skip(1))));
    }
}

/// Every id in a tree fits a `u32`.
proof fn lemma_form_ids_bounded(f: HirForm)
    ensures
        forall|x: nat| #[trigger] form_ids(f).count(x) > 0 ==> x <= u32::MAX,
    decreases f,
{
    f.id.lemma_index_bounded();
    match f.kind {
        HirKind::Quote(b) => {
            lemma_form_ids_bounded(*b);
        },
        HirKind::List(v) => {
            lemma_forms_ids_bounded(v@);
        },
        HirKind::Vector(v) => {
            lemma_forms_ids_bounded(v@);
        },
        _ => {},
    }
    let idx: nat = f.id.spec_index();
    assert forall|x: nat| #[trigger] form_ids(f).count(x) > 0 implies x <= u32::MAX by {
        assert(form_ids(f) == Multiset::singleton(idx).add(kind_ids(f.kind)));
        if x != idx {
            assert(kind_ids(f.kind).count(x) > 0);
            match f.kind {
                HirKind::Quote(b) => {
                    assert(form_ids(*b).count(x) > 0);
                },
                HirKind::List(v) => {
                    assert(forms_ids(v@).count(x) > 0);
                },
                HirKind::Vector(v) => {
                    assert(forms_ids(v@).count(x) > 0);
                },
                _ => {},
            }
        }
    }
}

/// Every id in some trees fits a `u32`.
proof fn lemma_forms_ids_bounded(fs: Seq<HirForm>)
    ensures
        forall|x: nat| #[trigger] forms_ids(fs).count(x) > 0 ==> x <= u32::MAX,
    decreases fs,
{
    if fs.len() > 0 {
        lemma_forms_ids_bounded(fs.drop_last());
        lemma_form_ids_bounded(fs.last());
        assert forall|x: nat| #[trigger] forms_ids(fs).count(x) > 0 implies x <= u32::MAX by {
            assert(forms_ids(fs) == forms_ids(fs.drop_last()).add(form_ids(fs.last())));
            if forms_ids(fs.drop_last()).count(x) == 0 {
                assert(form_ids(fs.last()).count(x) > 0);
            }
        }
    }
}

/// Resolving one form, whose ids are unrecorded along with the work's, keeps
/// the state clash free.
proof fn lemma_resolve_form_clash_free(t: RState, f: HirForm)
    requires
        !t.clash,
        unrecorded(works_ids(t.work).add(form_ids(f)), t.map),
    ensures
        clash_free(resolve_form(t, f)),
{
    let m = works_ids(t.work);
    let x: nat = f.id.spec_index();
    match f.kind {
        HirKind::Bind(sym) => {
            assert(form_ids(f) =~= Multiset::singleton(x));
            let (e, b) = env_bind(t.env, f.id, sym);
            lemma_unrecorded_record(m, x, t.map, ResModel::Bound(b));
        },
        HirKind::Load(sym) | HirKind::Call(sym) => {
            assert(form_ids(f) =~= Multiset::singleton(x));
            let (e, target) = env_resolve(t.env, sym);
            match target {
                Some(tg) => {
                    lemma_unrecorded_record(m, x, t.map, ResModel::Ref(tg));
                },
                None => {
                    lemma_unrecorded_record(m, x, t.map, ResModel::Poison);
                },
            }
        },
        HirKind::Vector(v) => {
            let ws = t.work.push(WorkModel::FinishBody(f.id)).push(WorkModel::Body(v@));
            lemma_works_push(t.work, WorkModel::FinishBody(f.id));
            lemma_works_push(t.work.push(WorkModel::FinishBody(f.id)), WorkModel::Body(v@));
            assert(works_ids(ws) =~= m.add(form_ids(f)));
        },
        _ => {
            lemma_unrecorded_part(m, form_ids(f), t.map);
        },
    }
}

/// Applying a recognition of the first forms of `fs` keeps the state clash
/// free, the rest of `fs` being the work's next body.
proof fn lemma_recognition_clash_free(
    t: RState,
    fs: Seq<HirForm>,
    rec: RecModel,
    remaining: Seq<HirForm>,
    m0: Multiset<nat>,
)
    requires
        !t.clash,
        recognise_spec(fs, t.env) == Some((rec, remaining)),
        t.work.len() > 0,
        t.work.last() == WorkModel::Body(remaining),
        works_ids(t.work.drop_last()) == m0,
        unrecorded(m0.add(forms_ids(fs)), t.map),
    ensures
        clash_free(apply_recognition(t, rec)),
{
    let ws0 = t.work.drop_last();
    assert(ws0.push(WorkModel::Body(remaining)) =~= t.work);
    lemma_works_push(ws0, WorkModel::Body(remaining));
    lemma_forms_ids_front(fs);
    if fs.len() > 1 {
        lemma_forms_ids_front(fs.skip(1));
        assert(fs.skip(1)[0] == fs[1]);
        assert(fs.skip(1).skip(1) =~= fs.skip(2));
    }
    if fs.len() > 2 {
        lemma_forms_ids_front(fs.skip(2));
        assert(fs.skip(2)[0] == fs[2]);
        assert(fs.skip(2).skip(1) =~= fs.skip(3));
    }
    match rec {
        RecModel::Recursive(operand_id, body, operator) => {
            // `rec` after a vector operand.
            let y: nat = operator.id.spec_index();
            let rest = forms_ids(fs.skip(2));
            assert(form_ids(fs[1]) =~= Multiset::singleton(y));
            let kept = m0.add(rest).add(Multiset::singleton(operand_id.spec_index())).add(
                forms_ids(body),
            );
            assert(form_ids(fs[0]) =~= Multiset::singleton(operand_id.spec_index()).add(
                forms_ids(body),
            ));
            assert(m0.add(forms_ids(fs)) =~= kept.add(Multiset::singleton(y)));
            lemma_unrecorded_record(kept, y, t.map, ResModel::Recursive);
            let w1 = t.work.push(WorkModel::FinishRecursiveBody(operand_id));
            lemma_works_push(t.work, WorkModel::FinishRecursiveBody(operand_id));
            lemma_works_push(w1, WorkModel::Body(body));
            assert(works_ids(w1.push(WorkModel::Body(body))) =~= kept);
        },
        RecModel::RecursiveData(operand_id, operator_id) => {
            // `rec` after a data operand.
            let y: nat = operator_id.spec_index();
            let z: nat = operand_id.spec_index();
            let rest = forms_ids(fs.skip(2));
            assert(form_ids(fs[1]) =~= Multiset::singleton(y));
            assert(form_ids(fs[0]) =~= Multiset::singleton(z).add(kind_ids(fs[0].kind)));
            let both = m0.add(rest).add(Multiset::singleton(z)).add(Multiset::singleton(y));
            assert(m0.add(forms_ids(fs)) =~= both.add(kind_ids(fs[0].kind)));
            lemma_unrecorded_part(both, kind_ids(fs[0].kind), t.map);
            lemma_unrecorded_record(
                m0.add(rest).add(Multiset::singleton(z)),
                y,
                t.map,
                ResModel::Recursive,
            );
            let map1 = t.map.insert(y as u32, ResModel::Recursive);
            lemma_unrecorded_record(m0.add(rest), z, map1, ResModel::Poison);
        },
        RecModel::Conditional(then_arm, else_arm, operator) => {
            // `if` after two arms.
            let y: nat = operator.id.spec_index();
            let rest = forms_ids(fs.skip(3));
            assert(form_ids(fs[2]) =~= Multiset::singleton(y));
            let kept = m0.add(rest).add(form_ids(else_arm)).add(form_ids(then_arm));
            assert(m0.add(forms_ids(fs)) =~= kept.add(Multiset::singleton(y)));
            lemma_unrecorded_record(kept, y, t.map, ResModel::Conditional);
            let w1 = t.work.push(WorkModel::Arm(else_arm, crate::resolution::ArmRole::Else));
            lemma_works_push(t.work, WorkModel::Arm(else_arm, crate::resolution::ArmRole::Else));
            lemma_works_push(w1, WorkModel::Arm(then_arm, crate::resolution::ArmRole::Then));
            assert(works_ids(
                w1.push(WorkModel::Arm(then_arm, crate::resolution::ArmRole::Then)),
            ) =~= kept);
        },
    }
}

/// A step keeps the state clash free.
proof fn lemma_step_clash_free(s: RState)
    requires
        clash_free(s),
        s.work.len() > 0,
    ensures
        clash_free(step(s)),
{
    let ws = s.work.drop_last();
    let w = s.work.last();
    let rest = with_work(s, ws);
    let m0 = works_ids(ws);
    assert(ws.push(w) =~= s.work);
    lemma_works_push(ws, w);
    match w {
        WorkModel::Body(fs) => {
            match recognise_spec(fs, s.env) {
                Some((rec, remaining)) => {
                    let t = with_work(rest, ws.push(WorkModel::Body(remaining)));
                    assert(t.work.drop_last() =~= ws);
                    lemma_recognition_clash_free(t, fs, rec, remaining, m0);
                },
                None => {
                    if fs.len() == 0 {
                        lemma_unrecorded_part(m0, forms_ids(fs), s.map);
                    } else {
                        let t = with_work(rest, ws.push(WorkModel::Body(fs.skip(1))));
                        lemma_works_push(ws, WorkModel::Body(fs.skip(1)));
                        lemma_forms_ids_front(fs);
                        assert(works_ids(t.work).add(form_ids(fs[0])) =~= m0.add(forms_ids(fs)));
                        lemma_resolve_form_clash_free(t, fs[0]);
                    }
                },
            }
        },
        WorkModel::FinishBody(id) => {
            lemma_unrecorded_record(
                m0,
                id.spec_index(),
                s.map,
                ResModel::MakesClosure(s.env.bodies.last().captures, s.env.bodies.last().locals),
            );
        },
        WorkModel::FinishRecursiveBody(id) => {
            lemma_unrecorded_record(
                m0,
                id.spec_index(),
                s.map,
                ResModel::MakesRecursiveClosure(s.env.bodies.last().captures, s.env.bodies.last().locals),
            );
        },
        WorkModel::Arm(f, role) => {
            let x: nat = f.id.spec_index();
            assert(form_ids(f) =~= Multiset::singleton(x).add(kind_ids(f.kind)));
            match f.kind {
                HirKind::Vector(v) => {
                    let kept = m0.add(forms_ids(v@));
                    assert(m0.add(form_ids(f)) =~= kept.add(Multiset::singleton(x)));
                    lemma_unrecorded_record(kept, x, s.map, ResModel::BranchArm(role));
                    let w1 = ws.push(WorkModel::FinishArm);
                    lemma_works_push(ws, WorkModel::FinishArm);
                    lemma_works_push(w1, WorkModel::Body(v@));
                    assert(works_ids(w1.push(WorkModel::Body(v@))) =~= kept);
                },
                _ => {
                    assert(m0.add(form_ids(f)) =~= m0.add(Multiset::singleton(x)).add(
                        kind_ids(f.kind),
                    ));
                    lemma_unrecorded_part(m0.add(Multiset::singleton(x)), kind_ids(f.kind), s.map);
                    lemma_unrecorded_record(m0, x, s.map, ResModel::BranchArm(role));
                },
            }
        },
        WorkModel::FinishArm => {
            lemma_unrecorded_part(m0, Multiset::empty(), s.map);
        },
    }
}

/// A clash-free state walks to an end without a clash.
proof fn lemma_walk_clash_free(s: RState)
    requires
        clash_free(s),
    ensures
        !walk(s).clash,
    decreases weight(s.work),
{
    if s.work.len() > 0 {
        lemma_step_weight(s);
        lemma_step_clash_free(s);
        lemma_walk_clash_free(step(s));
    }
}

/// Forms whose ids are pairwise distinct are resolved once each: resolving
/// them never records a form twice, so `resolve` may be given them.  The
/// forms `parse` returns are such forms.
pub proof fn lemma_distinct_ids_never_clash(forms: Seq<HirForm>, prims: Seq<SymId>)
    requires
        visit_ids(preorder_seq(forms, 0)).no_duplicates(),
    ensures
        !resolution_of(forms, prims).clash,
{
    broadcast use vstd::seq_lib::group_to_multiset_ensures;

    let s = initial_rstate(forms, prims);
    let seq_ids = visit_ids(preorder_seq(forms, 0));
    crate::parser::lemma_forms_ids(forms, 0);
    seq_ids.lemma_multiset_has_no_duplicates();
    lemma_forms_ids_bounded(forms);
    assert(s.work.drop_last() =~= Seq::<WorkModel>::empty());
    assert(works_ids(Seq::<WorkModel>::empty()) == Multiset::<nat>::empty());
    assert(works_ids(s.work) == works_ids(s.work.drop_last()).add(work_ids(s.work.last())));
    assert(works_ids(s.work) =~= forms_ids(forms));
    assert forall|x: nat| #[trigger] forms_ids(forms).count(x) > 0 implies forms_ids(forms).count(x)
        == 1 && x <= u32::MAX && !s.map.contains_key(x as u32) by {
        assert(seq_ids.to_multiset().contains(x));
    }
    lemma_walk_clash_free(s);
}

} // verus!
