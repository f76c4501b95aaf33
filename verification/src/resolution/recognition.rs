//! Local HIR pattern recognition.
use vstd::prelude::*;
use crate::interner::{if_index, rec_index, sym_if, sym_rec};
use crate::parser::{HirForm, HirKind};
use crate::resolution::{EnvModel, Environment, key_is_primitive};
use crate::source::SyntaxId;

verus! {

/// A local HIR pattern recognised during resolution.
pub enum Recognition<'a> {
    /// Recognised conditional: two operands representing branches (must be
    /// anything but a Bind, Load, or Call).
    Conditional {
        /// True branch.
        then_arm: &'a HirForm,
        /// False branch.
        else_arm: &'a HirForm,
        /// Conditional operator.
        operator: &'a HirForm,
    },
    /// Recognised recursion: operand is vector in executable position.
    Recursive {
        /// Recursive body [`SyntaxId`].
        operand_id: SyntaxId,
        /// Recursive body contents.
        body: &'a [HirForm],
        /// Recursion operator.
        operator: &'a HirForm,
    },
    /// Bad recursion: operand is definitely data and cannot be considered
    /// executable code.
    RecursiveData {
        /// [`SyntaxId`] of operand.
        operand_id: SyntaxId,
        /// [`SyntaxId`] of operator.
        operator_id: SyntaxId,
    },
}

/// A recognition as the specification sees it.
pub enum RecModel {
    /// A conditional: then arm, else arm and operator.
    Conditional(HirForm, HirForm, HirForm),
    /// A recursion: operand id, body and operator.
    Recursive(SyntaxId, Seq<HirForm>, HirForm),
    /// A recursion on data: operand id and operator id.
    RecursiveData(SyntaxId, SyntaxId),
}

/// The model of a recognition.
pub open spec fn rec_model(r: Recognition) -> RecModel {
    match r {
        Recognition::Conditional { then_arm, else_arm, operator } => RecModel::Conditional(
            *then_arm,
            *else_arm,
            *operator,
        ),
        Recognition::Recursive { operand_id, body, operator } => RecModel::Recursive(
            operand_id,
            body@,
            *operator,
        ),
        Recognition::RecursiveData { operand_id, operator_id } => RecModel::RecursiveData(
            operand_id,
            operator_id,
        ),
    }
}

/// Whether a form depends on the environment: a binding, load or call.
pub open spec fn is_dynamic(f: HirForm) -> bool {
    f.kind is Bind || f.kind is Load || f.kind is Call
}

/// Whether `fs[index]` calls the symbol of index `key`, which the
/// environment resolves to a primitive.
pub open spec fn is_prim_call(fs: Seq<HirForm>, index: int, key: nat, e: EnvModel) -> bool {
    &&& index < fs.len()
    &&& fs[index].kind matches HirKind::Call(item) && item.spec_index() == key
    &&& key_is_primitive(e, key as u32)
}

/// What recognition finds at the start of `fs` in environment `e`, with the
/// forms after it: `rec` after an operand, or `if` after two arms.
pub open spec fn recognise_spec(fs: Seq<HirForm>, e: EnvModel) -> Option<(RecModel, Seq<HirForm>)> {
    if is_prim_call(fs, 1, rec_index(), e) {
        match fs[0].kind {
            HirKind::Vector(body) => Some(
                (RecModel::Recursive(fs[0].id, body@, fs[1]), fs.skip(2)),
            ),
            HirKind::Load(_) | HirKind::Call(_) | HirKind::Bind(_) => None,
            _ => Some((RecModel::RecursiveData(fs[0].id, fs[1].id), fs.skip(2))),
        }
    } else if is_prim_call(fs, 2, if_index(), e) {
        if is_dynamic(fs[0]) || is_dynamic(fs[1]) {
            None
        } else {
            Some((RecModel::Conditional(fs[0], fs[1], fs[2]), fs.skip(3)))
        }
    } else {
        None
    }
}

/// Whether `forms[index]` is a call to `sym`, which `env` resolves to a
/// primitive.
fn is_prim_call_at(
    forms: &[HirForm],
    index: usize,
    sym: crate::interner::SymId,
    env: &Environment,
) -> (r: bool)
    ensures
        r == is_prim_call(forms@, index as int, sym.spec_index(), env.model()),
{
    if index >= forms.len() {
        return false;
    }
    let matches_sym = match &forms[index].kind {
        HirKind::Call(item) => item.index() == sym.index(),
        _ => false,
    };
    matches_sym && env.is_primitive(sym)
}

/// Attempt to recognise some sequence of pre-determined forms, returning the
/// result of the recognition as well as the remaining forms if successful.
pub fn recognise<'forms>(forms: &'forms [HirForm], env: &Environment) -> (r: Option<
    (Recognition<'forms>, &'forms [HirForm]),
>)
    ensures
        match recognise_spec(forms@, env.model()) {
            Some((m, rest)) => r matches Some((rec, remaining)) && rec_model(rec) == m
                && remaining@ == rest,
            None => r is None,
        },
{
    if is_prim_call_at(forms, 1, sym_rec(), env) {
        recognise_recursive(forms)
    } else if is_prim_call_at(forms, 2, sym_if(), env) {
        recognise_conditional(forms)
    } else {
        None
    }
}

/// Attempt to recognise a recursive form: `forms[1]` is `rec`, and
/// `forms[0]` its operand.
fn recognise_recursive(forms: &[HirForm]) -> (r: Option<(Recognition<'_>, &[HirForm])>)
    requires
        forms@.len() >= 2,
    ensures
        match forms@[0].kind {
            HirKind::Vector(body) => r matches Some((rec, remaining)) && rec_model(rec)
                == RecModel::Recursive(forms@[0].id, body@, forms@[1]) && remaining@ == forms@.skip(
                2,
            ),
            HirKind::Load(_) | HirKind::Call(_) | HirKind::Bind(_) => r is None,
            _ => r matches Some((rec, remaining)) && rec_model(rec) == RecModel::RecursiveData(
                forms@[0].id,
                forms@[1].id,
            ) && remaining@ == forms@.skip(2),
        },
{
    let (_, remaining) = forms.split_at(2);
    match &forms[0].kind {
        // Ideal case - the form is a vector and it's definitely in executable
        // position.
        HirKind::Vector(body) => Some(
            (
                Recognition::Recursive {
                    operand_id: forms[0].id,
                    body: body.as_slice(),
                    operator: &forms[1],
                },
                remaining,
            ),
        ),
        // Operand is a load, call, or bind => we cannot recognise this
        // recursion as we cannot determine the data on the stack following
        // the operand.
        HirKind::Load(_) | HirKind::Call(_) | HirKind::Bind(_) => None,
        // Otherwise this is data which we can be certain isn't allowed
        // before recursion, so we need to ensure we record it.
        HirKind::Int(_) | HirKind::Quote(_) | HirKind::List(_) => Some(
            (
                Recognition::RecursiveData { operator_id: forms[1].id, operand_id: forms[0].id },
                remaining,
            ),
        ),
    }
}

/// Attempt to recognise a conditional form: `forms[2]` is `if`, and the two
/// before it its arms.
fn recognise_conditional(forms: &[HirForm]) -> (r: Option<(Recognition<'_>, &[HirForm])>)
    requires
        forms@.len() >= 3,
    ensures
        if is_dynamic(forms@[0]) || is_dynamic(forms@[1]) {
            r is None
        } else {
            r matches Some((rec, remaining)) && rec_model(rec) == RecModel::Conditional(
                forms@[0],
                forms@[1],
                forms@[2],
            ) && remaining@ == forms@.skip(3)
        },
{
    let mut i: usize = 0;
    while i < 2
        invariant
            i <= 2,
            forms@.len() >= 3,
            forall|k: int| 0 <= k < i ==> !is_dynamic(#[trigger] forms@[k]),
        decreases 2 - i,
    {
        match forms[i].kind {
            HirKind::Bind(_) | HirKind::Load(_) | HirKind::Call(_) => {
                return None;
            },
            HirKind::Int(_) | HirKind::Quote(_) | HirKind::List(_) | HirKind::Vector(_) => {},
        }
        i = i + 1;
    }
    assert(!is_dynamic(forms@[0]) && !is_dynamic(forms@[1]));
    let (_, remaining) = forms.split_at(3);
    Some(
        (
            Recognition::Conditional {
                then_arm: &forms[0],
                else_arm: &forms[1],
                operator: &forms[2],
            },
            remaining,
        ),
    )
}

} // verus!
