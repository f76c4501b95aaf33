//! Binding resolution.
//!
//! This phase walks parsed [`HirForm`][crate::parser::HirForm]s and produces a
//! side table for later phases.

mod error;
pub use error::{ResolutionError, ResolutionErrorKind};

mod body;
pub use body::{
    BodyLayout, CaptureId, CaptureSource, LocalId, captures_with, distinct_sources, group_body_ids,
    lemma_capture_from_index, lemma_capture_index_round, lemma_local_from_index,
    lemma_local_index_round,
};

mod bindings;
pub use bindings::{
    BindingId, BindingInfo, BindingTable, bindings_extend, lemma_binding_from_index,
    lemma_binding_index_round, lemma_binding_round_trip, lemma_bindings_extend_refl,
    lemma_bindings_extend_trans,
};

pub mod closure;

mod scope;
pub use scope::{
    ScopeBinding, ScopeBuilder, ScopeKind, ScopeLookup, lemma_pop_body_restores, lemma_scope_laws,
    lemma_scope_steps_keep_below, primordial_scope, scope_lookup,
    shifted,
};

mod types;
pub use types::{ArmRole, ResModel, Resolution, ResolutionMap, ResolutionResult, Target, res_model};

mod builder;
pub use builder::{
    BodyModel, EnvModel, Environment, body_lookup, empty_body, env_bind, env_close_body,
    env_enter_arm, env_find, env_is_primitive, key_is_primitive, env_leave_arm, env_open_body, env_resolve, env_room,
    env_wf, initial_env, primitive_map, slot_of, thread_capture, with_current, lemma_arm_scopes,
    lemma_bind_shadows, lemma_body_scopes, lemma_resolve_keeps_meanings, same_scopes,
};

mod recognition;
pub use recognition::{
    RecModel, Recognition, is_dynamic, is_prim_call, rec_model, recognise, recognise_spec,
};

mod walk;
pub use walk::{
    RState, WorkModel, apply_recognition, arm_marks, frames, initial_rstate, lemma_bind_room,
    lemma_forms_count_skip, lemma_frames_close, lemma_frames_done, lemma_frames_enter,
    lemma_frames_last, lemma_frames_leave, lemma_frames_open, lemma_frames_shape, lemma_marks_push,
    lemma_resolve_room, lemma_room_weaken, lemma_open_room, lemma_close_room, lemma_arm_room,
    lemma_step_weight, lemma_weight_push, marks, record, reference, report,
    resolution_of, resolve_form, same_shape, step, walk, weight, with_env, with_work, work_weight,
};

mod unique;
pub use unique::{clash_free, lemma_distinct_ids_never_clash, unrecorded, work_ids, works_ids};

mod resolver;
pub use resolver::{reports_resolution_errors, resolve};
