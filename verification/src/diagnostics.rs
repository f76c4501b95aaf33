//! Unified diagnostic representation.
//!
//! Every stage of the compiler reports through the [`Diagnostic`] type.  Stages
//! do not render; they accumulate into a [`Diagnostics`] and rendering happens
//! once, at the driver, where the [`SourceTable`][crate::source::SourceTable]
//! is available to turn a [`Site`] into line/column text.

mod phase;
pub use phase::{Aborted, Phase, aborted_text, phase_name};

mod class;
pub use class::{
    Class, Severity, class_code, class_phase, class_severity, is_fatal, lemma_codes_unique, upper_snake,
};

mod diagnostic;
pub use diagnostic::{Diagnostic, Site, lemma_sites_ok_extends, site_ok, sites_ok};

mod accumulator;
pub use accumulator::{Diagnostics, count_fatal, lemma_count_fatal_bounded, lemma_count_fatal_concat};

mod classify;
pub use classify::{lemma_kinds_classify_within_phase, lex_class, parse_class, resolution_class};

pub mod conv;

pub mod render;

mod order;
pub use order::{at_position, lemma_sorted_by_position, position_sorted};
pub use render::{
    DEFAULT_RENDERING_CAP, Renderer, lemma_raw_and_syntax_render_alike, position_of, render_diagnostics, render_diagnostics_with_cap,
    rendered_text, site_to_origin,
};
