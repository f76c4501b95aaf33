//! Phase 2 - parser.
//!
//! The second stage of the compiler parses streams of
//! [`Token`][crate::lexer::Token]s into a sequence of [`HirForm`]s, the
//! higher level intermediate representation of the compiler.

mod error;
pub use error::{ParseError, ParseErrorKind};

mod worklist;

mod machine;
pub use machine::{
    FrameShape, ParseState, PendingFrame, Shape, after_sigil, all_leaves_wf, close, close_spans,
    deposit, deposit_spans, digit_value, digits_value, error_wf, errors_wf, frame_count,
    frame_leaves_wf, frames_count, i64_literal, initial_state, is_closer_kind, join_spans,
    leaves_wf, lemma_clean_parse_count, lemma_parse_errors_wf, lemma_parse_leaves_wf,
    literal_digits, literal_value, non_closer_count, open_frame, origins_in, parse_error_at,
    parse_errors, parse_shapes, run, run_spans, shape_count, shape_span, shapes_count, signed,
    span_chars, state_count, state_leaves_wf, state_spans_wf, step, step_spans, top_is_datum,
    unclosed_error, unclosed_errors, with_error,
};

mod denote;
pub use denote::{
    form_denotes, forms_denote, is_leaf, kind_denotes, leaf_origins_ok, lemma_form_denotes_count,
    lemma_form_denotes_grow, lemma_form_leaves_ok, lemma_forms_denote_count,
    lemma_forms_denote_grow, lemma_forms_denote_push, lemma_forms_leaves_ok,
    lemma_leaf_origins_concat, lemma_leaf_origins_grow, lemma_names_extend_refl,
    lemma_preorder_seq_append, names_extend, names_symbol,
};
pub(crate) use denote::lemma_preorder_seq_push;
pub(crate) use hir::lemma_forms_ids;

mod parse;
pub use parse::{
    bounded, lemma_parse_reports_fatal, names_after, names_step, openings_bounded, parse, quote_count,
    reports_parse_errors, sym_shape, token_name,
};

mod printable;
pub use printable::{
    all_printable, is_name, lemma_after_sigil_chars, lemma_clean_parse_printable, lemma_lexed_named,
    lemma_span_chars_of, lemma_sym_run_chars, printable, shape_text, shapes_text, token_named,
    tokens_named,
};

mod relex;
pub use relex::{lemma_lex_printed, lemma_lex_printed_seq, oks, shape_tokens, shapes_tokens};

mod reparse;
pub use reparse::{
    collected, collects, lemma_int_text_literal, lemma_parse_printed, lemma_parse_printed_seq,
    lemma_placed_text, lemma_placed_text_seq, placed, placed_seq, run_from,
};

mod reprint;
pub use reprint::{
    lemma_printed_denoted, lemma_printed_denoted_seq, lemma_printing_is_a_fixpoint,
    lemma_printing_twice_changes_nothing, reprinted,
};

mod print;
pub use print::{print_forms, printed, printed_seq, syms_below};

mod hir;
pub use hir::{
    HirForm, HirKind, as_visit, as_visits, dfs, form_count, form_ids, forms_count, forms_ids,
    fresh_ids, ids_fresh, kind_count, kind_ids, kind_label, kind_preorder, lemma_fresh_ids_append,
    lemma_fresh_ids_empty, lemma_fresh_ids_of, lemma_fresh_ids_wider, pending_visits, preorder, preorder_seq, stacked,
    visit_ids,
};
