//! Phase 1 - lexer.
//!
//! The first stage of the compiler translates raw textual source code from the
//! [`SourceTable`][crate::source::SourceTable] into tokens, which are simply
//! [`Span`][crate::source::Span]s within a specific
//! [`Source`][crate::source::Source] with a kind attached.

mod charclass;
pub use charclass::{format_ranges, format_table, is_format, is_format_char};

mod token;
pub use token::{Token, TokenKind, token_kind_name};

mod error;
pub use error::{LexError, LexErrorKind};

mod tokeniser;
pub use tokeniser::{
    content_start, error_at, is_control_char, is_integer, is_integer_text, is_restricted_char,
    is_sym_char, is_valid_sym_char, item_wf, lemma_lexed_wf, span_wf, spans_wf, lemma_tokens_have_spans, token_wf, tokens_wf, is_whitespace_char, lemma_lex_one_bounded, lemma_runs_bounded,
    lemma_skip_trivia_bounded, lex_binding_spec, lex_errors, lex_from, lex_items, lex_one,
    line_run, ok_tokens, reports_lex_errors, scan_scalar_spec, single, skip_trivia, span_of,
    sym_run, tokenise, ws_run, is_digit, unsigned_part, lemma_lex_reports_fatal, lemma_lexed_len,
};

mod shift;
pub use shift::{
    lemma_byte_order_mark_invisible, lemma_lexing_reads_ahead, shift_item, shift_items, shift_span,
};

mod crlf;
pub use crlf::{
    ItemView, crlf, crlf_index, item_view, item_views, lemma_crlf_at, lemma_crlf_lexes_alike, stands_for,
};
