//! Source acquisition and management.
//!
//! The first stage of the compiler: raw source text held in a [`Source`]
//! registered in a session-global [`SourceTable`]. Byte offsets become
//! [`Span`]s and line-column [`Position`]s, each form is tagged with a
//! [`SyntaxId`], and diagnostics resolve those origins back to text.

mod position;
mod span;
mod table;
mod text;

pub use position::Position;
pub use span::Span;
pub use table::{
    Location, SourceId, SourceTable, SourceTableError, SyntaxId, SyntaxOrigin, lemma_source_from_index,
    lemma_source_index_round,
};
pub use text::{MAX_SOURCE_LEN, Source, SourceError};
pub use text::{
    byte_at, byte_len, char_index_of, char_width, col_of, count_newlines, floor_char_of,
    is_boundary, is_floor_char, last_line_of, line_end_of, line_of, line_start_before, line_starts_of,
    line_text_spec, lemma_boundary, lemma_byte_at_ends, lemma_byte_at_injective, lemma_encode_concat,
    lemma_encode_single, lemma_positions_advance, lemma_columns_count_characters,
    lemma_byte_at_mono, lemma_byte_at_step, lemma_char_index_of, lemma_line_floor,
    lemma_line_starts_sorted,
};
