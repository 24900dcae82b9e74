//! A piece-table text buffer: character-addressed insertion and deletion over
//! a document, without copying the whole document on every edit.
//!
//! The document is the concatenation of *pieces*, each an immutable descriptor
//! of a contiguous character run inside one of two buffers: the `source`
//! buffer, fixed at construction, and the `added` buffer, which only ever
//! grows at its end. Every offset a caller passes counts Unicode scalar
//! values; internally each position is tracked in both characters and UTF-8
//! bytes, and the correspondence between the two is proved, so no edit can
//! slice through the byte encoding of a codepoint.

pub mod metric;
pub mod piece;
pub mod table;

pub use metric::{
    byte_len, lemma_byte_len_concat, lemma_char_prefix_boundary, lemma_split_exact,
    to_byte_offset, Utf8Metric,
};
pub use piece::{Location, Piece};
pub use piece::{byte_total, char_total};
pub use table::{
    lemma_boundary_inserts, lemma_metric_totals, lemma_no_split_inside_codepoint,
    lemma_render_idempotent, lemma_view_is_cat, Cursor, EditError, PieceTable,
};
