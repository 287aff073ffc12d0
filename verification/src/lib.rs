//! A byte-level byte-pair-encoding tokenizer with machine-checked contracts.
//!
//! The tokenizer learns a merge table from a text, by merging again and again
//! the most frequent pair of adjacent ids; it encodes a text with that table,
//! decodes ids back to text, and is stored in and loaded from a model file.

pub mod bpe;
pub mod encoding;
pub mod error;
pub mod laws;
pub mod layout;
pub mod listing;
pub mod merge;
pub mod model;
pub mod number;
pub mod order;
pub mod render;
pub mod stats;
pub mod table;
pub mod text;
pub mod training;
pub mod vocab;

pub use crate::bpe::{BPETokenizer, SavedModel};
pub use crate::error::{BpeError, FormatFault};
pub use crate::merge::merge;
pub use crate::render::{b_as_literal, render_token, replace_control_characters};
pub use crate::stats::get_stats;
pub use crate::vocab::build_vocab;
