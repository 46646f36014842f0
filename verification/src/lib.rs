//! Shared rules for valid register names and numbers (`NNNN-slug`), and a prose
//! scanner that detects stylistic tells: lexical phrases, structural equations
//! and document shape, weighted exactly.
pub mod corpus;
pub mod ext;
pub mod grammar;
pub mod lexical;
pub mod markdown;
pub mod roman;
pub mod runs;
pub mod scan;
pub mod sentence;
pub mod shape;
pub mod tell;
pub mod text;

pub use grammar::{format_number, is_numeral, is_valid_name, is_valid_slug, PAD_WIDTH};
pub use markdown::scan_prose_markdown;
pub use scan::{
    assemble_chunks, chunk_ranges, prose_sentences, scan_chunked, scan_prose, scan_sentence_range,
    sentence_count, ChunkScan, PARALLEL_THRESHOLD,
};
pub use tell::{Kind, Tell, TellId, Weight};
