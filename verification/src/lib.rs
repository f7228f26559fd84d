//! Splits a byte buffer into bounded-size chunks, cutting at delimiter bytes
//! or at occurrences of a byte pattern wherever one lies inside the window.

pub mod chunker;
pub mod error;
pub mod offsets;
pub mod search;
pub mod split;

pub use chunker::{
    chunk, default_delimiters, default_target_size, Chunker, DEFAULT_DELIMITERS, DEFAULT_TARGET_SIZE,
};
pub use error::InvalidConfig;
pub use offsets::{chunk_offsets, chunk_offsets_pattern, flatten_offsets};
