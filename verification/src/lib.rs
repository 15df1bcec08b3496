//! Shrinks a shell history: parses timestamped records out of the raw text,
//! deduplicates, excludes, redacts and flags them, and renders the survivors
//! back in the on-disk format, ordered by timestamp.
pub mod emit;
pub mod extract;
pub mod formats;
pub mod laws;
pub mod mmap;
pub mod pipeline;
pub mod roundtrip;
pub mod rules;
pub mod text;
