//! Curated-prompt storage with a verified line-delimited JSON backup format.
//!
//! The library models the record store, defines the canonical JSONL
//! export/import codec, and proves that the two engines round-trip.

pub mod chars;
pub mod codec;
pub mod jsonl;
pub mod prompt;
pub mod search;
pub mod store;
pub mod version;
