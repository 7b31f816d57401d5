//! A persistent clipboard history: captured texts, deduplicated by an MD5
//! fingerprint, listed newest first, searchable by substring, with favorites
//! and a bounded size.
//!
//! The library holds the record table as verified in-memory state and
//! describes every change it makes, so that a host can mirror the table to
//! disk.

pub mod laws;
pub mod listing;
pub mod record;
pub mod store;
pub mod text;
