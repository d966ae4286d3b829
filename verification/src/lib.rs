//! Merging of tab-delimited user-database snapshots.
//!
//! A snapshot file holds an optional leading block of `#` comment lines
//! followed by one record per line.  Records with the same key are
//! deduplicated, the highest confidence winning; the merged store is
//! emitted in ascending key order behind the main file's header block.

pub mod header;
pub mod laws;
pub mod parse;
pub mod record;
pub mod store;
pub mod text;
