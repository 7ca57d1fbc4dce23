//! Maintains a consolidated table of note records: new batches are filtered
//! against an allow-list of owner identifiers, merged with the previously
//! accumulated table, deduplicated by full structural equality, and sorted by
//! `(owner_id, note_id)` with absent owners first.

pub mod engine;
pub mod laws;
pub mod note;
