//! An in-memory model of the compaction engine of a log-structured-merge
//! key-value store: a k-way merge over sorted immutable tables with
//! newest-wins deduplication, size-bounded repacking into fresh tables,
//! and conditional tombstone garbage collection.

pub mod keys;
pub mod model;
pub mod table;
pub mod merge;
pub mod storage;
pub mod laws;
