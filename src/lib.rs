//! An embedded key/value store kept in an append-only log.
//!
//! The log is a sequence of records (`codec`), one per mutation. Opening a store
//! replays the log into an index from each live key to the byte range of its
//! latest `Set` record (`index`, `store`). A `set` or a `remove` yields the
//! record to append, a read goes to the byte range that the index gives, and once
//! the dead bytes pass a threshold the log is compacted to its live records.
//! The engine owns no file: the caller holds the log and performs the reads and
//! writes that the engine names.
pub mod codec;
pub mod index;
pub mod laws;
pub mod store;

pub use store::{KvStore, KvsError, COMPACTION_THRESHOLD};
