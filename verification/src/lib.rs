//! A persistent key-value store kept as an append-only log of JSON records.
//!
//! The library holds the log as a byte image, together with an index from each
//! live key to the offset of its latest `SetKey` record, and proves that the
//! index, the log and the abstract map of keys to values agree after every
//! operation, across compaction and across reopening.  Reading and writing
//! the image on disk is left to the caller, who asks the store for the bytes
//! that are not yet saved.
//!
//! A log is accepted only if it is the text of records from its first byte
//! to its last: a log that ends within a record is refused as corrupt, and
//! nothing in front of the damage is thrown away.
use vstd::prelude::*;

pub mod error;
pub mod index;
pub mod json;
pub mod kvls;
pub mod kvs;
pub mod laws;
pub mod log;
pub mod model;
pub mod record;

pub use crate::error::KvError;
pub use crate::kvls::KvLogStore;
pub use crate::kvs::KvStore;

verus! {

/// The commands a front end can ask of the store.
#[derive(Debug)]
pub enum Operations {
    /// Bind `key` to `value`.
    SetKey { key: String, value: String },
    /// Look `key` up.
    Get { key: String },
    /// Unbind `key`.
    Rm { key: String },
}

} // verus!
