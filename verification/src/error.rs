//! The failures the store reports.
use vstd::prelude::*;

verus! {

/// Why an operation on the store did not succeed.
#[derive(Debug, Clone, Copy, PartialEq, Eq, Structural)]
pub enum KvError {
    /// The log does not decode, or the index points at something other than
    /// a `Set` record of the expected key.
    Corruption,
    /// `remove` was asked for a key that is not in the store.
    KeyNotFound,
}

impl KvError {
    /// A short description, as a front end would print it.
    pub fn message(&self) -> (text: String)
        ensures
            text@ == match *self {
                KvError::Corruption => "KV map out of sync with KV store"@,
                KvError::KeyNotFound => "Key not found"@,
            },
    {
        match self {
            KvError::Corruption => "KV map out of sync with KV store".to_owned(),
            KvError::KeyNotFound => "Key not found".to_owned(),
        }
    }
}

} // verus!
