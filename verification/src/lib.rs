//! An in-memory key-value store with prefix listing, a binary snapshot
//! format for crash recovery, and the request/response logic of the two
//! protocol front ends that share one store.
use vstd::prelude::*;

pub mod persistence;
pub mod service;
pub mod store;
pub mod workload;

verus! {

/// Errors that the key-value service reports to its callers.
#[derive(Debug)]
pub enum NoahError {
    /// A key that a caller asked for is not in the store.
    KeyNotFound(String),
    /// A request or a persisted record that cannot be acted on.
    InvalidOperation(String),
}

} // verus!
