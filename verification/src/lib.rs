//! A multi-index, append-mostly audit log over a key-value store.
//!
//! An audit log holds immutable events, each indexed under every subject it
//! concerns.  A per-event reference count ties the lifetime of an event blob
//! to the set of subject indices that still list it: the blob is reclaimed
//! exactly when the last index drops it.
//!
//! The data model and the operations on it (`log`, `retrieve`, `truncate`,
//! `purge`, `subjects`) live in [`index`]; each operation is one atomic step
//! over the model, which is how the store-side transaction primitive runs it.
//! [`plan`] turns those decisions into sequences of primitive store commands
//! for an I/O shell to execute atomically.

pub mod errors;
pub mod event;
pub mod index;
pub mod plan;

use vstd::prelude::*;

verus! {

/// Capacity actually used by the bounded ingestion channel when a caller
/// asks for `n` slots: a caller that passes zero gets the default.
pub fn channel_capacity(n: usize) -> (r: usize)
    ensures
        n == 0 ==> r == 100,
        n != 0 ==> r == n,
{
    if n == 0 {
        100
    } else {
        n
    }
}

} // verus!
