//! The error kinds the audit log surfaces to its callers.

use vstd::prelude::*;

verus! {

/// What can go wrong while operating on the audit log.
#[derive(Clone, Copy, PartialEq, Eq, Structural, Debug)]
pub enum AuditError {
    /// The store is unreachable.
    ConnectionFailure,
    /// Optimistic-transaction retries were exhausted; safe to retry.
    TransactionContention,
    /// An id passed to `log` already names different content.
    DuplicateEvent,
    /// The id handed to `purge` does not appear in the target index.
    BoundaryNotFound,
    /// The store answered in a shape this library does not understand.
    StoreProtocolError,
}

impl AuditError {
    /// A short human-readable description of the error.
    pub fn message(&self) -> (r: &'static str)
        ensures
            r@.len() > 0,
    {
        let m = match self {
            AuditError::ConnectionFailure => "store unreachable",
            AuditError::TransactionContention => "transaction retries exhausted",
            AuditError::DuplicateEvent => "duplicate event id with different data",
            AuditError::BoundaryNotFound => "purge boundary id not found in index",
            AuditError::StoreProtocolError => "malformed store response",
        };
        proof {
            reveal_strlit("store unreachable");
            reveal_strlit("transaction retries exhausted");
            reveal_strlit("duplicate event id with different data");
            reveal_strlit("purge boundary id not found in index");
            reveal_strlit("malformed store response");
        }
        m
    }
}

} // verus!
