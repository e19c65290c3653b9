//! The error taxonomy of the storage layer.
//!
//! Engine-level errors (`ConnectionError`, `ConflictError`) are recoverable
//! by retrying at the transaction boundary; `ReadOnlyViolation` and
//! `TransactionFinished` indicate a contract violation by the caller and
//! fail fast; `UnsupportedFeature` reports a capability the active backend
//! does not offer; `Thrown` carries an application-level message raised by
//! statement logic, propagated verbatim and never retried.

use vstd::prelude::*;

verus! {

#[derive(Debug, PartialEq, Eq)]
pub enum Error {
    /// The backend was unreachable or misconfigured when the datastore
    /// was opened.
    ConnectionError,
    /// Another transaction committed a change to a key this transaction
    /// read or wrote; the whole transaction must be retried from scratch.
    ConflictError,
    /// A write was attempted on a read-only transaction.
    ReadOnlyViolation,
    /// An operation was attempted after the transaction was committed or
    /// cancelled.
    TransactionFinished,
    /// The requested capability is not available on the active backend.
    UnsupportedFeature,
    /// An application-level error raised explicitly by statement logic.
    Thrown(String),
}

impl Error {
    /// A human-readable description, in place of a `Display` impl.
    pub fn message(&self) -> (r: String)
        ensures
            self matches Error::Thrown(m) ==> r@ == m@,
            self is ConnectionError ==> r@ == "Couldn't open a connection to the underlying datastore"@,
            self is ConflictError ==> r@ == "Failed to commit this transaction due to a read or write conflict"@,
            self is ReadOnlyViolation ==> r@ == "Couldn't write to a read only transaction"@,
            self is TransactionFinished ==> r@
                == "Couldn't execute query because the transaction has already been committed or cancelled"@,
            self is UnsupportedFeature ==> r@
                == "The requested capability is not supported by the active storage backend"@,
    {
        match self {
            Error::ConnectionError => "Couldn't open a connection to the underlying datastore".to_owned(),
            Error::ConflictError => "Failed to commit this transaction due to a read or write conflict".to_owned(),
            Error::ReadOnlyViolation => "Couldn't write to a read only transaction".to_owned(),
            Error::TransactionFinished => "Couldn't execute query because the transaction has already been committed or cancelled".to_owned(),
            Error::UnsupportedFeature => "The requested capability is not supported by the active storage backend".to_owned(),
            Error::Thrown(m) => m.clone(),
        }
    }
}

} // verus!
