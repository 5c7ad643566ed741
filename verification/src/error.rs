//! Error reporting: every failure names the target table or collection and
//! the operation that was being performed, without leaking raw backend error
//! formats.

use vstd::prelude::*;

verus! {

/// What failed. The engine itself raises `MalformedBatch` and
/// `UnsupportedUpdateOperator`; `Connection` and
/// `PartialInvalidationFailure` are raised by drivers whose backend calls
/// can fail, and are never retried internally.
#[derive(Debug)]
pub enum ErrorKind {
    /// The backend is unreachable or rejected a call; propagated unchanged.
    Connection,
    /// The top-level batch value is not a sequence.
    MalformedBatch,
    /// An entity-mode update carries an unrecognized operator key; the
    /// payload names that operator.
    UnsupportedUpdateOperator(String),
    /// One phase of a two-phase rollback succeeded while the other failed on
    /// a backend without atomic multi-step transactions.
    PartialInvalidationFailure,
}

/// The operation during which an error arose.
#[derive(Clone, Copy, Debug, PartialEq, Eq, Structural)]
pub enum SinkOperation {
    HandleData,
    HandleInvalidate,
}

/// An error surfaced to the caller, tagged with the target table or
/// collection name and the operation being performed.
#[derive(Debug)]
pub struct SinkError {
    pub target: String,
    pub operation: SinkOperation,
    pub kind: ErrorKind,
}

} // verus!
