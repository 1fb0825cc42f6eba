//! Error kinds of the storage-mapping core.
//!
//! Malformed stored bytes are a [`DecodeError`]; a column type with no
//! encoder is an [`UnsupportedTypeError`]; a predicate shape the scan
//! planner does not support is a [`PlannerError`]. A failure of the
//! underlying key-value store is surfaced by the host adapter as a
//! [`KvStoreError`] carrying the store's own error code; the transaction it
//! belongs to is discarded, never retried here.

use vstd::prelude::*;

verus! {

/// Stored bytes do not form a well-formed encoded row.
#[derive(Debug, Clone, Copy, PartialEq, Eq, Structural)]
pub enum DecodeError {
    /// The buffer ends before a field it promises.
    Truncated,
    /// Bytes remain after the promised column count was read.
    TrailingBytes,
}

/// No encoder exists for the column type; carries the type's identifier.
#[derive(Debug, Clone, Copy, PartialEq, Eq, Structural)]
pub struct UnsupportedTypeError {
    /// The host catalog's identifier of the unsupported type.
    pub type_oid: u32,
}

/// The predicate list has a shape the planner rejects.
#[derive(Debug, Clone, Copy, PartialEq, Eq, Structural)]
pub enum PlannerError {
    /// A constraint before the last one is not an equality.
    NonFinalInequality,
    /// The constraints do not cover the index's leading columns in order.
    NonLeadingColumn,
}

/// A failure reported by the underlying key-value store, as its error code.
#[derive(Debug, Clone, Copy, PartialEq, Eq, Structural)]
pub struct KvStoreError {
    /// The store's own error code.
    pub code: i32,
}

/// Success unwrapping at the store boundary. A store failure is surfaced
/// through the host's own error channel and ends the transaction, so a
/// caller here first establishes success and only then unwraps; the host
/// adapter is the one that reports the error and never calls this on a
/// failure.
pub trait FdbErrorExt<T>: Sized {
    /// Whether the operation succeeded.
    spec fn is_success(&self) -> bool;

    /// The value carried on success.
    spec fn success_value(&self) -> T;

    /// Unwraps a result known to be successful.
    fn unwrap_or_pg_error(self) -> (r: T)
        requires
            self.is_success(),
        ensures
            r == self.success_value(),
    ;
}

impl<T> FdbErrorExt<T> for Result<T, KvStoreError> {
    open spec fn is_success(&self) -> bool {
        self is Ok
    }

    open spec fn success_value(&self) -> T {
        self->Ok_0
    }

    fn unwrap_or_pg_error(self) -> (r: T) {
        match self {
            Result::Ok(v) => v,
            Result::Err(_) => vstd::pervasive::unreached(),
        }
    }
}

} // verus!
