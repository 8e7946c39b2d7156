//! The error mapper: translates backend outcomes into the adapter's error
//! taxonomy.
//!
//! Every backend call result passes through exactly one of two helpers:
//! [`handle_result`], which leaves a not-found outcome as an error, and
//! [`handle_result_notfound`], which turns it into an absent value.

use vstd::prelude::*;

verus! {

/// The kind of a failure reported by the versioned backend.
#[derive(Clone, Copy, PartialEq, Eq, Structural, Debug)]
pub enum BackendErrorKind {
    /// The addressed object does not exist in the checked-out version.
    NotFound,
    /// Any other backend failure.
    Other,
}

/// A failure reported by the versioned backend, carrying an opaque message.
#[derive(Debug)]
pub struct BackendError {
    pub kind: BackendErrorKind,
    pub message: String,
}

impl BackendError {
    /// A not-found outcome for an absent object.
    pub fn not_found(message: String) -> (r: BackendError)
        ensures
            r.kind is NotFound,
            r.message@ == message@,
    {
        BackendError { kind: BackendErrorKind::NotFound, message }
    }

    /// Any other backend failure.
    pub fn other(message: String) -> (r: BackendError)
        ensures
            r.kind is Other,
            r.message@ == message@,
    {
        BackendError { kind: BackendErrorKind::Other, message }
    }
}

/// The adapter's error taxonomy. A not-found backend outcome is never
/// surfaced through this type to read or delete callers: it becomes an
/// absent value or a successful no-op instead.
#[derive(Debug)]
pub enum StorageError {
    /// A capability is missing, or the operation is never implemented.
    Unsupported(String),
    /// A malformed key or prefix string, from the caller or from a backend
    /// listing.
    InvalidAddress(String),
    /// Any other backend failure, carrying the backend's message opaquely.
    Other(String),
}

impl StorageError {
    /// The message carried by the error, whichever kind it is.
    pub fn message(&self) -> (r: &String)
        ensures
            match self {
                StorageError::Unsupported(m) => r@ == m@,
                StorageError::Other(m) => r@ == m@,
                StorageError::InvalidAddress(m) => r@ == m@,
            },
    {
        match self {
            StorageError::Unsupported(m) => m,
            StorageError::Other(m) => m,
            StorageError::InvalidAddress(m) => m,
        }
    }
}

/// Converts any backend failure into an opaque [`StorageError::Other`],
/// keeping the backend's message.
pub fn handle_err(err: BackendError) -> (r: StorageError)
    ensures
        r matches StorageError::Other(m) && m@ == err.message@,
{
    StorageError::Other(err.message)
}

/// Maps a backend result into the adapter taxonomy, leaving a not-found
/// outcome as an error. Used where absence is itself exceptional, such as
/// within aggregate size summation, where a key just listed should still
/// exist.
pub fn handle_result<T>(result: Result<T, BackendError>) -> (r: Result<T, StorageError>)
    ensures
        match result {
            Ok(v) => r matches Ok(rv) && rv == v,
            Err(e) => r matches Err(StorageError::Other(m)) && m@ == e.message@,
        },
{
    match result {
        Ok(v) => Ok(v),
        Err(e) => Err(handle_err(e)),
    }
}

/// Maps a backend result into the adapter taxonomy, turning a not-found
/// outcome into `None` and passing every other failure through as an opaque
/// [`StorageError::Other`]. Used on the read and delete paths, where absence
/// is an expected outcome, not an error.
pub fn handle_result_notfound<T>(result: Result<T, BackendError>) -> (r: Result<
    Option<T>,
    StorageError,
>)
    ensures
        match result {
            Ok(v) => r matches Ok(o) && o matches Some(rv) && rv == v,
            Err(e) => if e.kind is NotFound {
                r matches Ok(o) && o is None
            } else {
                r matches Err(StorageError::Other(m)) && m@ == e.message@
            },
        },
{
    match result {
        Ok(v) => Ok(Some(v)),
        Err(e) => match e.kind {
            BackendErrorKind::NotFound => Ok(None),
            BackendErrorKind::Other => Err(StorageError::Other(e.message)),
        },
    }
}

} // verus!
