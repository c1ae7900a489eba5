//! The error type of every fallible operation of the store.
use vstd::prelude::*;

verus! {

/// What went wrong.
#[derive(Debug, Clone, Copy, PartialEq, Eq, Structural)]
pub enum ErrorKind {
    /// An address was opened with a type other than the one its catalog entry records.
    TypeMismatch,
    /// A positional write went past the end of a list.
    OutOfRange,
    /// Stored bytes did not decode as the expected key or value type.
    DecodeFailure,
    /// The underlying engine reported a failure.
    BackendFailure,
    /// A staged migration could not be applied.
    MigrationConflict,
    /// An index name is empty, too long, or holds a reserved byte.
    InvalidName,
}

/// The error type for operations on the store: a kind and a human-readable message.
///
/// Application code should in most cases treat these errors as fatal.
#[derive(Debug, Clone)]
pub struct Error {
    pub kind: ErrorKind,
    pub message: String,
}

impl Error {
    /// Creates a storage error with a message about the reason; it counts as a
    /// failure of the underlying engine.
    pub fn new(message: String) -> (r: Error)
        ensures
            r.kind == ErrorKind::BackendFailure,
            r.message@ == message@,
    {
        Error { kind: ErrorKind::BackendFailure, message }
    }

    /// Creates an error of the given kind.
    pub fn with_kind(kind: ErrorKind, message: String) -> (r: Error)
        ensures
            r.kind == kind,
            r.message@ == message@,
    {
        Error { kind, message }
    }

    /// The kind of this error.
    pub fn kind(&self) -> (r: ErrorKind)
        ensures
            r == self.kind,
    {
        self.kind
    }
}

} // verus!
