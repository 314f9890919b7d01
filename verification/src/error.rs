//! What can go wrong.

use vstd::prelude::*;

verus! {

/// The kinds of failure.
#[derive(Debug, Clone, Copy, PartialEq, Eq, Structural)]
pub enum ErrorKind {
    /// The data on disk is not in a form that the engine writes.
    InvalidData,
    /// The data ends before what it announces.
    UnexpectedEof,
    /// A caller's argument is outside what the engine takes.
    InvalidInput,
    /// What is to be made exists already.
    AlreadyExists,
    /// What is asked for does not exist.
    NotFound,
    /// The engine is closing, or closed.
    NotConnected,
    /// The engine was opened for reading.
    PermissionDenied,
    /// Something would have had to be waited for.
    WouldBlock,
    /// Anything else.
    Other,
}

/// A failure, with a message for people.
#[derive(Debug, Clone, Copy)]
pub struct Error {
    pub kind: ErrorKind,
    pub message: &'static str,
}

impl Error {
    /// A failure of the given kind.
    pub fn new(kind: ErrorKind, message: &'static str) -> (r: Self)
        ensures
            r.kind == kind,
            r.message == message,
    {
        Error { kind, message }
    }

    /// The data on disk is not in a form that the engine writes.
    pub fn invalid_data(message: &'static str) -> (r: Self)
        ensures
            r.kind == ErrorKind::InvalidData,
            r.message == message,
    {
        Error { kind: ErrorKind::InvalidData, message }
    }

    /// The kind of the failure.
    pub fn kind(&self) -> (r: ErrorKind)
        ensures
            r == self.kind,
    {
        self.kind
    }
}

} // verus!
