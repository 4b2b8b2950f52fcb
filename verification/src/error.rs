//! Errors of the storage layer.
use vstd::prelude::*;

verus! {

/// What went wrong in a storage operation.
#[derive(Clone, Copy, Debug, PartialEq, Eq, Structural)]
pub enum ErrorKind {
    /// The backend reported a fault.
    Io,
    /// The bounds do not describe an interval: the start is not below the end.
    InvalidRange,
    /// A stored entry is not the encoding of a range, or stored ranges overlap.
    Malformed,
}

impl ErrorKind {
    /// The text that describes the kind.
    pub open spec fn text(self) -> Seq<char> {
        match self {
            ErrorKind::Io => "IO error"@,
            ErrorKind::InvalidRange => "Invalid range"@,
            ErrorKind::Malformed => "Malformed range store"@,
        }
    }

    /// The text that describes the kind.
    pub fn message(&self) -> (s: &'static str)
        ensures
            s@ == self.text(),
    {
        match self {
            ErrorKind::Io => "IO error",
            ErrorKind::InvalidRange => "Invalid range",
            ErrorKind::Malformed => "Malformed range store",
        }
    }
}

/// An error of the storage layer; its view is its kind.
#[derive(Debug)]
pub struct Error {
    inner: ErrorKind,
}

impl View for Error {
    type V = ErrorKind;

    closed spec fn view(&self) -> ErrorKind {
        self.inner
    }
}

impl Error {
    /// The error of the given kind.
    pub fn new(inner: ErrorKind) -> (e: Error)
        ensures
            e@ == inner,
    {
        Error { inner }
    }

    /// The kind of the error.
    pub fn kind(&self) -> (k: &ErrorKind)
        ensures
            *k == self@,
    {
        &self.inner
    }
}

impl vstd::std_specs::convert::FromSpecImpl<ErrorKind> for Error {
    open spec fn obeys_from_spec() -> bool {
        true
    }

    closed spec fn from_spec(kind: ErrorKind) -> Self {
        Error { inner: kind }
    }
}

impl From<ErrorKind> for Error {
    fn from(kind: ErrorKind) -> (e: Error)
        ensures
            e@ == kind,
    {
        Error { inner: kind }
    }
}

} // verus!
