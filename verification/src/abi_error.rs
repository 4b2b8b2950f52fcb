//! Errors of the state object encoding.
use vstd::prelude::*;

verus! {

/// What went wrong in encoding or decoding.
#[derive(Clone, Copy, Debug, PartialEq, Eq, Structural)]
pub enum ErrorKind {
    /// The bytes are not the encoding of a state object.
    AbiDecode,
}

impl ErrorKind {
    /// The text that describes the kind.
    pub open spec fn text(self) -> Seq<char> {
        "ABI Decode error"@
    }

    /// The text that describes the kind.
    pub fn message(&self) -> (s: &'static str)
        ensures
            s@ == self.text(),
    {
        "ABI Decode error"
    }
}

/// An error of the state object encoding; its view is its kind.
#[derive(Debug)]
pub struct Error {
    inner: ErrorKind,
}

impl View for Error {
    type V = ErrorKind;

    closed spec fn view(&self) -> ErrorKind {
        self.inner
    }
}

impl Error {
    /// The error of the given kind.
    pub fn new(inner: ErrorKind) -> (e: Error)
        ensures
            e@ == inner,
    {
        Error { inner }
    }

    /// The kind of the error.
    pub fn kind(&self) -> (k: &ErrorKind)
        ensures
            *k == self@,
    {
        &self.inner
    }
}

impl vstd::std_specs::convert::FromSpecImpl<ErrorKind> for Error {
    open spec fn obeys_from_spec() -> bool {
        true
    }

    closed spec fn from_spec(kind: ErrorKind) -> Self {
        Error { inner: kind }
    }
}

impl From<ErrorKind> for Error {
    fn from(kind: ErrorKind) -> (e: Error)
        ensures
            e@ == kind,
    {
        Error { inner: kind }
    }
}

} // verus!
