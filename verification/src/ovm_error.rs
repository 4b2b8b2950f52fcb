//! Errors of the virtual machine that decides on predicates.
use vstd::prelude::*;

verus! {

/// What went wrong in the virtual machine.
#[derive(Clone, Copy, Debug, PartialEq, Eq, Structural)]
pub enum ErrorKind {
    Io,
    AbiDecode,
    AbiError,
    PlasmaCoreError,
    PlasmaDbError,
    InvalidPreimage,
    Undecided,
    CannotDecide,
}

impl ErrorKind {
    /// The text that describes the kind.
    pub open spec fn text(self) -> Seq<char> {
        match self {
            ErrorKind::Io => "IO error"@,
            ErrorKind::AbiDecode => "ABI Decode error"@,
            ErrorKind::AbiError => "ABI error"@,
            ErrorKind::PlasmaCoreError => "Plasma Core error"@,
            ErrorKind::PlasmaDbError => "Plasma Db error"@,
            ErrorKind::InvalidPreimage => "Invalid Preimage"@,
            ErrorKind::Undecided => "Undecided"@,
            ErrorKind::CannotDecide => "CannotDecide"@,
        }
    }

    /// The text that describes the kind.
    pub fn message(&self) -> (s: &'static str)
        ensures
            s@ == self.text(),
    {
        match self {
            ErrorKind::Io => "IO error",
            ErrorKind::AbiDecode => "ABI Decode error",
            ErrorKind::AbiError => "ABI error",
            ErrorKind::PlasmaCoreError => "Plasma Core error",
            ErrorKind::PlasmaDbError => "Plasma Db error",
            ErrorKind::InvalidPreimage => "Invalid Preimage",
            ErrorKind::Undecided => "Undecided",
            ErrorKind::CannotDecide => "CannotDecide",
        }
    }
}

/// An error of the virtual machine: its kind, and, where it stands for
/// an error of the storage layer, the kind of that error.  Its view is
/// its kind.
#[derive(Debug)]
pub struct Error {
    inner: ErrorKind,
    cause: Option<crate::error::ErrorKind>,
}

impl View for Error {
    type V = ErrorKind;

    closed spec fn view(&self) -> ErrorKind {
        self.inner
    }
}

impl Error {
    /// The kind of the storage error that this error stands for, if any.
    pub closed spec fn cause_view(&self) -> Option<crate::error::ErrorKind> {
        self.cause
    }

    /// The error of the given kind.
    pub fn new(inner: ErrorKind) -> (e: Error)
        ensures
            e@ == inner,
            e.cause_view() is None,
    {
        Error { inner, cause: None }
    }

    /// The kind of the error.
    pub fn kind(&self) -> (k: &ErrorKind)
        ensures
            *k == self@,
    {
        &self.inner
    }

    /// The kind of the storage error that this error stands for, if any.
    pub fn cause(&self) -> (c: Option<crate::error::ErrorKind>)
        ensures
            c == self.cause_view(),
    {
        self.cause
    }
}

impl vstd::std_specs::convert::FromSpecImpl<ErrorKind> for Error {
    open spec fn obeys_from_spec() -> bool {
        true
    }

    closed spec fn from_spec(kind: ErrorKind) -> Self {
        Error { inner: kind, cause: None }
    }
}

impl From<ErrorKind> for Error {
    fn from(kind: ErrorKind) -> (e: Error)
        ensures
            e@ == kind,
            e.cause_view() is None,
    {
        Error { inner: kind, cause: None }
    }
}

impl vstd::std_specs::convert::FromSpecImpl<crate::abi_error::Error> for Error {
    open spec fn obeys_from_spec() -> bool {
        true
    }

    closed spec fn from_spec(error: crate::abi_error::Error) -> Self {
        Error { inner: ErrorKind::AbiError, cause: None }
    }
}

impl From<crate::abi_error::Error> for Error {
    /// An error of the encoding, of which the kind alone is kept.
    fn from(_error: crate::abi_error::Error) -> (e: Error)
        ensures
            e@ == ErrorKind::AbiError,
            e.cause_view() is None,
    {
        Error { inner: ErrorKind::AbiError, cause: None }
    }
}

impl vstd::std_specs::convert::FromSpecImpl<crate::error::Error> for Error {
    open spec fn obeys_from_spec() -> bool {
        true
    }

    closed spec fn from_spec(error: crate::error::Error) -> Self {
        Error { inner: ErrorKind::PlasmaDbError, cause: Some(error@) }
    }
}

impl From<crate::error::Error> for Error {
    /// An error of the storage layer, kept as the cause.
    fn from(error: crate::error::Error) -> (e: Error)
        ensures
            e@ == ErrorKind::PlasmaDbError,
            e.cause_view() == Some(error@),
    {
        Error { inner: ErrorKind::PlasmaDbError, cause: Some(*error.kind()) }
    }
}

} // verus!
