//! The closed set of outcomes that every backend maps its native failures
//! onto, so that callers branch on meaning rather than on a backend's codes.

use vstd::prelude::*;

verus! {

/// What went wrong, independent of the backend.
#[derive(Clone, Copy, Debug, PartialEq, Eq, Structural)]
pub enum ErrorKind {
    /// The key does not exist.
    NotFound,
    /// A byte count or length header disagrees with what was expected.
    DataIntegrity,
    /// A network failure or a server-side (5xx) failure: worth retrying.
    Transient,
    /// A client-side failure: bad credentials, a missing bucket, a 4xx.
    PermanentClient,
    /// A structured field of a response (a timestamp, a size) is malformed.
    ParseFailure,
    /// The configuration handed to a constructor is incomplete or invalid.
    ConfigurationInvalid,
}

/// A classified failure, with the backend's own message kept for diagnostics.
#[derive(Debug)]
pub struct Error {
    pub kind: ErrorKind,
    pub detail: String,
}

impl Error {
    pub fn new(kind: ErrorKind, detail: String) -> (e: Error)
        ensures
            e.kind == kind,
            e.detail@ == detail@,
    {
        Error { kind, detail }
    }

    pub fn kind(&self) -> (k: ErrorKind)
        ensures
            k == self.kind,
    {
        self.kind
    }

    pub fn is_not_found(&self) -> (b: bool)
        ensures
            b == (self.kind == ErrorKind::NotFound),
    {
        self.kind == ErrorKind::NotFound
    }
}

/// Checks a mandatory configuration value at construction: an empty one is
/// a configuration error.
pub fn require_setting(value: &str) -> (r: Result<(), Error>)
    ensures
        r is Err <==> value@.len() == 0,
        r matches Err(e) ==> e.kind == ErrorKind::ConfigurationInvalid,
{
    if value.is_empty() {
        Err(Error { kind: ErrorKind::ConfigurationInvalid, detail: String::from_str("missing configuration value") })
    } else {
        Ok(())
    }
}

/// Settles a failed delete: a key that is already missing counts as deleted,
/// so only other failures remain failures.
pub fn settle_delete(e: Error) -> (r: Result<(), Error>)
    ensures
        r is Ok <==> e.kind == ErrorKind::NotFound,
        r matches Err(x) ==> x.kind == e.kind && x.detail@ == e.detail@,
{
    if e.kind == ErrorKind::NotFound {
        Ok(())
    } else {
        Err(e)
    }
}

/// The kind that an HTTP status code denotes.
pub open spec fn status_kind(status: u16) -> ErrorKind {
    if status == 404 {
        ErrorKind::NotFound
    } else if 500 <= status <= 599 {
        ErrorKind::Transient
    } else {
        ErrorKind::PermanentClient
    }
}

/// Classifies an HTTP status code: 404 is a missing key, 5xx is transient and
/// anything else that arrives as a failure is a permanent client error.
pub fn classify_status(status: u16) -> (k: ErrorKind)
    ensures
        k == status_kind(status),
{
    if status == 404 {
        ErrorKind::NotFound
    } else if 500 <= status && status <= 599 {
        ErrorKind::Transient
    } else {
        ErrorKind::PermanentClient
    }
}

/// Checks that a received byte count matches the expected one.
pub fn check_length(expected: usize, actual: usize) -> (r: Result<(), ErrorKind>)
    ensures
        r is Ok <==> expected == actual,
        r matches Err(k) ==> k == ErrorKind::DataIntegrity,
{
    if expected == actual {
        Ok(())
    } else {
        Err(ErrorKind::DataIntegrity)
    }
}

} // verus!
