//! How the failures of the local file system are reported.
use crate::errors::DriverError;
use std::io::ErrorKind;
use vstd::prelude::*;

verus! {

/// `std::io::ErrorKind`: the kind of a failure of the file system.
#[verifier::external_type_specification]
#[verifier::external_body]
pub struct ExErrorKind(ErrorKind);

/// What a failed call on the file system said.
pub enum IoFailure {
    /// The file or directory does not exist.
    NotFound,
    /// Any other kind of failure, with its description.
    Other(String),
}

/// The error that stands for a failure of the file system.
pub open spec fn io_error(failure: IoFailure) -> DriverError {
    match failure {
        IoFailure::NotFound => DriverError::ResourceNotFound,
        IoFailure::Other(detail) => DriverError::Any(detail),
    }
}

/// Tells `ErrorKind::NotFound` of std from the other kinds, and takes the
/// description of those as `ErrorKind`'s `to_string` gives it.
#[verifier::external_body]
fn io_failure(kind: ErrorKind) -> IoFailure {
    match kind {
        ErrorKind::NotFound => IoFailure::NotFound,
        other => IoFailure::Other(other.to_string()),
    }
}

/// Reports a failure of the file system: a missing file as
/// `ResourceNotFound`, anything else with its description.
pub fn from_io_failure(failure: IoFailure) -> (error: DriverError)
    ensures
        error == io_error(failure),
{
    match failure {
        IoFailure::NotFound => DriverError::ResourceNotFound,
        IoFailure::Other(detail) => DriverError::Any(detail),
    }
}

/// `failure` is what is read of the kind `kind`: that it is `NotFound`, or
/// else its description.
pub closed spec fn read_of_kind(kind: ErrorKind, failure: IoFailure) -> bool {
    call_ensures(io_failure, (kind,), failure)
}

/// Reports the kind of an I/O error: the error that stands for what is read
/// of the kind, which is `ResourceNotFound` or `Any` with a description.
pub fn from_io_error_kind(kind: ErrorKind) -> (error: DriverError)
    ensures
        exists|failure: IoFailure| #[trigger]
            read_of_kind(kind, failure) && error == io_error(failure),
        error is ResourceNotFound || error is Any,
{
    let failure = io_failure(kind);
    assert(read_of_kind(kind, failure));
    from_io_failure(failure)
}

} // verus!
