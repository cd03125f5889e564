//! How the failures of an S3-like service are reported.
use crate::errors::DriverError;
use std::time::SystemTime;
use vstd::prelude::*;
use vstd::string::StringExecFns;

verus! {

/// The calls that a backend makes on the service.
#[derive(Clone, Copy, Debug, PartialEq, Eq, Structural)]
pub enum S3Operation {
    GetObject,
    HeadObject,
    PutObject,
    DeleteObject,
    DeleteObjects,
    ListObjectsV2,
}

/// What the service answered when it refused a call.
#[derive(Clone, Copy, Debug, PartialEq, Eq, Structural)]
pub enum ServiceCode {
    NoSuchKey,
    NotFound,
    NoSuchBucket,
    Other,
}

/// How a call failed.
pub enum SdkFailure {
    /// The request could not be built.
    ConstructionFailure,
    /// The request timed out.
    TimeoutError,
    /// The request could not be sent.
    DispatchFailure,
    /// A response came that could not be read: its HTTP status, and the
    /// description of the failure.
    ResponseError(u16, String),
    /// The service refused the call, with this code and message.
    ServiceError(ServiceCode, String),
    /// Any other failure, with its description.
    Other(String),
}

/// The service said that what the call works on does not exist.
pub open spec fn says_missing(operation: S3Operation, code: ServiceCode) -> bool {
    ||| operation == S3Operation::GetObject && code == ServiceCode::NoSuchKey
    ||| operation == S3Operation::HeadObject && code == ServiceCode::NotFound
    ||| operation == S3Operation::ListObjectsV2 && code == ServiceCode::NoSuchBucket
}

/// The error that stands for a failed call.
pub open spec fn sdk_error(operation: S3Operation, failure: SdkFailure) -> DriverError {
    match failure {
        SdkFailure::ConstructionFailure => DriverError::Network(),
        SdkFailure::TimeoutError => DriverError::Network(),
        SdkFailure::DispatchFailure => DriverError::Network(),
        SdkFailure::ResponseError(status, detail) => if status == 404 {
            DriverError::ResourceNotFound
        } else {
            DriverError::Any(detail)
        },
        SdkFailure::ServiceError(code, message) => if says_missing(operation, code) {
            DriverError::ResourceNotFound
        } else {
            DriverError::Any(message)
        },
        SdkFailure::Other(detail) => DriverError::Any(detail),
    }
}

/// Reports a failed call: a request that could not be built or sent, or
/// that timed out, as `Network`; a status 404 or the service's word that
/// the object does not exist as `ResourceNotFound`; anything else as `Any`
/// with its message, unchanged.
pub fn from_sdk_failure(operation: S3Operation, failure: SdkFailure) -> (error: DriverError)
    ensures
        error == sdk_error(operation, failure),
{
    match failure {
        SdkFailure::ConstructionFailure => DriverError::Network(),
        SdkFailure::TimeoutError => DriverError::Network(),
        SdkFailure::DispatchFailure => DriverError::Network(),
        SdkFailure::ResponseError(status, detail) => {
            if status == 404 {
                DriverError::ResourceNotFound
            } else {
                DriverError::Any(detail)
            }
        },
        SdkFailure::ServiceError(code, message) => {
            let missing = match operation {
                S3Operation::GetObject => matches!(code, ServiceCode::NoSuchKey),
                S3Operation::HeadObject => matches!(code, ServiceCode::NotFound),
                S3Operation::ListObjectsV2 => matches!(code, ServiceCode::NoSuchBucket),
                _ => false,
            };
            if missing {
                DriverError::ResourceNotFound
            } else {
                DriverError::Any(message)
            }
        },
        SdkFailure::Other(detail) => DriverError::Any(detail),
    }
}

/// Whether the object exists, from the answer to a `HeadObject` call. An
/// object that does not exist is no error: every failure that stands for
/// `ResourceNotFound` says that the object is not there, and any other
/// failure is reported.
pub fn exists_from_head(answer: Result<(), SdkFailure>) -> (res: Result<bool, DriverError>)
    ensures
        res == (match answer {
            Ok(_) => Ok::<bool, DriverError>(true),
            Err(failure) => if sdk_error(S3Operation::HeadObject, failure) is ResourceNotFound {
                Ok::<bool, DriverError>(false)
            } else {
                Err::<bool, DriverError>(sdk_error(S3Operation::HeadObject, failure))
            },
        }),
        !(res matches Err(DriverError::ResourceNotFound)),
{
    match answer {
        Ok(_) => Ok(true),
        Err(failure) => match from_sdk_failure(S3Operation::HeadObject, failure) {
            DriverError::ResourceNotFound => Ok(false),
            error => Err(error),
        },
    }
}

/// The prefix under which the objects of the directory `dir` are listed.
pub fn directory_prefix(dir: &str) -> (prefix: String)
    ensures
        prefix@ == dir@ + "/"@,
{
    let mut prefix = dir.to_string();
    prefix.append("/");
    prefix
}

/// The time of the last change, from the answer to a `HeadObject` call
/// that may lack it.
pub fn last_modified_from(stamp: Option<SystemTime>) -> (res: Result<SystemTime, DriverError>)
    ensures
        match stamp {
            Some(time) => res == Ok::<SystemTime, DriverError>(time),
            None => res matches Err(DriverError::Any(detail)) && detail@
                == "last modify is missing"@,
        },
{
    match stamp {
        Some(time) => Ok(time),
        None => Err(DriverError::Any("last modify is missing".to_string())),
    }
}

} // verus!
