//! Errors of the storage interface.
use vstd::prelude::*;

verus! {

/// Why a request to storage failed.
#[derive(Debug)]
pub enum Error {
    /// The service behind the interface failed.
    ServiceError { error: String },
    /// A value could not be written to or read from bytes.
    SerializationError(String),
}

impl Error {
    /// The error for a failure of the service, with its message.
    pub fn service(message: String) -> (e: Self)
        ensures
            e == (Error::ServiceError { error: message }),
    {
        Error::ServiceError { error: message }
    }

    /// The error for a failure to serialize, with its message.
    pub fn serialization(message: String) -> (e: Self)
        ensures
            e == Error::SerializationError(message),
    {
        Error::SerializationError(message)
    }

    /// Whether the error is a failure of the service.
    pub fn is_service_error(&self) -> (b: bool)
        ensures
            b == (self is ServiceError),
    {
        match self {
            Error::ServiceError { .. } => true,
            Error::SerializationError(_) => false,
        }
    }

    /// The message the error carries.
    pub fn message(&self) -> (m: &String)
        ensures
            *m == (match *self {
                Error::ServiceError { error } => error,
                Error::SerializationError(message) => message,
            }),
    {
        match self {
            Error::ServiceError { error } => error,
            Error::SerializationError(message) => message,
        }
    }
}

/// The largest number of items a request may ask for.
pub const MAX_REQUEST_LIMIT: u64 = 10000;

} // verus!
