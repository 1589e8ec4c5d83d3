//! How application errors answer an HTTP request: status code and body.
use vstd::prelude::*;
use crate::errors::{application_message, ApplicationError, DomainError};

verus! {

/// JSON body returned for any error response.
#[derive(Debug, PartialEq, Eq)]
pub struct ErrorResponse {
    pub error: String,
}

/// An application error on its way out as an HTTP response.
#[derive(Debug)]
pub struct ApiError(pub ApplicationError);

/// The HTTP status code that answers an application error.
pub open spec fn http_status(e: ApplicationError) -> u16 {
    match e {
        ApplicationError::Domain(DomainError::NotFound(_)) => 404,
        ApplicationError::Domain(DomainError::Validation(_)) => 400,
        ApplicationError::Domain(DomainError::Conflict(_)) => 409,
        ApplicationError::InvalidInput(_) => 400,
        ApplicationError::Unexpected(_) => 500,
    }
}

impl ApiError {
    pub fn from(error: ApplicationError) -> (r: Self)
        ensures
            r.0 == error,
    {
        ApiError(error)
    }

    /// The status code: 404 for a missing entity, 400 for a validation
    /// error or invalid input, 409 for a conflict, 500 otherwise.
    pub fn status_code(&self) -> (r: u16)
        ensures
            r == http_status(self.0),
    {
        match &self.0 {
            ApplicationError::Domain(DomainError::NotFound(_)) => 404,
            ApplicationError::Domain(DomainError::Validation(_)) => 400,
            ApplicationError::Domain(DomainError::Conflict(_)) => 409,
            ApplicationError::InvalidInput(_) => 400,
            ApplicationError::Unexpected(_) => 500,
        }
    }

    /// The body: the error's message.
    pub fn body(&self) -> (r: ErrorResponse)
        ensures
            r.error@ == application_message(self.0),
    {
        ErrorResponse { error: self.0.message() }
    }
}

} // verus!
