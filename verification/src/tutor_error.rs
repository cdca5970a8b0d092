//! The errors of the tutor service and how they are reported to a client.

use vstd::prelude::*;
use vstd::string::*;

verus! {

/// An error of the tutor service, with the message that describes it.
#[derive(Debug, Clone, PartialEq, Eq)]
pub enum TutorError {
    /// The database failed.
    DBError(String),
    /// The web framework failed.
    ActixError(String),
    /// The client sent parameters that cannot be used.
    InvalidInput(String),
    /// What the client asked for does not exist.
    NotFound(String),
}

/// The HTTP status code of a failure of the server.
pub const INTERNAL_SERVER_ERROR: u16 = 500;

/// The HTTP status code of a request that cannot be used.
pub const BAD_REQUEST: u16 = 400;

/// The HTTP status code of a request for what does not exist.
pub const NOT_FOUND: u16 = 404;

impl TutorError {
    /// The message that the client is told: the message of the error where
    /// the client is at fault, and no more than the kind of failure where
    /// the server is.
    pub open spec fn spec_error_response(&self) -> Seq<char> {
        match self {
            TutorError::DBError(_) => "Database error"@,
            TutorError::ActixError(_) => "Actix error"@,
            TutorError::InvalidInput(msg) => msg@,
            TutorError::NotFound(msg) => msg@,
        }
    }

    /// The status code that goes with the error.
    pub open spec fn spec_status_code(&self) -> u16 {
        match self {
            TutorError::DBError(_) | TutorError::ActixError(_) => INTERNAL_SERVER_ERROR,
            TutorError::InvalidInput(_) => BAD_REQUEST,
            TutorError::NotFound(_) => NOT_FOUND,
        }
    }

    /// The message that the client is told.
    pub fn error_response(&self) -> (text: String)
        ensures
            text@ == self.spec_error_response(),
    {
        match self {
            TutorError::DBError(_) => "Database error".to_owned(),
            TutorError::ActixError(_) => "Actix error".to_owned(),
            TutorError::InvalidInput(msg) => msg.clone(),
            TutorError::NotFound(msg) => msg.clone(),
        }
    }

    /// The status code that goes with the error.
    #[verifier::when_used_as_spec(spec_status_code)]
    pub fn status_code(&self) -> (code: u16)
        ensures
            code == self.spec_status_code(),
    {
        match self {
            TutorError::DBError(_) | TutorError::ActixError(_) => INTERNAL_SERVER_ERROR,
            TutorError::InvalidInput(_) => BAD_REQUEST,
            TutorError::NotFound(_) => NOT_FOUND,
        }
    }
}

} // verus!
