//! Error taxonomy of the token subsystem and the plain response values that
//! the surrounding response layer serializes.

use vstd::prelude::*;

verus! {

/// HTTP status code paired with each error class.
pub const STATUS_INTERNAL_SERVER_ERROR: u16 = 500;

pub const STATUS_NOT_FOUND: u16 = 404;

pub const STATUS_BAD_REQUEST: u16 = 400;

pub const STATUS_UNAUTHORIZED: u16 = 401;

/// Classified failure: configuration or unexpected trouble (`Internal`),
/// a missing resource (`NotFound`), a malformed request (`BadRequest`),
/// or a rejected credential (`Unauthorized`).
#[derive(Debug, Clone)]
pub enum CustomError {
    Internal(String),
    NotFound(String),
    BadRequest(String),
    Unauthorized(String),
}

impl CustomError {
    /// The transport status code and user-visible message for this error.
    /// A `BadRequest` discards its stored message in favour of a fixed one.
    pub fn get_http_status(&self) -> (r: (u16, String))
        ensures
            match self {
                CustomError::Internal(m) => r.0 == STATUS_INTERNAL_SERVER_ERROR && r.1@ == m@,
                CustomError::NotFound(m) => r.0 == STATUS_NOT_FOUND && r.1@ == m@,
                CustomError::Unauthorized(m) => r.0 == STATUS_UNAUTHORIZED && r.1@ == m@,
                CustomError::BadRequest(m) => r.0 == STATUS_BAD_REQUEST && r.1@ == "Unkown error"@,
            },
    {
        match self {
            CustomError::Internal(msg) => (STATUS_INTERNAL_SERVER_ERROR, msg.clone()),
            CustomError::NotFound(msg) => (STATUS_NOT_FOUND, msg.clone()),
            CustomError::Unauthorized(msg) => (STATUS_UNAUTHORIZED, msg.clone()),
            CustomError::BadRequest(_) => (STATUS_BAD_REQUEST, String::from_str("Unkown error")),
        }
    }

    /// The user-visible message alone, as the display form of the error.
    pub fn message(&self) -> (r: String)
        ensures
            r@ == self.get_http_status_message(),
    {
        let (_, msg) = self.get_http_status();
        msg
    }

    /// What `get_http_status` returns as its message.
    pub open spec fn get_http_status_message(&self) -> Seq<char> {
        match self {
            CustomError::Internal(m) => m@,
            CustomError::NotFound(m) => m@,
            CustomError::Unauthorized(m) => m@,
            CustomError::BadRequest(m) => "Unkown error"@,
        }
    }
}

/// Body of an error response: the message and the status code it travelled with.
#[derive(Debug)]
pub struct ErrorResponse {
    pub message: String,
    pub status: u16,
}

/// Body of a success response.
#[derive(Debug)]
pub struct CustomResult {
    pub result: String,
}

} // verus!
