//! The service's single error sum type and its mapping to HTTP status codes.

use vstd::prelude::*;

verus! {

/// Every failure the service can report. Each variant carries a diagnostic
/// string for the response body.
#[derive(Debug)]
pub enum ApiError {
    /// The key/value substrate failed.
    RedisError(String),
    /// A key was absent from the key/value store.
    NotFound(String),
    /// The client's request was malformed (empty batch, empty key).
    BadRequest(String),
    /// A vector's length did not match the index dimension.
    DimMismatch(String),
    /// A stored value could not be parsed.
    Parse(String),
    /// Lock poisoning or another internal fault.
    InternalServerError(String),
}

impl ApiError {
    /// The HTTP status this error surfaces as: absence is 404, a malformed
    /// request is 400, and every internal fault — substrate errors, dimension
    /// mismatches, unparsable stored values — is 500.
    pub open spec fn spec_status(&self) -> u16 {
        match self {
            ApiError::RedisError(_) => 500,
            ApiError::NotFound(_) => 404,
            ApiError::BadRequest(_) => 400,
            ApiError::DimMismatch(_) => 500,
            ApiError::Parse(_) => 500,
            ApiError::InternalServerError(_) => 500,
        }
    }

    /// The diagnostic string the variant carries.
    pub open spec fn spec_message(&self) -> Seq<char> {
        match self {
            ApiError::RedisError(m) => m@,
            ApiError::NotFound(m) => m@,
            ApiError::BadRequest(m) => m@,
            ApiError::DimMismatch(m) => m@,
            ApiError::Parse(m) => m@,
            ApiError::InternalServerError(m) => m@,
        }
    }

    pub fn status_code(&self) -> (code: u16)
        ensures
            code == self.spec_status(),
    {
        match self {
            ApiError::RedisError(_) => 500,
            ApiError::NotFound(_) => 404,
            ApiError::BadRequest(_) => 400,
            ApiError::DimMismatch(_) => 500,
            ApiError::Parse(_) => 500,
            ApiError::InternalServerError(_) => 500,
        }
    }

    pub fn message(&self) -> (msg: &String)
        ensures
            msg@ == self.spec_message(),
    {
        match self {
            ApiError::RedisError(m) => m,
            ApiError::NotFound(m) => m,
            ApiError::BadRequest(m) => m,
            ApiError::DimMismatch(m) => m,
            ApiError::Parse(m) => m,
            ApiError::InternalServerError(m) => m,
        }
    }
}

} // verus!
