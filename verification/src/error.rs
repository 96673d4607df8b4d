//! The ways a request can be refused, and how each is answered.
use vstd::prelude::*;

verus! {

/// Why a request was refused.
#[derive(Clone, Copy, Debug, PartialEq, Eq, Structural)]
pub enum ApiError {
    /// The body is missing, empty or only whitespace.
    EmptyBody,
    /// The id is missing or not a lowercase UUID.
    BadId,
    /// The id is already an entry or a purge.
    DuplicateId,
    /// No row fits the request.
    NotFound,
    /// A time, or the shape of the request, could not be read.
    BadTime,
}

/// The HTTP status that answers an error.
pub open spec fn error_status(e: ApiError) -> u16 {
    match e {
        ApiError::EmptyBody => 400,
        ApiError::BadId => 400,
        ApiError::DuplicateId => 409,
        ApiError::NotFound => 404,
        ApiError::BadTime => 400,
    }
}

/// The text of the `error` field that answers an error.
pub open spec fn error_text(e: ApiError) -> Seq<char> {
    match e {
        ApiError::EmptyBody => "body must not be empty"@,
        ApiError::BadId => "id must be a uuid"@,
        ApiError::DuplicateId => "id already used"@,
        ApiError::NotFound => "not found"@,
        ApiError::BadTime => "bad time"@,
    }
}

impl ApiError {
    /// The HTTP status code of the answer.
    pub fn status(&self) -> (code: u16)
        ensures
            code == error_status(*self),
    {
        match self {
            ApiError::EmptyBody => 400,
            ApiError::BadId => 400,
            ApiError::DuplicateId => 409,
            ApiError::NotFound => 404,
            ApiError::BadTime => 400,
        }
    }

    /// The text of the answer's `error` field.
    pub fn message(&self) -> (text: &'static str)
        ensures
            text@ == error_text(*self),
    {
        match self {
            ApiError::EmptyBody => "body must not be empty",
            ApiError::BadId => "id must be a uuid",
            ApiError::DuplicateId => "id already used",
            ApiError::NotFound => "not found",
            ApiError::BadTime => "bad time",
        }
    }
}

} // verus!
