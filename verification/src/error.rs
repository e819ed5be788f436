//! What can go wrong.

use vstd::prelude::*;

verus! {

/// The standard library's input and output error, carried through unopened.
#[verifier::external_type_specification]
#[verifier::external_body]
pub struct ExIoError(std::io::Error);

/// Why an operation of this library failed.
#[derive(Debug)]
pub enum AppError {
    /// Reading or writing failed.
    Io(std::io::Error),
    /// Data from outside does not have the form it should have.
    InvalidResponse(String),
    /// Anything else, in words.
    Other(String),
}

/// The kind of an [`AppError`], and its message where this library wrote it.
#[verifier::ext_equal]
pub enum Failure {
    Io,
    InvalidResponse(Seq<char>),
    Other(Seq<char>),
}

impl AppError {
    pub open spec fn failure(self) -> Failure {
        match self {
            AppError::Io(_) => Failure::Io,
            AppError::InvalidResponse(message) => Failure::InvalidResponse(message@),
            AppError::Other(message) => Failure::Other(message@),
        }
    }
}

/// [`AppError::InvalidResponse`] with a copy of `message`.
pub fn invalid_response(message: &str) -> (r: AppError)
    ensures
        r.failure() == Failure::InvalidResponse(message@),
{
    AppError::InvalidResponse(message.to_owned())
}

/// [`AppError::Other`] with a copy of `message`.
pub fn other_error(message: &str) -> (r: AppError)
    ensures
        r.failure() == Failure::Other(message@),
{
    AppError::Other(message.to_owned())
}

} // verus!
