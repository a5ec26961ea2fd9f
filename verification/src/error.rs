//! The crate-level error type: a flat taxonomy wrapping a descriptive
//! message for the host's generic reply-with-error path.

use vstd::prelude::*;

verus! {

/// A descriptive error with a free-form message.
#[derive(Clone, PartialEq, Eq, Debug)]
pub struct GenericError {
    pub message: String,
}

impl GenericError {
    /// Wrap a message.
    pub fn new(message: String) -> (r: GenericError)
        ensures
            r.message == message,
    {
        GenericError { message }
    }
}

/// Errors surfaced to command handlers: a generic message, a text that was
/// not valid UTF-8, or a number that did not parse.
#[derive(Clone, PartialEq, Eq, Debug)]
pub enum SlicedError {
    Generic(GenericError),
    FromUtf8(String),
    ParseInt(String),
}

impl SlicedError {
    /// A generic error carrying this message.
    pub fn generic(message: String) -> (r: SlicedError)
        ensures
            r matches SlicedError::Generic(g) && g.message == message,
    {
        SlicedError::Generic(GenericError::new(message))
    }

    /// A short description of the error kind, one fixed text per variant.
    pub fn describe(&self) -> (r: &'static str)
        ensures
            ({
                match self {
                    SlicedError::Generic(_) => r@ == "error"@,
                    SlicedError::FromUtf8(_) => r@ == "invalid utf-8"@,
                    SlicedError::ParseInt(_) => r@ == "could not parse integer"@,
                }
            }),
    {
        match self {
            SlicedError::Generic(_) => "error",
            SlicedError::FromUtf8(_) => "invalid utf-8",
            SlicedError::ParseInt(_) => "could not parse integer",
        }
    }
}

} // verus!
