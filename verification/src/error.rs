//! The error that every fallible operation of the crate reports.

use vstd::prelude::*;

verus! {

/// What went wrong.
#[derive(Debug, Clone)]
pub enum EcError {
    /// A failure while the client is running, told by its message.
    Runtime(String),
}

/// A result whose error is an [`EcError`].
pub type EcResult<T> = Result<T, EcError>;

impl EcError {
    /// The message of the error.
    pub open spec fn text(self) -> Seq<char> {
        match self {
            EcError::Runtime(message) => message@,
        }
    }

    /// A runtime error with the given message.
    pub fn runtime(message: &str) -> (r: EcError)
        ensures
            r.text() == message@,
    {
        EcError::Runtime(message.to_string())
    }
}

/// The message to show for an error.
pub fn concise_error(err: EcError) -> (r: String)
    ensures
        r@ == err.text(),
{
    match err {
        EcError::Runtime(message) => message,
    }
}

} // verus!
