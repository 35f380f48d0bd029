//! Errors surfaced by the engine shell.

use vstd::prelude::*;

verus! {

/// An error with a human-readable message, used by the shell for load
/// failures: a missing or malformed level is fatal at load time.
#[derive(Debug)]
pub struct EngineError {
    message: String,
}

impl View for EngineError {
    type V = Seq<char>;

    /// The error's message.
    closed spec fn view(&self) -> Seq<char> {
        self.message@
    }
}

impl EngineError {
    /// Wraps a message as an error.
    pub fn new(message: String) -> (e: EngineError)
        ensures
            e@ == message@,
    {
        EngineError { message }
    }

    /// The error's message, for display by the shell.
    pub fn message(&self) -> (m: &str)
        ensures
            m@ == self@,
    {
        self.message.as_str()
    }
}

/// The result type the engine shell threads its errors through.
pub type EngineResult<T> = Result<T, EngineError>;

} // verus!
