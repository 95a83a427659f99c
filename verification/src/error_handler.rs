//! The error-reporting collaborator: a run's terminal error is handed to it
//! exactly once.

use vstd::prelude::*;
use crate::parser::ParserError;

verus! {

/// Receives the terminal error of a failed run.
pub trait ErrorHandler: Sized {
    fn handle_error(&mut self, e: ParserError);
}

/// An [`ErrorHandler`] that keeps the reported error for its owner to
/// inspect; the owner decides how to surface it.
pub struct ErrorHandlerImpl {
    last: Option<ParserError>,
}

impl ErrorHandlerImpl {
    pub fn new() -> (r: Self)
        ensures
            r.last_error() is None,
    {
        Self { last: None }
    }

    /// The most recently reported error, if any.
    pub closed spec fn last_error(self) -> Option<ParserError> {
        self.last
    }

    /// Hands the kept error out, leaving nothing behind.
    pub fn take_error(&mut self) -> (r: Option<ParserError>)
        ensures
            r == old(self).last_error(),
            final(self).last_error() is None,
    {
        let mut r: Option<ParserError> = None;
        core::mem::swap(&mut r, &mut self.last);
        r
    }
}

impl ErrorHandler for ErrorHandlerImpl {
    fn handle_error(&mut self, e: ParserError) {
        self.last = Some(e);
    }
}

} // verus!
