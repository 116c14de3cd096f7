//! The error taxonomy of the capability interface.
//!
//! An input error names a caller mistake (an unknown tree); a storage failure
//! is a sticky problem: the same request is expected to fail identically on
//! retry, so nothing here retries. A missing optional artifact is never an
//! error: it degrades to an empty result before any of these are built.

use vstd::prelude::*;

verus! {

/// Where a failure arose: in the caller's input, or in the server's storage.
#[derive(Debug)]
pub enum ErrorLayer {
    BadInput,
    ServerLayer,
}

/// A failure report: the layer it arose in and a message for the caller.
#[derive(Debug)]
pub struct ErrorDetails {
    pub layer: ErrorLayer,
    pub message: String,
}

/// A failure of a capability operation: a persistent (sticky) problem, or an
/// operation the adapter does not support at all.
#[derive(Debug)]
pub enum ServerError {
    StickyProblem(ErrorDetails),
    Unsupported,
}

impl ServerError {
    /// Classify a storage-layer failure message as a sticky problem.
    pub fn sticky_storage(message: String) -> (r: ServerError)
        ensures
            r matches ServerError::StickyProblem(d) && d.layer == ErrorLayer::ServerLayer
                && d.message == message,
    {
        ServerError::StickyProblem(ErrorDetails { layer: ErrorLayer::ServerLayer, message })
    }

    /// Classify a caller-input failure message as a sticky problem.
    pub fn sticky_bad_input(message: String) -> (r: ServerError)
        ensures
            r matches ServerError::StickyProblem(d) && d.layer == ErrorLayer::BadInput
                && d.message == message,
    {
        ServerError::StickyProblem(ErrorDetails { layer: ErrorLayer::BadInput, message })
    }
}

} // verus!
