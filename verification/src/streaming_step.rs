//! Resumable cursor of a chunked transfer.

use vstd::prelude::*;

verus! {

/// Where a chunked transfer stands: not begun, past the key it holds, or done.
#[derive(Clone, Copy, Debug, PartialEq, Eq)]
pub enum StreamingStep<T> {
    /// Nothing was transferred yet.
    Started,
    /// Everything up to and including the key was transferred.
    Ongoing(T),
    /// Nothing is left to transfer.
    Finished,
}

impl<T> StreamingStep<T> {
    /// Whether the transfer is done.
    pub fn finished(&self) -> (b: bool)
        ensures
            b == (*self is Finished),
    {
        match self {
            StreamingStep::Finished => true,
            _ => false,
        }
    }
}

} // verus!
