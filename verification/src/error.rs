//! Errors surfaced by the envelope buffer.

use vstd::prelude::*;

verus! {

/// What can go wrong while interacting with the buffer. Storage and stack
/// failures originate in a disk-backed stack provider and bubble up
/// unchanged; `PushFailed` marks an internal logic failure, distinct from
/// storage trouble.
#[derive(Clone, Copy, PartialEq, Eq, Debug, Structural)]
pub enum EnvelopeBufferError {
    /// The persistent envelope store failed.
    Store,
    /// A single envelope stack failed.
    Stack,
    /// The buffer could not route the envelope.
    PushFailed,
}

impl EnvelopeBufferError {
    /// A short description of the error.
    pub fn message(&self) -> (r: &'static str)
        ensures
            (*self == EnvelopeBufferError::Store) ==> r@ == "failed to read or write the envelope store"@,
            (*self == EnvelopeBufferError::Stack) ==> r@ == "an envelope stack failed"@,
            (*self == EnvelopeBufferError::PushFailed) ==> r@ == "failed to push envelope to the buffer"@,
    {
        match self {
            EnvelopeBufferError::Store => "failed to read or write the envelope store",
            EnvelopeBufferError::Stack => "an envelope stack failed",
            EnvelopeBufferError::PushFailed => "failed to push envelope to the buffer",
        }
    }
}

} // verus!
