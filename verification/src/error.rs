//! The failure kinds reported by the writer, the reader and the pool set-up.

use vstd::prelude::*;

verus! {

/// Why an operation did not complete.
#[derive(Clone, Copy, Debug, PartialEq, Eq, Structural)]
pub enum CodecError {
    /// The sink refused the bytes of a flush.
    Io,
    /// The source ended before the requested bits were available.
    UnexpectedEof,
    /// A byte-level operation was attempted while the cursor was not on a
    /// byte boundary.
    Alignment,
    /// A block header was complete but its file name is not valid UTF-8.
    MalformedHeader,
    /// The hardware concurrency could not be determined.
    Configuration,
    /// The worker pool could not be started.
    WorkerPool,
}

impl CodecError {
    /// A short description for diagnostics.
    pub fn describe(&self) -> (text: &'static str)
        ensures
            text@ == Self::description(*self)@,
    {
        match self {
            CodecError::Io => "the sink refused a flush",
            CodecError::UnexpectedEof => "the source ended inside a value",
            CodecError::Alignment => "the cursor is not on a byte boundary",
            CodecError::MalformedHeader => "the block header holds an invalid file name",
            CodecError::Configuration => "the hardware concurrency is unknown",
            CodecError::WorkerPool => "the worker pool could not be started",
        }
    }

    /// The text that [`CodecError::describe`] returns for each kind.
    pub open spec fn description(e: CodecError) -> &'static str {
        match e {
            CodecError::Io => "the sink refused a flush",
            CodecError::UnexpectedEof => "the source ended inside a value",
            CodecError::Alignment => "the cursor is not on a byte boundary",
            CodecError::MalformedHeader => "the block header holds an invalid file name",
            CodecError::Configuration => "the hardware concurrency is unknown",
            CodecError::WorkerPool => "the worker pool could not be started",
        }
    }
}

} // verus!
