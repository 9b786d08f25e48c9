use vstd::prelude::*;

verus! {

/// Outcome of a frame-extraction attempt that did not yield a frame:
/// either the peer closed the connection, or the accumulated bytes do not
/// yet hold a complete (delimiter-terminated) frame.
#[derive(Debug, Clone, PartialEq, Eq, Structural)]
pub enum FragmentationProcessorError {
    ConnectionClosed,
    UnexpectedError,
}

/// Error returned by a poll whose read offset lies outside the log's
/// currently retained window; the caller must resynchronize to the log's
/// start offset.
#[derive(Debug, Clone, PartialEq, Eq, Structural)]
pub struct OffsetErr;

} // verus!
