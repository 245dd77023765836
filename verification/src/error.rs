//! Errors of the library.

use crate::multicast::error::McError;
use vstd::prelude::*;

verus! {

/// A QUIC error.
#[derive(Clone, Copy, Debug, PartialEq, Eq, Structural)]
pub enum Error {
    /// There is no more work to do.
    Done,
    /// The operation cannot be completed because the connection is in an
    /// invalid state.
    InvalidState,
    /// A frame could not be parsed.
    InvalidFrame,
    /// The provided buffer is too short.
    BufferTooShort,
    /// A cryptographic operation failed.
    CryptoFail,
    /// The peer violated the flow control limits.
    FlowControl,
    /// The peer violated the stream limits.
    StreamLimit,
    /// The operation cannot be completed because the stream is in an invalid
    /// state. The stream ID is provided.
    InvalidStreamState(u64),
    /// The received data exceeds the stream's final size.
    FinalSize,
    /// An error of the multicast extension.
    Multicast(McError),
}

} // verus!
