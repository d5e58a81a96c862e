//! The error type shared by all layers.

use vstd::prelude::*;

verus! {

/// What went wrong.
#[derive(Debug, Clone, Copy, PartialEq, Eq, Structural)]
pub enum Error {
    /// A buffer cannot hold what has to be written; `needed` is the total
    /// length that would have been required.
    BufferTooSmall { needed: usize },
    /// A value does not fit into a variable-length integer, or the encoding of
    /// one is cut short.
    InvalidVarint,
    /// The TLS layer refused a record, a message, a certificate or a signature.
    Tls,
    /// A cryptographic operation failed or a key is missing.
    Crypto,
    /// Nothing is available now; try again later.
    WouldBlock,
    /// The operation is not allowed in the current state.
    InvalidState,
    /// A header list holds more entries than the protocol layer carries.
    TooManyHeaders,
    /// No further stream can be opened.
    StreamLimit,
    /// The stream is not known to the connection.
    UnknownStream,
}

} // verus!
