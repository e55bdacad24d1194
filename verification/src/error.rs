//! The one error type of the library.
use vstd::prelude::*;

verus! {

/// What can go wrong in a session or at start-up.
#[derive(Debug, Clone, Copy, PartialEq, Eq, Structural)]
pub enum Error {
    /// A frame's first payload byte names no message.
    InvalidMessageId,
    /// A frame ends before the fields of its message do.
    TruncatedMessage,
    /// A bitfield frame holds more bits than a bit vector can.
    OversizedBitfield,
    /// The info-hash in a peer's handshake is not ours.
    HandshakeMismatch,
    /// The metainfo gives no file length.
    MissingLength,
    /// The metainfo gives no announce URL.
    MissingAnnounce,
    /// The announce URL's scheme is neither `https` nor `udp`.
    UnsupportedScheme,
    /// The piece digests are not a whole number of 20-byte strings, or the
    /// lengths do not describe that many pieces.
    InvalidLayout,
    /// The metainfo's `info` dictionary is too long to digest.
    OversizedInfo,
    /// The system's random source failed.
    Random,
}

} // verus!
