//! The failures the gateway logic can report.

use vstd::prelude::*;

verus! {

/// Every way a library operation can fail.
#[derive(Debug, Clone, Copy, PartialEq, Eq, Structural)]
pub enum Error {
    /// A challenge answer that is not a legal factor list.
    InvalidFormat,
    /// The operator asked for the usage text instead of a run.
    HelpRequested,
    /// A port number that is not a decimal integer below 65536.
    InvalidPort,
    /// A `<port>:<url>` mapping without the colon and the url.
    MissingUrl,
    /// A timeout or size that is not a decimal integer that fits 64 bits.
    InvalidNumber,
    /// More listeners than the acceptor can multiplex.
    TooManyListeners,
    /// Header-directed forwarding was enabled without the acknowledgement flag.
    WarningNotAcknowledged,
    /// The system's random source failed.
    Entropy,
    /// A record with the same identifier is already stored.
    DuplicateId,
    /// No usable client address could be determined for a request.
    NoClientAddress,
    /// An answer that earns no allowance: its challenge is unknown, expired
    /// or used up, was stored with another digest, or was issued to another
    /// address.
    Rejected,
    /// A worker request whose identifier names no pending dispatch.
    UnknownDispatch,
    /// Every identifier that was drawn is taken.
    IdsExhausted,
}

} // verus!
