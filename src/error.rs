//! The failure kinds that the core tells apart.
use vstd::prelude::*;

verus! {

/// Why a request failed. At the transport every kind becomes one generic failure.
#[derive(Debug, Clone, Copy, PartialEq, Eq, Structural)]
pub enum Error {
    /// A frame is too short, a length byte disagrees with the frame, or a count is too large.
    Framing,
    /// A token has the wrong length, a bad tag, has expired, or is bound to another action.
    Token,
    /// No pending login for the user, or an unknown username.
    AuthState,
    /// The access-rule probe missed.
    Authorization,
    /// The store refused the write (the key is already taken).
    Store,
    /// The key exchange rejected a message.
    Pake,
    /// The clock is past the range that a token's expiry can hold.
    Clock,
}

} // verus!
