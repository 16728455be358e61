use vstd::prelude::*;

verus! {

/// The closed error taxonomy that the core raises. Transport layers map these
/// to status codes; the core itself only ever constructs the first five.
#[derive(Clone, Copy, Debug, PartialEq, Eq, Structural)]
pub enum Error {
    /// Malformed base64, wrong byte length, or a non-canonical binary encoding.
    BadEncoding,
    /// A signature that does not verify against the envelope's key.
    BadSignature,
    /// No events for the queried key, or an absent immutable hash.
    NotFound,
    /// Every surviving event for the key is past its expiry at read time.
    ValueExpired,
    /// Unexpected backend failure.
    Storage,
    /// Timeout or connection failure towards a peer.
    Transport,
    /// A peer connection whose circuit breaker is open.
    CircuitOpen,
}

} // verus!
