use vstd::prelude::*;

verus! {

/// Failures that the node surfaces to its callers.
#[derive(Debug, Clone, Copy, PartialEq, Eq, Structural)]
pub enum KadError {
    /// A textual identifier is not exactly 40 hexadecimal digits.
    MalformedIdentifier,
    /// A contact's scratch distance was read before it was computed.
    DistanceNotComputed,
    /// An RPC got no timely answer, or could not be sent.
    PeerUnreachable,
    /// An inbound datagram could not be decoded.
    DeserializationFailure,
    /// The routing-table command queue is closed.
    ActorUnavailable,
}

} // verus!
