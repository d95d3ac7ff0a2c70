use vstd::prelude::*;

verus! {

/// Width of a node identifier in bytes.
pub const ID_LENGTH: usize = 20;

/// Capacity of a bucket (Kademlia's `k`).
pub const BUCKET_SIZE: usize = 20;

/// Number of peers probed in parallel during one lookup round.
pub const ALPHA: usize = 5;

/// Number of buckets in a routing table: one per bit of an identifier.
pub const RT_BCKT_SIZE: usize = ID_LENGTH * 8;

/// How often a response is sent before the sender gives up.
pub const SEND_ATTEMPTS: usize = 3;

/// Address that the listener binds to.
pub const ALL_IPV4: &'static str = "0.0.0.0";

/// Port on which every node listens for RPC traffic.
pub const RPC_PORT: &'static str = "5678";

} // verus!
