//! The RPC envelope that peers exchange, one per datagram.
use crate::contact::Contact;
use crate::kademlia_id::KademliaID;
use vstd::prelude::*;

verus! {

/// The methods of the wire protocol.
#[derive(Debug, Clone, Copy, PartialEq, Eq, Structural)]
pub enum Command {
    PING,
    PONG,
    FINDNODE,
    FINDVALUE,
    STORE,
}

/// A request, a response or an error, tagged with the correlation id of the
/// call it belongs to.
#[derive(Debug)]
pub enum RpcMessage {
    Request {
        rpc_id: KademliaID,
        method: Command,
        target_id: Option<KademliaID>,
        data: Option<String>,
        contact: Option<Vec<Contact>>,
    },
    Response {
        rpc_id: KademliaID,
        result: Command,
        data: Option<String>,
        contact: Option<Vec<Contact>>,
    },
    Error { rpc_id: KademliaID, message: String },
}

} // verus!
