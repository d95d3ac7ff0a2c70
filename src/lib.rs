//! A Kademlia distributed hash table node: identifiers and the XOR metric,
//! contacts, buckets, the routing table and its command handler, the RPC
//! envelope and correlation table, the iterative lookup state machine, and
//! the shell's command syntax.
pub mod bucket;
pub mod cli;
pub mod constants;
pub mod contact;
pub mod error;
pub mod kademlia;
pub mod kademlia_id;
pub mod networking;
pub mod ranking;
pub mod routing_table;
pub mod routing_table_handler;
pub mod rpc;
