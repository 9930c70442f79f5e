//! Node bookkeeping for a Kademlia-style distributed hash table peer: a
//! capacity-bounded routing bucket over a fixed identifier space, with its
//! split algorithm, and the datagram format of the discovery protocol
//! (ping, pong, find-node, send-node).

pub mod bucket;
pub mod error;
pub mod id;
pub mod node;
pub mod packet;
