//! Peer descriptors: an identifier, a network address, and a flag that marks
//! the descriptor denoting the local process itself.

use vstd::prelude::*;
use crate::id::Id;

verus! {

/// A plain IPv4 endpoint: four address octets packed big-endian into `ip`,
/// and a port.
#[derive(Clone, Copy, Debug, PartialEq, Eq, Structural)]
pub struct Address {
    pub ip: u32,
    pub port: u16,
}

/// A peer descriptor. At most one descriptor per process context has
/// `is_local == true`: it denotes the owning node's own identity.
#[derive(Clone, Copy, Debug, PartialEq, Eq, Structural)]
pub struct Node {
    pub id: Id,
    pub address: Address,
    pub is_local: bool,
}

impl Node {
    pub fn new(id: Id, address: Address, is_local: bool) -> (r: Node)
        ensures
            r.id == id,
            r.address == address,
            r.is_local == is_local,
    {
        Node { id, address, is_local }
    }

    pub fn id(&self) -> (r: Id)
        ensures
            r == self.id,
    {
        self.id
    }

    pub fn is_local(&self) -> (r: bool)
        ensures
            r == self.is_local,
    {
        self.is_local
    }

    pub fn address(&self) -> (r: Address)
        ensures
            r == self.address,
    {
        self.address
    }
}

} // verus!
