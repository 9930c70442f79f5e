//! Fixed-width node identifiers for the routing table.
//!
//! An identifier is a value from the ordered space `[0, u32::MAX]`; it
//! serializes to exactly `ID_BYTES` bytes, big-endian.

use vstd::prelude::*;

verus! {

/// Number of bytes in the wire representation of an identifier.
pub const ID_BYTES: usize = 4;

/// A fixed-width identifier from a linearly ordered space.
#[derive(Clone, Copy, Debug, PartialEq, Eq, Structural)]
pub struct Id {
    pub value: u32,
}

/// Big-endian byte representation of an identifier, `ID_BYTES` long.
pub open spec fn id_to_bytes(id: Id) -> Seq<u8> {
    seq![
        (id.value >> 24) as u8,
        (id.value >> 16) as u8,
        (id.value >> 8) as u8,
        id.value as u8,
    ]
}

/// The identifier encoded by a big-endian sequence of `ID_BYTES` bytes.
pub open spec fn id_of_bytes(b: Seq<u8>) -> Id
    recommends
        b.len() == ID_BYTES,
{
    Id {
        value: ((b[0] as u32) << 24) | ((b[1] as u32) << 16) | ((b[2] as u32) << 8) | (b[3] as u32),
    }
}

impl Id {
    pub fn new(value: u32) -> (r: Id)
        ensures
            r.value == value,
    {
        Id { value }
    }

    /// Half of the identifier, rounding down; used to pick a split point.
    pub fn half(&self) -> (r: Id)
        ensures
            r.value == self.value / 2,
    {
        Id { value: self.value / 2 }
    }

    /// The next identifier up.
    pub fn succ(&self) -> (r: Id)
        requires
            self.value < u32::MAX,
        ensures
            r.value == self.value + 1,
    {
        Id { value: self.value + 1 }
    }

    /// Serialize to `ID_BYTES` big-endian bytes.
    pub fn as_bytes(&self) -> (r: Vec<u8>)
        ensures
            r@ == id_to_bytes(*self),
            r@.len() == ID_BYTES,
    {
        let mut out: Vec<u8> = Vec::new();
        out.push((self.value >> 24) as u8);
        out.push((self.value >> 16) as u8);
        out.push((self.value >> 8) as u8);
        out.push(self.value as u8);
        proof {
            assert(out@ =~= id_to_bytes(*self));
        }
        out
    }

    /// Read the identifier stored at `offset` in `bytes`, big-endian.
    pub fn from_bytes(bytes: &Vec<u8>, offset: usize) -> (r: Id)
        requires
            offset + ID_BYTES <= bytes@.len(),
        ensures
            r == id_of_bytes(bytes@.subrange(offset as int, offset + ID_BYTES)),
    {
        // binding the length ties `offset + ID_BYTES` to the usize range
        let _len = bytes.len();
        let b0 = bytes[offset];
        let b1 = bytes[offset + 1];
        let b2 = bytes[offset + 2];
        let b3 = bytes[offset + 3];
        proof {
            let chunk = bytes@.subrange(offset as int, offset + ID_BYTES);
            assert(chunk[0] == b0 && chunk[1] == b1 && chunk[2] == b2 && chunk[3] == b3);
        }
        Id { value: ((b0 as u32) << 24) | ((b1 as u32) << 16) | ((b2 as u32) << 8) | (b3 as u32) }
    }
}

/// Serializing an identifier and decoding the bytes yields the identifier
/// back, exactly.
pub proof fn lemma_id_round_trip(id: Id)
    ensures
        id_of_bytes(id_to_bytes(id)) == id,
{
    let v = id.value;
    assert(((((v >> 24) as u8) as u32) << 24) | ((((v >> 16) as u8) as u32) << 16) | ((((v
        >> 8) as u8) as u32) << 8) | (((v as u8) as u32)) == v) by (bit_vector);
}

} // verus!
