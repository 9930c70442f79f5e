//! The datagram format: a header tag, a 4-byte correlation cookie and a
//! fixed-size payload, with the builders for the four message kinds.
//!
//! Wire layout of a packet: `header || cookie (big-endian) || payload`.
//! A find-node payload carries one identifier left-aligned, the rest zero; a
//! send-node payload packs the identifiers' bytes contiguously from the
//! start. The cookie of a request is freshly generated; a response echoes the
//! cookie of the request it answers.

use vstd::prelude::*;
use crate::id::{Id, ID_BYTES, id_to_bytes, id_of_bytes, lemma_id_round_trip};

verus! {

/// Size in bytes of every packet payload.
pub const DATA_SIZE: usize = 32;

pub const PING_HEADER: u8 = 1;

pub const PONG_HEADER: u8 = 2;

pub const FINDNODE_HEADER: u8 = 3;

pub const SENDNODE_HEADER: u8 = 4;

/// `n` zero bytes.
pub open spec fn zeros(n: nat) -> Seq<u8> {
    Seq::new(n, |i: int| 0u8)
}

/// Big-endian byte representation of a cookie.
pub open spec fn u32_to_bytes(v: u32) -> Seq<u8> {
    seq![(v >> 24) as u8, (v >> 16) as u8, (v >> 8) as u8, v as u8]
}

/// The concatenated byte representations of a list of identifiers.
pub open spec fn ids_to_bytes(ids: Seq<Id>) -> Seq<u8>
    decreases ids.len(),
{
    if ids.len() == 0 {
        Seq::<u8>::empty()
    } else {
        ids_to_bytes(ids.drop_last()) + id_to_bytes(ids.last())
    }
}

/// Generates a fresh correlation cookie for a request packet.
///
/// Relies on `rand::random`: a sampled `u32`; nothing is assumed of the
/// result, so callers learn only that some cookie was chosen.
#[verifier::external_body]
fn fresh_cookie() -> u32 {
    rand::random::<u32>()
}

/// A datagram: header tag, correlation cookie, fixed-size payload.
pub struct Packet {
    pub header: u8,
    pub cookie: u32,
    pub data: Vec<u8>,
}

impl Packet {
    /// The packet invariant: the payload has exactly `DATA_SIZE` bytes.
    pub open spec fn wf(self) -> bool {
        self.data@.len() == DATA_SIZE
    }

    /// The packet's wire representation.
    pub open spec fn spec_bytes(self) -> Seq<u8> {
        seq![self.header] + u32_to_bytes(self.cookie) + self.data@
    }

    /// A packet with an explicitly supplied cookie (a response).
    pub fn new(header: u8, cookie: u32, data: Vec<u8>) -> (r: Packet)
        requires
            data@.len() == DATA_SIZE,
        ensures
            r.header == header,
            r.cookie == cookie,
            r.data@ == data@,
            r.wf(),
    {
        Packet { header, cookie, data }
    }

    /// A packet with a freshly generated cookie (a request).
    pub fn new_with_cookie(header: u8, data: Vec<u8>) -> (r: Packet)
        requires
            data@.len() == DATA_SIZE,
        ensures
            r.header == header,
            r.data@ == data@,
            r.wf(),
    {
        let cookie = fresh_cookie();
        Packet { header, cookie, data }
    }

    pub fn header(&self) -> (r: u8)
        ensures
            r == self.header,
    {
        self.header
    }

    pub fn cookie(&self) -> (r: u32)
        ensures
            r == self.cookie,
    {
        self.cookie
    }

    pub fn payload(&self) -> (r: &Vec<u8>)
        ensures
            r@ == self.data@,
    {
        &self.data
    }

    /// Serialize the packet: header byte, big-endian cookie, payload.
    pub fn as_bytes(&self) -> (r: Vec<u8>)
        ensures
            r@ == self.spec_bytes(),
            r@.len() == 5 + self.data@.len(),
    {
        let mut out: Vec<u8> = Vec::new();
        out.push(self.header);
        out.push((self.cookie >> 24) as u8);
        out.push((self.cookie >> 16) as u8);
        out.push((self.cookie >> 8) as u8);
        out.push(self.cookie as u8);
        proof {
            assert(out@ =~= seq![self.header] + u32_to_bytes(self.cookie));
        }
        let ghost prefix = out@;
        let mut i: usize = 0;
        while i < self.data.len()
            invariant
                i <= self.data@.len(),
                out@ == prefix + self.data@.subrange(0, i as int),
                prefix == seq![self.header] + u32_to_bytes(self.cookie),
            decreases self.data@.len() - i,
        {
            out.push(self.data[i]);
            proof {
                assert(prefix + self.data@.subrange(0, i + 1) =~= (prefix + self.data@.subrange(
                    0,
                    i as int,
                )).push(self.data@[i as int]));
            }
            i += 1;
        }
        proof {
            assert(self.data@.subrange(0, self.data@.len() as int) =~= self.data@);
            assert(out@ =~= self.spec_bytes());
        }
        out
    }
}

/// A payload of `DATA_SIZE` zero bytes.
fn zero_payload() -> (r: Vec<u8>)
    ensures
        r@ == zeros(DATA_SIZE as nat),
{
    let mut out: Vec<u8> = Vec::new();
    while out.len() < DATA_SIZE
        invariant
            out@.len() <= DATA_SIZE,
            out@ == zeros(out@.len()),
        decreases DATA_SIZE - out@.len(),
    {
        out.push(0u8);
        proof {
            assert(out@ =~= zeros(out@.len()));
        }
    }
    out
}

/// A liveness request: `PING_HEADER`, fresh cookie, zero payload.
pub fn ping_packet() -> (r: Packet)
    ensures
        r.header == PING_HEADER,
        r.data@ == zeros(DATA_SIZE as nat),
        r.wf(),
{
    Packet::new_with_cookie(PING_HEADER, zero_payload())
}

/// A liveness response: `PONG_HEADER`, the solicited ping's cookie, zero
/// payload.
pub fn pong_packet(cookie: u32) -> (r: Packet)
    ensures
        r.header == PONG_HEADER,
        r.cookie == cookie,
        r.data@ == zeros(DATA_SIZE as nat),
        r.wf(),
{
    Packet::new(PONG_HEADER, cookie, zero_payload())
}

/// A discovery request: `FINDNODE_HEADER`, fresh cookie, the queried
/// identifier left-aligned in the payload, the remaining bytes zero.
pub fn find_node_packet(id: &Id) -> (r: Packet)
    ensures
        r.header == FINDNODE_HEADER,
        r.data@ == id_to_bytes(*id) + zeros((DATA_SIZE - ID_BYTES) as nat),
        r.wf(),
{
    let mut buf = id.as_bytes();
    while buf.len() < DATA_SIZE
        invariant
            ID_BYTES <= buf@.len() <= DATA_SIZE,
            buf@ == id_to_bytes(*id) + zeros((buf@.len() - ID_BYTES) as nat),
        decreases DATA_SIZE - buf@.len(),
    {
        buf.push(0u8);
        proof {
            assert(buf@ =~= id_to_bytes(*id) + zeros((buf@.len() - ID_BYTES) as nat));
        }
    }
    Packet::new_with_cookie(FINDNODE_HEADER, buf)
}

/// A discovery response: `SENDNODE_HEADER`, the solicited find-node's cookie,
/// the identifiers' bytes packed contiguously from the start of the payload,
/// the remaining bytes zero.
pub fn send_node_packet(cookie: u32, id_list: &Vec<Id>) -> (r: Packet)
    requires
        id_list@.len() * ID_BYTES <= DATA_SIZE,
    ensures
        r.header == SENDNODE_HEADER,
        r.cookie == cookie,
        r.data@ == ids_to_bytes(id_list@) + zeros(
            (DATA_SIZE - ID_BYTES * id_list@.len()) as nat,
        ),
        r.wf(),
{
    let mut buf: Vec<u8> = Vec::new();
    let mut k: usize = 0;
    let count = id_list.len();
    while k < count
        invariant
            k <= count,
            count == id_list@.len(),
            count * ID_BYTES <= DATA_SIZE,
            buf@ == ids_to_bytes(id_list@.subrange(0, k as int)),
            buf@.len() == ID_BYTES * k,
        decreases count - k,
    {
        let ghost pre = buf@;
        let b = id_list[k].as_bytes();
        buf.push(b[0]);
        buf.push(b[1]);
        buf.push(b[2]);
        buf.push(b[3]);
        proof {
            assert(buf@ =~= pre + id_to_bytes(id_list@[k as int]));
            assert(id_list@.subrange(0, k + 1).drop_last() =~= id_list@.subrange(0, k as int));
            assert(id_list@.subrange(0, k + 1).last() == id_list@[k as int]);
        }
        k += 1;
    }
    proof {
        assert(id_list@.subrange(0, count as int) =~= id_list@);
    }
    while buf.len() < DATA_SIZE
        invariant
            ID_BYTES * id_list@.len() <= buf@.len() <= DATA_SIZE,
            buf@ == ids_to_bytes(id_list@) + zeros(
                (buf@.len() - ID_BYTES * id_list@.len()) as nat,
            ),
        decreases DATA_SIZE - buf@.len(),
    {
        buf.push(0u8);
        proof {
            assert(buf@ =~= ids_to_bytes(id_list@) + zeros(
                (buf@.len() - ID_BYTES * id_list@.len()) as nat,
            ));
        }
    }
    Packet::new(SENDNODE_HEADER, cookie, buf)
}

/// Whether `num_nodes` identifiers of `id_bytes` bytes each fit in a payload
/// of `data_size` bytes; the configuration validity check for a client.
pub fn ids_fit_payload(num_nodes: usize, id_bytes: usize, data_size: usize) -> (r: bool)
    ensures
        r == (num_nodes * id_bytes <= data_size),
{
    proof {
        assert((num_nodes as u128) * (id_bytes as u128) <= u128::MAX) by (nonlinear_arith)
            requires
                num_nodes <= u64::MAX,
                id_bytes <= u64::MAX,
        ;
    }
    (num_nodes as u128) * (id_bytes as u128) <= (data_size as u128)
}

/// Decode the first `count` identifiers stored contiguously at the start of a
/// payload, `ID_BYTES` bytes each.
pub fn decode_ids(payload: &Vec<u8>, count: usize) -> (r: Vec<Id>)
    requires
        count * ID_BYTES <= payload@.len(),
    ensures
        r@.len() == count,
        forall|k: int|
            0 <= k < count ==> #[trigger] r@[k] == id_of_bytes(
                payload@.subrange(ID_BYTES * k, ID_BYTES * k + ID_BYTES),
            ),
{
    let n = payload.len();
    let mut out: Vec<Id> = Vec::new();
    let mut k: usize = 0;
    while k < count
        invariant
            k <= count,
            count * ID_BYTES <= payload@.len(),
            payload@.len() == n,
            out@.len() == k,
            forall|j: int|
                0 <= j < k ==> #[trigger] out@[j] == id_of_bytes(
                    payload@.subrange(ID_BYTES * j, ID_BYTES * j + ID_BYTES),
                ),
        decreases count - k,
    {
        let id = Id::from_bytes(payload, k * ID_BYTES);
        out.push(id);
        k += 1;
    }
    out
}

/// The identifiers' bytes occupy exactly `ID_BYTES` bytes each.
proof fn lemma_ids_to_bytes_len(ids: Seq<Id>)
    ensures
        ids_to_bytes(ids).len() == ID_BYTES * ids.len(),
    decreases ids.len(),
{
    if ids.len() > 0 {
        lemma_ids_to_bytes_len(ids.drop_last());
    }
}

/// Chunk `k` of a packed identifier list is the byte representation of the
/// `k`-th identifier.
proof fn lemma_ids_to_bytes_chunk(ids: Seq<Id>, k: int)
    requires
        0 <= k < ids.len(),
    ensures
        ids_to_bytes(ids).subrange(ID_BYTES * k, ID_BYTES * k + ID_BYTES) == id_to_bytes(ids[k]),
    decreases ids.len(),
{
    lemma_ids_to_bytes_len(ids.drop_last());
    if k == ids.len() - 1 {
        assert(ids_to_bytes(ids).subrange(ID_BYTES * k, ID_BYTES * k + ID_BYTES) =~= id_to_bytes(
            ids.last(),
        ));
    } else {
        lemma_ids_to_bytes_chunk(ids.drop_last(), k);
        assert(ids_to_bytes(ids).subrange(ID_BYTES * k, ID_BYTES * k + ID_BYTES) =~= ids_to_bytes(
            ids.drop_last(),
        ).subrange(ID_BYTES * k, ID_BYTES * k + ID_BYTES));
    }
}

/// Serializing a find-node packet for an identifier and decoding the first
/// `ID_BYTES` bytes of its payload yields the identifier back, exactly.
pub proof fn lemma_find_node_round_trip(id: Id)
    ensures
        id_of_bytes(
            (id_to_bytes(id) + zeros((DATA_SIZE - ID_BYTES) as nat)).subrange(0, ID_BYTES as int),
        ) == id,
{
    assert((id_to_bytes(id) + zeros((DATA_SIZE - ID_BYTES) as nat)).subrange(0, ID_BYTES as int)
        =~= id_to_bytes(id));
    lemma_id_round_trip(id);
}

/// Serializing a send-node packet for a list of identifiers and decoding its
/// payload in `ID_BYTES`-sized chunks yields the identifiers back, in order.
pub proof fn lemma_send_node_round_trip(ids: Seq<Id>, pad: nat, k: int)
    requires
        0 <= k < ids.len(),
    ensures
        id_of_bytes(
            (ids_to_bytes(ids) + zeros(pad)).subrange(ID_BYTES * k, ID_BYTES * k + ID_BYTES),
        ) == ids[k],
{
    lemma_ids_to_bytes_len(ids);
    lemma_ids_to_bytes_chunk(ids, k);
    assert((ids_to_bytes(ids) + zeros(pad)).subrange(ID_BYTES * k, ID_BYTES * k + ID_BYTES)
        =~= ids_to_bytes(ids).subrange(ID_BYTES * k, ID_BYTES * k + ID_BYTES));
    lemma_id_round_trip(ids[k]);
}

} // verus!
