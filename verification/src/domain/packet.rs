use crate::domain::SeqNum;
use crate::support::byte_buffers::bytes_contents;
use bytes::Bytes;
use std::time::Instant;
use vstd::prelude::*;

verus! {

/// One datagram as the proxy received it.
#[derive(Debug, Clone)]
pub struct Packet {
    pub payload: Bytes,
    /// The feed sequence number, when the feed's protocol yields one.
    pub seqnum: Option<SeqNum>,
    pub received_at: Instant,
}

impl Packet {
    /// The bytes of the datagram.
    pub open spec fn payload_bytes(&self) -> Seq<u8> {
        bytes_contents(self.payload)
    }

    /// A packet with no sequence number extracted yet.
    pub fn new(payload: Bytes, received_at: Instant) -> (packet: Self)
        ensures
            packet.payload == payload,
            packet.seqnum is None,
            packet.received_at == received_at,
    {
        Packet { payload, seqnum: None, received_at }
    }

    pub fn len(&self) -> (len: usize)
        ensures
            len == self.payload_bytes().len(),
    {
        self.payload.len()
    }

    pub fn is_empty(&self) -> (empty: bool)
        ensures
            empty == (self.payload_bytes().len() == 0),
    {
        self.payload.is_empty()
    }
}

} // verus!
