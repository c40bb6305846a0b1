use crate::support::byte_buffers::bytes_contents;
use bytes::Bytes;
use std::ops::Range;
use std::time::Instant;
use vstd::prelude::*;

verus! {

/// Session-level sequence number of a FIX message (tag 34).
///
/// Distinct from [`SeqNum`](crate::domain::SeqNum): that one counts datagrams
/// on a UDP feed, this one counts messages inside a FIX session.
#[derive(Debug, Clone, Copy, PartialEq, Eq, PartialOrd, Ord, Hash, Structural)]
pub struct MsgSeqNum(pub u64);

/// Which leg of a FIX session a message travelled on.
#[derive(Debug, Clone, Copy, PartialEq, Eq, Structural)]
pub enum Direction {
    UpstreamToClient,
    ClientToUpstream,
}

impl Direction {
    pub open spec fn tag_value(self) -> u64 {
        match self {
            Direction::UpstreamToClient => 0,
            Direction::ClientToUpstream => 1,
        }
    }

    /// A stable number for the direction, distinct for the two legs.
    pub fn tag(self) -> (tag: u64)
        ensures
            tag == self.tag_value(),
    {
        match self {
            Direction::UpstreamToClient => 0,
            Direction::ClientToUpstream => 1,
        }
    }
}

/// Session fields lifted out of a framed message while it is being cut.
///
/// Each field is independently optional: a structurally valid frame may lack
/// tag 34 or tag 35, and "absent" differs from "unparseable". `msg_type` is a
/// range into [`FixMessage::raw`] rather than a copy.
#[derive(Debug, Clone, PartialEq, Eq)]
pub struct FixHeader {
    pub msg_seq_num: Option<MsgSeqNum>,
    pub msg_type: Option<Range<usize>>,
    pub poss_dup: bool,
}

/// One framed FIX message.
#[derive(Debug, Clone, PartialEq, Eq)]
pub struct FixMessage {
    pub raw: Bytes,
    pub header: FixHeader,
    pub direction: Direction,
    pub received_at: Instant,
}

impl FixMessage {
    /// The bytes of the message as framed.
    pub open spec fn raw_bytes(&self) -> Seq<u8> {
        bytes_contents(self.raw)
    }

    /// The `MsgType` value, when its range is set and lies inside the message.
    pub fn msg_type(&self) -> (value: Option<&[u8]>)
        ensures
            value is Some <==> (self.header.msg_type matches Some(range) && range.start
                <= range.end && range.end <= self.raw_bytes().len()),
            value matches Some(v) ==> (self.header.msg_type matches Some(range) && v@
                == self.raw_bytes().subrange(range.start as int, range.end as int)),
    {
        match &self.header.msg_type {
            None => None,
            Some(range) => {
                let raw: &[u8] = &self.raw;
                if range.start <= range.end && range.end <= raw.len() {
                    Some(vstd::slice::slice_subrange(raw, range.start, range.end))
                } else {
                    None
                }
            },
        }
    }

    pub fn msg_seq_num(&self) -> (seq: Option<MsgSeqNum>)
        ensures
            seq == self.header.msg_seq_num,
    {
        self.header.msg_seq_num
    }

    pub fn is_poss_dup(&self) -> (dup: bool)
        ensures
            dup == self.header.poss_dup,
    {
        self.header.poss_dup
    }

    pub fn len(&self) -> (len: usize)
        ensures
            len == self.raw_bytes().len(),
    {
        self.raw.len()
    }

    pub fn is_empty(&self) -> (empty: bool)
        ensures
            empty == (self.raw_bytes().len() == 0),
    {
        self.raw.is_empty()
    }
}

} // verus!
