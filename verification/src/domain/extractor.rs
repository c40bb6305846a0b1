use crate::domain::SeqNum;
use vstd::prelude::*;

verus! {

/// Pulls a feed's sequence number out of a raw datagram payload.
///
/// Implementations must never panic on malformed input: an unparseable
/// payload yields `None`, and the packet is treated as sequence-less.
pub trait SequenceExtractor: Send {
    fn extract(&self, payload: &[u8]) -> Option<SeqNum>;
}

/// The extractor for feeds with no known protocol: no packet has a sequence
/// number.
pub struct NoopExtractor;

impl SequenceExtractor for NoopExtractor {
    fn extract(&self, payload: &[u8]) -> (seqnum: Option<SeqNum>)
        ensures
            seqnum is None,
    {
        None
    }
}

} // verus!
