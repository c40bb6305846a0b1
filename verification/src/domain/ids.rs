use vstd::prelude::*;

verus! {

/// Sequence number of a datagram on a UDP feed.
#[derive(Debug, Clone, Copy, PartialEq, Eq, PartialOrd, Ord, Hash, Structural)]
pub struct SeqNum(pub u64);

impl SeqNum {
    /// The following sequence number; sequence numbers wrap at `u64::MAX`.
    pub fn next(self) -> (next: Self)
        ensures
            next.0 == (if self.0 == u64::MAX { 0 } else { self.0 + 1 }),
    {
        SeqNum(self.0.wrapping_add(1))
    }
}

/// Identifies one market-data feed.
#[derive(Debug, Clone, Copy, PartialEq, Eq, Hash, Structural)]
pub struct FeedId(pub u32);

/// The PRNG seed that reproduces a run.
#[derive(Debug, Clone, Copy, PartialEq, Eq, Structural)]
pub struct Seed(pub u64);

} // verus!
