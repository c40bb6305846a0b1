use crate::domain::{Effect, Operator, Packet, SeqNum};
use rand::rngs::StdRng;
use vstd::prelude::*;

verus! {

/// Drops a contiguous run of `len` sequence numbers starting at `start`,
/// simulating a burst loss the feed handler must recover from.
///
/// A run reaching past `u64::MAX` is clamped to the last representable
/// sequence number; wrap-around gaps are out of scope. Packets without a
/// sequence number are forwarded untouched.
pub struct GapBurst {
    /// First and last sequence number of the run, `None` for an empty run.
    range: Option<(u64, u64)>,
}

impl View for GapBurst {
    type V = Option<(u64, u64)>;

    closed spec fn view(&self) -> Option<(u64, u64)> {
        self.range
    }
}

/// The inclusive run `[start, start + len)`, clamped at `u64::MAX`.
pub open spec fn burst_range(start: u64, len: u32) -> Option<(u64, u64)> {
    if len == 0 {
        None
    } else if start + (len - 1) > u64::MAX {
        Some((start, u64::MAX))
    } else {
        Some((start, (start + (len - 1)) as u64))
    }
}

/// Whether `seqnum` lies in `range`.
pub open spec fn in_burst(range: Option<(u64, u64)>, seqnum: Option<SeqNum>) -> bool {
    range matches Some((first, last)) && seqnum matches Some(s) && first <= s.0 && s.0 <= last
}

impl GapBurst {
    pub fn new(start: SeqNum, len: u32) -> (operator: Self)
        ensures
            operator@ == burst_range(start.0, len),
    {
        let range = if len == 0 {
            None
        } else {
            Some((start.0, start.0.saturating_add(len as u64 - 1)))
        };
        GapBurst { range }
    }
}

impl Operator for GapBurst {
    /// A packet in the burst is dropped, anything else forwarded.
    /// Deciding reads the operator and never changes it.
    open spec fn unchanged_by_deciding(&self) -> bool {
        true
    }

    open spec fn may_decide(&self, packet: Packet, effect: Effect) -> bool {
        effect == if in_burst(self@, packet.seqnum) {
            Effect::Drop
        } else {
            Effect::Forward
        }
    }

    fn decide(&mut self, packet: &Packet, rng: &mut StdRng) -> (effect: Effect)
        ensures
            effect == (if in_burst(old(self)@, packet.seqnum) {
                Effect::Drop
            } else {
                Effect::Forward
            }),
            final(self)@ == old(self)@,
            *final(rng) == *old(rng),
    {
        match (self.range, packet.seqnum) {
            (Some((first, last)), Some(seqnum)) => if first <= seqnum.0 && seqnum.0 <= last {
                Effect::Drop
            } else {
                Effect::Forward
            },
            _ => Effect::Forward,
        }
    }

    fn name(&self) -> (name: &'static str)
        ensures
            name@ == "gap_burst"@,
    {
        "gap_burst"
    }
}

/// A burst drops exactly the run `[start, start + len)` of sequence numbers,
/// as far as `u64` reaches, and nothing from a packet without one.
pub proof fn lemma_burst_drops_exactly_its_run(start: u64, len: u32, seqnum: Option<SeqNum>)
    ensures
        in_burst(burst_range(start, len), seqnum) <==> (seqnum matches Some(s) && start <= s.0
            && s.0 < start + len),
{
}

} // verus!
