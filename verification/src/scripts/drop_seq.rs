use crate::domain::{Effect, Operator, Packet, SeqNum};
use rand::rngs::StdRng;
use std::collections::HashSet;
use vstd::prelude::*;

verus! {

broadcast use vstd::std_specs::hash::group_hash_axioms;

/// Drops packets whose feed sequence number is one of the configured targets.
///
/// Packets without an extracted sequence number are forwarded untouched: a
/// scenario that targets sequence numbers must not disturb unrelated traffic.
/// No random choice is involved.
pub struct DropSeq {
    targets: HashSet<u64>,
}

impl View for DropSeq {
    type V = Set<u64>;

    /// The targeted sequence numbers.
    closed spec fn view(&self) -> Set<u64> {
        self.targets@
    }
}

/// Whether `packet` carries one of the `targets`.
pub open spec fn hits_target(targets: Set<u64>, seqnum: Option<SeqNum>) -> bool {
    seqnum matches Some(s) && targets.contains(s.0)
}

impl DropSeq {
    pub fn new(targets: Vec<SeqNum>) -> (operator: Self)
        ensures
            forall|n: u64| #![auto]
                operator@.contains(n) <==> exists|i: int|
                    0 <= i < targets@.len() && targets@[i].0 == n,
    {
        let mut set: HashSet<u64> = HashSet::new();
        let mut i: usize = 0;
        while i < targets.len()
            invariant
                i <= targets@.len(),
                forall|n: u64| #![auto]
                    set@.contains(n) <==> exists|j: int| 0 <= j < i && targets@[j].0 == n,
            decreases targets@.len() - i,
        {
            let target = targets[i];
            set.insert(target.0);
            assert forall|n: u64| #![auto]
                set@.contains(n) <==> exists|j: int| 0 <= j < i + 1 && targets@[j].0 == n by {
                if n == target.0 {
                    assert(targets@[i as int].0 == n);
                }
                if exists|j: int| 0 <= j < i + 1 && targets@[j].0 == n {
                    let j = choose|j: int| 0 <= j < i + 1 && targets@[j].0 == n;
                    if j < i {
                        assert(exists|k: int| 0 <= k < i && targets@[k].0 == n);
                    }
                }
            }
            i = i + 1;
        }
        DropSeq { targets: set }
    }
}

impl Operator for DropSeq {
    /// A target is dropped, anything else forwarded.
    /// Deciding reads the operator and never changes it.
    open spec fn unchanged_by_deciding(&self) -> bool {
        true
    }

    open spec fn may_decide(&self, packet: Packet, effect: Effect) -> bool {
        effect == if hits_target(self@, packet.seqnum) {
            Effect::Drop
        } else {
            Effect::Forward
        }
    }

    fn decide(&mut self, packet: &Packet, rng: &mut StdRng) -> (effect: Effect)
        ensures
            effect == (if hits_target(old(self)@, packet.seqnum) {
                Effect::Drop
            } else {
                Effect::Forward
            }),
            final(self)@ == old(self)@,
            *final(rng) == *old(rng),
    {
        match packet.seqnum {
            Some(seqnum) => if self.targets.contains(&seqnum.0) {
                Effect::Drop
            } else {
                Effect::Forward
            },
            None => Effect::Forward,
        }
    }

    fn name(&self) -> (name: &'static str)
        ensures
            name@ == "drop_seq"@,
    {
        "drop_seq"
    }
}

/// Sequence-aware operators never touch a packet whose sequence number could
/// not be extracted, whatever they target.
pub proof fn lemma_unsequenced_packets_pass(targets: Set<u64>, burst: Option<(u64, u64)>)
    ensures
        !hits_target(targets, None),
        !crate::scripts::gap_burst::in_burst(burst, None),
{
}

} // verus!
