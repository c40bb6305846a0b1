use crate::domain::{Duration, Packet};
use rand::rngs::StdRng;
use vstd::prelude::*;

verus! {

/// What an operator does with a packet.
#[derive(Debug, Clone, Copy, PartialEq, Eq, Structural)]
pub enum Effect {
    /// Send it on now.
    Forward,
    /// Never send it.
    Drop,
    /// Send it after the delay.
    DelayBy(Duration),
    /// Send it now, and a copy after the delay.
    DuplicateAfter(Duration),
}

/// A fault-injection rule, deciding one packet at a time.
///
/// Every random choice goes through `rng`, which the runtime seeds once per
/// run, so a seed reproduces every decision.
pub trait Operator: Send {
    /// Whether `effect` is a decision this operator, in its present state,
    /// may take on `packet`. An operator that does not define it promises
    /// nothing of its decisions.
    open spec fn may_decide(&self, packet: Packet, effect: Effect) -> bool {
        true
    }

    /// Whether deciding never changes this operator. An operator that does
    /// not define it promises nothing of its state.
    open spec fn unchanged_by_deciding(&self) -> bool {
        false
    }

    fn decide(&mut self, packet: &Packet, rng: &mut StdRng) -> (effect: Effect)
        ensures
            old(self).may_decide(*packet, effect),
            old(self).unchanged_by_deciding() ==> &*final(self) == &*old(self),
    ;

    fn name(&self) -> &'static str;
}

} // verus!
