use crate::domain::{Effect, Operator, Packet};
use rand::rngs::StdRng;
use vstd::prelude::*;

verus! {

/// The operator at `decider` settled `packet` (`decider` is the length of
/// the chain when every operator forwarded): every operator before it could
/// only forward the packet, the decider could take `effect`, the effect is
/// `Forward` exactly when no operator settled it, the operators after the
/// decider are as they were, never consulted, and every operator that
/// deciding leaves unchanged is still in its place.
pub open spec fn decided_by(
    before: Seq<Box<dyn Operator>>,
    after: Seq<Box<dyn Operator>>,
    packet: Packet,
    effect: Effect,
    decider: int,
) -> bool {
    &&& 0 <= decider <= before.len()
    &&& (decider == before.len() <==> effect == Effect::Forward)
    &&& forall|earlier: int|
        0 <= earlier < decider ==> #[trigger] before[earlier].may_decide(packet, Effect::Forward)
    &&& decider < before.len() ==> before[decider].may_decide(packet, effect)
    &&& forall|kept: int|
        0 <= kept < before.len() && #[trigger] before[kept].unchanged_by_deciding() ==> after[kept]
            == before[kept]
    &&& forall|later: int| decider < later < before.len() ==> #[trigger] after[later] == before[later]
}

/// An ordered chain of operators; the first one that does not forward a
/// packet decides its fate.
pub struct Flow {
    operators: Vec<Box<dyn Operator>>,
}

impl Flow {
    /// The operators, in the order they are consulted.
    pub closed spec fn operators(&self) -> Seq<Box<dyn Operator>> {
        self.operators@
    }

    pub fn new(operators: Vec<Box<dyn Operator>>) -> (flow: Self)
        ensures
            flow.operators() == operators@,
    {
        Flow { operators }
    }

    /// Asks each operator in turn and returns the first decision that is not
    /// `Forward`, or `Forward` when every operator forwards.
    ///
    /// Operators after the deciding one are not consulted: they keep their
    /// state, and draw nothing from `rng`.
    pub fn decide(&mut self, packet: &Packet, rng: &mut StdRng) -> (effect: Effect)
        ensures
            final(self).operators().len() == old(self).operators().len(),
            old(self).operators().len() == 0 ==> effect == Effect::Forward,
            exists|decider: int|
                #[trigger] decided_by(
                    old(self).operators(),
                    final(self).operators(),
                    *packet,
                    effect,
                    decider,
                ),
    {
        let count = self.operators.len();
        let mut i: usize = 0;
        while i < count
            invariant
                count == old(self).operators().len(),
                self.operators@.len() == count,
                i <= count,
                forall|later: int|
                    i <= later < count ==> #[trigger] self.operators@[later] == old(self).operators()[later],
                forall|kept: int|
                    0 <= kept < i && #[trigger] old(self).operators()[kept].unchanged_by_deciding()
                        ==> self.operators@[kept] == old(self).operators()[kept],
                forall|earlier: int|
                    0 <= earlier < i ==> #[trigger] old(self).operators()[earlier].may_decide(
                        *packet,
                        Effect::Forward,
                    ),
            decreases count - i,
        {
            let effect = self.operators[i].decide(packet, rng);
            match effect {
                Effect::Forward => {},
                _ => {
                    assert(decided_by(old(self).operators(), self.operators@, *packet, effect, i as int));
                    return effect;
                },
            }
            i = i + 1;
        }
        assert(decided_by(old(self).operators(), self.operators(), *packet, Effect::Forward, count as int));
        Effect::Forward
    }
}

/// A chain whose operators deciding leaves unchanged keeps every operator in
/// its place, in scenario order: the next packet meets the same chain.
pub proof fn lemma_chain_keeps_its_order(
    before: Seq<Box<dyn Operator>>,
    after: Seq<Box<dyn Operator>>,
    packet: Packet,
    effect: Effect,
    decider: int,
)
    requires
        decided_by(before, after, packet, effect, decider),
        after.len() == before.len(),
        forall|i: int| 0 <= i < before.len() ==> #[trigger] before[i].unchanged_by_deciding(),
    ensures
        after == before,
{
    assert forall|i: int| 0 <= i < before.len() implies after[i] == before[i] by {
        assert(before[i].unchanged_by_deciding());
    }
    assert(after =~= before);
}

} // verus!
