use crate::backgrounds::stats::Tally;
use crate::domain::{Duration, Effect, Packet};
use crate::flows::flow::decided_by;
use crate::flows::Flow;
use rand::rngs::StdRng;
use vstd::prelude::*;

verus! {

/// Default cap on packets waiting in the delay queue.
pub const DEFAULT_MAX_IN_FLIGHT: usize = 65536;

/// What the runtime does with a received packet once the flow has decided.
#[derive(Debug, Clone, Copy, PartialEq, Eq, Structural)]
pub struct Dispatch {
    /// Send the packet upstream now.
    pub send_now: bool,
    /// Park the packet (or its copy) in the delay queue for this long.
    pub hold: Option<Duration>,
    /// The counter the decision moves, besides the outcome of a send.
    pub tally: Option<Tally>,
}

/// What `effect` comes to when `in_flight` packets already wait and the queue
/// holds at most `max_in_flight`.
///
/// `Forward` sends now; `Drop` counts a drop; `DelayBy` parks the packet and
/// `DuplicateAfter` sends now and parks a copy, counted as delayed and
/// duplicated. Past the cap nothing is parked: the time-shifted packet is
/// counted as a queue overflow and dropped, so a burst cannot grow the queue.
pub open spec fn dispatch_of(effect: Effect, in_flight: nat, max_in_flight: nat) -> Dispatch {
    let room = in_flight < max_in_flight;
    match effect {
        Effect::Forward => Dispatch { send_now: true, hold: None, tally: None },
        Effect::Drop => Dispatch { send_now: false, hold: None, tally: Some(Tally::Dropped) },
        Effect::DelayBy(delay) => if room {
            Dispatch { send_now: false, hold: Some(delay), tally: Some(Tally::Delayed) }
        } else {
            Dispatch { send_now: false, hold: None, tally: Some(Tally::QueueOverflow) }
        },
        Effect::DuplicateAfter(delay) => if room {
            Dispatch { send_now: true, hold: Some(delay), tally: Some(Tally::Duplicated) }
        } else {
            Dispatch { send_now: true, hold: None, tally: Some(Tally::QueueOverflow) }
        },
    }
}

/// The tally a send moves: a delivered packet is forwarded, a failed one is
/// a send error, and either way the loop carries on.
pub open spec fn send_tally_of(delivered: bool) -> Tally {
    if delivered {
        Tally::Forwarded
    } else {
        Tally::SendError
    }
}

/// The bookkeeping of the proxy loop: how many time-shifted packets wait,
/// against the cap.
pub struct InFlight {
    waiting: usize,
    max_in_flight: usize,
}

impl View for InFlight {
    /// Packets waiting, and the cap.
    type V = (nat, nat);

    closed spec fn view(&self) -> (nat, nat) {
        (self.waiting as nat, self.max_in_flight as nat)
    }
}

impl InFlight {
    /// The queue never holds more than the cap, and the cap admits at least
    /// one packet.
    #[verifier::type_invariant]
    spec fn bounded(&self) -> bool {
        0 < self.max_in_flight && self.waiting <= self.max_in_flight
    }

    /// An empty queue capped at `max_in_flight`.
    pub fn new(max_in_flight: usize) -> (queue: Self)
        requires
            max_in_flight > 0,
        ensures
            queue@ == (0nat, max_in_flight as nat),
    {
        InFlight { waiting: 0, max_in_flight }
    }

    /// Packets waiting now.
    pub fn waiting(&self) -> (count: usize)
        ensures
            count == self@.0,
            count <= self@.1,
    {
        proof {
            use_type_invariant(self);
        }
        self.waiting
    }

    /// Decides what happens to a packet the flow settled with `effect`, and
    /// counts a parked packet as waiting.
    pub fn dispatch(&mut self, effect: Effect) -> (dispatch: Dispatch)
        ensures
            dispatch == dispatch_of(effect, old(self)@.0, old(self)@.1),
            final(self)@ == (if dispatch.hold is Some {
                (old(self)@.0 + 1, old(self)@.1)
            } else {
                old(self)@
            }),
            final(self)@.0 <= final(self)@.1,
    {
        proof {
            use_type_invariant(&*self);
        }
        let room = self.waiting < self.max_in_flight;
        let dispatch = match effect {
            Effect::Forward => Dispatch { send_now: true, hold: None, tally: None },
            Effect::Drop => Dispatch { send_now: false, hold: None, tally: Some(Tally::Dropped) },
            Effect::DelayBy(delay) => if room {
                Dispatch { send_now: false, hold: Some(delay), tally: Some(Tally::Delayed) }
            } else {
                Dispatch { send_now: false, hold: None, tally: Some(Tally::QueueOverflow) }
            },
            Effect::DuplicateAfter(delay) => if room {
                Dispatch { send_now: true, hold: Some(delay), tally: Some(Tally::Duplicated) }
            } else {
                Dispatch { send_now: true, hold: None, tally: Some(Tally::QueueOverflow) }
            },
        };
        if dispatch.hold.is_some() {
            self.waiting = self.waiting + 1;
        }
        dispatch
    }

    /// A parked packet's timer fired and it leaves the queue.
    pub fn release(&mut self)
        ensures
            final(self)@ == (if old(self)@.0 > 0 {
                ((old(self)@.0 - 1) as nat, old(self)@.1)
            } else {
                old(self)@
            }),
    {
        proof {
            use_type_invariant(&*self);
        }
        if self.waiting > 0 {
            self.waiting = self.waiting - 1;
        }
    }
}

/// Settles one received packet: the flow decides its effect, and the delay
/// queue's bookkeeping turns that effect into what the runtime does.
pub fn settle(flow: &mut Flow, in_flight: &mut InFlight, packet: &Packet, rng: &mut StdRng) -> (dispatch: Dispatch)
    ensures
        final(flow).operators().len() == old(flow).operators().len(),
        exists|effect: Effect, decider: int|
            #[trigger] decided_by(
                old(flow).operators(),
                final(flow).operators(),
                *packet,
                effect,
                decider,
            ) && dispatch == dispatch_of(effect, old(in_flight)@.0, old(in_flight)@.1),
        final(in_flight)@ == (if dispatch.hold is Some {
            (old(in_flight)@.0 + 1, old(in_flight)@.1)
        } else {
            old(in_flight)@
        }),
        final(in_flight)@.0 <= final(in_flight)@.1,
{
    let effect = flow.decide(packet, rng);
    in_flight.dispatch(effect)
}

/// The tally for the outcome of one send.
pub fn send_tally(delivered: bool) -> (tally: Tally)
    ensures
        tally == send_tally_of(delivered),
{
    if delivered {
        Tally::Forwarded
    } else {
        Tally::SendError
    }
}

/// The queue is bounded: whatever sequence of packets and timer expiries
/// the proxy sees, no more than `max_in_flight` packets ever wait.
pub proof fn lemma_dispatch_keeps_queue_bounded(effect: Effect, waiting: nat, max_in_flight: nat)
    requires
        waiting <= max_in_flight,
    ensures
        dispatch_of(effect, waiting, max_in_flight).hold is Some ==> waiting + 1 <= max_in_flight,
{
}

/// A packet is never both dropped and sent, and a parked packet is counted
/// as delayed or duplicated: what the proxy does with a packet agrees with
/// the counter it moves.
pub proof fn lemma_dispatch_agrees_with_tally(effect: Effect, waiting: nat, max_in_flight: nat)
    ensures
        ({
            let d = dispatch_of(effect, waiting, max_in_flight);
            &&& d.tally == Some(Tally::Dropped) ==> !d.send_now && d.hold is None
            &&& d.tally == Some(Tally::QueueOverflow) ==> d.hold is None
            &&& d.hold is Some ==> (d.tally == Some(Tally::Delayed) || d.tally == Some(
                Tally::Duplicated,
            ))
            &&& d.tally == Some(Tally::Duplicated) ==> d.send_now
            &&& (effect == Effect::Forward) == (d.send_now && d.tally is None)
        }),
{
}

/// The cap is the only reason a time-shifted packet is not parked: while
/// fewer than `max_in_flight` packets wait, a delay parks the packet for
/// exactly its span, counted as delayed, and a duplication sends the packet
/// now and parks its copy for exactly its span, counted as duplicated; a
/// packet is counted as a queue overflow only when `max_in_flight` packets
/// already wait, and then nothing is parked.
pub proof fn lemma_parks_until_the_cap(effect: Effect, waiting: nat, max_in_flight: nat)
    requires
        waiting <= max_in_flight,
    ensures
        effect matches Effect::DelayBy(span) ==> (waiting < max_in_flight ==> dispatch_of(
            effect,
            waiting,
            max_in_flight,
        ) == (Dispatch { send_now: false, hold: Some(span), tally: Some(Tally::Delayed) })),
        effect matches Effect::DuplicateAfter(span) ==> (waiting < max_in_flight ==> dispatch_of(
            effect,
            waiting,
            max_in_flight,
        ) == (Dispatch { send_now: true, hold: Some(span), tally: Some(Tally::Duplicated) })),
        dispatch_of(effect, waiting, max_in_flight).tally == Some(Tally::QueueOverflow) ==> (
        waiting == max_in_flight && dispatch_of(effect, waiting, max_in_flight).hold is None && (
        effect is DelayBy || effect is DuplicateAfter)),
        effect == Effect::Forward ==> dispatch_of(effect, waiting, max_in_flight) == (Dispatch {
            send_now: true,
            hold: None,
            tally: None,
        }),
        effect == Effect::Drop ==> dispatch_of(effect, waiting, max_in_flight) == (Dispatch {
            send_now: false,
            hold: None,
            tally: Some(Tally::Dropped),
        }),
{
}

} // verus!
