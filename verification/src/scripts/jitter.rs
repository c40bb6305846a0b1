use crate::domain::{Duration, Effect, Operator, Packet, ProxyError};
use crate::support::durations::{duration_debug, duration_debug_text};
use crate::support::random::draw_in_range;
use rand::rngs::StdRng;
use vstd::prelude::*;

verus! {

/// Delays every packet by a uniformly drawn span in `[min, max]`.
pub struct JitterDelay {
    min: Duration,
    max: Duration,
}

/// A span's length in nanoseconds, saturated to what a `u64` can count.
pub open spec fn capped_nanos(span: Duration) -> nat {
    if span@ > u64::MAX {
        u64::MAX as nat
    } else {
        span@
    }
}

impl JitterDelay {
    #[verifier::type_invariant]
    spec fn bounds_ordered(&self) -> bool {
        self.min@ <= self.max@
    }

    pub closed spec fn min(&self) -> Duration {
        self.min
    }

    pub closed spec fn max(&self) -> Duration {
        self.max
    }

    /// A jitter of `[min, max]`; rejected when `min` exceeds `max`, with a
    /// message that names both bounds.
    pub fn new(min: Duration, max: Duration) -> (operator: Result<Self, ProxyError>)
        ensures
            operator is Ok <==> min@ <= max@,
            operator matches Ok(jitter) ==> jitter.min() == min && jitter.max() == max,
            operator matches Err(error) ==> error is Config,
            operator matches Err(ProxyError::Config(message)) ==> message@ == inverted_range_text(
                span_text(min),
                span_text(max),
            ),
    {
        if min.as_nanos() > max.as_nanos() {
            let min_text = duration_debug(min.whole_seconds(), min.subsecond_nanos());
            let max_text = duration_debug(max.whole_seconds(), max.subsecond_nanos());
            return Err(
                ProxyError::Config(inverted_range_message(min_text.as_str(), max_text.as_str())),
            );
        }
        Ok(JitterDelay { min, max })
    }
}

/// How a message writes a span: as std's `Duration` `Debug` does.
pub open spec fn span_text(span: Duration) -> Seq<char> {
    duration_debug_text((span@ / 1_000_000_000) as u64, (span@ % 1_000_000_000) as u32)
}

/// The rejection message for a jitter range whose minimum, written
/// `min_text`, exceeds its maximum, written `max_text`.
pub open spec fn inverted_range_text(min_text: Seq<char>, max_text: Seq<char>) -> Seq<char> {
    "jitter min must not exceed max, got "@ + min_text + " > "@ + max_text
}

/// The rejection message for an inverted jitter range, from its two bounds
/// as written.
pub fn inverted_range_message(min_text: &str, max_text: &str) -> (message: String)
    ensures
        message@ == inverted_range_text(min_text@, max_text@),
{
    let mut message = "jitter min must not exceed max, got ".to_owned();
    message.append(min_text);
    message.append(" > ");
    message.append(max_text);
    message
}

impl Operator for JitterDelay {
    /// Every packet is delayed by a span between the bounds, as far as `u64`
    /// nanoseconds reach.
    /// Deciding reads the operator and never changes it.
    open spec fn unchanged_by_deciding(&self) -> bool {
        true
    }

    open spec fn may_decide(&self, packet: Packet, effect: Effect) -> bool {
        effect matches Effect::DelayBy(delay) && capped_nanos(self.min()) <= delay@ <= capped_nanos(
            self.max(),
        )
    }

    fn decide(&mut self, packet: &Packet, rng: &mut StdRng) -> (effect: Effect)
        ensures
            effect matches Effect::DelayBy(delay) && capped_nanos(old(self).min()) <= delay@
                <= capped_nanos(old(self).max()),
            final(self).min() == old(self).min(),
            final(self).max() == old(self).max(),
    {
        proof {
            use_type_invariant(&*self);
        }
        let min_nanos = capped(self.min.as_nanos());
        let max_nanos = capped(self.max.as_nanos());
        Effect::DelayBy(Duration::from_nanos(draw_in_range(rng, min_nanos, max_nanos)))
    }

    fn name(&self) -> (name: &'static str)
        ensures
            name@ == "jitter"@,
    {
        "jitter"
    }
}

/// `nanos` as a `u64`, saturating at `u64::MAX`.
fn capped(nanos: u128) -> (value: u64)
    ensures
        value == (if nanos > u64::MAX {
            u64::MAX as nat
        } else {
            nanos as nat
        }),
{
    if nanos > u64::MAX as u128 {
        u64::MAX
    } else {
        nanos as u64
    }
}

/// A delay drawn from `[min, max]` lies between the bounds whenever they fit
/// in `u64` nanoseconds, and a jitter whose bounds meet delays by exactly
/// that span.
pub proof fn lemma_delay_within_bounds(min: Duration, max: Duration, delay: Duration)
    requires
        min@ <= max@,
        max@ <= u64::MAX,
        capped_nanos(min) <= delay@ <= capped_nanos(max),
    ensures
        min@ <= delay@ <= max@,
        min == max ==> delay == min,
{
    if min == max {
        Duration::lemma_view_determines(delay, min);
    }
}

} // verus!
