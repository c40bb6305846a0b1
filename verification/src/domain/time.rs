use vstd::prelude::*;

verus! {

/// A span of time held as a whole number of nanoseconds.
///
/// Operators decide delays in this form, which the library can reason about;
/// the runtime turns it into a timer.
#[derive(Debug, Clone, Copy, PartialEq, Eq, PartialOrd, Ord, Hash, Structural)]
pub struct Duration {
    nanos: u128,
}

impl View for Duration {
    type V = nat;

    /// The span in nanoseconds.
    closed spec fn view(&self) -> nat {
        self.nanos as nat
    }
}

impl Duration {
    /// A span never exceeds what `std::time::Duration` can hold: `u64` whole
    /// seconds.
    #[verifier::type_invariant]
    spec fn within_range(&self) -> bool {
        self.nanos < 1_000_000_000 * 0x1_0000_0000_0000_0000
    }

    /// The empty span.
    pub fn zero() -> (span: Duration)
        ensures
            span@ == 0,
    {
        Duration { nanos: 0 }
    }

    /// `secs` whole seconds and `nanos` more nanoseconds; nanoseconds past a
    /// second carry into the seconds, which must stay within `u64`.
    pub fn new(secs: u64, nanos: u32) -> (span: Duration)
        requires
            secs + nanos / 1_000_000_000 <= u64::MAX,
        ensures
            span@ == secs * 1_000_000_000 + nanos,
    {
        let total = secs as u128 * 1_000_000_000 + nanos as u128;
        assert(total < 1_000_000_000 * 0x1_0000_0000_0000_0000) by (nonlinear_arith)
            requires
                total == secs * 1_000_000_000 + nanos,
                secs + nanos / 1_000_000_000 <= u64::MAX,
                nanos < 0x1_0000_0000,
        {
            assert(nanos == (nanos / 1_000_000_000) * 1_000_000_000 + nanos % 1_000_000_000);
        }
        Duration { nanos: total }
    }

    pub fn from_nanos(nanos: u64) -> (span: Duration)
        ensures
            span@ == nanos,
    {
        Duration { nanos: nanos as u128 }
    }

    pub fn from_millis(millis: u64) -> (span: Duration)
        ensures
            span@ == millis * 1_000_000,
    {
        Duration { nanos: millis as u128 * 1_000_000 }
    }

    pub fn as_nanos(&self) -> (nanos: u128)
        ensures
            nanos == self@,
    {
        self.nanos
    }

    /// The whole seconds in the span.
    pub fn whole_seconds(&self) -> (secs: u64)
        ensures
            secs == self@ / 1_000_000_000,
    {
        proof {
            use_type_invariant(self);
        }
        (self.nanos / 1_000_000_000) as u64
    }

    /// The nanoseconds past the whole seconds.
    pub fn subsecond_nanos(&self) -> (nanos: u32)
        ensures
            nanos == self@ % 1_000_000_000,
            nanos < 1_000_000_000,
    {
        (self.nanos % 1_000_000_000) as u32
    }

    /// Two spans are equal exactly when they last as long.
    pub proof fn lemma_view_determines(a: Duration, b: Duration)
        ensures
            a@ == b@ <==> a == b,
    {
    }
}

} // verus!
