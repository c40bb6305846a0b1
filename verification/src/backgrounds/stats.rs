use std::sync::atomic::{AtomicU64, Ordering};
use vstd::prelude::*;

verus! {

/// The proxy's counters, shared between the data plane that moves them and
/// the control plane that reads them.
///
/// Each counter is an atomic that other threads update concurrently, so the
/// library states nothing about the values a read returns.
#[derive(Debug)]
pub struct Stats {
    pub forwarded: AtomicU64,
    pub dropped: AtomicU64,
    pub delayed: AtomicU64,
    pub duplicated: AtomicU64,
    pub send_errors: AtomicU64,
    pub queue_overflows: AtomicU64,
}

/// The counters at one moment.
#[derive(Debug, Clone, Copy, PartialEq, Eq, Structural)]
pub struct StatsSnapshot {
    pub forwarded: u64,
    pub dropped: u64,
    pub delayed: u64,
    pub duplicated: u64,
    pub send_errors: u64,
    pub queue_overflows: u64,
}

/// One counter of [`Stats`].
#[derive(Debug, Clone, Copy, PartialEq, Eq, Structural)]
pub enum Tally {
    /// A packet or a copy sent upstream.
    Forwarded,
    /// A packet an operator removed.
    Dropped,
    /// A packet parked to be sent later.
    Delayed,
    /// An extra copy scheduled.
    Duplicated,
    /// A send that failed; the loop carries on.
    SendError,
    /// A time-shifted packet dropped because the delay queue was full.
    QueueOverflow,
}

impl Default for Stats {
    /// All counters at zero.
    fn default() -> Self {
        Stats {
            forwarded: AtomicU64::new(0),
            dropped: AtomicU64::new(0),
            delayed: AtomicU64::new(0),
            duplicated: AtomicU64::new(0),
            send_errors: AtomicU64::new(0),
            queue_overflows: AtomicU64::new(0),
        }
    }
}

impl Stats {
    /// Reads every counter.
    pub fn snapshot(&self) -> StatsSnapshot {
        StatsSnapshot {
            forwarded: self.forwarded.load(Ordering::Relaxed),
            dropped: self.dropped.load(Ordering::Relaxed),
            delayed: self.delayed.load(Ordering::Relaxed),
            duplicated: self.duplicated.load(Ordering::Relaxed),
            send_errors: self.send_errors.load(Ordering::Relaxed),
            queue_overflows: self.queue_overflows.load(Ordering::Relaxed),
        }
    }

    /// The counter that `tally` names.
    pub fn counter(&self, tally: Tally) -> (counter: &AtomicU64)
        ensures
            counter == match tally {
                Tally::Forwarded => &self.forwarded,
                Tally::Dropped => &self.dropped,
                Tally::Delayed => &self.delayed,
                Tally::Duplicated => &self.duplicated,
                Tally::SendError => &self.send_errors,
                Tally::QueueOverflow => &self.queue_overflows,
            },
    {
        match tally {
            Tally::Forwarded => &self.forwarded,
            Tally::Dropped => &self.dropped,
            Tally::Delayed => &self.delayed,
            Tally::Duplicated => &self.duplicated,
            Tally::SendError => &self.send_errors,
            Tally::QueueOverflow => &self.queue_overflows,
        }
    }

    /// Adds one to the counter that `tally` names.
    pub fn record(&self, tally: Tally) {
        self.counter(tally).fetch_add(1, Ordering::Relaxed);
    }
}

} // verus!
