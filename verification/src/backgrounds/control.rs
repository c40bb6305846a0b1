use crate::backgrounds::Stats;
use std::sync::Arc;
use vstd::prelude::*;

verus! {

/// The control plane's handle on the running proxy's counters.
pub struct ControlPlane {
    stats: Arc<Stats>,
}

impl ControlPlane {
    pub closed spec fn shared_stats(&self) -> Arc<Stats> {
        self.stats
    }

    pub fn new(stats: Arc<Stats>) -> (control: Self)
        ensures
            control.shared_stats() == stats,
    {
        ControlPlane { stats }
    }

    pub fn stats(&self) -> (stats: &Arc<Stats>)
        ensures
            *stats == self.shared_stats(),
    {
        &self.stats
    }
}

} // verus!
