pub mod control;
pub mod dispatch;
pub mod stats;

pub use control::ControlPlane;
pub use dispatch::{send_tally, settle, Dispatch, InFlight, DEFAULT_MAX_IN_FLIGHT};
pub use stats::{Stats, StatsSnapshot, Tally};
