pub mod drop_seq;
pub mod gap_burst;
pub mod jitter;

pub use drop_seq::DropSeq;
pub use gap_burst::GapBurst;
pub use jitter::JitterDelay;
