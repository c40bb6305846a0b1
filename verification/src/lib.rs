pub mod backgrounds;
pub mod config;
pub mod domain;
pub mod flows;
pub mod protocols;
pub mod scripts;
pub mod support;
pub mod transport;

pub use domain::{Duration, Effect, FeedId, Operator, Packet, ProxyError, Seed, SeqNum};
