pub mod error;
pub mod extractor;
pub mod fix;
pub mod ids;
pub mod operator;
pub mod packet;
pub mod time;

pub use error::ProxyError;
pub use extractor::{NoopExtractor, SequenceExtractor};
pub use fix::{Direction, FixHeader, FixMessage, MsgSeqNum};
pub use ids::{FeedId, Seed, SeqNum};
pub use operator::{Effect, Operator};
pub use packet::Packet;
pub use time::Duration;
