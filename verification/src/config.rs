pub mod scenario;

pub use scenario::{build_extractor, default_max_in_flight, default_recv_buf, FeedProtocol};
