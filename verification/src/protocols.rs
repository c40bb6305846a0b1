pub mod fix;
pub mod moldudp64;

pub use fix::{FixFramer, FrameError, MAX_MESSAGE_LEN};
pub use moldudp64::MoldUdp64Extractor;
