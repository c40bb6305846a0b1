pub mod byte_buffers;
pub mod clock;
pub mod durations;
pub mod random;
