pub mod tcp;

pub use tcp::{closed_at_boundary, next_framed, TcpBuffers};
