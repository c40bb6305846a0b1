pub mod flow;

pub use flow::Flow;
