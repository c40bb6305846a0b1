use vstd::prelude::*;

verus! {

/// The errors the library itself produces.
///
/// Socket and I/O failures belong to the runtime around the library and are
/// reported there; what the library reports is a rejected configuration or a
/// stream whose framing was lost.
#[derive(Debug, Clone, PartialEq, Eq)]
pub enum ProxyError {
    /// An invalid scenario setting, with the reason.
    Config(String),
    /// A framing failure on a stream transport, carrying the rendered
    /// `FrameError`. Fatal for the connection it came from, never for the
    /// proxy process.
    Framing(String),
}

} // verus!
