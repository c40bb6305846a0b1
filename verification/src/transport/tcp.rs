use crate::domain::{FixMessage, ProxyError};
use crate::protocols::fix::{frame_layout, header_of, next_outcome};
use crate::protocols::{FixFramer, FrameError};
use std::time::Instant;
use vstd::prelude::*;

verus! {

/// Explicit socket buffer sizes for one FIX connection.
///
/// Left to the system defaults, a burst produces TCP backpressure that the
/// client under test would read as latency injected by the proxy rather than
/// by the scenario.
#[derive(Debug, Clone, Copy, PartialEq, Eq, Structural)]
pub struct TcpBuffers {
    pub recv_bytes: u32,
    pub send_bytes: u32,
}

impl Default for TcpBuffers {
    /// 256 KiB each way.
    fn default() -> (buffers: Self)
        ensures
            buffers.recv_bytes == 256 * 1024,
            buffers.send_bytes == 256 * 1024,
    {
        TcpBuffers { recv_bytes: 256 * 1024, send_bytes: 256 * 1024 }
    }
}

/// The next message framed off a connection's stream, with a framing failure
/// reported as the connection's error.
pub fn next_framed(framer: &mut FixFramer, received_at: Instant) -> (framed: Result<
    Option<FixMessage>,
    ProxyError,
>)
    ensures
        final(framer)@ == crate::protocols::fix::after_next(old(framer)@),
        match (framed, next_outcome(old(framer)@)) {
            (Ok(None), Ok(None)) => true,
            (Ok(Some(message)), Ok(Some(raw))) => {
                &&& message.raw_bytes() == raw
                &&& frame_layout(old(framer)@.pending) matches Ok(Some(layout))
                &&& message.header == header_of(raw, layout)
                &&& message.direction == old(framer)@.direction
                &&& message.received_at == received_at
            },
            (Err(ProxyError::Framing(text)), Err(error)) => text@ == error.text(),
            _ => false,
        },
{
    match framer.next_message(received_at) {
        Ok(message) => Ok(message),
        Err(error) => Err(ProxyError::Framing(error.to_string())),
    }
}

/// The decimal digit `digit` (taken below ten) as a character.
pub open spec fn digit_char(digit: nat) -> char {
    if digit == 0 {
        '0'
    } else if digit == 1 {
        '1'
    } else if digit == 2 {
        '2'
    } else if digit == 3 {
        '3'
    } else if digit == 4 {
        '4'
    } else if digit == 5 {
        '5'
    } else if digit == 6 {
        '6'
    } else if digit == 7 {
        '7'
    } else if digit == 8 {
        '8'
    } else {
        '9'
    }
}

/// `value` written in decimal, without leading zeros.
pub open spec fn decimal_chars(value: nat) -> Seq<char>
    decreases value,
{
    if value < 10 {
        seq![digit_char(value)]
    } else {
        decimal_chars(value / 10).push(digit_char(value % 10))
    }
}

/// The error text for a peer that closed with `buffered` bytes of a message
/// received.
pub open spec fn unfinished_message_text(buffered: nat) -> Seq<char> {
    "peer closed with "@ + decimal_chars(buffered) + " buffered bytes of an incomplete message"@
}

/// What a read of end-of-stream means: a clean close on a message boundary
/// when nothing is buffered, a framing failure that counts the bytes of the
/// message the peer left half sent.
pub fn closed_at_boundary(framer: &FixFramer) -> (closed: Result<Option<FixMessage>, ProxyError>)
    ensures
        closed is Ok <==> framer@.pending.len() == 0,
        closed is Ok ==> closed->Ok_0 is None,
        closed is Err ==> closed->Err_0 is Framing,
        closed matches Err(ProxyError::Framing(text)) ==> text@ == unfinished_message_text(
            framer@.pending.len(),
        ),
{
    let buffered = framer.buffered();
    if buffered == 0 {
        return Ok(None);
    }
    let count = decimal_text(buffered);
    let mut text = "peer closed with ".to_owned();
    text.append(count.as_str());
    text.append(" buffered bytes of an incomplete message");
    Err(ProxyError::Framing(text))
}

/// The digit `digit` as a one-character string.
fn digit_str(digit: usize) -> (text: &'static str)
    requires
        digit < 10,
    ensures
        text@ == seq![digit_char(digit as nat)],
{
    proof {
        reveal_strlit("0");
        reveal_strlit("1");
        reveal_strlit("2");
        reveal_strlit("3");
        reveal_strlit("4");
        reveal_strlit("5");
        reveal_strlit("6");
        reveal_strlit("7");
        reveal_strlit("8");
        reveal_strlit("9");
    }
    match digit {
        0 => "0",
        1 => "1",
        2 => "2",
        3 => "3",
        4 => "4",
        5 => "5",
        6 => "6",
        7 => "7",
        8 => "8",
        _ => "9",
    }
}

/// `value` written in decimal.
fn decimal_text(value: usize) -> (text: String)
    ensures
        text@ == decimal_chars(value as nat),
    decreases value,
{
    if value < 10 {
        String::from_str(digit_str(value))
    } else {
        let mut text = decimal_text(value / 10);
        text.append(digit_str(value % 10));
        text
    }
}

} // verus!
