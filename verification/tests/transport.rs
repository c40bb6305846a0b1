use std::time::Instant;
use tickchaos::domain::{Direction, MsgSeqNum};
use tickchaos::protocols::FixFramer;
use tickchaos::transport::{closed_at_boundary, next_framed, TcpBuffers};
use tickchaos::ProxyError;

fn frame(body: &str) -> Vec<u8> {
    let body = body.replace('|', "\x01");
    let mut message = format!("8=FIX.4.2\x019={}\x01{}", body.len(), body);
    let checksum: u32 = message.bytes().map(u32::from).sum::<u32>() % 256;
    message.push_str(&format!("10={checksum:03}\x01"));
    message.into_bytes()
}

#[test]
fn default_tcp_buffers_are_256_kib() {
    let buffers = TcpBuffers::default();
    assert_eq!(buffers.recv_bytes, 256 * 1024);
    assert_eq!(buffers.send_bytes, 256 * 1024);
}

#[test]
fn clean_close_on_a_boundary_is_none() {
    let mut framer = FixFramer::new(Direction::UpstreamToClient);
    assert_eq!(closed_at_boundary(&framer), Ok(None));
    framer.extend(&frame("35=0|34=3|"));
    assert!(next_framed(&mut framer, Instant::now()).unwrap().is_some());
    assert_eq!(closed_at_boundary(&framer), Ok(None));
}

#[test]
fn close_mid_message_is_a_framing_error() {
    let mut framer = FixFramer::new(Direction::UpstreamToClient);
    let raw = frame("35=0|49=A|");
    framer.extend(&raw[..12]);
    assert!(next_framed(&mut framer, Instant::now()).unwrap().is_none());
    assert_eq!(
        closed_at_boundary(&framer),
        Err(ProxyError::Framing(
            "peer closed with 12 buffered bytes of an incomplete message".to_string()
        ))
    );
}

#[test]
fn garbage_stream_is_reported_as_framing_error() {
    let mut framer = FixFramer::new(Direction::UpstreamToClient);
    framer.extend(b"this is not a FIX stream at all");
    assert_eq!(
        next_framed(&mut framer, Instant::now()),
        Err(ProxyError::Framing(
            "stream does not begin with a FIX BeginString".to_string()
        ))
    );
}

#[test]
fn two_messages_in_one_read_are_framed_separately() {
    let mut framer = FixFramer::new(Direction::UpstreamToClient);
    let mut both = frame("35=0|34=7|");
    both.extend_from_slice(&frame("35=1|34=8|"));
    framer.extend(&both);
    let first = next_framed(&mut framer, Instant::now()).unwrap().unwrap();
    let second = next_framed(&mut framer, Instant::now()).unwrap().unwrap();
    assert_eq!(first.msg_seq_num(), Some(MsgSeqNum(7)));
    assert_eq!(second.msg_seq_num(), Some(MsgSeqNum(8)));
    assert_eq!(next_framed(&mut framer, Instant::now()), Ok(None));
}

#[test]
fn close_mid_message_counts_every_buffered_byte() {
    for count in [1usize, 3, 9, 10, 99, 100, 150] {
        let mut framer = FixFramer::new(Direction::UpstreamToClient);
        let raw = frame(&format!("35=0|58={}|", "x".repeat(200)));
        framer.extend(&raw[..count]);
        assert!(next_framed(&mut framer, Instant::now()).unwrap().is_none());
        assert_eq!(
            closed_at_boundary(&framer),
            Err(ProxyError::Framing(format!(
                "peer closed with {count} buffered bytes of an incomplete message"
            )))
        );
    }
}
