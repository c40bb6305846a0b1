use std::time::Instant;
use tickchaos::domain::{Direction, FixMessage, MsgSeqNum};
use tickchaos::protocols::{FixFramer, FrameError, MAX_MESSAGE_LEN};

fn frame(body: &str) -> Vec<u8> {
    let body = body.replace('|', "\x01");
    let mut message = format!("8=FIX.4.2\x019={}\x01{}", body.len(), body);
    let checksum: u32 = message.bytes().map(u32::from).sum::<u32>() % 256;
    message.push_str(&format!("10={checksum:03}\x01"));
    message.into_bytes()
}

fn framer() -> FixFramer {
    FixFramer::new(Direction::UpstreamToClient)
}

fn next(framer: &mut FixFramer) -> Result<Option<FixMessage>, FrameError> {
    framer.next_message(Instant::now())
}

#[test]
fn frames_the_design_doc_vector() {
    let raw = frame("35=0|49=A|");
    assert_eq!(raw.len(), 32);
    assert_eq!(
        raw.as_slice(),
        b"8=FIX.4.2\x019=10\x0135=0\x0149=A\x0110=185\x01"
    );

    let mut framer = framer();
    framer.extend(&raw);
    let message = next(&mut framer).unwrap().unwrap();

    assert_eq!(message.raw.as_ref(), raw.as_slice());
    assert_eq!(message.msg_type(), Some(b"0".as_slice()));
    assert!(next(&mut framer).unwrap().is_none());
}

#[test]
fn extracts_seqnum_type_and_poss_dup() {
    let mut framer = framer();
    framer.extend(&frame("35=AE|34=4711|43=Y|49=ACME|"));
    let message = next(&mut framer).unwrap().unwrap();

    assert_eq!(message.msg_seq_num(), Some(MsgSeqNum(4711)));
    assert_eq!(message.msg_type(), Some(b"AE".as_slice()));
    assert!(message.is_poss_dup());
}

#[test]
fn poss_dup_only_when_flag_is_yes() {
    let mut framer = framer();
    framer.extend(&frame("35=D|34=1|43=N|"));
    assert!(!next(&mut framer).unwrap().unwrap().is_poss_dup());
}

#[test]
fn absent_seqnum_is_none_not_an_error() {
    let mut framer = framer();
    framer.extend(&frame("35=A|49=ACME|"));
    let message = next(&mut framer).unwrap().unwrap();
    assert_eq!(message.msg_seq_num(), None);
    assert_eq!(message.msg_type(), Some(b"A".as_slice()));
}

#[test]
fn unparseable_seqnum_is_none_not_an_error() {
    let mut framer = framer();
    framer.extend(&frame("35=D|34=abc|"));
    assert_eq!(next(&mut framer).unwrap().unwrap().msg_seq_num(), None);
}

#[test]
fn incomplete_frame_yields_none_until_completed() {
    let raw = frame("35=D|34=9|");

    for split in [1usize, 5, 15, raw.len() - 1] {
        let mut partial = framer();
        partial.extend(raw.get(..split).unwrap());
        assert!(
            next(&mut partial).unwrap().is_none(),
            "prefix of {split} bytes must not frame"
        );
        partial.extend(raw.get(split..).unwrap());
        assert!(next(&mut partial).unwrap().is_some());
    }
}

#[test]
fn drains_several_messages_from_one_chunk() {
    let mut chunk = frame("35=A|34=1|");
    chunk.extend_from_slice(&frame("35=D|34=2|"));
    chunk.extend_from_slice(&frame("35=8|34=3|"));

    let mut framer = framer();
    framer.extend(&chunk);

    let mut seqnums = Vec::new();
    while let Some(message) = next(&mut framer).unwrap() {
        seqnums.push(message.msg_seq_num());
    }
    assert_eq!(
        seqnums,
        vec![Some(MsgSeqNum(1)), Some(MsgSeqNum(2)), Some(MsgSeqNum(3))]
    );
}

#[test]
fn keeps_partial_tail_for_the_next_read() {
    let first = frame("35=A|34=1|");
    let second = frame("35=D|34=2|");
    let mut chunk = first.clone();
    chunk.extend_from_slice(second.get(..4).unwrap());

    let mut framer = framer();
    framer.extend(&chunk);
    assert_eq!(
        next(&mut framer).unwrap().unwrap().msg_seq_num(),
        Some(MsgSeqNum(1))
    );
    assert!(next(&mut framer).unwrap().is_none());

    framer.extend(second.get(4..).unwrap());
    assert_eq!(
        next(&mut framer).unwrap().unwrap().msg_seq_num(),
        Some(MsgSeqNum(2))
    );
}

#[test]
fn rejects_stream_that_does_not_start_with_begin_string() {
    let mut framer = framer();
    framer.extend(b"GET / HTTP/1.1\r\n");
    assert_eq!(next(&mut framer), Err(FrameError::NotFixStream));
}

#[test]
fn rejects_begin_string_without_soh_in_scan_window() {
    let mut framer = framer();
    framer.extend(b"8=FIX.4.2.................................");
    assert_eq!(next(&mut framer), Err(FrameError::HeaderTooLong));
}

#[test]
fn rejects_non_numeric_body_length() {
    let mut framer = framer();
    framer.extend(b"8=FIX.4.2\x019=abc\x0135=D\x0110=000\x01");
    assert_eq!(next(&mut framer), Err(FrameError::BadBodyLength));
}

#[test]
fn rejects_second_field_that_is_not_body_length() {
    let mut framer = framer();
    framer.extend(b"8=FIX.4.2\x0135=D\x019=10\x0110=000\x01");
    assert_eq!(next(&mut framer), Err(FrameError::BadBodyLength));
}

#[test]
fn rejects_body_length_over_the_cap_without_buffering_it() {
    let mut framer = framer();
    framer.extend(b"8=FIX.4.2\x019=999999999\x01");
    assert_eq!(next(&mut framer), Err(FrameError::MessageTooLong));
    assert!(framer.buffered() < MAX_MESSAGE_LEN);
}

#[test]
fn rejects_lying_body_length_that_would_splice_messages() {
    let mut framer = framer();
    framer.extend(b"8=FIX.4.2\x019=8\x0135=0\x0149=A\x0110=185\x01");
    assert_eq!(next(&mut framer), Err(FrameError::BadChecksumField));
}

#[test]
fn rejects_checksum_field_with_wrong_shape() {
    let mut framer = framer();
    framer.extend(b"8=FIX.4.2\x019=10\x0135=0\x0149=A\x0110=18X\x01");
    assert_eq!(next(&mut framer), Err(FrameError::BadChecksumField));
}

#[test]
fn does_not_validate_the_checksum_value() {
    let mut framer = framer();
    framer.extend(b"8=FIX.4.2\x019=10\x0135=0\x0149=A\x0110=000\x01");
    assert!(next(&mut framer).unwrap().is_some());
}

#[test]
fn frame_error_is_sticky() {
    let mut framer = framer();
    framer.extend(b"GET / HTTP/1.1\r\n");
    assert!(next(&mut framer).is_err());

    framer.extend(&frame("35=A|34=1|"));
    assert_eq!(next(&mut framer), Err(FrameError::NotFixStream));
}

#[test]
fn direction_is_stamped_on_every_message() {
    let mut framer = FixFramer::new(Direction::ClientToUpstream);
    framer.extend(&frame("35=A|34=1|"));
    assert_eq!(
        next(&mut framer).unwrap().unwrap().direction,
        Direction::ClientToUpstream
    );
}

#[test]
fn received_at_is_stamped_on_the_message() {
    let stamp = Instant::now();
    let mut framer = framer();
    framer.extend(&frame("35=A|34=1|"));
    assert_eq!(
        framer.next_message(stamp).unwrap().unwrap().received_at,
        stamp
    );
}

#[test]
fn every_split_of_a_stream_frames_the_same_messages() {
    let mut stream = frame("35=A|34=1|");
    stream.extend_from_slice(&frame("35=D|34=2|55=ACME|"));
    stream.extend_from_slice(&frame("35=8|34=3|43=Y|"));
    for chunk_len in 1..stream.len() {
        let mut framer = framer();
        let mut seqnums = Vec::new();
        for chunk in stream.chunks(chunk_len) {
            framer.extend(chunk);
            while let Some(message) = next(&mut framer).unwrap() {
                seqnums.push(message.msg_seq_num());
            }
        }
        assert_eq!(
            seqnums,
            vec![Some(MsgSeqNum(1)), Some(MsgSeqNum(2)), Some(MsgSeqNum(3))],
            "chunks of {chunk_len} bytes"
        );
        assert_eq!(framer.buffered(), 0);
    }
}

#[test]
fn arbitrary_bodies_survive_a_roundtrip() {
    for tag in [100u32, 449, 998] {
        for value in ["", "a", "Zz09", "abcdefghijklmnopqrstuvwxyz0123456789"] {
            let raw = frame(&format!("35=D|34=42|{tag}={value}|"));
            let mut framer = framer();
            framer.extend(&raw);
            let message = next(&mut framer).unwrap().unwrap();
            assert_eq!(message.raw.as_ref(), raw.as_slice());
            assert_eq!(message.msg_seq_num(), Some(MsgSeqNum(42)));
            assert_eq!(message.msg_type(), Some(b"D".as_slice()));
        }
    }
}

#[test]
fn waiting_buffer_never_exceeds_the_cap() {
    let mut inputs: Vec<Vec<u8>> = vec![
        b"8=FIX.4.2\x019=16300\x01".to_vec(),
        b"8".to_vec(),
        b"8=FIX.4.2".to_vec(),
    ];
    let mut long = b"8=FIX.4.2\x019=16300\x01".to_vec();
    long.extend(std::iter::repeat(b'x').take(16_000));
    inputs.push(long);
    for input in inputs {
        let mut framer = framer();
        framer.extend(&input);
        if matches!(next(&mut framer), Ok(None)) {
            assert!(framer.buffered() <= MAX_MESSAGE_LEN);
        }
    }
}

#[test]
fn later_tag_occurrence_overrides_earlier() {
    let mut framer = framer();
    framer.extend(&frame("34=1|35=A|34=2|43=Y|43=N|"));
    let message = next(&mut framer).unwrap().unwrap();
    assert_eq!(message.msg_seq_num(), Some(MsgSeqNum(2)));
    assert!(!message.is_poss_dup());
}

#[test]
fn seqnum_overflowing_u64_is_none() {
    let mut framer = framer();
    framer.extend(&frame("35=D|34=18446744073709551616|"));
    assert_eq!(next(&mut framer).unwrap().unwrap().msg_seq_num(), None);
    let mut framer = self::framer();
    framer.extend(&frame("35=D|34=18446744073709551615|"));
    assert_eq!(
        next(&mut framer).unwrap().unwrap().msg_seq_num(),
        Some(MsgSeqNum(u64::MAX))
    );
}

#[test]
fn frame_errors_render_their_description() {
    assert_eq!(
        FrameError::NotFixStream.to_string(),
        "stream does not begin with a FIX BeginString"
    );
    assert_eq!(
        FrameError::HeaderTooLong.to_string(),
        "no BeginString/BodyLength terminator within 32 bytes"
    );
    assert_eq!(
        FrameError::BadBodyLength.to_string(),
        "BodyLength field is missing or not numeric"
    );
    assert_eq!(
        FrameError::MessageTooLong.to_string(),
        "message exceeds the 16384 byte cap"
    );
    assert_eq!(
        FrameError::BadChecksumField.to_string(),
        "no well-formed CheckSum field where BodyLength said it would be"
    );
}

#[test]
fn cut_message_and_what_stays_make_up_the_stream() {
    let first = frame("35=0|34=1|");
    let second = frame("35=D|34=2|55=ABC|");
    let mut stream = first.clone();
    stream.extend_from_slice(&second[..second.len() - 4]);

    let mut framer = framer();
    framer.extend(&stream);
    let before = framer.buffered();
    let message = next(&mut framer).unwrap().unwrap();
    assert_eq!(message.raw.as_ref(), first.as_slice());
    assert_eq!(message.len() + framer.buffered(), before);

    let kept = framer.buffered();
    assert!(next(&mut framer).unwrap().is_none());
    assert_eq!(framer.buffered(), kept);
    framer.extend(&second[second.len() - 4..]);
    let message = next(&mut framer).unwrap().unwrap();
    assert_eq!(message.raw.as_ref(), second.as_slice());
    assert_eq!(framer.buffered(), 0);
}

#[test]
fn failure_kind_can_depend_on_where_a_read_ends() {
    let mut stream = b"8=".to_vec();
    stream.extend(std::iter::repeat(b'F').take(29));
    stream.push(0x01);
    assert_eq!(stream.len(), 32);
    stream.extend_from_slice(b"X=1\x01");

    let mut split = framer();
    split.extend(&stream[..32]);
    assert_eq!(next(&mut split).unwrap_err(), FrameError::HeaderTooLong);
    split.extend(&stream[32..]);
    assert_eq!(next(&mut split).unwrap_err(), FrameError::HeaderTooLong);

    let mut whole = framer();
    whole.extend(&stream);
    assert_eq!(next(&mut whole).unwrap_err(), FrameError::BadBodyLength);
}

#[test]
fn a_failed_framer_holds_nothing() {
    let mut framer = framer();
    framer.extend(b"GET / HTTP/1.1\r\n");
    assert_eq!(next(&mut framer).unwrap_err(), FrameError::NotFixStream);
    assert_eq!(framer.buffered(), 0);
    framer.extend(&frame("35=A|34=1|"));
    assert_eq!(framer.buffered(), 0);
    assert_eq!(next(&mut framer).unwrap_err(), FrameError::NotFixStream);
}
