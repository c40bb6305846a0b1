use tickchaos::domain::SequenceExtractor;
use tickchaos::protocols::MoldUdp64Extractor;
use tickchaos::SeqNum;

const HEADER_LEN: usize = 20;

fn header(session: &[u8; 10], sequence: u64, message_count: u16) -> Vec<u8> {
    let mut bytes = Vec::with_capacity(HEADER_LEN);
    bytes.extend_from_slice(session);
    bytes.extend_from_slice(&sequence.to_be_bytes());
    bytes.extend_from_slice(&message_count.to_be_bytes());
    bytes
}

#[test]
fn extracts_seqnum_from_valid_header() {
    let payload = header(b"SESSION001", 777, 1);
    assert_eq!(MoldUdp64Extractor.extract(&payload), Some(SeqNum(777)));
}

#[test]
fn extracts_seqnum_ignoring_trailing_messages() {
    let mut payload = header(b"SESSION001", u64::MAX, 3);
    payload.extend_from_slice(b"trailing message bytes");
    assert_eq!(MoldUdp64Extractor.extract(&payload), Some(SeqNum(u64::MAX)));
}

#[test]
fn short_payload_returns_none() {
    assert_eq!(MoldUdp64Extractor.extract(&[]), None);
    assert_eq!(MoldUdp64Extractor.extract(&[0u8; HEADER_LEN - 1]), None);
}

#[test]
fn reads_big_endian_sequence_at_fixed_offset() {
    for sequence in [0u64, 1, 255, 256, 0x0102_0304_0506_0708, u64::MAX - 1] {
        for count in [0u16, 1, u16::MAX] {
            let payload = header(b"SESSION042", sequence, count);
            assert_eq!(
                MoldUdp64Extractor.extract(&payload),
                Some(SeqNum(sequence))
            );
        }
    }
}

#[test]
fn extraction_succeeds_exactly_from_the_header_length() {
    for len in 0..40usize {
        let payload = vec![0xABu8; len];
        assert_eq!(
            MoldUdp64Extractor.extract(&payload).is_some(),
            len >= HEADER_LEN
        );
    }
}
