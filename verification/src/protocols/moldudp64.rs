use crate::domain::{SeqNum, SequenceExtractor};
use vstd::prelude::*;

verus! {

/// Length of a MoldUDP64 downstream packet header: a 10-byte ASCII session,
/// an 8-byte big-endian sequence number, a 2-byte big-endian message count.
pub const HEADER_LEN: usize = 20;

/// Where the sequence number lies in the header.
pub const SEQUENCE_START: usize = 10;

pub const SEQUENCE_END: usize = 18;

/// `256` to the power `count`: the number of values `count` bytes can hold.
pub open spec fn byte_range(count: nat) -> nat
    decreases count,
{
    if count == 0 {
        1
    } else {
        256 * byte_range((count - 1) as nat)
    }
}

/// The unsigned number that `bytes` write in big-endian order.
pub open spec fn big_endian_value(bytes: Seq<u8>) -> nat
    decreases bytes.len(),
{
    if bytes.len() == 0 {
        0
    } else {
        big_endian_value(bytes.drop_last()) * 256 + bytes.last() as nat
    }
}

/// The sequence number of a MoldUDP64 packet, `None` for a payload shorter
/// than the header.
pub open spec fn moldudp64_sequence(payload: Seq<u8>) -> Option<u64> {
    if payload.len() < HEADER_LEN {
        None
    } else {
        Some(big_endian_value(payload.subrange(SEQUENCE_START as int, SEQUENCE_END as int)) as u64)
    }
}

/// `count` bytes hold a value below `256^count`.
pub proof fn lemma_big_endian_bound(bytes: Seq<u8>)
    ensures
        big_endian_value(bytes) < byte_range(bytes.len()),
    decreases bytes.len(),
{
    if bytes.len() > 0 {
        let rest = bytes.drop_last();
        lemma_big_endian_bound(rest);
        let v = big_endian_value(rest);
        let r = byte_range(rest.len());
        let b = bytes.last() as nat;
        assert(v * 256 + b < r * 256) by (nonlinear_arith)
            requires
                v < r,
                b < 256,
        ;
    }
}

/// Reads the sequence number out of a MoldUDP64 downstream packet header.
pub struct MoldUdp64Extractor;

impl SequenceExtractor for MoldUdp64Extractor {
    fn extract(&self, payload: &[u8]) -> (seqnum: Option<SeqNum>)
        ensures
            seqnum is Some <==> payload@.len() >= HEADER_LEN,
            seqnum matches Some(s) ==> moldudp64_sequence(payload@) == Some(s.0),
    {
        if payload.len() < HEADER_LEN {
            return None;
        }
        let ghost sequence = payload@.subrange(SEQUENCE_START as int, SEQUENCE_END as int);
        let mut value: u64 = 0;
        let mut i: usize = SEQUENCE_START;
        while i < SEQUENCE_END
            invariant
                SEQUENCE_START <= i <= SEQUENCE_END,
                SEQUENCE_END <= payload@.len(),
                sequence == payload@.subrange(SEQUENCE_START as int, SEQUENCE_END as int),
                value as nat == big_endian_value(sequence.take(i - SEQUENCE_START)),
            decreases SEQUENCE_END - i,
        {
            let ghost done = sequence.take(i - SEQUENCE_START);
            let ghost next = sequence.take(i + 1 - SEQUENCE_START);
            assert(next.drop_last() =~= done);
            assert(next.last() == payload@[i as int]);
            proof {
                lemma_big_endian_bound(next);
                lemma_eight_bytes();
                lemma_byte_range_monotonic(next.len(), 8);
            }
            value = value * 256 + payload[i] as u64;
            i = i + 1;
        }
        assert(sequence.take(8) =~= sequence);
        Some(SeqNum(value))
    }
}

proof fn lemma_eight_bytes()
    ensures
        byte_range(8) == 0x1_0000_0000_0000_0000,
{
    reveal_with_fuel(byte_range, 9);
}

proof fn lemma_byte_range_monotonic(small: nat, large: nat)
    requires
        small <= large,
    ensures
        byte_range(small) <= byte_range(large),
    decreases large,
{
    if small < large {
        lemma_byte_range_monotonic(small, (large - 1) as nat);
    }
}

/// The `count` bytes that write `value` in big-endian order, dropping what
/// does not fit.
pub open spec fn big_endian_bytes(value: nat, count: nat) -> Seq<u8>
    decreases count,
{
    if count == 0 {
        Seq::<u8>::empty()
    } else {
        big_endian_bytes(value / 256, (count - 1) as nat).push((value % 256) as u8)
    }
}

/// Reading back `count` big-endian bytes gives the value modulo `256^count`.
pub proof fn lemma_big_endian_roundtrip(value: nat, count: nat)
    ensures
        big_endian_bytes(value, count).len() == count,
        big_endian_value(big_endian_bytes(value, count)) == value % byte_range(count),
    decreases count,
{
    if count > 0 {
        let rest = (count - 1) as nat;
        lemma_big_endian_roundtrip(value / 256, rest);
        let bytes = big_endian_bytes(value, count);
        assert(bytes.drop_last() =~= big_endian_bytes(value / 256, rest));
        lemma_byte_range_positive(rest);
        vstd::arithmetic::div_mod::lemma_mod_breakdown(value as int, 256, byte_range(rest) as int);
    }
}

proof fn lemma_byte_range_positive(count: nat)
    ensures
        byte_range(count) > 0,
    decreases count,
{
    if count > 0 {
        lemma_byte_range_positive((count - 1) as nat);
    }
}

/// The extractor reads the header's sequence number and nothing else: for
/// any 10-byte session, any message count and any trailing messages, a
/// header written with `sequence` yields `sequence`.
pub proof fn lemma_sequence_read_from_header(
    session: Seq<u8>,
    sequence: u64,
    message_count: Seq<u8>,
    messages: Seq<u8>,
)
    requires
        session.len() == 10,
        message_count.len() == 2,
    ensures
        moldudp64_sequence(session + big_endian_bytes(sequence as nat, 8) + message_count + messages)
            == Some(sequence),
{
    let sequence_bytes = big_endian_bytes(sequence as nat, 8);
    lemma_big_endian_roundtrip(sequence as nat, 8);
    lemma_eight_bytes();
    let payload = session + sequence_bytes + message_count + messages;
    assert(payload.subrange(SEQUENCE_START as int, SEQUENCE_END as int) =~= sequence_bytes);
}

} // verus!
