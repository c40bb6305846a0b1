use crate::domain::{Direction, FixHeader, FixMessage, MsgSeqNum};
use crate::support::byte_buffers::{bytes_contents, bytes_mut_contents};
use bytes::BytesMut;
use std::ops::Range;
use std::time::Instant;
use vstd::prelude::*;
use vstd::slice::slice_subrange;

verus! {

/// Largest FIX message the framer will assemble.
///
/// `BodyLength` arrives from an untrusted stream: without a cap, `9=999999999`
/// makes the framer wait for a tail that never comes while its buffer grows.
pub const MAX_MESSAGE_LEN: usize = 16 * 1024;

/// How far into the stream `8=`/`9=` must be terminated before the stream is
/// declared non-FIX.
pub const MAX_HEADER_SCAN: usize = 32;

/// `10=` plus three checksum digits plus `SOH`.
pub const TAIL_LEN: usize = 7;

pub const SOH: u8 = 0x01;

/// A framing failure, fatal for the connection but never for the process.
///
/// A desynchronised TCP stream cannot be resumed: every later byte is
/// uninterpretable and re-synchronising risks splicing two messages into one.
#[derive(Debug, Clone, Copy, PartialEq, Eq, Structural)]
pub enum FrameError {
    NotFixStream,
    HeaderTooLong,
    BadBodyLength,
    MessageTooLong,
    BadChecksumField,
}

impl FrameError {
    pub open spec fn text(self) -> Seq<char> {
        match self {
            FrameError::NotFixStream => "stream does not begin with a FIX BeginString"@,
            FrameError::HeaderTooLong => "no BeginString/BodyLength terminator within 32 bytes"@,
            FrameError::BadBodyLength => "BodyLength field is missing or not numeric"@,
            FrameError::MessageTooLong => "message exceeds the 16384 byte cap"@,
            FrameError::BadChecksumField => "no well-formed CheckSum field where BodyLength said it would be"@,
        }
    }

    /// The human-readable description of the failure.
    pub fn to_string(&self) -> (text: String)
        ensures
            text@ == self.text(),
    {
        match self {
            FrameError::NotFixStream => "stream does not begin with a FIX BeginString".to_owned(),
            FrameError::HeaderTooLong => "no BeginString/BodyLength terminator within 32 bytes".to_owned(),
            FrameError::BadBodyLength => "BodyLength field is missing or not numeric".to_owned(),
            FrameError::MessageTooLong => "message exceeds the 16384 byte cap".to_owned(),
            FrameError::BadChecksumField => "no well-formed CheckSum field where BodyLength said it would be".to_owned(),
        }
    }
}

// ---------------------------------------------------------------------------
// The wire format, stated over byte sequences.
// ---------------------------------------------------------------------------

/// `8=`, the start of the BeginString field.
pub open spec fn begin_string_tag() -> Seq<u8> {
    seq![0x38u8, 0x3du8]
}

/// `9=`, the start of the BodyLength field.
pub open spec fn body_length_tag() -> Seq<u8> {
    seq![0x39u8, 0x3du8]
}

/// `10=`, the start of the CheckSum field.
pub open spec fn checksum_tag() -> Seq<u8> {
    seq![0x31u8, 0x30u8, 0x3du8]
}

/// `buf` and `prefix` agree on every position that both have: `buf` is a
/// prefix of `prefix` or starts with it.
pub open spec fn agrees_with(buf: Seq<u8>, prefix: Seq<u8>) -> bool {
    forall|i: int| 0 <= i < buf.len() && i < prefix.len() ==> buf[i] == prefix[i]
}

/// `k` is the first position in `from..end` that holds `byte`.
pub open spec fn is_first_position(buf: Seq<u8>, byte: u8, from: int, end: int, k: int) -> bool {
    &&& from <= k < end
    &&& 0 <= k < buf.len()
    &&& buf[k] == byte
    &&& forall|j: int| from <= j < k ==> buf[j] != byte
}

/// The first position in `from..end` that holds `byte`, if there is one.
pub open spec fn first_position(buf: Seq<u8>, byte: u8, from: int, end: int) -> Option<int> {
    if exists|k: int| is_first_position(buf, byte, from, end, k) {
        Some(choose|k: int| is_first_position(buf, byte, from, end, k))
    } else {
        None
    }
}

/// End of the window that the BeginString and BodyLength fields must end in.
pub open spec fn scan_window_end(buf: Seq<u8>) -> int {
    if buf.len() < MAX_HEADER_SCAN { buf.len() as int } else { MAX_HEADER_SCAN as int }
}

/// Looks for the `SOH` that ends a header field starting at `from`: found,
/// not yet arrived, or never arriving within the header window.
pub open spec fn soh_scan(buf: Seq<u8>, from: int) -> Result<Option<int>, FrameError> {
    match first_position(buf, SOH, from, scan_window_end(buf)) {
        Some(k) => Ok(Some(k)),
        None => if buf.len() >= MAX_HEADER_SCAN {
            Err(FrameError::HeaderTooLong)
        } else {
            Ok(None)
        },
    }
}

pub open spec fn is_ascii_digit(byte: u8) -> bool {
    0x30 <= byte && byte <= 0x39
}

pub open spec fn all_ascii_digits(s: Seq<u8>) -> bool {
    forall|i: int| 0 <= i < s.len() ==> is_ascii_digit(#[trigger] s[i])
}

/// The number that a string of ASCII digits writes in decimal.
pub open spec fn decimal_value(s: Seq<u8>) -> int
    decreases s.len(),
{
    if s.len() == 0 {
        0
    } else {
        decimal_value(s.drop_last()) * 10 + (s.last() - 0x30)
    }
}

/// A non-empty string of ASCII digits whose value fits in a `u64`.
pub open spec fn parse_decimal(s: Seq<u8>) -> Option<u64> {
    if s.len() > 0 && all_ascii_digits(s) && decimal_value(s) <= u64::MAX {
        Some(decimal_value(s) as u64)
    } else {
        None
    }
}

/// A well-formed CheckSum field: `10=`, three digits, `SOH`. The value of the
/// digits is not checked.
pub open spec fn is_checksum_field_bytes(tail: Seq<u8>) -> bool {
    &&& tail.len() >= TAIL_LEN
    &&& tail.subrange(0, 3) == checksum_tag()
    &&& all_ascii_digits(tail.subrange(3, 6))
    &&& tail[6] == SOH
}

/// Where one message lies in the buffer: its length, and the body between
/// the BodyLength field and the CheckSum field.
#[derive(Debug, Clone, Copy, PartialEq, Eq, Structural)]
pub struct FrameLayout {
    pub frame_len: usize,
    pub body_start: usize,
    pub body_end: usize,
}

/// How the bytes at the front of a stream frame: a whole message, not enough
/// bytes yet, or a stream that can never frame.
pub open spec fn frame_layout(buf: Seq<u8>) -> Result<Option<FrameLayout>, FrameError> {
    if !agrees_with(buf, begin_string_tag()) {
        Err(FrameError::NotFixStream)
    } else {
        match soh_scan(buf, 0) {
            Err(error) => Err(error),
            Ok(None) => Ok(None),
            Ok(Some(begin_end)) => {
                let length_start = begin_end + 1;
                if length_start > buf.len() {
                    Ok(None)
                } else if !agrees_with(buf.skip(length_start), body_length_tag()) {
                    Err(FrameError::BadBodyLength)
                } else {
                    match soh_scan(buf, length_start) {
                        Err(error) => Err(error),
                        Ok(None) => Ok(None),
                        Ok(Some(length_end)) => {
                            let digits_start = length_start + 2;
                            let digits = if digits_start <= length_end {
                                buf.subrange(digits_start, length_end)
                            } else {
                                Seq::<u8>::empty()
                            };
                            match parse_decimal(digits) {
                                None => Err(FrameError::BadBodyLength),
                                Some(body_length) => {
                                    let body_start = length_end + 1;
                                    let body_end = body_start + body_length;
                                    let frame_len = body_end + TAIL_LEN;
                                    if frame_len > MAX_MESSAGE_LEN {
                                        Err(FrameError::MessageTooLong)
                                    } else if buf.len() < frame_len {
                                        Ok(None)
                                    } else if !is_checksum_field_bytes(
                                        buf.subrange(body_end, frame_len),
                                    ) {
                                        Err(FrameError::BadChecksumField)
                                    } else {
                                        Ok(
                                            Some(
                                                FrameLayout {
                                                    frame_len: frame_len as usize,
                                                    body_start: body_start as usize,
                                                    body_end: body_end as usize,
                                                },
                                            ),
                                        )
                                    }
                                },
                            }
                        },
                    }
                }
            },
        }
    }
}

// ---------------------------------------------------------------------------
// Field scanners.
// ---------------------------------------------------------------------------

/// Whether `buf` agrees with `prefix` on the bytes both have.
fn starts_with_prefix_of(buf: &[u8], prefix: &[u8]) -> (agrees: bool)
    ensures
        agrees == agrees_with(buf@, prefix@),
{
    let compared = if buf.len() < prefix.len() {
        buf.len()
    } else {
        prefix.len()
    };
    let mut i: usize = 0;
    while i < compared
        invariant
            compared <= buf@.len(),
            compared <= prefix@.len(),
            compared == buf@.len() || compared == prefix@.len(),
            i <= compared,
            forall|j: int| 0 <= j < i ==> buf@[j] == prefix@[j],
        decreases compared - i,
    {
        if buf[i] != prefix[i] {
            return false;
        }
        i = i + 1;
    }
    true
}

/// The first position in `from..end` of `buf` that holds `byte`.
fn find_byte(buf: &[u8], byte: u8, from: usize, end: usize) -> (found: Option<usize>)
    requires
        end <= buf@.len(),
    ensures
        found matches Some(k) ==> first_position(buf@, byte, from as int, end as int) == Some(
            k as int,
        ),
        found is None ==> first_position(buf@, byte, from as int, end as int) is None,
{
    let mut i = from;
    while i < end
        invariant
            end <= buf@.len(),
            from <= i,
            forall|j: int| from <= j < i ==> buf@[j] != byte,
        decreases end - i,
    {
        if buf[i] == byte {
            assert(is_first_position(buf@, byte, from as int, end as int, i as int));
            proof {
                lemma_first_position_unique(buf@, byte, from as int, end as int, i as int);
            }
            return Some(i);
        }
        i = i + 1;
    }
    assert(!exists|k: int| is_first_position(buf@, byte, from as int, end as int, k));
    None
}

/// A position that is first is the one `first_position` names.
proof fn lemma_first_position_unique(buf: Seq<u8>, byte: u8, from: int, end: int, k: int)
    requires
        is_first_position(buf, byte, from, end, k),
    ensures
        first_position(buf, byte, from, end) == Some(k),
{
    let c = choose|c: int| is_first_position(buf, byte, from, end, c);
    assert(is_first_position(buf, byte, from, end, c));
    if c < k {
        assert(buf[c] != byte);
    } else if k < c {
        assert(buf[k] != byte);
    }
}

/// Finds the `SOH` that ends a header field starting at `from`.
fn scan_soh(buf: &[u8], from: usize) -> (scan: Result<Option<usize>, FrameError>)
    ensures
        soh_scan(buf@, from as int) == match scan {
            Ok(Some(k)) => Ok(Some(k as int)),
            Ok(None) => Ok(None),
            Err(error) => Err(error),
        },
        scan matches Ok(Some(k)) ==> from <= k < MAX_HEADER_SCAN && k < buf@.len(),
{
    let window_end = if buf.len() < MAX_HEADER_SCAN {
        buf.len()
    } else {
        MAX_HEADER_SCAN
    };
    match find_byte(buf, SOH, from, window_end) {
        Some(k) => Ok(Some(k)),
        None => if buf.len() >= MAX_HEADER_SCAN {
            Err(FrameError::HeaderTooLong)
        } else {
            Ok(None)
        },
    }
}

/// Each digit appended to a string of digits leaves its value no smaller.
proof fn lemma_decimal_prefix_bound(s: Seq<u8>, k: int)
    requires
        all_ascii_digits(s),
        0 <= k <= s.len(),
    ensures
        0 <= decimal_value(s.take(k)) <= decimal_value(s),
    decreases s.len() - k,
{
    if k < s.len() {
        lemma_decimal_prefix_bound(s, k + 1);
        assert(s.take(k + 1).drop_last() =~= s.take(k));
        assert(is_ascii_digit(s[k]));
        lemma_decimal_nonnegative(s.take(k));
    } else {
        assert(s.take(k) =~= s);
        lemma_decimal_nonnegative(s);
    }
}

proof fn lemma_decimal_nonnegative(s: Seq<u8>)
    requires
        all_ascii_digits(s),
    ensures
        decimal_value(s) >= 0,
    decreases s.len(),
{
    if s.len() > 0 {
        assert(all_ascii_digits(s.drop_last()));
        assert(is_ascii_digit(s[s.len() - 1]));
        lemma_decimal_nonnegative(s.drop_last());
    }
}

/// Reads a non-empty run of ASCII digits as a `u64`; `None` for anything
/// else, including a value that does not fit.
fn parse_digits(bytes: &[u8]) -> (value: Option<u64>)
    ensures
        value == parse_decimal(bytes@),
{
    if bytes.len() == 0 {
        return None;
    }
    let mut value: u64 = 0;
    let mut i: usize = 0;
    while i < bytes.len()
        invariant
            i <= bytes@.len(),
            bytes@.len() > 0,
            all_ascii_digits(bytes@.take(i as int)),
            value as int == decimal_value(bytes@.take(i as int)),
        decreases bytes@.len() - i,
    {
        let byte = bytes[i];
        assert(bytes@.take(i + 1).drop_last() =~= bytes@.take(i as int));
        if byte < 0x30 || byte - 0x30 >= 10 {
            assert(!is_ascii_digit(bytes@[i as int]));
            return None;
        }
        let digit = byte - 0x30;
        assert(all_ascii_digits(bytes@.take(i + 1)));
        match value.checked_mul(10) {
            None => {
                proof {
                    if all_ascii_digits(bytes@) {
                        lemma_decimal_prefix_bound(bytes@, i + 1);
                    }
                }
                return None;
            },
            Some(tens) => match tens.checked_add(digit as u64) {
                None => {
                    proof {
                        if all_ascii_digits(bytes@) {
                            lemma_decimal_prefix_bound(bytes@, i + 1);
                        }
                    }
                    return None;
                },
                Some(next) => {
                    value = next;
                },
            },
        }
        i = i + 1;
    }
    assert(bytes@.take(bytes@.len() as int) =~= bytes@);
    Some(value)
}

/// Checks the shape of the CheckSum field, `10=DDD<SOH>`, and not its value:
/// a deliberately corrupted checksum is a valid frame the peer is supposed to
/// reject, while a wrong shape betrays a lying `BodyLength`.
fn is_checksum_field(tail: &[u8]) -> (well_formed: bool)
    ensures
        well_formed == is_checksum_field_bytes(tail@),
{
    if tail.len() < TAIL_LEN {
        return false;
    }
    let shaped = tail[0] == 0x31 && tail[1] == 0x30 && tail[2] == 0x3d && 0x30 <= tail[3]
        && tail[3] <= 0x39 && 0x30 <= tail[4] && tail[4] <= 0x39 && 0x30 <= tail[5] && tail[5]
        <= 0x39 && tail[6] == SOH;
    proof {
        let digits = tail@.subrange(3, 6);
        if shaped {
            assert(tail@.subrange(0, 3) =~= checksum_tag());
            assert(all_ascii_digits(digits)) by {
                assert forall|i: int| 0 <= i < digits.len() implies is_ascii_digit(
                    #[trigger] digits[i],
                ) by {
                    assert(digits[i] == tail@[i + 3]);
                }
            }
        } else {
            if tail@.subrange(0, 3) == checksum_tag() && all_ascii_digits(digits) {
                assert(tail@.subrange(0, 3)[0] == tail@[0]);
                assert(tail@.subrange(0, 3)[1] == tail@[1]);
                assert(tail@.subrange(0, 3)[2] == tail@[2]);
                assert(is_ascii_digit(digits[0]));
                assert(is_ascii_digit(digits[1]));
                assert(is_ascii_digit(digits[2]));
            }
        }
    }
    shaped
}

// ---------------------------------------------------------------------------
// Session fields.
// ---------------------------------------------------------------------------

/// A header with no session field found yet.
pub open spec fn empty_header() -> FixHeader {
    FixHeader { msg_seq_num: None, msg_type: None, poss_dup: false }
}

/// Where the field starting at `start` ends: at its `SOH`, or at `end` when
/// the last field of the body runs up to it.
pub open spec fn field_end(raw: Seq<u8>, start: int, end: int) -> int {
    match first_position(raw, SOH, start, end) {
        Some(k) => k,
        None => end,
    }
}

/// `header` updated with the field `raw[start..end]`: tag 34 sets the
/// sequence number (to `None` when the value does not parse), tag 35 the
/// message type's range, tag 43 the PossDup flag (set exactly by `Y`). A field
/// without `=`, and any other tag, leaves the header as it is.
pub open spec fn with_field(raw: Seq<u8>, start: int, end: int, header: FixHeader) -> FixHeader {
    match first_position(raw, 0x3du8, start, end) {
        None => header,
        Some(separator) => {
            let tag = raw.subrange(start, separator);
            let value = raw.subrange(separator + 1, end);
            if tag == seq![0x33u8, 0x34u8] {
                FixHeader {
                    msg_seq_num: match parse_decimal(value) {
                        Some(number) => Some(MsgSeqNum(number)),
                        None => None,
                    },
                    ..header
                }
            } else if tag == seq![0x33u8, 0x35u8] {
                FixHeader {
                    msg_type: Some(Range { start: (separator + 1) as usize, end: end as usize }),
                    ..header
                }
            } else if tag == seq![0x34u8, 0x33u8] {
                FixHeader { poss_dup: value == seq![0x59u8], ..header }
            } else {
                header
            }
        },
    }
}

/// The header after reading every `SOH`-separated field of `raw[start..end]`
/// in order, later occurrences of a tag overriding earlier ones.
pub open spec fn header_of_fields(raw: Seq<u8>, start: int, end: int, header: FixHeader) -> FixHeader
    decreases end + 1 - start,
{
    if start >= end {
        header
    } else {
        proof {
            lemma_first_position_bounds(raw, SOH, start, end);
        }
        let stop = field_end(raw, start, end);
        header_of_fields(raw, stop + 1, end, with_field(raw, start, stop, header))
    }
}

/// The session fields of a framed message whose body is `raw[body]`.
pub open spec fn header_of(raw: Seq<u8>, layout: FrameLayout) -> FixHeader {
    header_of_fields(raw, layout.body_start as int, layout.body_end as int, empty_header())
}

/// The position `first_position` names, when it names one, is first: it lies
/// in the range, holds the byte, and no earlier position in the range does.
pub proof fn lemma_first_position_bounds(buf: Seq<u8>, byte: u8, from: int, end: int)
    ensures
        first_position(buf, byte, from, end) matches Some(k) ==> is_first_position(
            buf,
            byte,
            from,
            end,
            k,
        ),
{
}

/// Lifts tags 34, 35 and 43 out of the framed body in one linear pass; a
/// body that reaches past `raw` yields no session field.
fn parse_header(raw: &[u8], body_start: usize, body_end: usize) -> (header: FixHeader)
    ensures
        header == (if body_end <= raw@.len() {
            header_of_fields(raw@, body_start as int, body_end as int, empty_header())
        } else {
            empty_header()
        }),
{
    let mut header = FixHeader { msg_seq_num: None, msg_type: None, poss_dup: false };
    if body_end > raw.len() || body_start >= body_end {
        return header;
    }
    let mut start = body_start;
    while start < body_end
        invariant
            body_end <= raw@.len(),
            start <= body_end + 1,
            header_of_fields(raw@, body_start as int, body_end as int, empty_header())
                == header_of_fields(raw@, start as int, body_end as int, header),
        decreases body_end + 1 - start,
    {
        let end = match find_byte(raw, SOH, start, body_end) {
            Some(k) => k,
            None => body_end,
        };
        assert(end == field_end(raw@, start as int, body_end as int));
        proof {
            lemma_first_position_bounds(raw@, SOH, start as int, body_end as int);
        }
        let ghost before = header;
        match find_byte(raw, 0x3d, start, end) {
            None => {},
            Some(separator) => {
                proof {
                    lemma_first_position_bounds(raw@, 0x3du8, start as int, end as int);
                }
                let value_start = separator + 1;
                let tag = slice_subrange(raw, start, separator);
                let value = slice_subrange(raw, value_start, end);
                let is_two = separator - start == 2;
                if is_two && raw[start] == 0x33 && raw[start + 1] == 0x34 {
                    assert(tag@ =~= seq![0x33u8, 0x34u8]);
                    header.msg_seq_num =
                        match parse_digits(value) {
                            Some(number) => Some(MsgSeqNum(number)),
                            None => None,
                        };
                } else if is_two && raw[start] == 0x33 && raw[start + 1] == 0x35 {
                    assert(tag@ =~= seq![0x33u8, 0x35u8]);
                    assert(tag@ != seq![0x33u8, 0x34u8]) by {
                        assert(tag@[1] != seq![0x33u8, 0x34u8][1]);
                    }
                    header.msg_type = Some(value_start..end);
                } else if is_two && raw[start] == 0x34 && raw[start + 1] == 0x33 {
                    assert(tag@ =~= seq![0x34u8, 0x33u8]);
                    assert(tag@ != seq![0x33u8, 0x34u8]) by {
                        assert(tag@[0] != seq![0x33u8, 0x34u8][0]);
                    }
                    assert(tag@ != seq![0x33u8, 0x35u8]) by {
                        assert(tag@[0] != seq![0x33u8, 0x35u8][0]);
                    }
                    let yes = value.len() == 1 && value[0] == 0x59;
                    assert(yes == (value@ == seq![0x59u8])) by {
                        if value@ == seq![0x59u8] {
                            assert(value@[0] == 0x59u8);
                        }
                        if yes {
                            assert(value@ =~= seq![0x59u8]);
                        }
                    }
                    header.poss_dup = yes;
                } else {
                    assert(tag@ != seq![0x33u8, 0x34u8]) by {
                        if tag@ == seq![0x33u8, 0x34u8] {
                            assert(tag@.len() == 2);
                            assert(tag@[0] == raw@[start as int]);
                            assert(tag@[1] == raw@[start + 1]);
                        }
                    }
                    assert(tag@ != seq![0x33u8, 0x35u8]) by {
                        if tag@ == seq![0x33u8, 0x35u8] {
                            assert(tag@.len() == 2);
                            assert(tag@[0] == raw@[start as int]);
                            assert(tag@[1] == raw@[start + 1]);
                        }
                    }
                    assert(tag@ != seq![0x34u8, 0x33u8]) by {
                        if tag@ == seq![0x34u8, 0x33u8] {
                            assert(tag@.len() == 2);
                            assert(tag@[0] == raw@[start as int]);
                            assert(tag@[1] == raw@[start + 1]);
                        }
                    }
                }
            },
        }
        assert(header == with_field(raw@, start as int, end as int, before));
        assert(start <= end);
        let ghost after = with_field(raw@, start as int, end as int, before);
        assert(header_of_fields(raw@, start as int, body_end as int, before) == header_of_fields(
            raw@,
            end + 1,
            body_end as int,
            after,
        ));
        start = end.saturating_add(1);
        assert(header_of_fields(raw@, start as int, body_end as int, after) == header_of_fields(
            raw@,
            end + 1,
            body_end as int,
            after,
        ));
    }
    header
}

// ---------------------------------------------------------------------------
// The framer.
// ---------------------------------------------------------------------------

/// What a framer holds: the bytes received but not yet framed, the direction
/// it stamps on messages, and the failure that ended its stream, if any.
pub struct FramerView {
    pub pending: Seq<u8>,
    pub direction: Direction,
    pub failed: Option<FrameError>,
}

/// The framer after `chunk` arrives: appended, unless the stream has failed.
pub open spec fn after_extend(framer: FramerView, chunk: Seq<u8>) -> FramerView {
    if framer.failed is Some {
        framer
    } else {
        FramerView { pending: framer.pending + chunk, ..framer }
    }
}

/// What `next_message` answers: the bytes of the message cut off the front of
/// the stream, nothing yet, or the stream's failure.
pub open spec fn next_outcome(framer: FramerView) -> Result<Option<Seq<u8>>, FrameError> {
    match framer.failed {
        Some(error) => Err(error),
        None => match frame_layout(framer.pending) {
            Err(error) => Err(error),
            Ok(None) => Ok(None),
            Ok(Some(layout)) => Ok(Some(framer.pending.take(layout.frame_len as int))),
        },
    }
}

/// The framer after `next_message`: the message cut off, the buffer dropped
/// and the failure kept once framing fails, or unchanged.
pub open spec fn after_next(framer: FramerView) -> FramerView {
    match framer.failed {
        Some(_) => framer,
        None => match frame_layout(framer.pending) {
            Err(error) => FramerView {
                pending: Seq::<u8>::empty(),
                failed: Some(error),
                ..framer
            },
            Ok(None) => framer,
            Ok(Some(layout)) => FramerView {
                pending: framer.pending.skip(layout.frame_len as int),
                ..framer
            },
        },
    }
}

/// Cuts FIX messages out of a byte stream, lifting session fields in the same
/// pass.
///
/// Feed bytes with [`extend`](Self::extend), then drain with
/// [`next_message`](Self::next_message) until it yields `None`. Once framing
/// fails the framer stays failed: every later call repeats the same error.
#[derive(Debug)]
pub struct FixFramer {
    buf: BytesMut,
    direction: Direction,
    failed: Option<FrameError>,
}

impl View for FixFramer {
    type V = FramerView;

    closed spec fn view(&self) -> FramerView {
        FramerView {
            pending: bytes_mut_contents(self.buf),
            direction: self.direction,
            failed: self.failed,
        }
    }
}

/// A framer whose stream has failed holds no bytes.
pub open spec fn holds_nothing_once_failed(framer: FramerView) -> bool {
    framer.failed is Some ==> framer.pending.len() == 0
}

impl FixFramer {
    /// Once the stream has failed, nothing stays buffered.
    #[verifier::type_invariant]
    spec fn failed_holds_nothing(&self) -> bool {
        holds_nothing_once_failed(self@)
    }

    /// A framer for one leg of a session, with nothing received.
    pub fn new(direction: Direction) -> (framer: Self)
        ensures
            framer@ == (FramerView { pending: Seq::<u8>::empty(), direction, failed: None }),
            holds_nothing_once_failed(framer@),
    {
        FixFramer { buf: BytesMut::with_capacity(MAX_MESSAGE_LEN), direction, failed: None }
    }

    /// Appends a chunk read off the stream; a failed framer ignores it.
    pub fn extend(&mut self, chunk: &[u8])
        requires
            old(self)@.failed is None ==> old(self)@.pending.len() + chunk@.len() <= isize::MAX,
        ensures
            final(self)@ == after_extend(old(self)@, chunk@),
            holds_nothing_once_failed(final(self)@),
    {
        proof {
            use_type_invariant(&*self);
        }
        if self.failed.is_some() {
            return;
        }
        let mut buf = self.take_buf();
        buf.extend_from_slice(chunk);
        self.buf = buf;
    }

    /// Takes the buffer out, leaving an empty one in its place.
    fn take_buf(&mut self) -> (buf: BytesMut)
        ensures
            bytes_mut_contents(buf) == old(self)@.pending,
            final(self)@ == (FramerView { pending: Seq::<u8>::empty(), ..old(self)@ }),
    {
        let mut buf = BytesMut::with_capacity(0);
        std::mem::swap(&mut buf, &mut self.buf);
        buf
    }

    /// The number of bytes received and not yet framed.
    pub fn buffered(&self) -> (count: usize)
        ensures
            count == self@.pending.len(),
            self@.failed is Some ==> count == 0,
    {
        proof {
            use_type_invariant(self);
        }
        self.buf.len()
    }

    /// Cuts the next complete message off the front of the stream, stamped
    /// with this framer's direction and `received_at`.
    ///
    /// `Ok(None)` means the message is not complete yet; the bytes stay for
    /// the next call. An error fails the framer for good and drops what it
    /// held.
    pub fn next_message(&mut self, received_at: Instant) -> (outcome: Result<
        Option<FixMessage>,
        FrameError,
    >)
        ensures
            final(self)@ == after_next(old(self)@),
            holds_nothing_once_failed(final(self)@),
            match (outcome, next_outcome(old(self)@)) {
                (Ok(None), Ok(None)) => true,
                (Err(error), Err(expected)) => error == expected,
                (Ok(Some(message)), Ok(Some(raw))) => {
                    &&& message.raw_bytes() == raw
                    &&& frame_layout(old(self)@.pending) matches Ok(Some(layout))
                    &&& message.header == header_of(raw, layout)
                    &&& message.direction == old(self)@.direction
                    &&& message.received_at == received_at
                },
                _ => false,
            },
    {
        proof {
            use_type_invariant(&*self);
        }
        if let Some(error) = self.failed {
            return Err(error);
        }
        let found = {
            let pending: &[u8] = &self.buf;
            Self::layout(pending)
        };
        match found {
            Ok(None) => Ok(None),
            Ok(Some(layout)) => {
                let mut buf = self.take_buf();
                let raw = buf.split_to(layout.frame_len).freeze();
                self.buf = buf;
                let header = {
                    let bytes: &[u8] = &raw;
                    parse_header(bytes, layout.body_start, layout.body_end)
                };
                Ok(Some(FixMessage { raw, header, direction: self.direction, received_at }))
            },
            Err(error) => {
                self.take_buf();
                self.failed = Some(error);
                Err(error)
            },
        }
    }

    /// Locates the first message at the front of `buf`, if it has fully
    /// arrived.
    pub(crate) fn layout(buf: &[u8]) -> (found: Result<Option<FrameLayout>, FrameError>)
        ensures
            found == frame_layout(buf@),
    {
        let begin_tag: [u8; 2] = [0x38, 0x3d];
        let length_tag: [u8; 2] = [0x39, 0x3d];
        assert(begin_tag@ =~= begin_string_tag());
        assert(length_tag@ =~= body_length_tag());
        if !starts_with_prefix_of(buf, &begin_tag) {
            return Err(FrameError::NotFixStream);
        }
        let begin_end = match scan_soh(buf, 0) {
            Err(error) => return Err(error),
            Ok(None) => return Ok(None),
            Ok(Some(k)) => k,
        };
        let length_start = begin_end + 1;
        if length_start > buf.len() {
            return Ok(None);
        }
        let length_field = slice_subrange(buf, length_start, buf.len());
        assert(length_field@ =~= buf@.skip(length_start as int));
        if !starts_with_prefix_of(length_field, &length_tag) {
            return Err(FrameError::BadBodyLength);
        }
        let length_end = match scan_soh(buf, length_start) {
            Err(error) => return Err(error),
            Ok(None) => return Ok(None),
            Ok(Some(k)) => k,
        };
        let digits_start = length_start + 2;
        let empty: [u8; 0] = [];
        let digits: &[u8] = if digits_start <= length_end {
            slice_subrange(buf, digits_start, length_end)
        } else {
            assert(empty@ =~= Seq::<u8>::empty());
            &empty
        };
        let body_length = match parse_digits(digits) {
            None => return Err(FrameError::BadBodyLength),
            Some(value) => value,
        };
        let body_start = length_end + 1;
        if body_length > MAX_MESSAGE_LEN as u64 {
            return Err(FrameError::MessageTooLong);
        }
        let body_end = body_start + body_length as usize;
        let frame_len = body_end + TAIL_LEN;
        if frame_len > MAX_MESSAGE_LEN {
            return Err(FrameError::MessageTooLong);
        }
        if buf.len() < frame_len {
            return Ok(None);
        }
        let tail = slice_subrange(buf, body_end, frame_len);
        if !is_checksum_field(tail) {
            return Err(FrameError::BadChecksumField);
        }
        Ok(Some(FrameLayout { frame_len, body_start, body_end }))
    }
}

// ---------------------------------------------------------------------------
// Laws of the framer.
// ---------------------------------------------------------------------------

/// `a` is the first `a.len()` bytes of `b`.
pub open spec fn is_prefix(a: Seq<u8>, b: Seq<u8>) -> bool {
    a.len() <= b.len() && forall|i: int| 0 <= i < a.len() ==> a[i] == b[i]
}

proof fn lemma_agrees_prefix(a: Seq<u8>, b: Seq<u8>, tag: Seq<u8>)
    requires
        is_prefix(a, b),
    ensures
        agrees_with(b, tag) ==> agrees_with(a, tag),
        agrees_with(a, tag) && a.len() >= tag.len() ==> agrees_with(b, tag),
{
    if agrees_with(a, tag) && a.len() >= tag.len() {
        assert forall|i: int| 0 <= i < b.len() && i < tag.len() implies b[i] == tag[i] by {
            assert(a[i] == b[i]);
        }
    }
    if agrees_with(b, tag) {
        assert forall|i: int| 0 <= i < a.len() && i < tag.len() implies a[i] == tag[i] by {
            assert(a[i] == b[i]);
        }
    }
}

proof fn lemma_first_position_prefix(
    a: Seq<u8>,
    b: Seq<u8>,
    byte: u8,
    from: int,
    end_a: int,
    end_b: int,
)
    requires
        is_prefix(a, b),
        0 <= from,
        end_a <= a.len(),
        end_a <= end_b <= b.len(),
    ensures
        first_position(a, byte, from, end_a) matches Some(k) ==> first_position(
            b,
            byte,
            from,
            end_b,
        ) == Some(k),
        first_position(b, byte, from, end_b) matches Some(k) ==> (if k < end_a {
            first_position(a, byte, from, end_a) == Some(k)
        } else {
            first_position(a, byte, from, end_a) is None
        }),
        first_position(b, byte, from, end_b) is None ==> first_position(a, byte, from, end_a) is None,
{
    if let Some(k) = first_position(a, byte, from, end_a) {
        assert(is_first_position(a, byte, from, end_a, k));
        assert(is_first_position(b, byte, from, end_b, k)) by {
            assert forall|j: int| from <= j < k implies b[j] != byte by {
                assert(a[j] == b[j]);
            }
            assert(a[k] == b[k]);
        }
        lemma_first_position_unique(b, byte, from, end_b, k);
    }
    if let Some(k) = first_position(b, byte, from, end_b) {
        assert(is_first_position(b, byte, from, end_b, k));
        if k < end_a {
            assert(is_first_position(a, byte, from, end_a, k)) by {
                assert forall|j: int| from <= j < k implies a[j] != byte by {
                    assert(a[j] == b[j]);
                }
                assert(a[k] == b[k]);
            }
            lemma_first_position_unique(a, byte, from, end_a, k);
        } else {
            if exists|c: int| is_first_position(a, byte, from, end_a, c) {
                let c = choose|c: int| is_first_position(a, byte, from, end_a, c);
                assert(a[c] == b[c]);
                assert(false);
            }
        }
    } else {
        if exists|c: int| is_first_position(a, byte, from, end_a, c) {
            let c = choose|c: int| is_first_position(a, byte, from, end_a, c);
            assert(is_first_position(b, byte, from, end_b, c)) by {
                assert forall|j: int| from <= j < c implies b[j] != byte by {
                    assert(a[j] == b[j]);
                }
                assert(a[c] == b[c]);
            }
            assert(false);
        }
    }
}

proof fn lemma_soh_scan_prefix(a: Seq<u8>, b: Seq<u8>, from: int)
    requires
        is_prefix(a, b),
        0 <= from,
    ensures
        soh_scan(a, from) matches Ok(Some(k)) ==> soh_scan(b, from) == soh_scan(a, from),
        soh_scan(a, from) is Err ==> soh_scan(b, from) == soh_scan(a, from),
        soh_scan(b, from) matches Ok(Some(k)) ==> (if k < a.len() {
            soh_scan(a, from) == soh_scan(b, from)
        } else {
            soh_scan(a, from) is Ok && soh_scan(a, from)->Ok_0 is None
        }),
        soh_scan(b, from) is Ok && soh_scan(b, from)->Ok_0 is None ==> soh_scan(a, from) is Ok
            && soh_scan(a, from)->Ok_0 is None,
{
    lemma_first_position_prefix(a, b, SOH, from, scan_window_end(a), scan_window_end(b));
    if a.len() >= MAX_HEADER_SCAN {
        assert(scan_window_end(a) == scan_window_end(b));
    }
}

/// Reading more of a stream never takes back a verdict on the bytes already
/// read: a message found at the front stays the message found, and a stream
/// found broken stays broken. The prefix of a stream that holds a whole
/// message is waiting whenever it ends before the message does.
pub proof fn lemma_layout_of_prefix(a: Seq<u8>, b: Seq<u8>)
    requires
        is_prefix(a, b),
    ensures
        frame_layout(a) matches Ok(Some(_)) ==> frame_layout(b) == frame_layout(a),
        frame_layout(a) is Err ==> frame_layout(b) is Err,
        frame_layout(b) matches Ok(Some(layout)) && a.len() < layout.frame_len ==> frame_layout(a)
            == Ok::<Option<FrameLayout>, FrameError>(None),
{
    let t1 = begin_string_tag();
    let t2 = body_length_tag();
    lemma_agrees_prefix(a, b, t1);
    if !agrees_with(a, t1) {
        return;
    }
    lemma_soh_scan_prefix(a, b, 0);
    match soh_scan(a, 0) {
        Err(error) => {
            assert(agrees_with(b, t1)) by {
                assert(a.len() >= MAX_HEADER_SCAN);
            }
        },
        Ok(None) => {},
        Ok(Some(begin_end)) => {
            assert(a[0] == t1[0]);
            assert(1 < a.len() ==> a[1] == t1[1]);
            assert(begin_end >= 2);
            assert(agrees_with(b, t1));
            let length_start = begin_end + 1;
            let sa = a.skip(length_start);
            let sb = b.skip(length_start);
            assert(is_prefix(sa, sb));
            lemma_agrees_prefix(sa, sb, t2);
            if !agrees_with(sa, t2) {
                return;
            }
            lemma_soh_scan_prefix(a, b, length_start);
            match soh_scan(a, length_start) {
                Err(error) => {},
                Ok(None) => {},
                Ok(Some(length_end)) => {
                    assert(sa[0] == a[length_start]);
                    assert(sa[0] == t2[0]);
                    assert(length_end >= length_start + 1 ==> sa[1] == t2[1]);
                    assert(length_end >= length_start + 2);
                    assert(agrees_with(sb, t2));
                    let digits_start = length_start + 2;
                    assert(a.subrange(digits_start, length_end) =~= b.subrange(
                        digits_start,
                        length_end,
                    ));
                    if let Some(body_length) = parse_decimal(
                        a.subrange(digits_start, length_end),
                    ) {
                        let body_end = length_end + 1 + body_length;
                        let frame_len = body_end + TAIL_LEN;
                        if frame_len <= MAX_MESSAGE_LEN && a.len() >= frame_len {
                            assert(a.subrange(body_end, frame_len) =~= b.subrange(
                                body_end,
                                frame_len,
                            ));
                        }
                    }
                },
            }
        },
    }
}

/// A buffer still waiting for the rest of a message is under the message cap:
/// the framer never retains more than one bounded, incomplete message.
pub proof fn lemma_waiting_buffer_is_bounded(buf: Seq<u8>)
    requires
        frame_layout(buf) == Ok::<Option<FrameLayout>, FrameError>(None),
    ensures
        buf.len() < MAX_MESSAGE_LEN,
{
}

/// A framer whose stream has failed keeps failing with the same error,
/// whatever arrives after.
pub proof fn lemma_failure_is_sticky(framer: FramerView, chunk: Seq<u8>)
    requires
        framer.failed is Some,
    ensures
        after_extend(framer, chunk) == framer,
        next_outcome(after_extend(framer, chunk)) == Err::<Option<Seq<u8>>, FrameError>(
            framer.failed->0,
        ),
        after_next(framer) == framer,
{
}

/// Once `next_message` has failed, the framer holds nothing and stays failed
/// with that error.
pub proof fn lemma_error_drops_buffer_and_sticks(framer: FramerView)
    requires
        framer.failed is None,
        next_outcome(framer) is Err,
    ensures
        after_next(framer).pending.len() == 0,
        after_next(framer).failed == Some(next_outcome(framer)->Err_0),
{
}

/// A message at the front of the buffer is cut the same whatever arrives
/// after it: the framer cuts that message and keeps everything after it,
/// the newly arrived bytes included.
pub proof fn lemma_message_independent_of_following_bytes(
    framer: FramerView,
    more: Seq<u8>,
)
    requires
        framer.failed is None,
        next_outcome(framer) is Ok,
        next_outcome(framer)->Ok_0 is Some,
    ensures
        next_outcome(after_extend(framer, more)) == next_outcome(framer),
        after_next(after_extend(framer, more)).pending == after_next(framer).pending + more,
{
    let b = framer.pending + more;
    assert(is_prefix(framer.pending, b));
    lemma_layout_of_prefix(framer.pending, b);
    let layout = frame_layout(framer.pending)->Ok_0->Some_0;
    assert(b.take(layout.frame_len as int) =~= framer.pending.take(layout.frame_len as int));
    assert(b.skip(layout.frame_len as int) =~= framer.pending.skip(layout.frame_len as int)
        + more);
}

/// Framing neither loses nor repeats a byte: the message cut off the front,
/// followed by what the framer keeps, is exactly what it held; and while a
/// message is incomplete the framer keeps everything as it was.
pub proof fn lemma_cut_conserves_bytes(framer: FramerView)
    requires
        framer.failed is None,
        next_outcome(framer) is Ok,
    ensures
        next_outcome(framer) matches Ok(Some(raw)) ==> raw + after_next(framer).pending
            == framer.pending,
        next_outcome(framer) matches Ok(None) ==> after_next(framer) == framer,
{
    if let Ok(Some(layout)) = frame_layout(framer.pending) {
        let n = layout.frame_len as int;
        assert(framer.pending.take(n) + framer.pending.skip(n) =~= framer.pending);
    }
}

/// A message split across reads is not cut until its last byte arrives: any
/// strict prefix of a stream that begins with a whole message is waiting.
pub proof fn lemma_partial_message_waits(stream: Seq<u8>, read: int)
    requires
        frame_layout(stream) matches Ok(Some(layout)) && 0 <= read < layout.frame_len,
    ensures
        frame_layout(stream.take(read)) == Ok::<Option<FrameLayout>, FrameError>(None),
{
    lemma_layout_of_prefix(stream.take(read), stream);
}

/// Cutting a message shortens the buffer: a message is never empty and never
/// longer than what is buffered.
pub proof fn lemma_cut_shrinks(framer: FramerView)
    requires
        next_outcome(framer) matches Ok(Some(_)),
    ensures
        after_next(framer).pending.len() < framer.pending.len(),
{
    let layout = frame_layout(framer.pending)->Ok_0->Some_0;
    assert(TAIL_LEN <= layout.frame_len <= framer.pending.len());
}

/// The messages a framer cuts when drained until it waits or fails, in
/// order, and the framer it leaves.
pub open spec fn drain(framer: FramerView) -> (Seq<Seq<u8>>, FramerView)
    decreases framer.pending.len(),
{
    match next_outcome(framer) {
        Ok(Some(raw)) => {
            proof {
                lemma_cut_shrinks(framer);
            }
            let (rest, last) = drain(after_next(framer));
            (seq![raw] + rest, last)
        },
        _ => (Seq::<Seq<u8>>::empty(), after_next(framer)),
    }
}

/// A framer with nothing to cut: it waits for more bytes, or its stream has
/// failed.
pub open spec fn settled(framer: FramerView) -> bool {
    framer.failed is Some || next_outcome(framer) == Ok::<Option<Seq<u8>>, FrameError>(None)
}

/// Receiving `chunks` one read at a time and draining the framer after each
/// read: the messages cut, in order, and the framer left.
pub open spec fn feed(framer: FramerView, chunks: Seq<Seq<u8>>) -> (Seq<Seq<u8>>, FramerView)
    decreases chunks.len(),
{
    if chunks.len() == 0 {
        (Seq::<Seq<u8>>::empty(), framer)
    } else {
        let (first, drained) = drain(after_extend(framer, chunks[0]));
        let (rest, last) = feed(drained, chunks.drop_first());
        (first + rest, last)
    }
}

/// Two framers that hold the same bytes and agree on whether their stream
/// has failed.
pub open spec fn same_outcome(a: FramerView, b: FramerView) -> bool {
    &&& a.pending == b.pending
    &&& (a.failed is Some <==> b.failed is Some)
}

/// A drained framer is settled.
proof fn lemma_drain_settles(framer: FramerView)
    ensures
        settled(drain(framer).1),
    decreases framer.pending.len(),
{
    match next_outcome(framer) {
        Ok(Some(_)) => {
            lemma_cut_shrinks(framer);
            lemma_drain_settles(after_next(framer));
        },
        _ => {},
    }
}

/// Draining, then receiving `more` and draining again, cuts what receiving
/// `more` first and draining once cuts.
proof fn lemma_drain_then_receive(framer: FramerView, more: Seq<u8>)
    ensures
        ({
            let (first, drained) = drain(framer);
            let (second, last) = drain(after_extend(drained, more));
            let (whole, whole_last) = drain(after_extend(framer, more));
            &&& first + second == whole
            &&& same_outcome(last, whole_last)
        }),
    decreases framer.pending.len(),
{
    let extended = after_extend(framer, more);
    if framer.failed is Some {
        assert(extended == framer);
    } else {
        match next_outcome(framer) {
            Ok(Some(raw)) => {
                lemma_cut_shrinks(framer);
                lemma_message_independent_of_following_bytes(framer, more);
                let rest = after_next(framer);
                assert(after_next(extended) == after_extend(rest, more));
                lemma_drain_then_receive(rest, more);
                let (first, drained) = drain(rest);
                let (second, last) = drain(after_extend(drained, more));
                assert(seq![raw] + first + second =~= seq![raw] + (first + second));
            },
            Ok(None) => {
                assert(after_next(framer) == framer);
            },
            Err(_) => {
                assert(is_prefix(framer.pending, extended.pending));
                lemma_layout_of_prefix(framer.pending, extended.pending);
                let drained = after_next(framer);
                assert(after_extend(drained, more) == drained);
                assert(drain(drained).0 =~= Seq::<Seq<u8>>::empty());
            },
        }
    }
}

/// However a stream is split across reads, draining the framer after each
/// read cuts the same messages, in the same order, as receiving the stream
/// in one read: the framer keeps the same bytes, and its stream fails exactly
/// when it fails on the whole stream. (Which failure is reported can differ:
/// a read that ends right after the BeginString field, at the edge of the
/// header window, sees a header that runs too long, where the whole stream
/// shows that the BodyLength field is missing.)
pub proof fn lemma_any_split_frames_the_same_messages(
    framer: FramerView,
    chunks: Seq<Seq<u8>>,
)
    requires
        settled(framer),
    ensures
        feed(framer, chunks).0 == drain(after_extend(framer, chunks.flatten())).0,
        same_outcome(feed(framer, chunks).1, drain(after_extend(framer, chunks.flatten())).1),
    decreases chunks.len(),
{
    if chunks.len() == 0 {
        assert(after_extend(framer, chunks.flatten()) =~= framer) by {
            if framer.failed is None {
                assert(framer.pending + Seq::<u8>::empty() =~= framer.pending);
            }
        }
        assert(after_next(framer) == framer);
    } else {
        let first_chunk = chunks[0];
        let rest = chunks.drop_first();
        let received = after_extend(framer, first_chunk);
        lemma_drain_settles(received);
        let drained = drain(received).1;
        lemma_any_split_frames_the_same_messages(drained, rest);
        lemma_drain_then_receive(received, rest.flatten());
        assert(after_extend(received, rest.flatten()) == after_extend(framer, chunks.flatten())) by {
            if framer.failed is None {
                assert(framer.pending + first_chunk + rest.flatten() =~= framer.pending + (first_chunk
                    + rest.flatten()));
            }
        }
    }
}

/// The header fields of a FIX message: `8=<begin>` and `9=<length>`, each
/// ended by `SOH`.
pub open spec fn fix_header_fields(begin_string: Seq<u8>, length_digits: Seq<u8>) -> Seq<u8> {
    begin_string_tag() + begin_string + seq![SOH] + body_length_tag() + length_digits + seq![SOH]
}

/// The CheckSum field `10=<checksum>` ended by `SOH`.
pub open spec fn fix_trailer(checksum_digits: Seq<u8>) -> Seq<u8> {
    checksum_tag() + checksum_digits + seq![SOH]
}

/// The bytes of a FIX message: the header fields, the body carrying its own
/// separators, and the CheckSum field.
pub open spec fn fix_frame(
    begin_string: Seq<u8>,
    length_digits: Seq<u8>,
    body: Seq<u8>,
    checksum_digits: Seq<u8>,
) -> Seq<u8> {
    fix_header_fields(begin_string, length_digits) + body + fix_trailer(checksum_digits)
}

/// Where the body of `fix_frame(begin_string, length_digits, ..)` starts.
pub open spec fn fix_frame_body_start(begin_string: Seq<u8>, length_digits: Seq<u8>) -> int {
    begin_string.len() + length_digits.len() + 6int
}

proof fn lemma_header_fields_shape(begin_string: Seq<u8>, length_digits: Seq<u8>)
    ensures
        ({
            let header = fix_header_fields(begin_string, length_digits);
            let begin_end = begin_string.len() + 2int;
            let length_start = begin_end + 1;
            let length_end = length_start + 2 + length_digits.len();
            &&& header.len() == length_end + 1
            &&& header.subrange(0, 2) == begin_string_tag()
            &&& header.subrange(2, begin_end) == begin_string
            &&& header[begin_end] == SOH
            &&& header.subrange(length_start, length_start + 2) == body_length_tag()
            &&& header.subrange(length_start + 2, length_end) == length_digits
            &&& header[length_end] == SOH
        }),
{
    let header = fix_header_fields(begin_string, length_digits);
    let begin_end = begin_string.len() + 2int;
    let length_start = begin_end + 1;
    let length_end = length_start + 2 + length_digits.len();
    assert(header.subrange(0, 2) =~= begin_string_tag());
    assert(header.subrange(2, begin_end) =~= begin_string);
    assert(header.subrange(length_start, length_start + 2) =~= body_length_tag());
    assert(header.subrange(length_start + 2, length_end) =~= length_digits);
}

/// The two header fields of a well-formed message end where they should.
proof fn lemma_header_scans(stream: Seq<u8>, begin_string: Seq<u8>, length_digits: Seq<u8>)
    requires
        forall|i: int| 0 <= i < begin_string.len() ==> begin_string[i] != SOH,
        all_ascii_digits(length_digits),
        fix_frame_body_start(begin_string, length_digits) <= MAX_HEADER_SCAN,
        is_prefix(fix_header_fields(begin_string, length_digits), stream),
    ensures
        ({
            let begin_end = begin_string.len() + 2int;
            let length_start = begin_end + 1;
            let length_end = length_start + 2 + length_digits.len();
            &&& agrees_with(stream, begin_string_tag())
            &&& soh_scan(stream, 0) == Ok::<Option<int>, FrameError>(Some(begin_end))
            &&& agrees_with(stream.skip(length_start), body_length_tag())
            &&& soh_scan(stream, length_start) == Ok::<Option<int>, FrameError>(
                Some(length_end),
            )
            &&& stream.subrange(length_start + 2, length_end) == length_digits
        }),
{
    let header = fix_header_fields(begin_string, length_digits);
    lemma_header_fields_shape(begin_string, length_digits);
    let begin_end = begin_string.len() + 2int;
    let length_start = begin_end + 1;
    let length_end = length_start + 2 + length_digits.len();
    assert forall|i: int| 0 <= i < header.len() implies stream[i] == header[i] by {}
    assert(agrees_with(stream, begin_string_tag())) by {
        assert forall|i: int| 0 <= i < stream.len() && i < begin_string_tag().len() implies stream[i]
            == begin_string_tag()[i] by {
            assert(header.subrange(0, 2)[i] == header[i]);
        }
    }
    assert forall|i: int| 0 <= i < begin_end implies stream[i] != SOH by {
        if i >= 2 {
            assert(header.subrange(2, begin_end)[i - 2] == header[i]);
        } else {
            assert(header.subrange(0, 2)[i] == header[i]);
        }
    }
    assert(is_first_position(stream, SOH, 0, scan_window_end(stream), begin_end));
    lemma_first_position_unique(stream, SOH, 0, scan_window_end(stream), begin_end);
    assert(agrees_with(stream.skip(length_start), body_length_tag())) by {
        assert forall|i: int|
            0 <= i < stream.skip(length_start).len() && i < body_length_tag().len() implies stream.skip(
            length_start,
        )[i] == body_length_tag()[i] by {
            assert(header.subrange(length_start, length_start + 2)[i] == header[length_start + i]);
        }
    }
    assert forall|i: int| length_start <= i < length_end implies stream[i] != SOH by {
        if i >= length_start + 2 {
            assert(header.subrange(length_start + 2, length_end)[i - length_start - 2]
                == header[i]);
            assert(is_ascii_digit(length_digits[i - length_start - 2]));
        } else {
            assert(header.subrange(length_start, length_start + 2)[i - length_start]
                == header[i]);
        }
    }
    assert(is_first_position(stream, SOH, length_start, scan_window_end(stream), length_end));
    lemma_first_position_unique(stream, SOH, length_start, scan_window_end(stream), length_end);
    assert(stream.subrange(length_start + 2, length_end) =~= header.subrange(
        length_start + 2,
        length_end,
    ));
}

/// A well-formed message is cut whole, with its body where its BodyLength
/// says, whatever follows it on the stream: a BeginString value without
/// `SOH`, a BodyLength that counts the body, both header fields ended within
/// the header window, a three-digit checksum, and the whole within the
/// message cap.
pub proof fn lemma_well_formed_frame_is_cut_whole(
    begin_string: Seq<u8>,
    length_digits: Seq<u8>,
    body: Seq<u8>,
    checksum_digits: Seq<u8>,
    rest: Seq<u8>,
)
    requires
        forall|i: int| 0 <= i < begin_string.len() ==> begin_string[i] != SOH,
        parse_decimal(length_digits) == Some(body.len() as u64),
        fix_frame_body_start(begin_string, length_digits) <= MAX_HEADER_SCAN,
        checksum_digits.len() == 3,
        all_ascii_digits(checksum_digits),
        fix_frame(begin_string, length_digits, body, checksum_digits).len() <= MAX_MESSAGE_LEN,
    ensures
        ({
            let frame = fix_frame(begin_string, length_digits, body, checksum_digits);
            let body_start = fix_frame_body_start(begin_string, length_digits);
            frame_layout(frame + rest) == Ok::<Option<FrameLayout>, FrameError>(
                Some(
                    FrameLayout {
                        frame_len: frame.len() as usize,
                        body_start: body_start as usize,
                        body_end: (body_start + body.len()) as usize,
                    },
                ),
            )
        }),
{
    let header = fix_header_fields(begin_string, length_digits);
    let trailer = fix_trailer(checksum_digits);
    let frame = fix_frame(begin_string, length_digits, body, checksum_digits);
    lemma_header_fields_shape(begin_string, length_digits);
    let body_start = header.len() as int;
    let body_end = body_start + body.len();
    let frame_len = body_end + TAIL_LEN;
    assert(frame.len() == frame_len);
    assert(is_prefix(header, frame)) by {
        assert forall|i: int| 0 <= i < header.len() implies header[i] == frame[i] by {}
    }
    lemma_header_scans(frame, begin_string, length_digits);
    let tail = frame.subrange(body_end, frame_len);
    assert(tail =~= trailer);
    assert(tail.subrange(0, 3) =~= checksum_tag());
    assert(tail.subrange(3, 6) =~= checksum_digits);
    assert(is_checksum_field_bytes(tail));
    assert(frame_layout(frame) == Ok::<Option<FrameLayout>, FrameError>(
        Some(
            FrameLayout {
                frame_len: frame_len as usize,
                body_start: body_start as usize,
                body_end: body_end as usize,
            },
        ),
    ));
    let stream = frame + rest;
    assert(is_prefix(frame, stream));
    lemma_layout_of_prefix(frame, stream);
}

/// One field `tag=value` followed by its `SOH`.
pub open spec fn fix_field(tag: Seq<u8>, value: Seq<u8>) -> Seq<u8> {
    tag + seq![0x3du8] + value + seq![SOH]
}

/// A body of three fields: `35=<msg_type>`, `34=<seq_digits>`, and one more
/// field `<tag>=<value>`.
pub open spec fn three_field_body(
    msg_type: Seq<u8>,
    seq_digits: Seq<u8>,
    tag: Seq<u8>,
    value: Seq<u8>,
) -> Seq<u8> {
    fix_field(seq![0x33u8, 0x35u8], msg_type) + fix_field(seq![0x33u8, 0x34u8], seq_digits)
        + fix_field(tag, value)
}

pub open spec fn free_of(bytes: Seq<u8>, byte: u8) -> bool {
    forall|i: int| 0 <= i < bytes.len() ==> bytes[i] != byte
}

/// Where `raw` holds `x + y` from `at`, it holds `x` from `at` and `y` right
/// after it.
proof fn lemma_split_at(raw: Seq<u8>, at: int, x: Seq<u8>, y: Seq<u8>)
    requires
        0 <= at,
        at + x.len() + y.len() <= raw.len(),
        raw.subrange(at, at + x.len() + y.len()) == x + y,
    ensures
        raw.subrange(at, at + x.len()) == x,
        raw.subrange(at + x.len(), at + x.len() + y.len()) == y,
{
    let whole = raw.subrange(at, at + x.len() + y.len());
    assert forall|i: int| 0 <= i < x.len() implies raw.subrange(at, at + x.len())[i] == x[i] by {
        assert(whole[i] == (x + y)[i]);
    }
    assert forall|i: int| 0 <= i < y.len() implies raw.subrange(
        at + x.len(),
        at + x.len() + y.len(),
    )[i] == y[i] by {
        assert(whole[x.len() + i] == (x + y)[x.len() + i]);
    }
    assert(raw.subrange(at, at + x.len()) =~= x);
    assert(raw.subrange(at + x.len(), at + x.len() + y.len()) =~= y);
}

/// Reading the field `tag=value` that `raw` holds from `start`: its `=` is
/// found right after the tag, and reading goes on after its `SOH`.
proof fn lemma_read_field(
    raw: Seq<u8>,
    start: int,
    end: int,
    tag: Seq<u8>,
    value: Seq<u8>,
    header: FixHeader,
)
    requires
        0 <= start,
        start + fix_field(tag, value).len() <= end <= raw.len(),
        raw.subrange(start, start + fix_field(tag, value).len()) == fix_field(tag, value),
        free_of(tag, SOH),
        free_of(tag, 0x3du8),
        free_of(value, SOH),
    ensures
        ({
            let separator = start + tag.len();
            let stop = separator + 1 + value.len();
            &&& header_of_fields(raw, start, end, header) == header_of_fields(
                raw,
                stop + 1,
                end,
                with_field(raw, start, stop, header),
            )
            &&& first_position(raw, 0x3du8, start, stop) == Some(separator)
            &&& raw.subrange(start, separator) == tag
            &&& raw.subrange(separator + 1, stop) == value
        }),
{
    let field = fix_field(tag, value);
    let separator = start + tag.len();
    let stop = separator + 1 + value.len();
    assert forall|i: int| 0 <= i < field.len() implies raw[start + i] == field[i] by {
        assert(raw.subrange(start, start + field.len())[i] == raw[start + i]);
    }
    assert forall|i: int| start <= i < stop implies raw[i] != SOH by {
        assert(raw[i] == field[i - start]);
        if i < separator {
            assert(field[i - start] == tag[i - start]);
        } else if i > separator {
            assert(field[i - start] == value[i - separator - 1]);
        }
    }
    assert(raw[stop] == field[stop - start]);
    assert(is_first_position(raw, SOH, start, end, stop));
    lemma_first_position_unique(raw, SOH, start, end, stop);
    assert forall|i: int| start <= i < separator implies raw[i] != 0x3du8 by {
        assert(raw[i] == field[i - start]);
        assert(field[i - start] == tag[i - start]);
    }
    assert(raw[separator] == field[separator - start]);
    assert(is_first_position(raw, 0x3du8, start, stop, separator));
    lemma_first_position_unique(raw, 0x3du8, start, stop, separator);
    assert forall|i: int| 0 <= i < tag.len() implies raw.subrange(start, separator)[i] == tag[i] by {
        assert(raw[start + i] == field[i]);
    }
    assert(raw.subrange(start, separator) =~= tag);
    assert forall|i: int| 0 <= i < value.len() implies raw.subrange(separator + 1, stop)[i]
        == value[i] by {
        assert(raw[separator + 1 + i] == field[tag.len() + 1 + i]);
    }
    assert(raw.subrange(separator + 1, stop) =~= value);
}

/// The session fields of a message are read out of its body: a body
/// `35=<type>`, `34=<digits>`, `<tag>=<value>` (with a tag other than 34, 35
/// and 43) yields the digits' value as the sequence number, the range of the
/// type value as the message type, and no PossDup flag.
pub proof fn lemma_session_fields_of_body(
    raw: Seq<u8>,
    body_start: int,
    msg_type: Seq<u8>,
    seq_digits: Seq<u8>,
    tag: Seq<u8>,
    value: Seq<u8>,
)
    requires
        0 <= body_start,
        body_start + three_field_body(msg_type, seq_digits, tag, value).len() <= raw.len(),
        raw.subrange(
            body_start,
            body_start + three_field_body(msg_type, seq_digits, tag, value).len(),
        ) == three_field_body(msg_type, seq_digits, tag, value),
        free_of(msg_type, SOH),
        free_of(seq_digits, SOH),
        free_of(tag, SOH),
        free_of(tag, 0x3du8),
        free_of(value, SOH),
        tag != seq![0x33u8, 0x34u8],
        tag != seq![0x33u8, 0x35u8],
        tag != seq![0x34u8, 0x33u8],
        parse_decimal(seq_digits) is Some,
    ensures
        ({
            let body_end = body_start + three_field_body(msg_type, seq_digits, tag, value).len();
            let header = header_of_fields(raw, body_start, body_end, empty_header());
            &&& header.msg_seq_num == Some(MsgSeqNum(parse_decimal(seq_digits)->0))
            &&& header.msg_type == Some(
                Range {
                    start: (body_start + 3) as usize,
                    end: (body_start + 3 + msg_type.len()) as usize,
                },
            )
            &&& !header.poss_dup
        }),
{
    let type_tag = seq![0x33u8, 0x35u8];
    let seq_tag = seq![0x33u8, 0x34u8];
    let f1 = fix_field(type_tag, msg_type);
    let f2 = fix_field(seq_tag, seq_digits);
    let f3 = fix_field(tag, value);
    let b = body_start;
    let s2 = b + f1.len();
    let s3 = s2 + f2.len();
    let end = s3 + f3.len();
    lemma_split_at(raw, b, f1 + f2, f3);
    lemma_split_at(raw, b, f1, f2);
    assert(free_of(type_tag, SOH) && free_of(type_tag, 0x3du8)) by {
        assert forall|i: int| 0 <= i < 2 implies type_tag[i] != SOH && type_tag[i] != 0x3du8 by {
            if i == 0 {
                assert(type_tag[0] == 0x33u8);
            } else {
                assert(type_tag[1] == 0x35u8);
            }
        }
    }
    assert(free_of(seq_tag, SOH) && free_of(seq_tag, 0x3du8)) by {
        assert forall|i: int| 0 <= i < 2 implies seq_tag[i] != SOH && seq_tag[i] != 0x3du8 by {
            if i == 0 {
                assert(seq_tag[0] == 0x33u8);
            } else {
                assert(seq_tag[1] == 0x34u8);
            }
        }
    }
    assert(type_tag != seq_tag) by {
        assert(type_tag[1] != seq_tag[1]);
    }
    lemma_read_field(raw, b, end, type_tag, msg_type, empty_header());
    let h1 = with_field(raw, b, b + 3 + msg_type.len(), empty_header());
    assert(h1 == FixHeader {
        msg_seq_num: None,
        msg_type: Some(Range { start: (b + 3) as usize, end: (b + 3 + msg_type.len()) as usize }),
        poss_dup: false,
    });
    lemma_read_field(raw, s2, end, seq_tag, seq_digits, h1);
    let h2 = with_field(raw, s2, s2 + 3 + seq_digits.len(), h1);
    assert(h2 == FixHeader { msg_seq_num: Some(MsgSeqNum(parse_decimal(seq_digits)->0)), ..h1 });
    lemma_read_field(raw, s3, end, tag, value, h2);
    let h3 = with_field(raw, s3, s3 + tag.len() + 1 + value.len(), h2);
    assert(h3 == h2);
    assert(header_of_fields(raw, end, end, h3) == h3);
}

/// The body made of `fields`, each `tag=value` ended by `SOH`, in order.
pub open spec fn body_of_fields(fields: Seq<(Seq<u8>, Seq<u8>)>) -> Seq<u8>
    decreases fields.len(),
{
    if fields.len() == 0 {
        Seq::<u8>::empty()
    } else {
        fix_field(fields[0].0, fields[0].1) + body_of_fields(fields.drop_first())
    }
}

/// Every tag holds neither `SOH` nor `=`, and every value no `SOH`.
pub open spec fn well_formed_fields(fields: Seq<(Seq<u8>, Seq<u8>)>) -> bool {
    forall|i: int|
        0 <= i < fields.len() ==> {
            &&& free_of(#[trigger] fields[i].0, SOH)
            &&& free_of(fields[i].0, 0x3du8)
            &&& free_of(fields[i].1, SOH)
        }
}

/// The position among `fields` of the last field tagged `tag`, if any.
pub open spec fn last_field_with(fields: Seq<(Seq<u8>, Seq<u8>)>, tag: Seq<u8>) -> Option<int>
    decreases fields.len(),
{
    if fields.len() == 0 {
        None
    } else {
        match last_field_with(fields.drop_first(), tag) {
            Some(k) => Some(k + 1),
            None => if fields[0].0 == tag {
                Some(0)
            } else {
                None
            },
        }
    }
}

/// Where the field at `index` among `fields` begins, when the body begins at
/// `start`.
pub open spec fn field_start(fields: Seq<(Seq<u8>, Seq<u8>)>, start: int, index: int) -> int
    decreases fields.len(),
{
    if index <= 0 || fields.len() == 0 {
        start
    } else {
        field_start(
            fields.drop_first(),
            start + fix_field(fields[0].0, fields[0].1).len(),
            index - 1,
        )
    }
}

/// The last field tagged `tag` is the last one among the fields after the
/// first, or else the first field when it has that tag.
proof fn lemma_last_field_step(fields: Seq<(Seq<u8>, Seq<u8>)>, tag: Seq<u8>)
    requires
        fields.len() > 0,
    ensures
        last_field_with(fields, tag) == match last_field_with(fields.drop_first(), tag) {
            Some(k) => Some(k + 1),
            None => if fields[0].0 == tag {
                Some(0int)
            } else {
                None
            },
        },
        last_field_with(fields.drop_first(), tag) matches Some(k) ==> 0 <= k < fields.len() - 1
            && fields[k + 1] == fields.drop_first()[k],
{
    if let Some(k) = last_field_with(fields.drop_first(), tag) {
        lemma_last_field_in_range(fields.drop_first(), tag);
    }
}

/// The last field tagged `tag` is one of the fields, and has that tag.
proof fn lemma_last_field_in_range(fields: Seq<(Seq<u8>, Seq<u8>)>, tag: Seq<u8>)
    ensures
        last_field_with(fields, tag) matches Some(k) ==> 0 <= k < fields.len() && fields[k].0
            == tag,
    decreases fields.len(),
{
    if fields.len() > 0 {
        lemma_last_field_in_range(fields.drop_first(), tag);
    }
}

/// Reading the fields of a body, starting from `header`: each session field
/// takes the value of its last occurrence, and keeps `header`'s where its tag
/// does not occur.
proof fn lemma_read_fields(
    raw: Seq<u8>,
    start: int,
    fields: Seq<(Seq<u8>, Seq<u8>)>,
    header: FixHeader,
)
    requires
        0 <= start,
        start + body_of_fields(fields).len() <= raw.len(),
        raw.subrange(start, start + body_of_fields(fields).len()) == body_of_fields(fields),
        well_formed_fields(fields),
    ensures
        ({
            let read = header_of_fields(
                raw,
                start,
                start + body_of_fields(fields).len(),
                header,
            );
            &&& read.msg_seq_num == match last_field_with(fields, seq![0x33u8, 0x34u8]) {
                Some(k) => match parse_decimal(fields[k].1) {
                    Some(number) => Some(MsgSeqNum(number)),
                    None => None,
                },
                None => header.msg_seq_num,
            }
            &&& read.msg_type == match last_field_with(fields, seq![0x33u8, 0x35u8]) {
                Some(k) => Some(
                    Range {
                        start: (field_start(fields, start, k) + 3) as usize,
                        end: (field_start(fields, start, k) + 3 + fields[k].1.len()) as usize,
                    },
                ),
                None => header.msg_type,
            }
            &&& read.poss_dup == match last_field_with(fields, seq![0x34u8, 0x33u8]) {
                Some(k) => fields[k].1 == seq![0x59u8],
                None => header.poss_dup,
            }
        }),
    decreases fields.len(),
{
    let end = start + body_of_fields(fields).len();
    if fields.len() == 0 {
        assert(header_of_fields(raw, start, end, header) == header);
    } else {
        let tag = fields[0].0;
        let value = fields[0].1;
        let rest = fields.drop_first();
        let first = fix_field(tag, value);
        lemma_split_at(raw, start, first, body_of_fields(rest));
        assert(free_of(fields[0].0, SOH));
        lemma_read_field(raw, start, end, tag, value, header);
        let stop = start + tag.len() + 1 + value.len();
        let next = with_field(raw, start, stop, header);
        assert(stop + 1 == start + first.len());
        assert(well_formed_fields(rest)) by {
            assert forall|i: int| 0 <= i < rest.len() implies {
                &&& free_of(#[trigger] rest[i].0, SOH)
                &&& free_of(rest[i].0, 0x3du8)
                &&& free_of(rest[i].1, SOH)
            } by {
                assert(rest[i] == fields[i + 1]);
            }
        }
        let separator = start + tag.len();
        if tag == seq![0x33u8, 0x34u8] {
            assert(next.msg_seq_num == match parse_decimal(value) {
                Some(number) => Some(MsgSeqNum(number)),
                None => None,
            });
            assert(next.msg_type == header.msg_type && next.poss_dup == header.poss_dup);
        } else if tag == seq![0x33u8, 0x35u8] {
            assert(tag.len() == 2);
            assert(next.msg_type == Some(
                Range { start: (start + 3) as usize, end: (start + 3 + value.len()) as usize },
            ));
            assert(next.msg_seq_num == header.msg_seq_num && next.poss_dup == header.poss_dup);
        } else if tag == seq![0x34u8, 0x33u8] {
            assert(next.poss_dup == (value == seq![0x59u8]));
            assert(next.msg_type == header.msg_type && next.msg_seq_num == header.msg_seq_num);
        } else {
            assert(next == header);
        }
        lemma_read_fields(raw, start + first.len(), rest, next);
        assert(body_of_fields(fields) == first + body_of_fields(rest));
        assert(end == start + first.len() + body_of_fields(rest).len());
        assert(header_of_fields(raw, start, end, header) == header_of_fields(
            raw,
            start + first.len(),
            end,
            next,
        ));
        let read = header_of_fields(raw, start, end, header);
        lemma_last_field_step(fields, seq![0x33u8, 0x34u8]);
        lemma_last_field_step(fields, seq![0x33u8, 0x35u8]);
        lemma_last_field_step(fields, seq![0x34u8, 0x33u8]);
        match last_field_with(rest, seq![0x33u8, 0x35u8]) {
            Some(k) => {
                assert(field_start(fields, start, k + 1) == field_start(
                    rest,
                    start + first.len(),
                    k,
                ));
            },
            None => {
                assert(field_start(fields, start, 0) == start);
            },
        }
    }
}

/// The session fields of a body made of `SOH`-ended `tag=value` fields, in
/// any order and among any other fields: the sequence number is the value of
/// the last tag 34 (none when that value does not parse or no 34 occurs), the
/// message type the place of the last tag 35's value, and PossDup whether the
/// last tag 43 says `Y`.
pub proof fn lemma_session_fields_anywhere(
    raw: Seq<u8>,
    start: int,
    fields: Seq<(Seq<u8>, Seq<u8>)>,
)
    requires
        0 <= start,
        start + body_of_fields(fields).len() <= raw.len(),
        raw.subrange(start, start + body_of_fields(fields).len()) == body_of_fields(fields),
        well_formed_fields(fields),
    ensures
        ({
            let header = header_of_fields(
                raw,
                start,
                start + body_of_fields(fields).len(),
                empty_header(),
            );
            &&& header.msg_seq_num == match last_field_with(fields, seq![0x33u8, 0x34u8]) {
                Some(k) => match parse_decimal(fields[k].1) {
                    Some(number) => Some(MsgSeqNum(number)),
                    None => None,
                },
                None => None,
            }
            &&& header.msg_type == match last_field_with(fields, seq![0x33u8, 0x35u8]) {
                Some(k) => Some(
                    Range {
                        start: (field_start(fields, start, k) + 3) as usize,
                        end: (field_start(fields, start, k) + 3 + fields[k].1.len()) as usize,
                    },
                ),
                None => None,
            }
            &&& header.poss_dup == match last_field_with(fields, seq![0x34u8, 0x33u8]) {
                Some(k) => fields[k].1 == seq![0x59u8],
                None => false,
            }
        }),
{
    lemma_read_fields(raw, start, fields, empty_header());
}

} // verus!
