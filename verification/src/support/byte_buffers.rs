//! The `bytes` crate's buffers, as the framer and the packet model use them.
//!
//! `BytesMut` and `Bytes` are opaque to Verus; what the library reads of them is
//! the sequence of bytes they hold, named by `bytes_mut_contents` and
//! `bytes_contents`. Every method the verified code calls has a contract below
//! that says, over those names, what the crate's source does.
use bytes::{Bytes, BytesMut};
use vstd::prelude::*;

verus! {

/// `bytes::BytesMut`, the growable buffer the FIX framer accumulates a stream in.
#[verifier::external_type_specification]
#[verifier::external_body]
pub struct ExBytesMut(BytesMut);

/// `bytes::Bytes`, the immutable shared byte string a framed message or a
/// datagram payload is handed out as.
#[verifier::external_type_specification]
#[verifier::external_body]
pub struct ExBytes(Bytes);

/// The bytes a `BytesMut` currently holds, in order.
pub uninterp spec fn bytes_mut_contents(buffer: BytesMut) -> Seq<u8>;

/// The bytes a `Bytes` holds, in order.
pub uninterp spec fn bytes_contents(bytes: Bytes) -> Seq<u8>;

/// `BytesMut::with_capacity`: an empty buffer. The crate allocates through
/// `Vec::with_capacity`, which panics past `isize::MAX` bytes.
pub assume_specification[ BytesMut::with_capacity ](capacity: usize) -> (buffer: BytesMut)
    requires
        capacity <= isize::MAX,
    ensures
        bytes_mut_contents(buffer) == Seq::<u8>::empty(),
;

/// `BytesMut::len`: the number of bytes held.
pub assume_specification[ BytesMut::len ](buffer: &BytesMut) -> (len: usize)
    ensures
        len == bytes_mut_contents(*buffer).len(),
;

/// `BytesMut::extend_from_slice`: appends `extend` after the bytes held. The
/// crate reserves first, which panics when the new length would pass
/// `isize::MAX`.
pub assume_specification[ BytesMut::extend_from_slice ](buffer: &mut BytesMut, extend: &[u8])
    requires
        bytes_mut_contents(*old(buffer)).len() + extend@.len() <= isize::MAX,
    ensures
        bytes_mut_contents(*final(buffer)) == bytes_mut_contents(*old(buffer)) + extend@,
;

/// `BytesMut::split_to`: hands out the first `at` bytes and keeps the rest.
/// The crate asserts `at <= len`.
pub assume_specification[ BytesMut::split_to ](buffer: &mut BytesMut, at: usize) -> (head: BytesMut)
    requires
        at <= bytes_mut_contents(*old(buffer)).len(),
    ensures
        bytes_mut_contents(head) == bytes_mut_contents(*old(buffer)).take(at as int),
        bytes_mut_contents(*final(buffer)) == bytes_mut_contents(*old(buffer)).skip(at as int),
;

/// `BytesMut::freeze`: the same bytes, as an immutable `Bytes`.
pub assume_specification[ BytesMut::freeze ](buffer: BytesMut) -> (frozen: Bytes)
    ensures
        bytes_contents(frozen) == bytes_mut_contents(buffer),
;

/// `<BytesMut as Deref>::deref`: the bytes held, as a slice.
pub assume_specification[ <BytesMut as core::ops::Deref>::deref ](buffer: &BytesMut) -> (slice: &[u8])
    ensures
        slice@ == bytes_mut_contents(*buffer),
;

/// `Bytes::len`: the number of bytes held.
pub assume_specification[ Bytes::len ](bytes: &Bytes) -> (len: usize)
    ensures
        len == bytes_contents(*bytes).len(),
;

/// `Bytes::is_empty`: whether no byte is held.
pub assume_specification[ Bytes::is_empty ](bytes: &Bytes) -> (empty: bool)
    ensures
        empty == (bytes_contents(*bytes).len() == 0),
;

/// `<Bytes as Deref>::deref`: the bytes held, as a slice.
pub assume_specification[ <Bytes as core::ops::Deref>::deref ](bytes: &Bytes) -> (slice: &[u8])
    ensures
        slice@ == bytes_contents(*bytes),
;

/// `<Bytes as Clone>::clone`: another handle on the same bytes (the derived
/// `Clone` of a packet or a message calls it).
pub assume_specification[ <Bytes as Clone>::clone ](bytes: &Bytes) -> (copy: Bytes)
    ensures
        bytes_contents(copy) == bytes_contents(*bytes),
;

} // verus!
