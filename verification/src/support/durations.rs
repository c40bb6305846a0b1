//! How std writes a span of time, for messages that name one.
use vstd::prelude::*;

verus! {

/// What `std::time::Duration`'s `Debug` writes for `secs` seconds and `nanos`
/// nanoseconds, such as `5ms` or `1.5s`.
pub uninterp spec fn duration_debug_text(secs: u64, nanos: u32) -> Seq<char>;

/// `<std::time::Duration as Debug>::fmt` on `Duration::new(secs, nanos)`,
/// rendered to a string.
///
/// The contract names the text and states no more of it: std picks the unit
/// and trims the fraction by rules its documentation does not spell out.
/// `Duration::new` panics only when the nanoseconds carry past `u64::MAX`
/// seconds, which nanoseconds below one second never do.
#[verifier::external_body]
pub(crate) fn duration_debug(secs: u64, nanos: u32) -> (text: String)
    requires
        nanos < 1_000_000_000,
    ensures
        text@ == duration_debug_text(secs, nanos),
{
    format!("{:?}", std::time::Duration::new(secs, nanos))
}

} // verus!
