//! Arrival timestamps, carried through the library without being read.
use std::time::Instant;
use vstd::prelude::*;

verus! {

/// `std::time::Instant`: the library stamps packets and messages with it and
/// hands it back unchanged.
#[verifier::external_type_specification]
#[verifier::external_body]
pub struct ExInstant(Instant);

/// `<Instant as Clone>::clone`: `Instant` is `Copy`, so the clone is the same
/// instant (the derived `Clone` of a packet or a message calls it).
pub assume_specification[ <Instant as Clone>::clone ](instant: &Instant) -> (copy: Instant)
    ensures
        copy == *instant,
;

} // verus!
