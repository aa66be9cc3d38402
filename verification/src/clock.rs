//! The wall clock of a search. Nothing in this file is proved, and nothing
//! is claimed of what the clock says: whatever it reads, the search has to
//! cope with it.
use std::time::Instant;
use vstd::prelude::*;

verus! {

/// `std::time::Instant`, taken as it is: a point in time that can only
/// be handed on.
#[verifier::external_type_specification]
#[verifier::external_body]
pub struct ExInstant(Instant);

/// `Instant::now`: the moment of the call.
#[verifier::external_body]
pub(crate) fn clock_start() -> Instant {
    Instant::now()
}

/// `Instant::elapsed`: the whole milliseconds gone by since `start`.
#[verifier::external_body]
pub(crate) fn elapsed_millis(start: &Instant) -> u128 {
    start.elapsed().as_millis()
}

} // verus!
