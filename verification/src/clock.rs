use instant::Instant;
use std::time::Duration;
use vstd::prelude::*;

verus! {

/// `instant::Instant`, a reading of the monotonic clock; off the web it
/// is the clock of the standard library. Nothing inside it is visible to
/// contracts.
#[verifier::external_type_specification]
#[verifier::external_body]
pub struct ExInstant(Instant);

/// `Instant::now`: the current reading of the clock. The contract claims
/// nothing of it.
#[verifier::external_body]
pub(crate) fn now() -> (reading: Instant) {
    Instant::now()
}

/// `Instant::checked_duration_since`: the time from `earlier` to `later`,
/// or nothing when `earlier` is the later of the two. The contract claims
/// nothing of it.
#[verifier::external_body]
pub(crate) fn span(later: &Instant, earlier: &Instant) -> (between: Option<Duration>) {
    later.checked_duration_since(*earlier)
}

/// `Duration::as_millis`: the whole milliseconds in `length`. The contract
/// claims nothing of it.
#[verifier::external_body]
pub(crate) fn millis(length: &Duration) -> (ms: u128) {
    length.as_millis()
}

} // verus!
