//! Readings of the monotonic clock, taken on trust.
//!
//! The scheduler's own logic works on plain microsecond timestamps; only the
//! two items here touch `std::time`.

use std::time::Instant;
use vstd::prelude::*;

verus! {

#[verifier::external_type_specification]
#[verifier::external_body]
pub struct ExInstant(Instant);

/// Relies on `std::time::Instant::now`: an opaque reading of the monotonic
/// clock, carried around only as an origin to measure from.
#[verifier::external_body]
pub(crate) fn instant_now() -> Instant {
    Instant::now()
}

/// Relies on `std::time::Instant::saturating_duration_since`: the time from
/// `origin` to `later`, zero when `later` is the earlier reading, converted
/// to whole microseconds and clamped into `i64`. What the clock reads is not
/// a function of the arguments, so nothing beyond non-negativity is stated.
#[verifier::external_body]
pub(crate) fn micros_since(origin: &Instant, later: &Instant) -> (t: i64)
    ensures
        0 <= t,
{
    let micros = later.saturating_duration_since(*origin).as_micros();
    i64::try_from(micros).unwrap_or(i64::MAX)
}

} // verus!
