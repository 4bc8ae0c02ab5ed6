//! The monotonic clock a cache reads when it is not handed the time.

use std::time::Duration;
use std::time::Instant;
use vstd::prelude::*;

verus! {

/// `std::time::Instant`, carried through and never looked into.
#[verifier::external_type_specification]
#[verifier::external_body]
pub struct ExInstant(Instant);

/// `Instant::now`: a reading of the monotonic clock. Nothing is claimed of it.
#[verifier::external_body]
fn instant_now() -> Instant {
    Instant::now()
}

/// `Instant::saturating_duration_since`: the time from `earlier` to `later`,
/// zero if `earlier` is the later one. Nothing is claimed of it.
#[verifier::external_body]
fn instant_since(later: &Instant, earlier: &Instant) -> Duration {
    later.saturating_duration_since(*earlier)
}

/// `Duration::as_nanos`: the duration in whole nanoseconds. Nothing is
/// claimed of the number.
#[verifier::external_body]
fn duration_nanos(span: &Duration) -> u128 {
    span.as_nanos()
}

/// A time line that starts when the clock is made. A reading is the number
/// of nanoseconds since then; it stays at `u64::MAX` once that is reached.
#[derive(Debug)]
pub(crate) struct Clock {
    origin: Instant,
}

impl Clock {
    /// A clock whose time line starts now.
    pub(crate) fn new() -> Clock {
        Clock { origin: instant_now() }
    }

    /// The current time on this clock's time line.
    pub(crate) fn now(&self) -> u64 {
        let current = instant_now();
        let span = instant_since(&current, &self.origin);
        let nanos: u128 = duration_nanos(&span);
        reading_of(nanos)
    }
}

/// The reading that stands for `nanos` nanoseconds since the origin: the
/// count itself, and `u64::MAX` for a count beyond that.
pub(crate) fn reading_of(nanos: u128) -> (reading: u64)
    ensures
        reading == if nanos > u64::MAX {
            u64::MAX as u128
        } else {
            nanos
        },
{
    if nanos > u64::MAX as u128 {
        u64::MAX
    } else {
        nanos as u64
    }
}

} // verus!
