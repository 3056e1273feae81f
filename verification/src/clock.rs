//! The monotonic clock.

use std::time::Instant;
use vstd::prelude::*;

verus! {

/// A point in time as `std::time::Instant` keeps it; nothing is known of what is inside.
#[verifier::external_type_specification]
#[verifier::external_body]
pub struct ExInstant(std::time::Instant);

/// Calls `std::time::Instant::now`. Nothing is claimed of the point in time that comes out:
/// it rests on the clock.
#[verifier::external_body]
fn now() -> (instant: Instant)
{
    Instant::now()
}

/// Calls `std::time::Instant::elapsed` and gives the duration in nanoseconds. Nothing is
/// claimed of the duration: it rests on the clock.
#[verifier::external_body]
fn elapsed_nanos(since: &Instant) -> (nanos: u128)
{
    since.elapsed().as_nanos()
}

/// Whether a point in time is one that the clock gave as the present.
pub closed spec fn is_reading(instant: Instant) -> bool {
    call_ensures(now, (), instant)
}

/// Whether a number of nanoseconds is one that the clock gave as the time since `since`.
pub closed spec fn is_time_since(since: Instant, nanos: u128) -> bool {
    call_ensures(elapsed_nanos, (&since,), nanos)
}

/// Takes a value from a source, and says that the source gave it.
pub(crate) fn draw<T, F: Fn() -> T>(source: F) -> (value: T)
    requires
        call_requires(source, ()),
    ensures
        call_ensures(source, (), value),
{
    source()
}

/// Measures from a point in time, and says what was measured.
fn measure<F: Fn(&Instant) -> u128>(meter: F, since: &Instant) -> (nanos: u128)
    requires
        call_requires(meter, (since,)),
    ensures
        call_ensures(meter, (since,), nanos),
{
    meter(since)
}

/// Reads the clock.
pub(crate) fn read_clock() -> (instant: Instant)
    ensures
        is_reading(instant),
{
    draw(now)
}

/// The time that has passed since a point in time, in nanoseconds.
pub(crate) fn time_since(since: &Instant) -> (nanos: u128)
    ensures
        is_time_since(*since, nanos),
{
    measure(elapsed_nanos, since)
}

} // verus!
