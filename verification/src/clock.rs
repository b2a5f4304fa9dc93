//! The monotonic clock and the wall clock.

use std::time::{Instant, SystemTime};

use vstd::prelude::*;

verus! {

/// `std::time::Instant`, a reading of the monotonic clock, carried as an opaque value.
#[verifier::external_type_specification]
#[verifier::external_body]
pub struct ExInstant(std::time::Instant);

/// `std::time::SystemTime`, a reading of the wall clock, carried as an opaque value.
#[verifier::external_type_specification]
#[verifier::external_body]
pub struct ExSystemTime(std::time::SystemTime);

/// The place of a reading on the time line of the monotonic clock, in nanoseconds from an origin
/// before all readings. `std::time::Instant::saturating_duration_since` measures readings by it;
/// which origin it is does not matter.
pub uninterp spec fn instant_nanos(reading: Instant) -> u128;

/// The nanoseconds from `earlier` to `later`, none where `earlier` is the later one.
pub open spec fn elapsed_nanos(later: Instant, earlier: Instant) -> u128 {
    if instant_nanos(later) >= instant_nanos(earlier) {
        (instant_nanos(later) - instant_nanos(earlier)) as u128
    } else {
        0
    }
}

/// The nanoseconds that `std::time::SystemTime::duration_since` reports from the Unix epoch to
/// `time`, or `None` where it reports an error because `time` lies before the epoch.
pub uninterp spec fn epoch_nanos(time: SystemTime) -> Option<u128>;

/// Calls `std::time::Instant::now`. Nothing is claimed of the reading.
#[verifier::external_body]
pub(crate) fn monotonic_now() -> Instant {
    Instant::now()
}

/// Calls `std::time::SystemTime::now`. Nothing is claimed of the reading.
#[verifier::external_body]
pub(crate) fn wall_now() -> SystemTime {
    SystemTime::now()
}

/// Calls `std::time::Instant::saturating_duration_since` and hands its nanoseconds on. They are
/// the distance of the two readings on the time line, or zero where `earlier` is the later one.
/// That readings never go back is left unsaid: nothing tells here which of two was taken first.
#[verifier::external_body]
pub(crate) fn nanos_between(later: Instant, earlier: Instant) -> (r: u128)
    ensures
        r == if instant_nanos(later) >= instant_nanos(earlier) {
            instant_nanos(later) - instant_nanos(earlier)
        } else {
            0
        },
{
    later.saturating_duration_since(earlier).as_nanos()
}

/// Calls `std::time::SystemTime::duration_since` with the Unix epoch and hands its nanoseconds
/// on, `None` standing for its error. The result depends on the reading alone.
#[verifier::external_body]
pub(crate) fn nanos_since_epoch(time: SystemTime) -> (r: Option<u128>)
    ensures
        r == epoch_nanos(time),
{
    match time.duration_since(SystemTime::UNIX_EPOCH) {
        Ok(elapsed) => Some(elapsed.as_nanos()),
        Err(_) => None,
    }
}

/// Elapsed time adds up: for readings in order of time, the time from the first to the last is
/// that from the first to the middle and from there to the last. It is zero exactly where no time
/// passed.
pub proof fn law_elapsed_time_adds_up(first: Instant, middle: Instant, last: Instant)
    requires
        instant_nanos(first) <= instant_nanos(middle) <= instant_nanos(last),
    ensures
        elapsed_nanos(last, first) == elapsed_nanos(last, middle) + elapsed_nanos(middle, first),
        elapsed_nanos(last, first) == 0 <==> instant_nanos(first) == instant_nanos(last),
        elapsed_nanos(first, last) == 0,
{
}

/// Elapsed time is the distance of two readings on the time line, and zero backwards.
pub proof fn law_elapsed_time_is_a_distance(later: Instant, earlier: Instant)
    ensures
        instant_nanos(later) >= instant_nanos(earlier) ==> elapsed_nanos(later, earlier)
            == instant_nanos(later) - instant_nanos(earlier),
        instant_nanos(later) < instant_nanos(earlier) ==> elapsed_nanos(later, earlier) == 0,
{
}

} // verus!
