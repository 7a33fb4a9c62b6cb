//! The clock that seeds the choice of tokens.

use std::time::{Duration, SystemTime, SystemTimeError};
use vstd::prelude::*;

verus! {

/// The point in time of `std::time`, as an opaque value.
#[verifier::external_type_specification]
#[verifier::external_body]
pub struct ExSystemTime(SystemTime);

/// The error of `SystemTime::duration_since`, as an opaque value.
#[verifier::external_type_specification]
#[verifier::external_body]
pub struct ExSystemTimeError(SystemTimeError);

/// `SystemTime::now`: some point in time. Nothing is claimed of which one.
pub assume_specification[ std::time::SystemTime::now ]() -> SystemTime;

/// `SystemTime::duration_since`: the span between two points in time, or an error where the second
/// is later than the first. Nothing is claimed of it.
pub assume_specification[ std::time::SystemTime::duration_since ](
    t: &SystemTime,
    earlier: SystemTime,
) -> Result<Duration, SystemTimeError>;

/// `Duration::as_nanos`: the number of nanoseconds in a span. Nothing is claimed of it.
pub assume_specification[ std::time::Duration::as_nanos ](d: &Duration) -> u128;

/// `std::time::UNIX_EPOCH`: the start of 1970. Nothing is claimed of it.
#[verifier::external_body]
pub(crate) fn epoch() -> SystemTime {
    std::time::UNIX_EPOCH
}

/// `r` is what the clock says of the point in time `now` and the start of 1970 `start`: the
/// nanoseconds between them, or nothing where the first is earlier than the second.
pub open spec fn clock_says(now: SystemTime, start: SystemTime, r: Option<u128>) -> bool {
    match r {
        Some(n) => exists|d: Duration| #[trigger]
            call_ensures(SystemTime::duration_since, (&now, start), Ok(d)) && call_ensures(
                Duration::as_nanos,
                (&d,),
                n,
            ),
        None => exists|e: SystemTimeError| #[trigger]
            call_ensures(SystemTime::duration_since, (&now, start), Err(e)),
    }
}

/// `r` is what the clock can say: there is a point in time that `SystemTime::now` gives, of which
/// the clock says `r`, counted from the start of 1970. Which point in time it is depends on the
/// machine, and nothing is claimed of it.
pub closed spec fn clock_read(r: Option<u128>) -> bool {
    exists|now: SystemTime, start: SystemTime| #[trigger]
        clock_says(now, start, r) && call_ensures(SystemTime::now, (), now) && call_ensures(
            epoch,
            (),
            start,
        )
}

/// The nanoseconds since the start of 1970, where the clock is not set before that.
pub(crate) fn nanos_since_epoch() -> (r: Option<u128>)
    ensures
        exists|now: SystemTime, start: SystemTime| #[trigger]
            clock_says(now, start, r) && call_ensures(SystemTime::now, (), now) && call_ensures(
                epoch,
                (),
                start,
            ),
        clock_read(r),
{
    let now: SystemTime = SystemTime::now();
    let start: SystemTime = epoch();
    match now.duration_since(start) {
        Ok(d) => {
            let r: Option<u128> = Some(d.as_nanos());
            assert(call_ensures(SystemTime::duration_since, (&now, start), Ok(d)));
            assert(clock_says(now, start, r));
            r
        },
        Err(e) => {
            let r: Option<u128> = None;
            assert(call_ensures(SystemTime::duration_since, (&now, start), Err(e)));
            assert(clock_says(now, start, r));
            r
        },
    }
}

} // verus!
