use vstd::prelude::*;

verus! {

/// The wall clock, read through the `time` crate.
///
/// `time::OffsetDateTime` is opaque here: the engine only ever turns it into
/// a number of nanoseconds and works on that.
#[verifier::external_type_specification]
#[verifier::external_body]
pub struct ExOffsetDateTime(time::OffsetDateTime);

/// Relies on time::OffsetDateTime::now_utc: reads the current wall time.
/// Nothing can be promised of the value read.
pub assume_specification[ time::OffsetDateTime::now_utc ]() -> (r: time::OffsetDateTime)
;

/// Relies on time::OffsetDateTime::unix_timestamp_nanos: the instant as
/// nanoseconds since the Unix epoch. Nothing is promised of the value.
pub assume_specification[ time::OffsetDateTime::unix_timestamp_nanos ](
    t: time::OffsetDateTime,
) -> (r: i128)
;

/// Relies on rand::random: draws a value; nothing can be promised of it.
pub assume_specification<T>[ rand::random::<T> ]() -> (r: T)
    where
        rand::distributions::Standard: rand::distributions::Distribution<T>,
;

/// The current wall time in milliseconds since the Unix epoch, clamped to
/// `u64`. The value depends on the clock, so nothing is stated of it.
pub fn current_time_millis() -> u64 {
    let now = time::OffsetDateTime::now_utc();
    let nanos: i128 = now.unix_timestamp_nanos();
    let millis: i128 = nanos / 1_000_000;
    if millis < 0 {
        0
    } else if millis > u64::MAX as i128 {
        u64::MAX
    } else {
        millis as u64
    }
}

/// A uniformly random index below `bound`.
pub fn random_index(bound: usize) -> (r: usize)
    requires
        bound > 0,
    ensures
        r < bound,
{
    let raw: usize = rand::random();
    raw % bound
}

} // verus!
