//! The wall clock, read as seconds since the Unix epoch.

use vstd::prelude::*;

verus! {

/// Relies on `std::time::SystemTime::now` and
/// `duration_since(UNIX_EPOCH)`: the seconds elapsed since the Unix
/// epoch, or `None` when the clock reads before the epoch.
#[verifier::external_body]
fn unix_seconds_now() -> (r: Option<u64>)
{
    std::time::SystemTime::now().duration_since(std::time::UNIX_EPOCH).ok().map(
        |d| d.as_secs(),
    )
}

/// Maps a clock reading to the stored timestamp: a readable value that
/// fits the timestamp's signed 64-bit width passes through as whole
/// seconds; an unreadable clock — or one past that width — degrades to
/// the fixed fallback 0 rather than failing.
pub fn timestamp_from(reading: Option<u64>) -> (r: i64)
    ensures
        r == (match reading {
            Some(s) => if s <= 0x7fffffffffffffffu64 {
                s as i64
            } else {
                0i64
            },
            None => 0i64,
        }),
        r >= 0,
{
    match reading {
        Some(s) => {
            if s <= 0x7fffffffffffffffu64 {
                s as i64
            } else {
                0
            }
        },
        None => 0,
    }
}

/// The current time in whole seconds since the Unix epoch, under
/// `timestamp_from`'s mapping of the reading.
pub fn chrono_timestamp() -> (r: i64)
    ensures
        r >= 0,
{
    timestamp_from(unix_seconds_now())
}

} // verus!
