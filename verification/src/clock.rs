//! Clocks: wall-clock milliseconds since the Unix epoch for message
//! timestamps, and nanoseconds on a monotonic clock for delivery deadlines
//! and pull waits.

use std::time::{Duration, SystemTime};
use vstd::prelude::*;

verus! {

#[verifier::external_type_specification]
#[verifier::external_body]
pub struct ExSystemTime(std::time::SystemTime);

#[verifier::external_type_specification]
#[verifier::external_body]
pub struct ExTokioInstant(tokio::time::Instant);

/// `std::time::SystemTime::now`. Nothing is claimed of the time it reads.
#[verifier::external_body]
fn system_time_now() -> SystemTime {
    SystemTime::now()
}

/// `SystemTime::duration_since` with `UNIX_EPOCH` as the earlier time, its
/// error turned into `None`. Nothing is claimed of the duration: it depends on
/// the time that was read.
#[verifier::external_body]
fn since_unix_epoch(t: &SystemTime) -> Option<Duration> {
    t.duration_since(std::time::UNIX_EPOCH).ok()
}

/// `Duration::as_millis`. `Duration` is opaque here, so nothing is claimed
/// of the number.
#[verifier::external_body]
fn duration_millis(d: &Duration) -> u128 {
    d.as_millis()
}

/// `Duration::as_nanos`. `Duration` is opaque here, so nothing is claimed
/// of the number.
#[verifier::external_body]
fn duration_nanos(d: &Duration) -> u128 {
    d.as_nanos()
}

/// `tokio::time::Instant::now`. Nothing is claimed of the instant it reads.
#[verifier::external_body]
fn instant_now() -> tokio::time::Instant {
    tokio::time::Instant::now()
}

/// `tokio::time::Instant::duration_since`, which gives zero when `earlier`
/// is in fact later. Nothing is claimed of the duration.
#[verifier::external_body]
fn duration_between(later: &tokio::time::Instant, earlier: &tokio::time::Instant) -> Duration {
    later.duration_since(*earlier)
}

/// A Unix timestamp in milliseconds from the time elapsed since the epoch:
/// the number of milliseconds taken as an `i64` (low 64 bits), or 0 when the
/// clock stood before the epoch.
pub fn unix_millis(since_epoch_ms: Option<u128>) -> (r: i64)
    ensures
        r == match since_epoch_ms {
            Some(ms) => ms as i64,
            None => 0i64,
        },
{
    match since_epoch_ms {
        Some(ms) => ms as i64,
        None => 0,
    }
}

/// The current wall-clock time in milliseconds since the Unix epoch, or 0
/// when the clock stands before the epoch.
pub fn unix_time_ms() -> i64 {
    let now = system_time_now();
    let since = match since_unix_epoch(&now) {
        Some(d) => Some(duration_millis(&d)),
        None => None,
    };
    unix_millis(since)
}

/// A monotonic clock that reads nanoseconds since it was started.
#[derive(Debug)]
pub struct MonotonicClock {
    origin: tokio::time::Instant,
}

impl MonotonicClock {
    /// A clock that starts now.
    pub fn new() -> MonotonicClock {
        MonotonicClock { origin: instant_now() }
    }

    /// Nanoseconds since the clock was started.
    pub fn now_ns(&self) -> u128 {
        let now = instant_now();
        let elapsed = duration_between(&now, &self.origin);
        duration_nanos(&elapsed)
    }
}

} // verus!
