//! Readings of the system clock.

use vstd::prelude::*;

use crate::error::{ErrorView, MzaniError, MzaniResult};

verus! {

/// `SystemTime::elapsed` of the Unix epoch, as whole seconds and the nanoseconds of the next one;
/// nothing where the clock stands before the epoch. Of the reading only its range is claimed.
#[verifier::external_body]
fn since_epoch() -> (r: Option<(u64, u32)>)
    ensures
        r matches Some((_, nanos)) ==> nanos < 1_000_000_000,
{
    match std::time::SystemTime::UNIX_EPOCH.elapsed() {
        Ok(elapsed) => Some((elapsed.as_secs(), elapsed.subsec_nanos())),
        Err(_) => None,
    }
}

/// The whole seconds of a clock reading.
///
/// # Errors
///
/// Returns [`MzaniError::InvalidTimestamp`] where there is no reading.
pub fn whole_seconds(reading: Option<(u64, u32)>) -> (r: MzaniResult<u64>)
    ensures
        match reading {
            Some((secs, _)) => r matches Ok(got) && got == secs,
            None => r matches Err(e) && e@ == ErrorView::InvalidTimestamp,
        },
{
    match reading {
        Some((secs, _)) => Ok(secs),
        None => Err(MzaniError::InvalidTimestamp),
    }
}

/// The whole milliseconds of a clock reading.
///
/// # Errors
///
/// Returns [`MzaniError::InvalidTimestamp`] where there is no reading.
pub fn whole_millis(reading: Option<(u64, u32)>) -> (r: MzaniResult<u128>)
    ensures
        match reading {
            Some((secs, nanos)) => r matches Ok(got) && got == secs * 1000 + nanos / 1_000_000,
            None => r matches Err(e) && e@ == ErrorView::InvalidTimestamp,
        },
{
    match reading {
        Some((secs, nanos)) => Ok(secs as u128 * 1000 + (nanos / 1_000_000) as u128),
        None => Err(MzaniError::InvalidTimestamp),
    }
}

/// Returns whole seconds since the Unix epoch.
///
/// # Errors
///
/// Returns [`MzaniError::InvalidTimestamp`] if the system clock is before the epoch.
pub fn now() -> (r: MzaniResult<u64>)
    ensures
        r matches Err(e) ==> e@ == ErrorView::InvalidTimestamp,
{
    whole_seconds(since_epoch())
}

/// Returns whole milliseconds since the Unix epoch.
///
/// # Errors
///
/// Returns [`MzaniError::InvalidTimestamp`] if the system clock is before the epoch.
pub fn utc_timestamp_ms() -> (r: MzaniResult<u128>)
    ensures
        r matches Ok(ms) ==> ms < 1000 * (u64::MAX + 1),
        r matches Err(e) ==> e@ == ErrorView::InvalidTimestamp,
{
    whole_millis(since_epoch())
}

} // verus!
