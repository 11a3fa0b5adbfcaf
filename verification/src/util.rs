//! Small unit conversions used by timecode construction and by the driver's
//! file-size limit message.

use vstd::prelude::*;

verus! {

/// Converts whole hours to seconds.
pub fn hours_to_secs(hours: u64) -> (r: u64)
    requires
        hours * 3600 <= u64::MAX,
    ensures
        r == hours * 3600,
{
    hours * 3600
}

/// Converts whole minutes to seconds.
pub fn mins_to_secs(mins: u64) -> (r: u64)
    requires
        mins * 60 <= u64::MAX,
    ensures
        r == mins * 60,
{
    mins * 60
}

/// Converts milliseconds to nanoseconds.
pub fn millis_to_nanos(millis: u32) -> (r: u32)
    requires
        millis * 1_000_000 <= u32::MAX,
    ensures
        r == millis * 1_000_000,
{
    millis * 1_000_000
}

/// Converts bytes to whole megabytes, rounding down.
pub fn bytes_to_megabytes(bytes: u64) -> (r: u64)
    ensures
        r == bytes / 1_000_000,
{
    bytes / 1_000_000
}

} // verus!
