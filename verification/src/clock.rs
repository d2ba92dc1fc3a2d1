//! The time of day.

use crate::model::Timestamp;
use std::time::{SystemTime, UNIX_EPOCH};
use vstd::prelude::*;

verus! {

/// `std::time::SystemTime::now` reads the clock of the machine: `Ok` of the seconds and nanoseconds
/// since the beginning of 1970, or `Err` of those that are left until then. Of the time that comes
/// back no more is known than that its nanoseconds are fewer than a second has.
#[verifier::external_body]
fn system_time() -> (r: Result<(u64, u32), (u64, u32)>)
    ensures
        r matches Ok(t) ==> t.1 < 1_000_000_000,
        r matches Err(t) ==> t.1 < 1_000_000_000,
{
    match SystemTime::now().duration_since(UNIX_EPOCH) {
        Ok(d) => Ok((d.as_secs(), d.subsec_nanos())),
        Err(e) => Err((e.duration().as_secs(), e.duration().subsec_nanos())),
    }
}

/// The time that a reading of the clock stands for.
pub open spec fn time_of(reading: Result<(u64, u32), (u64, u32)>) -> Timestamp {
    match reading {
        Ok(t) => Timestamp { before_epoch: false, secs: t.0, nanos: t.1 },
        Err(t) => Timestamp { before_epoch: true, secs: t.0, nanos: t.1 },
    }
}

/// The time that a reading of the clock stands for: the seconds and nanoseconds since the beginning
/// of 1970, or as an error those that are left until then.
pub fn timestamp_of(reading: Result<(u64, u32), (u64, u32)>) -> (r: Timestamp)
    ensures
        r == time_of(reading),
{
    match reading {
        Ok((secs, nanos)) => Timestamp { before_epoch: false, secs, nanos },
        Err((secs, nanos)) => Timestamp { before_epoch: true, secs, nanos },
    }
}

/// The time of day.
pub fn now() -> (r: Timestamp)
    ensures
        r.is_valid(),
{
    timestamp_of(system_time())
}

/// A time lies as far from 1970 as the clock says, and before it exactly where the clock says so.
pub proof fn law_time_is_what_the_clock_says(t: (u64, u32))
    ensures
        !time_of(Ok(t)).before_epoch,
        time_of(Ok(t)).secs == t.0 && time_of(Ok(t)).nanos == t.1,
        time_of(Err(t)).before_epoch,
        time_of(Err(t)).secs == t.0 && time_of(Err(t)).nanos == t.1,
{
}

} // verus!
