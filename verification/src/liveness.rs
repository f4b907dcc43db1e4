//! Freshness of heartbeat timestamps. All timestamps and timeouts are plain
//! values in seconds; callers pass the current time in.

use vstd::prelude::*;

verus! {

/// A timestamp is fresh while `now` has not moved more than `timeout` past
/// it. A timestamp that lies in the future counts as fresh.
pub open spec fn fresh(now: u64, ts: u64, timeout: u64) -> bool {
    now <= ts + timeout
}

/// Whether the timestamp `ts` is still fresh at `now`.
pub fn is_fresh(now: u64, ts: u64, timeout: u64) -> (r: bool)
    ensures
        r == fresh(now, ts, timeout),
{
    if now <= ts {
        true
    } else {
        now - ts <= timeout
    }
}

} // verus!
