//! Maintenance scheduling: the expensive steps run only when the recorded
//! last-maintenance time lies far enough in the past.
use vstd::prelude::*;

verus! {

/// Seconds between full maintenance runs.
pub const MAINTENANCE_PERIOD_SECS: u64 = 604800;

/// Whether full maintenance is due: always when it never ran, otherwise
/// when more than the period has passed since the recorded time.
pub open spec fn maintenance_due(last: Option<u64>, now: u64) -> bool {
    match last {
        Some(t) => now > t + MAINTENANCE_PERIOD_SECS,
        None => true,
    }
}

/// Whether full maintenance is due (see [`maintenance_due`]).
pub fn should_run_maintenance(last: Option<u64>, now: u64) -> (r: bool)
    ensures
        r == maintenance_due(last, now),
{
    match last {
        Some(t) => t <= u64::MAX - MAINTENANCE_PERIOD_SECS && now > t + MAINTENANCE_PERIOD_SECS,
        None => true,
    }
}

} // verus!
