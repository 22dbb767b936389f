use vstd::prelude::*;

verus! {

/// The work of one tick of the maintenance loop.
#[derive(Clone, Copy, Debug, PartialEq, Eq, Structural)]
pub enum Maintenance {
    /// Drop the connections that are no longer alive.
    Prune,
    /// Run a health-checking cycle and report statistics, then prune.
    CheckAndPrune,
}

/// Time between two ticks of the maintenance loop, in milliseconds.
pub const PRUNE_INTERVAL_MS: u64 = 1000;

/// A health check runs once more than this many milliseconds have passed
/// since the last one.
pub const CHECK_INTERVAL_MS: u64 = 10000;

/// One tick of the maintenance loop at `now_ms`, the last health check
/// having run at `last_check_ms`: what to do, and when the last health
/// check ran once it is done.
pub fn maintenance_tick(last_check_ms: u64, now_ms: u64) -> (r: (Maintenance, u64))
    requires
        last_check_ms <= now_ms,
    ensures
        now_ms - last_check_ms > CHECK_INTERVAL_MS ==> r == (Maintenance::CheckAndPrune, now_ms),
        now_ms - last_check_ms <= CHECK_INTERVAL_MS ==> r == (Maintenance::Prune, last_check_ms),
{
    if now_ms - last_check_ms > CHECK_INTERVAL_MS {
        (Maintenance::CheckAndPrune, now_ms)
    } else {
        (Maintenance::Prune, last_check_ms)
    }
}

} // verus!
