//! The wall clock, read as seconds since the Unix epoch.

use vstd::prelude::*;

verus! {

/// A bound on any timestamp chrono can represent: its date range spans
/// about 262,000 years around the common era, well under 10^13 seconds.
pub const EPOCH_SECS_BOUND: i64 = 10000000000000;

/// Relies on chrono::Utc::now and chrono::DateTime::timestamp: the moment of
/// the call, as seconds since the Unix epoch.  Nothing is promised of which
/// moment that is, only that it lies within chrono's documented date range.
/// chrono panics here if the system clock is set before 1970; no `requires`
/// can exclude an environment, so that stays a deployment assumption.
#[verifier::external_body]
pub fn now_secs() -> (r: i64)
    ensures
        -EPOCH_SECS_BOUND <= r <= EPOCH_SECS_BOUND,
{
    chrono::Utc::now().timestamp()
}

} // verus!
