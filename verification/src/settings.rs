//! Application settings: what the workers read once at construction.

use vstd::prelude::*;

verus! {

use crate::duration::DurationValue;

/// One staleness tier: statuses up to `max_age` old are re-validated at
/// least every `frequency`.
#[derive(Clone, Copy, PartialEq, Eq, Structural, Debug)]
pub struct StatusRefreshSettings {
    pub max_age: DurationValue,
    pub frequency: DurationValue,
}

/// The application's settings.
#[derive(Clone)]
pub struct ApplicationSettings {
    /// How often the timeline updater runs a fetch-and-merge cycle.
    pub timeline_update_frequency: DurationValue,
    /// How many statuses a timeline query returns at most.
    pub timeline_statuses_count: u16,
    /// The staleness tiers driving the refresh scheduler.
    pub status_refresh: Vec<StatusRefreshSettings>,
}

impl ApplicationSettings {
    /// The update cadence in whole seconds.
    pub fn timeline_update_frequency_secs(&self) -> (r: u64)
        ensures
            r == self.timeline_update_frequency.secs,
    {
        self.timeline_update_frequency.secs
    }
}

} // verus!
