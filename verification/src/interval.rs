//! The fleet-wide maximum reporting interval.
//!
//! The export safety window is sized from the slowest reporting cadence the
//! hub knows of. A targeted cadence change may only widen the tracked
//! maximum (another node may still be slower); a fleet-wide change is
//! authoritative and overwrites it.

use vstd::prelude::*;

verus! {

/// Persisted interval state: the tracked maximum reporting interval in
/// seconds, or `None` while no cadence change has ever been recorded, in
/// which case the configured default applies.
pub struct IntervalTracker {
    pub current: Option<i64>,
    pub default_seconds: i64,
}

impl IntervalTracker {
    /// The interval (seconds) that currently sizes the export safety window.
    pub open spec fn max_interval(self) -> int {
        match self.current {
            Some(v) => v as int,
            None => self.default_seconds as int,
        }
    }

    /// The state after recording a cadence change of `candidate` seconds.
    /// A fleet-wide (`global`) change overwrites the tracked maximum; a
    /// targeted change only ever raises it.
    pub open spec fn with_cadence(self, candidate: i64, global: bool) -> IntervalTracker {
        if global {
            IntervalTracker { current: Some(candidate), ..self }
        } else if candidate > self.max_interval() {
            IntervalTracker { current: Some(candidate), ..self }
        } else {
            self
        }
    }

    pub fn new(default_seconds: i64) -> (r: IntervalTracker)
        ensures
            r.current.is_none(),
            r.default_seconds == default_seconds,
    {
        IntervalTracker { current: None, default_seconds }
    }

    /// Reads the tracked maximum, falling back to the configured default.
    pub fn get(&self) -> (r: i64)
        ensures
            r as int == self.max_interval(),
    {
        match self.current {
            Some(v) => v,
            None => self.default_seconds,
        }
    }

    /// Records a cadence change.
    pub fn record_cadence(&mut self, candidate: i64, global: bool)
        ensures
            *final(self) == old(self).with_cadence(candidate, global),
    {
        if global {
            self.current = Some(candidate);
        } else {
            let current = self.get();
            if candidate > current {
                self.current = Some(candidate);
            }
        }
    }
}

/// Law: a targeted cadence change never lowers the tracked maximum interval,
/// and a fleet-wide one always sets it to the candidate value, whatever the
/// prior state was.
pub proof fn lemma_cadence_update_rules(t: IntervalTracker, candidate: i64)
    ensures
        t.with_cadence(candidate, false).max_interval() >= t.max_interval(),
        t.with_cadence(candidate, false).max_interval() >= candidate,
        t.with_cadence(candidate, true).max_interval() == candidate,
{
}

} // verus!
