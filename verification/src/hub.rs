//! The hub's durable state: the two tables and the two key-value entries.
//!
//! Each request is a stateless unit of execution against this state; the
//! ingestion, export and dispatch operations are defined on it in their own
//! modules.

use vstd::prelude::*;

use crate::interval::IntervalTracker;
use crate::queue::CommandQueue;
use crate::retention::RetentionPolicy;
use crate::store::LogStore;

verus! {

/// All durable state: log table, command table, tracked maximum reporting
/// interval, and the retention throttle with its configuration.
pub struct Hub {
    pub store: LogStore,
    pub queue: CommandQueue,
    pub tracker: IntervalTracker,
    pub retention: RetentionPolicy,
}

impl Hub {
    pub open spec fn wf(self) -> bool {
        &&& self.store.wf()
        &&& self.queue.wf()
    }

    /// A fresh hub over empty tables.
    ///
    /// `default_upload_interval_seconds` sizes the export safety window
    /// until a cadence change is recorded; `cleanup_check_interval_seconds`
    /// throttles cleanup passes; records older than `retention_seconds`
    /// are expired.
    pub fn new(
        default_upload_interval_seconds: i64,
        cleanup_check_interval_seconds: i64,
        retention_seconds: i64,
    ) -> (r: Hub)
        ensures
            r.wf(),
            r.store.records@ == Seq::<crate::records::LogRecord>::empty(),
            r.store.next_id == 1,
            r.queue.records@ == Seq::<crate::records::CommandRecord>::empty(),
            r.queue.next_id == 1,
            r.tracker.current.is_none(),
            r.tracker.default_seconds == default_upload_interval_seconds,
            r.retention.last_cleanup.is_none(),
            r.retention.check_interval_seconds == cleanup_check_interval_seconds,
            r.retention.retention_seconds == retention_seconds,
    {
        Hub {
            store: LogStore::new(),
            queue: CommandQueue::new(),
            tracker: IntervalTracker::new(default_upload_interval_seconds),
            retention: RetentionPolicy::new(cleanup_check_interval_seconds, retention_seconds),
        }
    }
}

} // verus!

