//! Ingestion: a probe's upload-and-receive exchange.
//!
//! One upload inserts every entry as a log record, triggers the throttled
//! retention check, and then drains and returns the node's pending
//! commands. Note that the retention pass sits between insertion and
//! drain: an expired command is reclaimed rather than delivered, and a
//! just-inserted record carrying an already-expired timestamp may be
//! cleaned up at once.

use vstd::prelude::*;

use crate::hub::Hub;
use crate::queue::{envelopes_of, pending_for, remaining_after_drain};
use crate::records::{Envelope, LogEntry};
use crate::retention::{cmd_expired, log_expired, prune, RetentionPolicy, CLEANUP_BATCH};
use crate::store::inserted_records;

verus! {

impl Hub {
    /// Accepts `entries` uploaded by `node_id` (timestamps taken
    /// verbatim; an empty batch is a valid heartbeat), runs the throttled
    /// retention check, and returns the node's drained command envelopes
    /// in enqueue order.
    pub fn upload(&mut self, node_id: i64, entries: &Vec<LogEntry>, now: i64) -> (r: Vec<Envelope>)
        requires
            old(self).wf(),
            node_id >= 0,
            old(self).store.next_id + entries@.len() <= i64::MAX,
        ensures
            final(self).wf(),
            final(self).tracker == old(self).tracker,
            final(self).store.next_id == old(self).store.next_id + entries@.len(),
            final(self).queue.next_id == old(self).queue.next_id,
            ({
                let stored = old(self).store.records@ + inserted_records(
                    old(self).store.next_id as int,
                    node_id,
                    entries@,
                );
                let due = old(self).retention.due(now as int);
                let cut = old(self).retention.retention_cutoff(now as int);
                let logs_after = if due {
                    prune(stored, log_expired(cut), CLEANUP_BATCH as nat)
                } else {
                    stored
                };
                let cmds_after = if due {
                    prune(old(self).queue.records@, cmd_expired(cut), CLEANUP_BATCH as nat)
                } else {
                    old(self).queue.records@
                };
                &&& final(self).store.records@ == logs_after
                &&& r@ == envelopes_of(pending_for(cmds_after, node_id))
                &&& final(self).queue.records@ == remaining_after_drain(cmds_after, node_id)
                &&& final(self).retention == if due {
                    (RetentionPolicy { last_cleanup: Some(now), ..old(self).retention })
                } else {
                    old(self).retention
                }
            }),
    {
        self.store.insert_entries(node_id, entries);
        self.retention.maybe_run(&mut self.store, &mut self.queue, now);
        self.queue.drain(node_id)
    }
}

} // verus!
