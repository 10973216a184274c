//! The operator entry point: building and routing a command envelope.
//!
//! An envelope whose parameters name a node is targeted at that node;
//! otherwise it is broadcast to every node the log table knows. When the
//! command changes reporting cadence (`set_update_interval` with both
//! periods), the tracked maximum interval is updated: overwritten by a
//! fleet-wide directive, raised-only by a targeted one.

use vstd::prelude::*;

use crate::hub::Hub;
use crate::queue::broadcast_records;
use crate::records::{CommandRecord, Envelope, LogRecord};
use crate::store::{has_node, known_nodes_seq, lemma_known_nodes_ensures};

verus! {

/// The command name that changes reporting cadence.
pub open spec fn is_cadence_command(name: Seq<char>) -> bool {
    name == "set_update_interval"@
}

/// The node an envelope is targeted at, if its parameters name one;
/// `None` means broadcast scope.
pub open spec fn target_of(env: Envelope) -> Option<i64> {
    match env.parameters {
        Some(p) => p.node_id,
        None => None,
    }
}

/// The cadence candidate an envelope carries: for a cadence command with
/// both periods given, the larger of the two; otherwise nothing.
pub open spec fn cadence_candidate(env: Envelope) -> Option<i64> {
    if is_cadence_command(env.command@) {
        match env.parameters {
            Some(p) => match (p.active_period, p.inactive_period) {
                (Some(active), Some(inactive)) => Some(
                    if active >= inactive {
                        active
                    } else {
                        inactive
                    },
                ),
                _ => None,
            },
            None => None,
        }
    } else {
        None
    }
}

impl Hub {
    /// Enqueues `envelope` for its target scope, then records a cadence
    /// change if the envelope carries one.
    pub fn submit(&mut self, envelope: Envelope, now: i64)
        requires
            old(self).wf(),
            old(self).queue.next_id + old(self).store.records@.len() + 1 <= i64::MAX,
        ensures
            final(self).wf(),
            final(self).store == old(self).store,
            final(self).retention == old(self).retention,
            match target_of(envelope) {
                Some(n) => final(self).queue.records@ == old(self).queue.records@.push(
                    CommandRecord {
                        id: old(self).queue.next_id,
                        timestamp: now,
                        node_id: n,
                        envelope,
                    },
                ) && final(self).queue.next_id == old(self).queue.next_id + 1,
                None => final(self).queue.records@ == old(self).queue.records@
                    + broadcast_records(
                    old(self).queue.next_id as int,
                    known_nodes_seq(old(self).store.records@),
                    envelope,
                    now,
                ) && final(self).queue.next_id == old(self).queue.next_id + known_nodes_seq(
                    old(self).store.records@,
                ).len(),
            },
            match cadence_candidate(envelope) {
                Some(candidate) => final(self).tracker == old(self).tracker.with_cadence(
                    candidate,
                    target_of(envelope).is_none(),
                ),
                None => final(self).tracker == old(self).tracker,
            },
    {
        let target: Option<i64> = match &envelope.parameters {
            Some(p) => p.node_id,
            None => None,
        };
        let cadence_key: String = "set_update_interval".to_owned();
        let is_cadence = envelope.command == cadence_key;
        let candidate: Option<i64> = if is_cadence {
            match &envelope.parameters {
                Some(p) => match (p.active_period, p.inactive_period) {
                    (Some(active), Some(inactive)) => Some(
                        if active >= inactive {
                            active
                        } else {
                            inactive
                        },
                    ),
                    _ => None,
                },
                None => None,
            }
        } else {
            None
        };
        proof {
            assert(target == target_of(envelope));
            assert(candidate == cadence_candidate(envelope));
        }
        match target {
            Some(n) => {
                self.queue.enqueue(n, envelope, now);
            },
            None => {
                let nodes = self.store.known_node_ids();
                self.queue.broadcast_enqueue(&nodes, &envelope, now);
            },
        }
        if let Some(c) = candidate {
            let global = match target {
                Some(_) => false,
                None => true,
            };
            self.tracker.record_cadence(c, global);
        }
    }
}

/// Law: a broadcast enqueued over table `logs` queues exactly one copy of
/// the envelope for every node id present in `logs` at enqueue time, and
/// for no other node.
pub proof fn lemma_broadcast_coverage(
    logs: Seq<LogRecord>,
    q: Seq<CommandRecord>,
    env: Envelope,
    base: int,
    now: i64,
)
    ensures
        ({
            let appended = broadcast_records(base, known_nodes_seq(logs), env, now);
            &&& forall|n: i64|
                #[trigger] has_node(logs, n) <==> exists|j: int|
                    0 <= j < appended.len() && #[trigger] appended[j].node_id == n
            &&& forall|j: int| 0 <= j < appended.len() ==> #[trigger] appended[j].envelope == env
            &&& forall|j: int, k: int|
                0 <= j < k < appended.len() ==> #[trigger] appended[j].node_id
                    != #[trigger] appended[k].node_id
        }),
{
    lemma_known_nodes_ensures(logs);
    let nodes = known_nodes_seq(logs);
    let appended = broadcast_records(base, nodes, env, now);
    assert forall|n: i64| #[trigger] has_node(logs, n) implies exists|j: int|
        0 <= j < appended.len() && #[trigger] appended[j].node_id == n by {
        assert(nodes.contains(n));
        let i = choose|i: int| 0 <= i < nodes.len() && nodes[i] == n;
        assert(appended[i].node_id == n);
    }
    assert forall|n: i64|
        (exists|j: int| 0 <= j < appended.len() && #[trigger] appended[j].node_id == n) implies
        has_node(logs, n) by {
        let j = choose|j: int| 0 <= j < appended.len() && #[trigger] appended[j].node_id == n;
        assert(nodes[j] == n);
        assert(nodes.contains(n)) by {
            assert(nodes[j] == n);
        }
    }
}

} // verus!
