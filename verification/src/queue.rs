//! The per-node command queue: enqueue (targeted or broadcast) and an
//! atomic drain-on-read.
//!
//! A drain removes exactly the records it returns, so under single-writer
//! access a command is delivered at most once and never lost.

use vstd::prelude::*;

use crate::records::{CommandRecord, Envelope};

verus! {

/// Ids appear in strictly increasing order, so they are unique and reflect
/// enqueue order.
pub open spec fn cmd_ids_increasing(s: Seq<CommandRecord>) -> bool {
    forall|i: int, j: int| 0 <= i < j < s.len() ==> s[i].id < s[j].id
}

/// Every queued id is at least 1 and below the next id to be assigned.
pub open spec fn cmd_ids_bounded(s: Seq<CommandRecord>, bound: int) -> bool {
    forall|i: int| 0 <= i < s.len() ==> 1 <= #[trigger] s[i].id < bound
}

/// Holds of a record queued for `node`.
pub open spec fn for_node(node: i64) -> spec_fn(CommandRecord) -> bool {
    |c: CommandRecord| c.node_id == node
}

/// Holds of a record queued for any other node than `node`.
pub open spec fn not_for_node(node: i64) -> spec_fn(CommandRecord) -> bool {
    |c: CommandRecord| c.node_id != node
}

/// The records still queued for `node`, in enqueue order.
pub open spec fn pending_for(s: Seq<CommandRecord>, node: i64) -> Seq<CommandRecord> {
    s.filter(for_node(node))
}

/// The records a drain for `node` leaves behind.
pub open spec fn remaining_after_drain(s: Seq<CommandRecord>, node: i64) -> Seq<CommandRecord> {
    s.filter(not_for_node(node))
}

/// The envelopes of `s`, in order.
pub open spec fn envelopes_of(s: Seq<CommandRecord>) -> Seq<Envelope> {
    s.map_values(|c: CommandRecord| c.envelope)
}

/// The records a broadcast appends: one per target node, in target order,
/// with consecutive ids from `base` and the same envelope and enqueue time.
pub open spec fn broadcast_records(base: int, nodes: Seq<i64>, env: Envelope, now: i64) -> Seq<
    CommandRecord,
> {
    Seq::new(
        nodes.len(),
        |i: int| CommandRecord { id: (base + i) as i64, timestamp: now, node_id: nodes[i], envelope: env },
    )
}

/// Filtering keeps the id order and bounds of a queue.
pub proof fn lemma_filter_keeps_cmd_order(
    s: Seq<CommandRecord>,
    pred: spec_fn(CommandRecord) -> bool,
    bound: int,
)
    requires
        cmd_ids_increasing(s),
        cmd_ids_bounded(s, bound),
    ensures
        cmd_ids_increasing(s.filter(pred)),
        cmd_ids_bounded(s.filter(pred), bound),
    decreases s.len(),
{
    reveal(Seq::filter);
    if s.len() > 0 {
        let front = s.drop_last();
        assert(forall|k: int| 0 <= k < front.len() ==> front[k] == s[k]);
        lemma_filter_keeps_cmd_order(front, pred, bound);
        if pred(s.last()) {
            let sub = front.filter(pred);
            assert(s.filter(pred) == sub.push(s.last()));
            assert forall|i: int, j: int|
                0 <= i < j < sub.push(s.last()).len() implies sub.push(s.last())[i].id < sub.push(
                s.last(),
            )[j].id by {
                if j < sub.len() {
                } else {
                    let x = sub[i];
                    assert(sub.contains(x)) by {
                        assert(0 <= i < sub.len() && sub[i] == x);
                    }
                    front.lemma_filter_contains_rev(pred, x);
                    let k = choose|k: int| 0 <= k < front.len() && front[k] == x;
                    assert(s[k] == x);
                    assert(s[k].id < s.last().id);
                }
            }
        }
    }
}

/// The persisted command table together with the next id it will assign.
pub struct CommandQueue {
    pub records: Vec<CommandRecord>,
    pub next_id: i64,
}

impl CommandQueue {
    pub open spec fn wf(self) -> bool {
        &&& 1 <= self.next_id
        &&& cmd_ids_increasing(self.records@)
        &&& cmd_ids_bounded(self.records@, self.next_id as int)
    }

    /// An empty queue; the first command will get id 1.
    pub fn new() -> (r: CommandQueue)
        ensures
            r.wf(),
            r.records@ == Seq::<CommandRecord>::empty(),
            r.next_id == 1,
    {
        CommandQueue { records: Vec::new(), next_id: 1 }
    }

    /// Queues one command for one node, stamped with the server-assigned
    /// enqueue time `now`.
    pub fn enqueue(&mut self, node_id: i64, envelope: Envelope, now: i64)
        requires
            old(self).wf(),
            old(self).next_id < i64::MAX,
        ensures
            final(self).wf(),
            final(self).records@ == old(self).records@.push(
                CommandRecord { id: old(self).next_id, timestamp: now, node_id, envelope },
            ),
            final(self).next_id == old(self).next_id + 1,
    {
        let id = self.next_id;
        self.records.push(CommandRecord { id, timestamp: now, node_id, envelope });
        self.next_id = self.next_id + 1;
    }

    /// Queues one copy of `envelope` for every node in `nodes`, in order.
    pub fn broadcast_enqueue(&mut self, nodes: &Vec<i64>, envelope: &Envelope, now: i64)
        requires
            old(self).wf(),
            old(self).next_id + nodes@.len() <= i64::MAX,
        ensures
            final(self).wf(),
            final(self).records@ == old(self).records@ + broadcast_records(
                old(self).next_id as int,
                nodes@,
                *envelope,
                now,
            ),
            final(self).next_id == old(self).next_id + nodes@.len(),
    {
        let base = self.next_id;
        let ghost old_records = self.records@;
        let mut j: usize = 0;
        while j < nodes.len()
            invariant
                self.wf(),
                0 <= j <= nodes@.len(),
                base + nodes@.len() <= i64::MAX,
                1 <= base,
                self.next_id == base + j,
                self.records@ == old_records + broadcast_records(
                    base as int,
                    nodes@.take(j as int),
                    *envelope,
                    now,
                ),
            decreases nodes@.len() - j,
        {
            let node_id = nodes[j];
            self.records.push(
                CommandRecord {
                    id: self.next_id,
                    timestamp: now,
                    node_id,
                    envelope: envelope.clone(),
                },
            );
            self.next_id = self.next_id + 1;
            j = j + 1;
            proof {
                assert(self.records@ =~= old_records + broadcast_records(
                    base as int,
                    nodes@.take(j as int),
                    *envelope,
                    now,
                ));
            }
        }
        proof {
            assert(nodes@.take(nodes@.len() as int) == nodes@);
        }
    }

    /// Reads all pending envelopes for `node_id` in enqueue order and
    /// removes exactly those records, as one logical operation.
    pub fn drain(&mut self, node_id: i64) -> (r: Vec<Envelope>)
        requires
            old(self).wf(),
        ensures
            final(self).wf(),
            r@ == envelopes_of(pending_for(old(self).records@, node_id)),
            final(self).records@ == remaining_after_drain(old(self).records@, node_id),
            final(self).next_id == old(self).next_id,
    {
        broadcast use Seq::lemma_filter_push;

        let ghost all = self.records@;
        let mut delivered: Vec<Envelope> = Vec::new();
        let mut kept: Vec<CommandRecord> = Vec::new();
        let mut j: usize = 0;
        while j < self.records.len()
            invariant
                0 <= j <= self.records@.len(),
                self.records@ == all,
                delivered@ == envelopes_of(pending_for(all.take(j as int), node_id)),
                kept@ == remaining_after_drain(all.take(j as int), node_id),
            decreases self.records@.len() - j,
        {
            let c = &self.records[j];
            if c.node_id == node_id {
                delivered.push(c.envelope.clone());
            } else {
                kept.push(c.clone());
            }
            j = j + 1;
            proof {
                let prev = all.take(j as int - 1);
                let x = all[j as int - 1];
                assert(all.take(j as int) =~= prev.push(x));
                prev.lemma_filter_push(x, for_node(node_id));
                prev.lemma_filter_push(x, not_for_node(node_id));
                assert(delivered@ =~= envelopes_of(pending_for(all.take(j as int), node_id)));
                assert(kept@ =~= remaining_after_drain(all.take(j as int), node_id));
            }
        }
        proof {
            assert(all.take(all.len() as int) == all);
            lemma_filter_keeps_cmd_order(all, not_for_node(node_id), self.next_id as int);
        }
        self.records = kept;
        delivered
    }
}

/// Law: a command queued for node `n` is delivered by exactly the next
/// drain for `n` — its envelope is the last element of that drain's result —
/// and the drain leaves nothing behind for `n`, so no later drain can return
/// it again.
pub proof fn lemma_command_delivered_exactly_once(q: Seq<CommandRecord>, c: CommandRecord)
    ensures
        envelopes_of(pending_for(q.push(c), c.node_id)) == envelopes_of(
            pending_for(q, c.node_id),
        ).push(c.envelope),
        pending_for(remaining_after_drain(q.push(c), c.node_id), c.node_id) == Seq::<
            CommandRecord,
        >::empty(),
{
    let node = c.node_id;
    q.lemma_filter_push(c, for_node(node));
    q.lemma_filter_push(c, not_for_node(node));
    assert(envelopes_of(pending_for(q.push(c), node)) =~= envelopes_of(
        pending_for(q, node),
    ).push(c.envelope));
    let rest = remaining_after_drain(q.push(c), node);
    assert forall|i: int| 0 <= i < rest.len() implies rest[i].node_id != node by {
        broadcast use Seq::lemma_filter_pred;

    }
    let again = pending_for(rest, node);
    assert(again.len() == 0) by {
        broadcast use Seq::lemma_filter_pred, Seq::lemma_filter_len;

        if again.len() > 0 {
            assert(again[0].node_id == node);
            assert(again.contains(again[0])) by {
                assert(0 <= 0 < again.len() && again[0] == again[0]);
            }
            rest.lemma_filter_contains_rev(for_node(node), again[0]);
            let k = choose|k: int| 0 <= k < rest.len() && rest[k] == again[0];
            assert(rest[k].node_id != node);
        }
    }
    assert(again =~= Seq::<CommandRecord>::empty());
}

} // verus!
