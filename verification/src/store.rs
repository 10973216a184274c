//! The log table: append-mostly records keyed by an auto-incrementing id.
//!
//! Ids never decrease for records already persisted; the set of known nodes
//! is derived from this table as the distinct `node_id` values that have
//! ever produced a record.

use vstd::prelude::*;

use crate::records::{LogEntry, LogRecord};

verus! {

/// Ids appear in strictly increasing order, so they are unique and reflect
/// insertion order.
pub open spec fn log_ids_increasing(s: Seq<LogRecord>) -> bool {
    forall|i: int, j: int| 0 <= i < j < s.len() ==> s[i].id < s[j].id
}

/// Every persisted id is at least 1 and below the next id to be assigned.
pub open spec fn log_ids_bounded(s: Seq<LogRecord>, bound: int) -> bool {
    forall|i: int| 0 <= i < s.len() ==> 1 <= #[trigger] s[i].id < bound
}

/// The records that inserting `entries` for `node_id` appends, with ids
/// assigned consecutively from `base` and timestamps taken verbatim.
pub open spec fn inserted_records(base: int, node_id: i64, entries: Seq<LogEntry>) -> Seq<
    LogRecord,
> {
    Seq::new(
        entries.len(),
        |i: int|
            LogRecord {
                id: (base + i) as i64,
                timestamp: entries[i].timestamp,
                node_id: node_id,
                message: entries[i].message,
            },
    )
}

/// A strictly increasing sequence of node ids.
pub open spec fn nodes_increasing(s: Seq<i64>) -> bool {
    forall|i: int, j: int| 0 <= i < j < s.len() ==> s[i] < s[j]
}

/// Inserts `n` into a sorted sequence of distinct node ids, keeping it
/// sorted and distinct.
pub open spec fn insert_node(n: i64, s: Seq<i64>) -> Seq<i64>
    decreases s.len(),
{
    if s.len() == 0 {
        seq![n]
    } else if n < s[0] {
        seq![n] + s
    } else if n == s[0] {
        s
    } else {
        seq![s[0]] + insert_node(n, s.drop_first())
    }
}

/// The distinct node ids of `records`, in ascending order.
pub open spec fn known_nodes_seq(records: Seq<LogRecord>) -> Seq<i64>
    decreases records.len(),
{
    if records.len() == 0 {
        Seq::empty()
    } else {
        insert_node(records.last().node_id, known_nodes_seq(records.drop_last()))
    }
}

/// Some record in `records` carries node id `m`.
pub open spec fn has_node(records: Seq<LogRecord>, m: i64) -> bool {
    exists|i: int| 0 <= i < records.len() && #[trigger] records[i].node_id == m
}

/// What `insert_node` guarantees: order and length are kept, and membership
/// grows by exactly `n`.
pub proof fn lemma_insert_node_ensures(n: i64, s: Seq<i64>)
    requires
        nodes_increasing(s),
    ensures
        nodes_increasing(insert_node(n, s)),
        insert_node(n, s).len() <= s.len() + 1,
        insert_node(n, s).contains(n),
        forall|m: i64| insert_node(n, s).contains(m) <==> (m == n || s.contains(m)),
    decreases s.len(),
{
    let r = insert_node(n, s);
    if s.len() == 0 {
        assert(r =~= seq![n]);
        assert(r[0] == n);
        assert forall|m: i64| r.contains(m) implies (m == n || s.contains(m)) by {
            let i = choose|i: int| 0 <= i < r.len() && r[i] == m;
            assert(i == 0);
        }
    } else if n < s[0] {
        assert(r =~= seq![n] + s);
        assert forall|m: i64| r.contains(m) implies (m == n || s.contains(m)) by {
            let i = choose|i: int| 0 <= i < r.len() && r[i] == m;
            if i > 0 {
                assert(s[i - 1] == m);
            }
        }
        assert(r[0] == n);
        assert forall|m: i64| (m == n || s.contains(m)) implies r.contains(m) by {
            if m == n {
                assert(r[0] == m);
            } else {
                let i = choose|i: int| 0 <= i < s.len() && s[i] == m;
                assert(r[i + 1] == m);
            }
        }
    } else if n == s[0] {
        assert(r == s);
        assert(s[0] == n);
    } else {
        let tail = s.drop_first();
        assert(forall|k: int| 0 <= k < tail.len() ==> tail[k] == s[k + 1]);
        assert(nodes_increasing(tail));
        lemma_insert_node_ensures(n, tail);
        let rt = insert_node(n, tail);
        assert(r =~= seq![s[0]] + rt);
        assert forall|i: int, j: int| 0 <= i < j < r.len() implies r[i] < r[j] by {
            if i == 0 {
                let x = rt[j - 1];
                assert(r[j] == x);
                assert(rt.contains(x)) by {
                    assert(0 <= j - 1 < rt.len() && rt[j - 1] == x);
                }
                if x == n {
                    assert(s[0] < n);
                } else {
                    assert(tail.contains(x));
                    let k = choose|k: int| 0 <= k < tail.len() && tail[k] == x;
                    assert(tail[k] == s[k + 1]);
                    assert(s[0] < s[k + 1]);
                }
            } else {
                assert(r[i] == rt[i - 1] && r[j] == rt[j - 1]);
            }
        }
        assert(nodes_increasing(r));
        assert forall|m: i64| r.contains(m) implies (m == n || s.contains(m)) by {
            let i = choose|i: int| 0 <= i < r.len() && r[i] == m;
            if i == 0 {
                assert(s[0] == m);
            } else {
                assert(rt.contains(m)) by {
                    assert(0 <= i - 1 < rt.len() && rt[i - 1] == m);
                }
                if m != n {
                    assert(tail.contains(m));
                    let k = choose|k: int| 0 <= k < tail.len() && tail[k] == m;
                    assert(s[k + 1] == m);
                }
            }
        }
        assert forall|m: i64| (m == n || s.contains(m)) implies r.contains(m) by {
            if m == n {
                let k = choose|k: int| 0 <= k < rt.len() && rt[k] == n;
                assert(r[k + 1] == n);
            } else {
                let i = choose|i: int| 0 <= i < s.len() && s[i] == m;
                if i == 0 {
                    assert(r[0] == m);
                } else {
                    assert(tail[i - 1] == m);
                    assert(tail.contains(m)) by {
                        assert(0 <= i - 1 < tail.len() && tail[i - 1] == m);
                    }
                    assert(rt.contains(m));
                    let k = choose|k: int| 0 <= k < rt.len() && rt[k] == m;
                    assert(r[k + 1] == m);
                }
            }
        }
    }
}

/// What the derived node set guarantees: ascending distinct ids, no more of
/// them than there are records, and exactly the ids that occur in the table.
pub proof fn lemma_known_nodes_ensures(records: Seq<LogRecord>)
    ensures
        nodes_increasing(known_nodes_seq(records)),
        known_nodes_seq(records).len() <= records.len(),
        forall|m: i64| known_nodes_seq(records).contains(m) <==> has_node(records, m),
    decreases records.len(),
{
    if records.len() == 0 {
        assert forall|m: i64| known_nodes_seq(records).contains(m) implies has_node(
            records,
            m,
        ) by {
            let i = choose|i: int|
                0 <= i < known_nodes_seq(records).len() && known_nodes_seq(records)[i] == m;
        }
    } else {
        let front = records.drop_last();
        let last = records.last();
        assert(forall|k: int| 0 <= k < front.len() ==> front[k] == records[k]);
        lemma_known_nodes_ensures(front);
        lemma_insert_node_ensures(last.node_id, known_nodes_seq(front));
        assert forall|m: i64| known_nodes_seq(records).contains(m) implies has_node(
            records,
            m,
        ) by {
            if m == last.node_id {
                assert(records[records.len() - 1].node_id == m);
            } else {
                assert(known_nodes_seq(front).contains(m));
                assert(has_node(front, m));
                let i = choose|i: int| 0 <= i < front.len() && #[trigger] front[i].node_id == m;
                assert(records[i].node_id == m);
            }
        }
        assert forall|m: i64| has_node(records, m) implies known_nodes_seq(records).contains(
            m,
        ) by {
            let i = choose|i: int| 0 <= i < records.len() && #[trigger] records[i].node_id == m;
            if i < records.len() - 1 {
                assert(front[i].node_id == m);
                assert(has_node(front, m));
                assert(known_nodes_seq(front).contains(m));
                assert(known_nodes_seq(records).contains(m));
            } else {
                assert(m == last.node_id);
                assert(known_nodes_seq(records).contains(m));
            }
        }
    }
}

/// The persisted log table together with the next id it will assign.
pub struct LogStore {
    pub records: Vec<LogRecord>,
    pub next_id: i64,
}

impl LogStore {
    pub open spec fn wf(self) -> bool {
        &&& 1 <= self.next_id
        &&& log_ids_increasing(self.records@)
        &&& log_ids_bounded(self.records@, self.next_id as int)
    }

    /// An empty table; the first record will get id 1.
    pub fn new() -> (r: LogStore)
        ensures
            r.wf(),
            r.records@ == Seq::<LogRecord>::empty(),
            r.next_id == 1,
    {
        LogStore { records: Vec::new(), next_id: 1 }
    }

    /// Inserts every entry as a record tagged with `node_id`, preserving the
    /// caller-supplied timestamps verbatim. Either the whole batch is
    /// appended or (per the id headroom precondition) nothing panics.
    pub fn insert_entries(&mut self, node_id: i64, entries: &Vec<LogEntry>)
        requires
            old(self).wf(),
            node_id >= 0,
            old(self).next_id + entries@.len() <= i64::MAX,
        ensures
            final(self).wf(),
            final(self).records@ == old(self).records@ + inserted_records(
                old(self).next_id as int,
                node_id,
                entries@,
            ),
            final(self).next_id == old(self).next_id + entries@.len(),
    {
        let base = self.next_id;
        let ghost old_records = self.records@;
        let mut j: usize = 0;
        while j < entries.len()
            invariant
                self.wf(),
                0 <= j <= entries@.len(),
                base + entries@.len() <= i64::MAX,
                1 <= base,
                self.next_id == base + j,
                self.records@ == old_records + inserted_records(
                    base as int,
                    node_id,
                    entries@.take(j as int),
                ),
            decreases entries@.len() - j,
        {
            let e = &entries[j];
            self.records.push(
                LogRecord {
                    id: self.next_id,
                    timestamp: e.timestamp,
                    node_id: node_id,
                    message: e.message.clone(),
                },
            );
            self.next_id = self.next_id + 1;
            j = j + 1;
            proof {
                assert(self.records@ == old_records + inserted_records(
                    base as int,
                    node_id,
                    entries@.take(j as int),
                )) by {
                    assert(entries@.take(j as int).drop_last() == entries@.take(j as int - 1));
                    assert(self.records@ =~= old_records + inserted_records(
                        base as int,
                        node_id,
                        entries@.take(j as int),
                    ));
                }
            }
        }
        proof {
            assert(entries@.take(entries@.len() as int) == entries@);
        }
    }

    /// The distinct node ids that occur in the table, in ascending order.
    /// This is the broadcast target set: a node that has never uploaded is
    /// not in it.
    pub fn known_node_ids(&self) -> (r: Vec<i64>)
        ensures
            r@ == known_nodes_seq(self.records@),
            r@.len() <= self.records@.len(),
            nodes_increasing(r@),
            forall|m: i64| r@.contains(m) <==> has_node(self.records@, m),
    {
        let mut r: Vec<i64> = Vec::new();
        let mut j: usize = 0;
        while j < self.records.len()
            invariant
                0 <= j <= self.records@.len(),
                r@ == known_nodes_seq(self.records@.take(j as int)),
                r@.len() <= j,
                nodes_increasing(r@),
            decreases self.records@.len() - j,
        {
            let n = self.records[j].node_id;
            let ghost before = r@;
            // find the first position whose id is not below n
            let mut p: usize = 0;
            while p < r.len() && r[p] < n
                invariant
                    0 <= p <= r@.len(),
                    forall|k: int| 0 <= k < p ==> r@[k] < n,
                decreases r@.len() - p,
            {
                p = p + 1;
            }
            if p == r.len() {
                r.push(n);
            } else if r[p] != n {
                r.insert(p, n);
            }
            proof {
                lemma_insert_node_split(n, before, p as int);
                assert(self.records@.take(j as int + 1).drop_last() == self.records@.take(
                    j as int,
                ));
                assert(self.records@.take(j as int + 1).last() == self.records@[j as int]);
                lemma_insert_node_ensures(n, before);
            }
            j = j + 1;
        }
        proof {
            assert(self.records@.take(self.records@.len() as int) == self.records@);
            lemma_known_nodes_ensures(self.records@);
        }
        r
    }
}

/// Relates `insert_node` to the splice an in-place insertion performs: with
/// `p` the first position whose id is not below `n`, inserting at `p` (or
/// skipping an exact duplicate there) is what `insert_node` means.
pub proof fn lemma_insert_node_split(n: i64, s: Seq<i64>, p: int)
    requires
        nodes_increasing(s),
        0 <= p <= s.len(),
        forall|k: int| 0 <= k < p ==> s[k] < n,
        p < s.len() ==> s[p] >= n,
    ensures
        insert_node(n, s) == if p < s.len() && s[p] == n {
            s
        } else {
            s.take(p).push(n) + s.skip(p)
        },
    decreases s.len(),
{
    if s.len() == 0 {
        assert(insert_node(n, s) =~= s.take(0).push(n) + s.skip(0));
    } else if p == 0 {
        if s[0] == n {
        } else {
            assert(n < s[0]);
            assert(insert_node(n, s) =~= s.take(0).push(n) + s.skip(0));
        }
    } else {
        let tail = s.drop_first();
        assert(nodes_increasing(tail)) by {
            assert(forall|i: int, j: int|
                0 <= i < j < tail.len() ==> tail[i] == s[i + 1] && tail[j] == s[j + 1]);
        }
        assert(s[0] < n);
        assert(forall|k: int| 0 <= k < p - 1 ==> tail[k] == s[k + 1]);
        lemma_insert_node_split(n, tail, p - 1);
        if p < s.len() && s[p] == n {
            assert(tail[p - 1] == n);
            assert(insert_node(n, s) =~= seq![s[0]] + tail);
            assert(seq![s[0]] + tail =~= s);
        } else {
            assert(insert_node(n, s) =~= seq![s[0]] + (tail.take(p - 1).push(n) + tail.skip(
                p - 1,
            )));
            assert(seq![s[0]] + (tail.take(p - 1).push(n) + tail.skip(p - 1)) =~= s.take(p).push(n)
                + s.skip(p));
        }
    }
}

} // verus!
