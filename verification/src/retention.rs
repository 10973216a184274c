//! Throttled, bounded-batch retention.
//!
//! A cleanup pass may run at most once per configured check interval,
//! however many requests arrive. One pass deletes records strictly older
//! than the retention window from both tables, at most a fixed batch of
//! rows each, so a large backlog shrinks gradually across subsequent
//! triggering requests instead of holding long locks.

use vstd::prelude::*;

use crate::queue::{cmd_ids_bounded, cmd_ids_increasing, CommandQueue};
use crate::records::{CommandRecord, LogRecord};
use crate::store::{log_ids_bounded, log_ids_increasing, LogStore};

verus! {

/// Row cap of one delete statement within a cleanup pass.
pub const CLEANUP_BATCH: usize = 10000;

/// Holds of a log record strictly older than the retention cutoff.
pub open spec fn log_expired(cutoff: int) -> spec_fn(LogRecord) -> bool {
    |r: LogRecord| r.timestamp < cutoff
}

/// Holds of a command record strictly older than the retention cutoff.
pub open spec fn cmd_expired(cutoff: int) -> spec_fn(CommandRecord) -> bool {
    |c: CommandRecord| c.timestamp < cutoff
}

/// The complement of a predicate.
pub open spec fn not_pred<T>(p: spec_fn(T) -> bool) -> spec_fn(T) -> bool {
    |x: T| !p(x)
}

/// One bounded delete: removes the first up-to-`budget` elements that
/// satisfy `dead`, scanning in table order, and keeps everything else.
pub open spec fn prune<T>(s: Seq<T>, dead: spec_fn(T) -> bool, budget: nat) -> Seq<T>
    decreases s.len(),
{
    if s.len() == 0 {
        s
    } else if dead(s[0]) && budget > 0 {
        prune(s.drop_first(), dead, (budget - 1) as nat)
    } else {
        seq![s[0]] + prune(s.drop_first(), dead, budget)
    }
}

/// `k` consecutive cleanup passes.
pub open spec fn passes<T>(s: Seq<T>, dead: spec_fn(T) -> bool, budget: nat, k: nat) -> Seq<T>
    decreases k,
{
    if k == 0 {
        s
    } else {
        passes(prune(s, dead, budget), dead, budget, (k - 1) as nat)
    }
}

/// A pass only ever drops elements of the table; it invents none.
pub proof fn lemma_prune_subset<T>(s: Seq<T>, dead: spec_fn(T) -> bool, budget: nat)
    ensures
        forall|x: T| #[trigger] prune(s, dead, budget).contains(x) ==> s.contains(x),
    decreases s.len(),
{
    if s.len() > 0 {
        let rest = s.drop_first();
        assert(forall|k: int| 0 <= k < rest.len() ==> rest[k] == s[k + 1]);
        if dead(s[0]) && budget > 0 {
            lemma_prune_subset(rest, dead, (budget - 1) as nat);
            assert forall|x: T| #[trigger] prune(s, dead, budget).contains(x) implies s.contains(
                x,
            ) by {
                assert(prune(s, dead, budget) == prune(rest, dead, (budget - 1) as nat));
                assert(prune(rest, dead, (budget - 1) as nat).contains(x));
                assert(rest.contains(x));
                let k = choose|k: int| 0 <= k < rest.len() && rest[k] == x;
                assert(s[k + 1] == x);
            }
        } else {
            lemma_prune_subset(rest, dead, budget);
            assert forall|x: T| #[trigger] prune(s, dead, budget).contains(x) implies s.contains(
                x,
            ) by {
                let r = prune(s, dead, budget);
                let i = choose|i: int| 0 <= i < r.len() && r[i] == x;
                if i == 0 {
                    assert(s[0] == x);
                } else {
                    assert(prune(rest, dead, budget).contains(x)) by {
                        assert(prune(rest, dead, budget)[i - 1] == x);
                    }
                    assert(rest.contains(x));
                    let k = choose|k: int| 0 <= k < rest.len() && rest[k] == x;
                    assert(s[k + 1] == x);
                }
            }
        }
    }
}

/// A pass keeps the id order and bounds of the log table.
pub proof fn lemma_prune_keeps_log_order(
    s: Seq<LogRecord>,
    dead: spec_fn(LogRecord) -> bool,
    budget: nat,
    bound: int,
)
    requires
        log_ids_increasing(s),
        log_ids_bounded(s, bound),
    ensures
        log_ids_increasing(prune(s, dead, budget)),
        log_ids_bounded(prune(s, dead, budget), bound),
    decreases s.len(),
{
    if s.len() > 0 {
        let rest = s.drop_first();
        assert(forall|k: int| 0 <= k < rest.len() ==> rest[k] == s[k + 1]);
        if dead(s[0]) && budget > 0 {
            lemma_prune_keeps_log_order(rest, dead, (budget - 1) as nat, bound);
            assert(prune(s, dead, budget) == prune(rest, dead, (budget - 1) as nat));
        } else {
            lemma_prune_keeps_log_order(rest, dead, budget, bound);
            let pr = prune(rest, dead, budget);
            let r = prune(s, dead, budget);
            assert(r =~= seq![s[0]] + pr);
            lemma_prune_subset(rest, dead, budget);
            assert forall|i: int, j: int| 0 <= i < j < r.len() implies r[i].id < r[j].id by {
                if i == 0 {
                    let x = pr[j - 1];
                    assert(pr.contains(x)) by {
                        assert(pr[j - 1] == x);
                    }
                    assert(rest.contains(x));
                    let k = choose|k: int| 0 <= k < rest.len() && rest[k] == x;
                    assert(s[k + 1] == x);
                } else {
                    assert(r[i] == pr[i - 1] && r[j] == pr[j - 1]);
                }
            }
            assert forall|i: int| 0 <= i < r.len() implies 1 <= #[trigger] r[i].id < bound by {
                if i > 0 {
                    let x = pr[i - 1];
                    assert(pr.contains(x)) by {
                        assert(pr[i - 1] == x);
                    }
                    assert(rest.contains(x));
                    let k = choose|k: int| 0 <= k < rest.len() && rest[k] == x;
                    assert(s[k + 1] == x);
                }
            }
        }
    }
}

/// A pass keeps the id order and bounds of the command table.
pub proof fn lemma_prune_keeps_cmd_order(
    s: Seq<CommandRecord>,
    dead: spec_fn(CommandRecord) -> bool,
    budget: nat,
    bound: int,
)
    requires
        cmd_ids_increasing(s),
        cmd_ids_bounded(s, bound),
    ensures
        cmd_ids_increasing(prune(s, dead, budget)),
        cmd_ids_bounded(prune(s, dead, budget), bound),
    decreases s.len(),
{
    if s.len() > 0 {
        let rest = s.drop_first();
        assert(forall|k: int| 0 <= k < rest.len() ==> rest[k] == s[k + 1]);
        if dead(s[0]) && budget > 0 {
            lemma_prune_keeps_cmd_order(rest, dead, (budget - 1) as nat, bound);
            assert(prune(s, dead, budget) == prune(rest, dead, (budget - 1) as nat));
        } else {
            lemma_prune_keeps_cmd_order(rest, dead, budget, bound);
            let pr = prune(rest, dead, budget);
            let r = prune(s, dead, budget);
            assert(r =~= seq![s[0]] + pr);
            lemma_prune_subset(rest, dead, budget);
            assert forall|i: int, j: int| 0 <= i < j < r.len() implies r[i].id < r[j].id by {
                if i == 0 {
                    let x = pr[j - 1];
                    assert(pr.contains(x)) by {
                        assert(pr[j - 1] == x);
                    }
                    assert(rest.contains(x));
                    let k = choose|k: int| 0 <= k < rest.len() && rest[k] == x;
                    assert(s[k + 1] == x);
                } else {
                    assert(r[i] == pr[i - 1] && r[j] == pr[j - 1]);
                }
            }
            assert forall|i: int| 0 <= i < r.len() implies 1 <= #[trigger] r[i].id < bound by {
                if i > 0 {
                    let x = pr[i - 1];
                    assert(pr.contains(x)) by {
                        assert(pr[i - 1] == x);
                    }
                    assert(rest.contains(x));
                    let k = choose|k: int| 0 <= k < rest.len() && rest[k] == x;
                    assert(s[k + 1] == x);
                }
            }
        }
    }
}

/// A pass removes only expired elements: the live subsequence is untouched.
pub proof fn lemma_prune_keeps_live<T>(s: Seq<T>, dead: spec_fn(T) -> bool, budget: nat)
    ensures
        prune(s, dead, budget).filter(not_pred(dead)) == s.filter(not_pred(dead)),
    decreases s.len(),
{
    if s.len() == 0 {
        reveal(Seq::filter);
    } else {
        let rest = s.drop_first();
        assert(s =~= seq![s[0]] + rest);
        rest.filter(not_pred(dead)).lemma_filter_prepend(s[0], not_pred(dead));
        rest.lemma_filter_prepend(s[0], not_pred(dead));
        if dead(s[0]) && budget > 0 {
            lemma_prune_keeps_live(rest, dead, (budget - 1) as nat);
            assert((seq![s[0]] + rest).filter(not_pred(dead)) == rest.filter(not_pred(dead)));
        } else {
            lemma_prune_keeps_live(rest, dead, budget);
            let pr = prune(rest, dead, budget);
            pr.lemma_filter_prepend(s[0], not_pred(dead));
        }
    }
}

/// How many expired elements one pass removes: the whole batch if that many
/// are there, otherwise every one of them.
pub proof fn lemma_prune_dead_count<T>(s: Seq<T>, dead: spec_fn(T) -> bool, budget: nat)
    ensures
        s.filter(dead).len() >= budget ==> prune(s, dead, budget).filter(dead).len() == s.filter(
            dead,
        ).len() - budget,
        s.filter(dead).len() < budget ==> prune(s, dead, budget).filter(dead).len() == 0,
    decreases s.len(),
{
    if s.len() == 0 {
        reveal(Seq::filter);
    } else {
        let rest = s.drop_first();
        assert(s =~= seq![s[0]] + rest);
        rest.lemma_filter_prepend(s[0], dead);
        if dead(s[0]) && budget > 0 {
            lemma_prune_dead_count(rest, dead, (budget - 1) as nat);
        } else {
            lemma_prune_dead_count(rest, dead, budget);
            let pr = prune(rest, dead, budget);
            pr.lemma_filter_prepend(s[0], dead);
        }
    }
}

/// A table with no expired elements is exactly its live subsequence.
pub proof fn lemma_no_dead_fixpoint<T>(s: Seq<T>, dead: spec_fn(T) -> bool)
    requires
        s.filter(dead).len() == 0,
    ensures
        s.filter(not_pred(dead)) == s,
    decreases s.len(),
{
    if s.len() == 0 {
        reveal(Seq::filter);
    } else {
        let rest = s.drop_first();
        assert(s =~= seq![s[0]] + rest);
        rest.lemma_filter_prepend(s[0], dead);
        rest.lemma_filter_prepend(s[0], not_pred(dead));
        if dead(s[0]) {
            assert(s.filter(dead).len() == rest.filter(dead).len() + 1);
        } else {
            lemma_no_dead_fixpoint(rest, dead);
            assert(s.filter(not_pred(dead)) =~= s);
        }
    }
}

/// Law: across however many bounded passes are needed, cleanup removes all
/// and only the expired records — once the expired backlog fits in `k`
/// batches, `k` passes leave exactly the live subsequence.
pub proof fn lemma_cleanup_converges<T>(s: Seq<T>, dead: spec_fn(T) -> bool, budget: nat, k: nat)
    requires
        s.filter(dead).len() <= k * budget,
    ensures
        passes(s, dead, budget, k) == s.filter(not_pred(dead)),
    decreases k,
{
    if k == 0 {
        assert(k * budget == 0) by (nonlinear_arith)
            requires
                k == 0,
        ;
        lemma_no_dead_fixpoint(s, dead);
    } else {
        let s1 = prune(s, dead, budget);
        lemma_prune_keeps_live(s, dead, budget);
        lemma_prune_dead_count(s, dead, budget);
        assert((k - 1) * budget == k * budget - budget) by (nonlinear_arith);
        if s.filter(dead).len() >= budget {
            assert(s1.filter(dead).len() <= (k - 1) * budget);
        } else {
            assert(s1.filter(dead).len() == 0);
            assert(s1.filter(dead).len() <= (k - 1) * budget) by (nonlinear_arith)
                requires
                    s1.filter(dead).len() == 0,
                    k >= 1,
                    budget >= 0,
            ;
        }
        lemma_cleanup_converges(s1, dead, budget, (k - 1) as nat);
    }
}

/// Law: a record still within the retention window survives any cleanup
/// pass, so an uploaded record can only leave the table by expiring.
pub proof fn lemma_live_record_survives_pass<T>(
    s: Seq<T>,
    dead: spec_fn(T) -> bool,
    budget: nat,
    x: T,
)
    requires
        s.contains(x),
        !dead(x),
    ensures
        prune(s, dead, budget).contains(x),
{
    lemma_prune_keeps_live(s, dead, budget);
    let i = choose|i: int| 0 <= i < s.len() && s[i] == x;
    assert(not_pred(dead)(s[i]));
    s.lemma_filter_contains(not_pred(dead), i);
    assert(prune(s, dead, budget).filter(not_pred(dead)).contains(x));
    prune(s, dead, budget).lemma_filter_contains_rev(not_pred(dead), x);
}

/// Persisted throttle state and the retention configuration.
pub struct RetentionPolicy {
    /// When a cleanup pass last ran, if ever.
    pub last_cleanup: Option<i64>,
    /// Minimum seconds between two cleanup passes.
    pub check_interval_seconds: i64,
    /// Records strictly older than this many seconds are expired.
    pub retention_seconds: i64,
}

impl RetentionPolicy {
    /// A pass may run: none has ever run, or the last one is at least a
    /// check interval old.
    pub open spec fn due(self, now: int) -> bool {
        match self.last_cleanup {
            None => true,
            Some(t) => now - t >= self.check_interval_seconds,
        }
    }

    /// The expiry boundary a pass at `now` uses.
    pub open spec fn retention_cutoff(self, now: int) -> int {
        now - self.retention_seconds
    }

    pub fn new(check_interval_seconds: i64, retention_seconds: i64) -> (r: RetentionPolicy)
        ensures
            r.last_cleanup.is_none(),
            r.check_interval_seconds == check_interval_seconds,
            r.retention_seconds == retention_seconds,
    {
        RetentionPolicy { last_cleanup: None, check_interval_seconds, retention_seconds }
    }

    /// Runs one cleanup pass if the throttle allows it, and records the run.
    /// The pass deletes at most one batch of expired records from each
    /// table and touches nothing else.
    pub fn maybe_run(&mut self, store: &mut LogStore, queue: &mut CommandQueue, now: i64) -> (ran:
        bool)
        requires
            old(store).wf(),
            old(queue).wf(),
        ensures
            final(store).wf(),
            final(queue).wf(),
            ran == old(self).due(now as int),
            final(self).check_interval_seconds == old(self).check_interval_seconds,
            final(self).retention_seconds == old(self).retention_seconds,
            final(store).next_id == old(store).next_id,
            final(queue).next_id == old(queue).next_id,
            ran ==> final(self).last_cleanup == Some(now),
            ran ==> final(store).records@ == prune(
                old(store).records@,
                log_expired(old(self).retention_cutoff(now as int)),
                CLEANUP_BATCH as nat,
            ),
            ran ==> final(queue).records@ == prune(
                old(queue).records@,
                cmd_expired(old(self).retention_cutoff(now as int)),
                CLEANUP_BATCH as nat,
            ),
            !ran ==> *final(self) == *old(self) && *final(store) == *old(store) && *final(queue)
                == *old(queue),
    {
        let run = match self.last_cleanup {
            None => true,
            Some(t) => (now as i128) - (t as i128) >= (self.check_interval_seconds as i128),
        };
        if run {
            prune_expired_logs(&mut store.records, now, self.retention_seconds);
            prune_expired_commands(&mut queue.records, now, self.retention_seconds);
            proof {
                lemma_prune_keeps_log_order(
                    old(store).records@,
                    log_expired(self.retention_cutoff(now as int)),
                    CLEANUP_BATCH as nat,
                    store.next_id as int,
                );
                lemma_prune_keeps_cmd_order(
                    old(queue).records@,
                    cmd_expired(self.retention_cutoff(now as int)),
                    CLEANUP_BATCH as nat,
                    queue.next_id as int,
                );
            }
            self.last_cleanup = Some(now);
        }
        run
    }
}

/// Law: a pass that just ran is not due again within the throttle window,
/// so a cleanup attempted twice in immediate succession deletes nothing the
/// second time.
pub proof fn lemma_throttle_blocks_rerun(p: RetentionPolicy, ran_at: i64, later: i64)
    requires
        p.check_interval_seconds > 0,
        p.last_cleanup == Some(ran_at),
        (later as int) - (ran_at as int) < (p.check_interval_seconds as int),
    ensures
        !p.due(later as int),
{
}

/// Deletes the first up-to-batch log records strictly older than the
/// retention cutoff.
fn prune_expired_logs(v: &mut Vec<LogRecord>, now: i64, retention_seconds: i64)
    ensures
        final(v)@ == prune(
            old(v)@,
            log_expired(now as int - retention_seconds as int),
            CLEANUP_BATCH as nat,
        ),
{
    let ghost all = v@;
    let ghost cutoff: int = (now as int) - (retention_seconds as int);
    let ghost dead = log_expired(cutoff);
    let mut kept: Vec<LogRecord> = Vec::new();
    let mut removed: usize = 0;
    let mut j: usize = 0;
    proof {
        assert(all.skip(0) =~= all);
        assert(kept@ + prune(all, dead, CLEANUP_BATCH as nat) =~= prune(
            all,
            dead,
            CLEANUP_BATCH as nat,
        ));
    }
    while j < v.len()
        invariant
            0 <= j <= all.len(),
            v@ == all,
            cutoff == (now as int) - (retention_seconds as int),
            dead == log_expired(cutoff),
            removed <= CLEANUP_BATCH,
            prune(all, dead, CLEANUP_BATCH as nat) == kept@ + prune(
                all.skip(j as int),
                dead,
                (CLEANUP_BATCH - removed) as nat,
            ),
        decreases all.len() - j,
    {
        let r = &v[j];
        let expired = (r.timestamp as i128) < (now as i128) - (retention_seconds as i128);
        let ghost prev_kept = kept@;
        let ghost bud = (CLEANUP_BATCH - removed) as nat;
        let ghost tail = all.skip(j as int);
        proof {
            assert(tail[0] == all[j as int]);
            assert(tail.drop_first() =~= all.skip(j as int + 1));
            assert(log_expired(cutoff)(all[j as int]) == (all[j as int].timestamp < cutoff));
            assert(expired == dead(all[j as int]));
        }
        if expired && removed < CLEANUP_BATCH {
            removed = removed + 1;
            proof {
                assert(prune(tail, dead, bud) == prune(
                    all.skip(j as int + 1),
                    dead,
                    (CLEANUP_BATCH - removed) as nat,
                ));
            }
        } else {
            kept.push(r.clone());
            proof {
                assert(prune(tail, dead, bud) =~= seq![all[j as int]] + prune(
                    all.skip(j as int + 1),
                    dead,
                    bud,
                ));
                assert(prev_kept + prune(tail, dead, bud) =~= kept@ + prune(
                    all.skip(j as int + 1),
                    dead,
                    bud,
                ));
            }
        }
        j = j + 1;
    }
    proof {
        assert(all.skip(all.len() as int) =~= Seq::<LogRecord>::empty());
        assert(kept@ + prune(all.skip(all.len() as int), dead, (CLEANUP_BATCH - removed) as nat)
            =~= kept@);
    }
    *v = kept;
}

/// Deletes the first up-to-batch command records strictly older than the
/// retention cutoff.
fn prune_expired_commands(v: &mut Vec<CommandRecord>, now: i64, retention_seconds: i64)
    ensures
        final(v)@ == prune(
            old(v)@,
            cmd_expired(now as int - retention_seconds as int),
            CLEANUP_BATCH as nat,
        ),
{
    let ghost all = v@;
    let ghost cutoff: int = (now as int) - (retention_seconds as int);
    let ghost dead = cmd_expired(cutoff);
    let mut kept: Vec<CommandRecord> = Vec::new();
    let mut removed: usize = 0;
    let mut j: usize = 0;
    proof {
        assert(all.skip(0) =~= all);
        assert(kept@ + prune(all, dead, CLEANUP_BATCH as nat) =~= prune(
            all,
            dead,
            CLEANUP_BATCH as nat,
        ));
    }
    while j < v.len()
        invariant
            0 <= j <= all.len(),
            v@ == all,
            cutoff == (now as int) - (retention_seconds as int),
            dead == cmd_expired(cutoff),
            removed <= CLEANUP_BATCH,
            prune(all, dead, CLEANUP_BATCH as nat) == kept@ + prune(
                all.skip(j as int),
                dead,
                (CLEANUP_BATCH - removed) as nat,
            ),
        decreases all.len() - j,
    {
        let r = &v[j];
        let expired = (r.timestamp as i128) < (now as i128) - (retention_seconds as i128);
        let ghost prev_kept = kept@;
        let ghost bud = (CLEANUP_BATCH - removed) as nat;
        let ghost tail = all.skip(j as int);
        proof {
            assert(tail[0] == all[j as int]);
            assert(tail.drop_first() =~= all.skip(j as int + 1));
            assert(cmd_expired(cutoff)(all[j as int]) == (all[j as int].timestamp < cutoff));
            assert(expired == dead(all[j as int]));
        }
        if expired && removed < CLEANUP_BATCH {
            removed = removed + 1;
            proof {
                assert(prune(tail, dead, bud) == prune(
                    all.skip(j as int + 1),
                    dead,
                    (CLEANUP_BATCH - removed) as nat,
                ));
            }
        } else {
            kept.push(r.clone());
            proof {
                assert(prune(tail, dead, bud) =~= seq![all[j as int]] + prune(
                    all.skip(j as int + 1),
                    dead,
                    bud,
                ));
                assert(prev_kept + prune(tail, dead, bud) =~= kept@ + prune(
                    all.skip(j as int + 1),
                    dead,
                    bud,
                ));
            }
        }
        j = j + 1;
    }
    proof {
        assert(all.skip(all.len() as int) =~= Seq::<CommandRecord>::empty());
        assert(kept@ + prune(all.skip(all.len() as int), dead, (CLEANUP_BATCH - removed) as nat)
            =~= kept@);
    }
    *v = kept;
}

} // verus!

