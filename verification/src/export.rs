//! The resumable, consistency-safe export cursor.
//!
//! Nodes upload on independent schedules, so a record with a larger id may
//! carry an older timestamp than one with a smaller id. Exporting naively
//! by id would let the cursor pass such a record forever. The cursor
//! therefore defers any record whose timestamp lies within 1.1 times the
//! slowest known reporting cadence of `now` (the safety cutoff): by the
//! time a record becomes eligible, no slower node can still insert an
//! older-stamped record behind the cursor. Eligible records are served
//! ordered by `(timestamp, id)`, capped at a fixed page size.

use vstd::prelude::*;

use crate::hub::Hub;
use crate::records::LogRecord;
use crate::retention::{cmd_expired, log_expired, prune, CLEANUP_BATCH};
use crate::retention::RetentionPolicy;

verus! {

/// Row cap of one export page.
pub const EXPORT_PAGE_SIZE: usize = 10000;

/// Export rejects its input.
#[derive(Debug, PartialEq, Eq)]
pub enum ExportError {
    /// The resume cursor was negative.
    InvalidCursor,
}

/// The `(timestamp, id)` order records are exported in.
pub open spec fn log_le(a: LogRecord, b: LogRecord) -> bool {
    a.timestamp < b.timestamp || (a.timestamp == b.timestamp && a.id <= b.id)
}

/// The sequence is sorted in `(timestamp, id)` order.
pub open spec fn logs_ordered(s: Seq<LogRecord>) -> bool {
    forall|i: int, j: int| 0 <= i < j < s.len() ==> log_le(s[i], s[j])
}

/// Inserts `x` into a sequence sorted in `(timestamp, id)` order, before
/// the first element it precedes.
pub open spec fn insert_ordered(x: LogRecord, s: Seq<LogRecord>) -> Seq<LogRecord>
    decreases s.len(),
{
    if s.len() == 0 {
        seq![x]
    } else if log_le(x, s[0]) {
        seq![x] + s
    } else {
        seq![s[0]] + insert_ordered(x, s.drop_first())
    }
}

/// Sorts into `(timestamp, id)` order by insertion.
pub open spec fn sort_logs(s: Seq<LogRecord>) -> Seq<LogRecord>
    decreases s.len(),
{
    if s.len() == 0 {
        s
    } else {
        insert_ordered(s[0], sort_logs(s.drop_first()))
    }
}

/// Holds of a record the cursor at `last` has not passed and the safety
/// cutoff has released.
pub open spec fn exportable(last: int, cutoff: int) -> spec_fn(LogRecord) -> bool {
    |r: LogRecord| r.id > last && r.timestamp < cutoff
}

/// The records an export at cursor `last` with safety cutoff `cutoff` may
/// serve, in table order.
pub open spec fn eligible_logs(logs: Seq<LogRecord>, last: int, cutoff: int) -> Seq<LogRecord> {
    logs.filter(exportable(last, cutoff))
}

/// The safety cutoff: `now` minus 1.1 times the tracked maximum reporting
/// interval, the factor computed as `interval * 11 / 10` away from zero.
pub open spec fn export_cutoff(now: int, interval: int) -> int {
    if interval >= 0 {
        now - (interval * 11) / 10
    } else {
        now + ((-interval) * 11) / 10
    }
}

/// The page an export serves: the eligible records in `(timestamp, id)`
/// order, capped at the page size.
pub open spec fn export_page(logs: Seq<LogRecord>, last: int, cutoff: int) -> Seq<LogRecord> {
    let sorted = sort_logs(eligible_logs(logs, last, cutoff));
    if sorted.len() <= EXPORT_PAGE_SIZE {
        sorted
    } else {
        sorted.take(EXPORT_PAGE_SIZE as int)
    }
}

/// What `insert_ordered` guarantees: order is kept, the length grows by
/// one, and membership grows by exactly `x`.
pub proof fn lemma_insert_ordered_ensures(x: LogRecord, s: Seq<LogRecord>)
    requires
        logs_ordered(s),
    ensures
        logs_ordered(insert_ordered(x, s)),
        insert_ordered(x, s).len() == s.len() + 1,
        insert_ordered(x, s).contains(x),
        forall|y: LogRecord| insert_ordered(x, s).contains(y) <==> (y == x || s.contains(y)),
    decreases s.len(),
{
    let r = insert_ordered(x, s);
    if s.len() == 0 {
        assert(r =~= seq![x]);
        assert(r[0] == x);
        assert forall|y: LogRecord| r.contains(y) implies (y == x || s.contains(y)) by {
            let i = choose|i: int| 0 <= i < r.len() && r[i] == y;
            assert(i == 0);
        }
    } else if log_le(x, s[0]) {
        assert(r =~= seq![x] + s);
        assert(r[0] == x);
        assert forall|i: int, j: int| 0 <= i < j < r.len() implies log_le(r[i], r[j]) by {
            if i == 0 {
                assert(r[j] == s[j - 1]);
                if j > 1 {
                    assert(log_le(s[0], s[j - 1]));
                }
            } else {
                assert(r[i] == s[i - 1] && r[j] == s[j - 1]);
            }
        }
        assert forall|y: LogRecord| r.contains(y) implies (y == x || s.contains(y)) by {
            let i = choose|i: int| 0 <= i < r.len() && r[i] == y;
            if i > 0 {
                assert(s[i - 1] == y);
            }
        }
        assert forall|y: LogRecord| (y == x || s.contains(y)) implies r.contains(y) by {
            if y == x {
                assert(r[0] == y);
            } else {
                let i = choose|i: int| 0 <= i < s.len() && s[i] == y;
                assert(r[i + 1] == y);
            }
        }
    } else {
        let tail = s.drop_first();
        assert(forall|k: int| 0 <= k < tail.len() ==> tail[k] == s[k + 1]);
        assert(logs_ordered(tail));
        lemma_insert_ordered_ensures(x, tail);
        let rt = insert_ordered(x, tail);
        assert(r =~= seq![s[0]] + rt);
        assert forall|i: int, j: int| 0 <= i < j < r.len() implies log_le(r[i], r[j]) by {
            if i == 0 {
                let y = rt[j - 1];
                assert(r[j] == y);
                assert(rt.contains(y)) by {
                    assert(rt[j - 1] == y);
                }
                if y == x {
                    // !log_le(x, s[0]) makes s[0] strictly precede x
                    assert(log_le(s[0], x));
                } else {
                    assert(tail.contains(y));
                    let k = choose|k: int| 0 <= k < tail.len() && tail[k] == y;
                    assert(s[k + 1] == y);
                    if k + 1 > 0 {
                        assert(log_le(s[0], s[k + 1]));
                    }
                }
            } else {
                assert(r[i] == rt[i - 1] && r[j] == rt[j - 1]);
            }
        }
        assert(r.contains(x)) by {
            let k = choose|k: int| 0 <= k < rt.len() && rt[k] == x;
            assert(r[k + 1] == x);
        }
        assert forall|y: LogRecord| r.contains(y) implies (y == x || s.contains(y)) by {
            let i = choose|i: int| 0 <= i < r.len() && r[i] == y;
            if i == 0 {
                assert(s[0] == y);
            } else {
                assert(rt.contains(y)) by {
                    assert(rt[i - 1] == y);
                }
                if y != x {
                    assert(tail.contains(y));
                    let k = choose|k: int| 0 <= k < tail.len() && tail[k] == y;
                    assert(s[k + 1] == y);
                }
            }
        }
        assert forall|y: LogRecord| (y == x || s.contains(y)) implies r.contains(y) by {
            if y == x {
                assert(r.contains(x));
            } else {
                let i = choose|i: int| 0 <= i < s.len() && s[i] == y;
                if i == 0 {
                    assert(r[0] == y);
                } else {
                    assert(tail.contains(y)) by {
                        assert(tail[i - 1] == y);
                    }
                    assert(rt.contains(y));
                    let k = choose|k: int| 0 <= k < rt.len() && rt[k] == y;
                    assert(r[k + 1] == y);
                }
            }
        }
    }
}

/// What the sort guarantees: `(timestamp, id)` order, the same length, and
/// the same membership.
pub proof fn lemma_sort_logs_ensures(s: Seq<LogRecord>)
    ensures
        logs_ordered(sort_logs(s)),
        sort_logs(s).len() == s.len(),
        forall|y: LogRecord| sort_logs(s).contains(y) <==> s.contains(y),
    decreases s.len(),
{
    if s.len() == 0 {
        assert forall|y: LogRecord| sort_logs(s).contains(y) implies s.contains(y) by {
            let i = choose|i: int| 0 <= i < sort_logs(s).len() && sort_logs(s)[i] == y;
        }
    } else {
        let tail = s.drop_first();
        assert(forall|k: int| 0 <= k < tail.len() ==> tail[k] == s[k + 1]);
        lemma_sort_logs_ensures(tail);
        lemma_insert_ordered_ensures(s[0], sort_logs(tail));
        assert forall|y: LogRecord| sort_logs(s).contains(y) implies s.contains(y) by {
            if y == s[0] {
                assert(s.contains(y)) by {
                    assert(s[0] == y);
                }
            } else {
                assert(sort_logs(tail).contains(y));
                assert(tail.contains(y));
                let k = choose|k: int| 0 <= k < tail.len() && tail[k] == y;
                assert(s[k + 1] == y);
            }
        }
        assert forall|y: LogRecord| s.contains(y) implies sort_logs(s).contains(y) by {
            let i = choose|i: int| 0 <= i < s.len() && s[i] == y;
            if i > 0 {
                assert(tail[i - 1] == y);
                assert(tail.contains(y)) by {
                    assert(tail[i - 1] == y);
                }
                assert(sort_logs(tail).contains(y));
            }
        }
    }
}

/// What every served page satisfies: `(timestamp, id)` order, the page
/// cap, and only records the cursor has not passed, the cutoff has
/// released, and the table holds.
pub proof fn lemma_export_page_ensures(logs: Seq<LogRecord>, last: int, cutoff: int)
    ensures
        logs_ordered(export_page(logs, last, cutoff)),
        export_page(logs, last, cutoff).len() <= EXPORT_PAGE_SIZE,
        forall|k: int|
            0 <= k < export_page(logs, last, cutoff).len() ==> {
                let r = #[trigger] export_page(logs, last, cutoff)[k];
                r.id > last && r.timestamp < cutoff && logs.contains(r)
            },
{
    broadcast use Seq::lemma_filter_pred;

    let e = eligible_logs(logs, last, cutoff);
    let sorted = sort_logs(e);
    lemma_sort_logs_ensures(e);
    let page = export_page(logs, last, cutoff);
    assert(forall|i: int, j: int|
        0 <= i < j < page.len() ==> log_le(#[trigger] page[i], #[trigger] page[j]));
    assert forall|k: int| 0 <= k < page.len() implies {
        let r = #[trigger] page[k];
        r.id > last && r.timestamp < cutoff && logs.contains(r)
    } by {
        let r = page[k];
        assert(sorted.contains(r)) by {
            assert(sorted[k] == r);
        }
        assert(e.contains(r));
        let i = choose|i: int| 0 <= i < e.len() && e[i] == r;
        assert(exportable(last, cutoff)(e[i]));
        logs.lemma_filter_contains_rev(exportable(last, cutoff), r);
    }
}

/// Law: a record the cursor has not yet passed and the cutoff has released
/// is served by the next page, unless that page is already full — and then
/// only with records that precede it in `(timestamp, id)` order, so the
/// record is served once later pages reach it.
pub proof fn lemma_record_visible(logs: Seq<LogRecord>, last: int, cutoff: int, r: LogRecord)
    requires
        logs.contains(r),
        r.id > last,
        r.timestamp < cutoff,
    ensures
        export_page(logs, last, cutoff).contains(r) || (export_page(logs, last, cutoff).len()
            == EXPORT_PAGE_SIZE && forall|k: int|
            0 <= k < export_page(logs, last, cutoff).len() ==> log_le(
                #[trigger] export_page(logs, last, cutoff)[k],
                r,
            )),
{
    let e = eligible_logs(logs, last, cutoff);
    let sorted = sort_logs(e);
    lemma_sort_logs_ensures(e);
    let i = choose|i: int| 0 <= i < logs.len() && logs[i] == r;
    assert(exportable(last, cutoff)(logs[i]));
    logs.lemma_filter_contains(exportable(last, cutoff), i);
    assert(e.contains(r));
    assert(sorted.contains(r));
    let page = export_page(logs, last, cutoff);
    if sorted.len() <= EXPORT_PAGE_SIZE {
        assert(page.contains(r));
    } else {
        let idx = choose|idx: int| 0 <= idx < sorted.len() && sorted[idx] == r;
        if idx < EXPORT_PAGE_SIZE {
            assert(page[idx] == r);
            assert(page.contains(r));
        } else {
            assert forall|k: int| 0 <= k < page.len() implies log_le(#[trigger] page[k], r) by {
                assert(page[k] == sorted[k]);
                if k < idx {
                    assert(log_le(sorted[k], sorted[idx]));
                }
            }
        }
    }
}

/// Law: the page is a function of the table, the cursor and the cutoff
/// alone — repeating an export with the same cursor over the same data
/// serves the same page.
pub proof fn lemma_export_idempotent(
    logs_then: Seq<LogRecord>,
    logs_again: Seq<LogRecord>,
    last: int,
    cutoff: int,
)
    requires
        logs_then == logs_again,
    ensures
        export_page(logs_then, last, cutoff) == export_page(logs_again, last, cutoff),
{
}

/// Law: once the cursor has advanced past everything a page served, no
/// later export with that cursor re-serves any of it.
pub proof fn lemma_export_no_replay(logs: Seq<LogRecord>, last: int, advanced: int, cutoff: int)
    requires
        forall|k: int|
            0 <= k < export_page(logs, last, cutoff).len() ==> #[trigger] export_page(
                logs,
                last,
                cutoff,
            )[k].id <= advanced,
    ensures
        forall|x: LogRecord|
            #[trigger] export_page(logs, advanced, cutoff).contains(x) ==> !export_page(
                logs,
                last,
                cutoff,
            ).contains(x),
{
    lemma_export_page_ensures(logs, advanced, cutoff);
    assert forall|x: LogRecord|
        #[trigger] export_page(logs, advanced, cutoff).contains(x) implies !export_page(
        logs,
        last,
        cutoff,
    ).contains(x) by {
        let i = choose|i: int|
            0 <= i < export_page(logs, advanced, cutoff).len() && export_page(
                logs,
                advanced,
                cutoff,
            )[i] == x;
        assert(x.id > advanced);
        if export_page(logs, last, cutoff).contains(x) {
            let k = choose|k: int|
                0 <= k < export_page(logs, last, cutoff).len() && export_page(
                    logs,
                    last,
                    cutoff,
                )[k] == x;
            assert(x.id <= advanced);
        }
    }
}

/// Law: with no eligible data beyond the cursor, an export serves the
/// empty page.
pub proof fn lemma_export_exhausted(logs: Seq<LogRecord>, last: int, cutoff: int)
    requires
        forall|i: int|
            0 <= i < logs.len() ==> (#[trigger] logs[i].id <= last || logs[i].timestamp >= cutoff),
    ensures
        export_page(logs, last, cutoff) == Seq::<LogRecord>::empty(),
{
    broadcast use Seq::lemma_filter_pred;

    let e = eligible_logs(logs, last, cutoff);
    if e.len() > 0 {
        assert(exportable(last, cutoff)(e[0]));
        assert(e.contains(e[0])) by {
            assert(e[0] == e[0]);
        }
        logs.lemma_filter_contains_rev(exportable(last, cutoff), e[0]);
        let i = choose|i: int| 0 <= i < logs.len() && logs[i] == e[0];
        assert(logs[i].id <= last || logs[i].timestamp >= cutoff);
    }
    lemma_sort_logs_ensures(e);
    assert(export_page(logs, last, cutoff) =~= Seq::<LogRecord>::empty());
}

/// Inserts a copy of `x` into a page kept in `(timestamp, id)` order.
fn insert_into_page(page: &mut Vec<LogRecord>, x: LogRecord)
    requires
        logs_ordered(old(page)@),
    ensures
        final(page)@ == insert_ordered(x, old(page)@),
        logs_ordered(final(page)@),
{
    let mut p: usize = 0;
    while p < page.len() && !(x.timestamp < page[p].timestamp || (x.timestamp == page[p].timestamp
        && x.id <= page[p].id))
        invariant
            0 <= p <= page@.len(),
            page@ == old(page)@,
            forall|k: int| 0 <= k < p ==> !log_le(x, page@[k]),
        decreases page@.len() - p,
    {
        p = p + 1;
    }
    proof {
        lemma_insert_ordered_split(x, page@, p as int);
    }
    page.insert(p, x);
    proof {
        lemma_insert_ordered_ensures(x, old(page)@);
    }
}

/// Relates `insert_ordered` to the splice an in-place insertion performs:
/// with `p` the first position whose record `x` precedes, inserting at `p`
/// is what `insert_ordered` means.
pub proof fn lemma_insert_ordered_split(x: LogRecord, s: Seq<LogRecord>, p: int)
    requires
        logs_ordered(s),
        0 <= p <= s.len(),
        forall|k: int| 0 <= k < p ==> !log_le(x, s[k]),
        p < s.len() ==> log_le(x, s[p]),
    ensures
        insert_ordered(x, s) == s.take(p).push(x) + s.skip(p),
    decreases s.len(),
{
    if s.len() == 0 {
        assert(insert_ordered(x, s) =~= s.take(0).push(x) + s.skip(0));
    } else if p == 0 {
        assert(insert_ordered(x, s) =~= s.take(0).push(x) + s.skip(0));
    } else {
        let tail = s.drop_first();
        assert(forall|k: int| 0 <= k < tail.len() ==> tail[k] == s[k + 1]);
        assert(logs_ordered(tail));
        assert(!log_le(x, s[0]));
        lemma_insert_ordered_split(x, tail, p - 1);
        assert(insert_ordered(x, s) =~= seq![s[0]] + (tail.take(p - 1).push(x) + tail.skip(
            p - 1,
        )));
        assert(seq![s[0]] + (tail.take(p - 1).push(x) + tail.skip(p - 1)) =~= s.take(p).push(x)
            + s.skip(p));
    }
}

/// Serves one page for the cursor `last_seen_id`: the eligible records in
/// `(timestamp, id)` order, capped at the page size. Leaves the table as
/// it is.
fn collect_page(records: &Vec<LogRecord>, last_seen_id: i64, now: i64, interval: i64) -> (r: Vec<
    LogRecord,
>)
    requires
        crate::store::log_ids_increasing(records@),
    ensures
        r@ == export_page(
            records@,
            last_seen_id as int,
            export_cutoff(now as int, interval as int),
        ),
{
    let ghost last = last_seen_id as int;
    let ghost cutoff = export_cutoff(now as int, interval as int);
    // the cutoff, computed wide so that no intermediate overflows
    let window: i128 = if interval >= 0 {
        ((interval as u128) * 11 / 10) as i128
    } else {
        -((((-(interval as i128)) as u128) * 11 / 10) as i128)
    };
    let cutoff_wide: i128 = (now as i128) - window;
    proof {
        assert(cutoff_wide as int == cutoff);
    }
    let mut page: Vec<LogRecord> = Vec::new();
    let ghost all = records@;
    let mut j: usize = 0;
    // keep the eligible records seen so far, in (timestamp, id) order
    while j < records.len()
        invariant
            0 <= j <= all.len(),
            records@ == all,
            crate::store::log_ids_increasing(all),
            last == last_seen_id as int,
            cutoff_wide as int == cutoff,
            page@ == sort_logs(eligible_logs(all.take(j as int), last, cutoff)),
            logs_ordered(page@),
        decreases all.len() - j,
    {
        let r = &records[j];
        let wanted = r.id > last_seen_id && (r.timestamp as i128) < cutoff_wide;
        proof {
            assert(wanted == exportable(last, cutoff)(all[j as int]));
            let prev = all.take(j as int);
            let x = all[j as int];
            assert(all.take(j as int + 1) =~= prev.push(x));
            prev.lemma_filter_push(x, exportable(last, cutoff));
            if exportable(last, cutoff)(x) {
                let e = eligible_logs(prev, last, cutoff);
                assert forall|i: int| 0 <= i < e.len() implies #[trigger] e[i].id != x.id by {
                    assert(e.contains(e[i])) by {
                        assert(e[i] == e[i]);
                    }
                    prev.lemma_filter_contains_rev(exportable(last, cutoff), e[i]);
                    let k = choose|k: int| 0 <= k < prev.len() && prev[k] == e[i];
                    assert(all[k] == prev[k]);
                    assert(all[k].id < all[j as int].id);
                }
                lemma_sort_snoc(e, x);
            }
        }
        if wanted {
            insert_into_page(&mut page, r.clone());
        }
        j = j + 1;
    }
    proof {
        assert(all.take(all.len() as int) == all);
        lemma_sort_logs_ensures(eligible_logs(all, last, cutoff));
    }
    if page.len() > EXPORT_PAGE_SIZE {
        page.truncate(EXPORT_PAGE_SIZE);
    }
    page
}

/// Sorting a sequence extended by one element is inserting that element
/// into the sorted sequence.
pub proof fn lemma_sort_snoc(s: Seq<LogRecord>, x: LogRecord)
    requires
        forall|i: int| 0 <= i < s.len() ==> #[trigger] s[i].id != x.id,
    ensures
        sort_logs(s.push(x)) == insert_ordered(x, sort_logs(s)),
    decreases s.len(),
{
    let t = s.push(x);
    if s.len() == 0 {
        assert(t.len() == 1);
        assert(t[0] == x);
        assert(t.drop_first() =~= Seq::<LogRecord>::empty());
        assert(sort_logs(t.drop_first()) == Seq::<LogRecord>::empty());
        assert(sort_logs(t) == insert_ordered(x, sort_logs(t.drop_first())));
        assert(sort_logs(s) == s);
        assert(insert_ordered(x, sort_logs(t.drop_first())) =~= insert_ordered(x, sort_logs(s)));
    } else {
        assert(t[0] == s[0]);
        assert(t.drop_first() =~= s.drop_first().push(x));
        assert(sort_logs(t) == insert_ordered(s[0], sort_logs(s.drop_first().push(x))));
        lemma_sort_snoc(s.drop_first(), x);
        assert(sort_logs(t) == insert_ordered(
            s[0],
            insert_ordered(x, sort_logs(s.drop_first())),
        ));
        lemma_sort_logs_ensures(s.drop_first());
        lemma_insert_ordered_swap(s[0], x, sort_logs(s.drop_first()));
        assert(sort_logs(t) == insert_ordered(
            x,
            insert_ordered(s[0], sort_logs(s.drop_first())),
        ));
        assert(sort_logs(s) == insert_ordered(s[0], sort_logs(s.drop_first())));
    }
}

/// Two insertions of records with distinct ids into a sorted sequence
/// commute.
pub proof fn lemma_insert_ordered_swap(a: LogRecord, b: LogRecord, s: Seq<LogRecord>)
    requires
        logs_ordered(s),
        a.id != b.id,
    ensures
        insert_ordered(a, insert_ordered(b, s)) == insert_ordered(b, insert_ordered(a, s)),
    decreases s.len(),
{
    lemma_insert_ordered_ensures(a, s);
    lemma_insert_ordered_ensures(b, s);
    let ia = insert_ordered(a, s);
    let ib = insert_ordered(b, s);
    // distinct ids leave no tie: exactly one of the two precedes the other
    assert(!(log_le(a, b) && log_le(b, a)));
    assert(log_le(a, b) || log_le(b, a));
    if s.len() == 0 {
        assert(ia =~= seq![a]);
        assert(ib =~= seq![b]);
        if log_le(a, b) {
            assert(ib[0] == b);
            assert(insert_ordered(a, ib) =~= seq![a] + ib);
            assert(ia[0] == a);
            assert(ia.drop_first() =~= Seq::<LogRecord>::empty());
            assert(insert_ordered(b, ia) =~= seq![a] + insert_ordered(
                b,
                Seq::<LogRecord>::empty(),
            ));
            assert(insert_ordered(b, Seq::<LogRecord>::empty()) =~= seq![b]);
            assert(insert_ordered(a, ib) =~= insert_ordered(b, ia));
        } else {
            assert(ia[0] == a);
            assert(insert_ordered(b, ia) =~= seq![b] + ia);
            assert(ib[0] == b);
            assert(ib.drop_first() =~= Seq::<LogRecord>::empty());
            assert(insert_ordered(a, ib) =~= seq![b] + insert_ordered(
                a,
                Seq::<LogRecord>::empty(),
            ));
            assert(insert_ordered(a, Seq::<LogRecord>::empty()) =~= seq![a]);
            assert(insert_ordered(a, ib) =~= insert_ordered(b, ia));
        }
    } else {
        let tail = s.drop_first();
        assert(forall|k: int| 0 <= k < tail.len() ==> tail[k] == s[k + 1]);
        assert(logs_ordered(tail));
        if log_le(a, s[0]) && log_le(b, s[0]) {
            assert(ia =~= seq![a] + s);
            assert(ib =~= seq![b] + s);
            if log_le(b, a) {
                assert(ib[0] == b);
                assert(ib.drop_first() =~= s);
                assert(insert_ordered(a, ib) =~= seq![b] + insert_ordered(a, s));
                assert(insert_ordered(b, ia) =~= seq![b] + ia);
                assert(insert_ordered(a, ib) =~= insert_ordered(b, ia));
            } else {
                assert(ia[0] == a);
                assert(ia.drop_first() =~= s);
                assert(insert_ordered(b, ia) =~= seq![a] + insert_ordered(b, s));
                assert(insert_ordered(a, ib) =~= seq![a] + ib);
                assert(insert_ordered(a, ib) =~= insert_ordered(b, ia));
            }
        } else if log_le(a, s[0]) {
            assert(ib =~= seq![s[0]] + insert_ordered(b, tail));
            assert(ib[0] == s[0]);
            assert(insert_ordered(a, ib) =~= seq![a] + ib);
            assert(ia =~= seq![a] + s);
            assert(ia[0] == a);
            assert(ia.drop_first() =~= s);
            assert(!log_le(b, a));
            assert(insert_ordered(b, ia) =~= seq![a] + insert_ordered(b, s));
            assert(insert_ordered(b, s) =~= seq![s[0]] + insert_ordered(b, tail));
            assert(insert_ordered(a, ib) =~= insert_ordered(b, ia));
        } else if log_le(b, s[0]) {
            assert(ia =~= seq![s[0]] + insert_ordered(a, tail));
            assert(ia[0] == s[0]);
            assert(insert_ordered(b, ia) =~= seq![b] + ia);
            assert(ib =~= seq![b] + s);
            assert(ib[0] == b);
            assert(ib.drop_first() =~= s);
            assert(!log_le(a, b));
            assert(insert_ordered(a, ib) =~= seq![b] + insert_ordered(a, s));
            assert(insert_ordered(a, s) =~= seq![s[0]] + insert_ordered(a, tail));
            assert(insert_ordered(a, ib) =~= insert_ordered(b, ia));
        } else {
            lemma_insert_ordered_swap(a, b, tail);
            assert(ib =~= seq![s[0]] + insert_ordered(b, tail));
            assert(ib[0] == s[0]);
            assert(ib.drop_first() =~= insert_ordered(b, tail));
            assert(insert_ordered(a, ib) =~= seq![s[0]] + insert_ordered(
                a,
                insert_ordered(b, tail),
            ));
            assert(ia =~= seq![s[0]] + insert_ordered(a, tail));
            assert(ia[0] == s[0]);
            assert(ia.drop_first() =~= insert_ordered(a, tail));
            assert(insert_ordered(b, ia) =~= seq![s[0]] + insert_ordered(
                b,
                insert_ordered(a, tail),
            ));
            assert(insert_ordered(a, ib) =~= insert_ordered(b, ia));
        }
    }
}

impl Hub {
    /// Serves the collector one page of logs from cursor `last_seen_id`,
    /// then triggers the throttled retention check.
    ///
    /// A negative cursor is rejected and nothing changes. Otherwise the
    /// page is computed over the table as it stands, and only then may a
    /// cleanup pass run.
    pub fn export(&mut self, last_seen_id: i64, now: i64) -> (r: Result<
        Vec<LogRecord>,
        ExportError,
    >)
        requires
            old(self).wf(),
        ensures
            final(self).wf(),
            r.is_err() <==> last_seen_id < 0,
            last_seen_id < 0 ==> *final(self) == *old(self) && r == Result::<
                Vec<LogRecord>,
                ExportError,
            >::Err(ExportError::InvalidCursor),
            last_seen_id >= 0 ==> (match r {
                Ok(page) => page@ == export_page(
                    old(self).store.records@,
                    last_seen_id as int,
                    export_cutoff(now as int, old(self).tracker.max_interval()),
                ),
                Err(_) => false,
            }),
            // the cutoff invariant: nothing newer than the safety window is served
            last_seen_id >= 0 ==> (match r {
                Ok(page) => forall|k: int|
                    0 <= k < page@.len() ==> (#[trigger] page@[k]).timestamp < export_cutoff(
                        now as int,
                        old(self).tracker.max_interval(),
                    ) && page@[k].id > last_seen_id,
                Err(_) => false,
            }),
            last_seen_id >= 0 ==> ({
                let due = old(self).retention.due(now as int);
                let cut = old(self).retention.retention_cutoff(now as int);
                &&& final(self).tracker == old(self).tracker
                &&& final(self).store.next_id == old(self).store.next_id
                &&& final(self).queue.next_id == old(self).queue.next_id
                &&& final(self).store.records@ == if due {
                    prune(old(self).store.records@, log_expired(cut), CLEANUP_BATCH as nat)
                } else {
                    old(self).store.records@
                }
                &&& final(self).queue.records@ == if due {
                    prune(old(self).queue.records@, cmd_expired(cut), CLEANUP_BATCH as nat)
                } else {
                    old(self).queue.records@
                }
                &&& final(self).retention == if due {
                    (RetentionPolicy { last_cleanup: Some(now), ..old(self).retention })
                } else {
                    old(self).retention
                }
            }),
    {
        if last_seen_id < 0 {
            return Err(ExportError::InvalidCursor);
        }
        let interval = self.tracker.get();
        let page = collect_page(&self.store.records, last_seen_id, now, interval);
        proof {
            lemma_export_page_ensures(
                self.store.records@,
                last_seen_id as int,
                export_cutoff(now as int, self.tracker.max_interval()),
            );
        }
        self.retention.maybe_run(&mut self.store, &mut self.queue, now);
        Ok(page)
    }
}

} // verus!
