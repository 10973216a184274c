//! Retention: the throttle, the retention window, and bounded batches.

use telemetry_hub::{Envelope, EnvelopeParams, Hub, IntervalTracker, LogEntry};

fn entry(timestamp: i64, message: &str) -> LogEntry {
    LogEntry { timestamp, message: message.to_string() }
}

#[test]
fn cleanup_removes_only_expired_records() {
    // every request may clean (check interval 0); window is 100 s
    let mut hub = Hub::new(300, 0, 100);
    hub.upload(1, &vec![entry(0, "old"), entry(950, "young")], 1000);
    // the same upload's cleanup pass already reclaimed the expired record
    let page = hub.export(0, 100_000).expect("cursor is valid");
    let kept: Vec<&str> = page.iter().map(|r| r.message.as_str()).collect();
    assert_eq!(kept, vec!["young"]);
}

#[test]
fn throttle_blocks_back_to_back_cleanup() {
    // cleanups at least 1000 s apart; window 100 s
    let mut hub = Hub::new(300, 1000, 100);
    // first request cleans (nothing has ever run); record stamped 0 is young at 50
    hub.upload(1, &vec![entry(0, "victim")], 50);
    // at 300 the record is expired, but the throttle window still holds
    hub.upload(1, &vec![], 300);
    let page = hub.export(0, 100_000).expect("cursor is valid");
    assert_eq!(page.len(), 1);
    // past the throttle window the pass runs and reclaims it
    hub.upload(1, &vec![], 1100);
    let page = hub.export(0, 100_000).expect("cursor is valid");
    assert_eq!(page.len(), 0);
}

#[test]
fn cleanup_works_in_bounded_batches() {
    let batch = 10_000usize;
    let mut hub = Hub::new(300, 0, 100);
    // one more expired record than one batch may delete
    let entries: Vec<LogEntry> = (0..batch + 1).map(|_| entry(0, "stale")).collect();
    // the upload inserts them and its own cleanup pass removes one batch
    hub.upload(1, &entries, 100_000);
    let page = hub.export(0, 1_000_000).expect("cursor is valid");
    assert_eq!(page.len(), 1);
    // the batch removes the oldest ids first, leaving the newest record
    assert_eq!(page[0].id, (batch + 1) as i64);
    // the export itself triggered the next pass, which reclaimed the rest
    let page = hub.export(0, 1_000_000).expect("cursor is valid");
    assert_eq!(page.len(), 0);
}

#[test]
fn expired_commands_are_reclaimed_not_delivered() {
    let mut hub = Hub::new(300, 0, 100);
    let ping = Envelope {
        command: "ping".to_string(),
        parameters: Some(EnvelopeParams {
            node_id: Some(2),
            active_period: None,
            inactive_period: None,
            opaque: String::new(),
        }),
    };
    hub.submit(ping, 0);
    // by the time node 2 reports, the command has expired and cleanup ran first
    assert_eq!(hub.upload(2, &vec![], 1000), vec![]);
}

#[test]
fn tracker_raise_only_for_targeted_changes() {
    let mut tracker = IntervalTracker::new(300);
    assert_eq!(tracker.get(), 300);
    // a targeted change may not narrow the safety window
    tracker.record_cadence(100, false);
    assert_eq!(tracker.get(), 300);
    tracker.record_cadence(400, false);
    assert_eq!(tracker.get(), 400);
    // a fleet-wide change is authoritative, downward too
    tracker.record_cadence(50, true);
    assert_eq!(tracker.get(), 50);
}

#[test]
fn cadence_rules_through_the_dispatcher() {
    let mut hub = Hub::new(300, 300, 1800);
    let change = |node: Option<i64>, active: i64, inactive: i64| Envelope {
        command: "set_update_interval".to_string(),
        parameters: Some(EnvelopeParams {
            node_id: node,
            active_period: Some(active),
            inactive_period: Some(inactive),
            opaque: String::new(),
        }),
    };
    // targeted below the current maximum: unchanged
    hub.submit(change(Some(1), 60, 30), 10);
    assert_eq!(hub.tracker.get(), 300);
    // targeted above it: raised to max(active, inactive)
    hub.submit(change(Some(1), 120, 900), 11);
    assert_eq!(hub.tracker.get(), 900);
    // broadcast: overwritten regardless of the prior value
    hub.submit(change(None, 600, 60), 12);
    assert_eq!(hub.tracker.get(), 600);
}

#[test]
fn cadence_change_needs_both_periods() {
    let mut hub = Hub::new(300, 300, 1800);
    let half = Envelope {
        command: "set_update_interval".to_string(),
        parameters: Some(EnvelopeParams {
            node_id: None,
            active_period: Some(900),
            inactive_period: None,
            opaque: String::new(),
        }),
    };
    hub.submit(half, 10);
    assert_eq!(hub.tracker.get(), 300);
}
