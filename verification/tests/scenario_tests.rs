//! End-to-end scenarios across upload, dispatch and export.

use telemetry_hub::{Envelope, EnvelopeParams, Hub, LogEntry};

fn entry(timestamp: i64, message: &str) -> LogEntry {
    LogEntry { timestamp, message: message.to_string() }
}

fn params(
    node_id: Option<i64>,
    active_period: Option<i64>,
    inactive_period: Option<i64>,
) -> EnvelopeParams {
    EnvelopeParams { node_id, active_period, inactive_period, opaque: String::new() }
}

#[test]
fn upload_then_ping_round_trip() {
    let mut hub = Hub::new(300, 300, 1800);

    // upload from node 7 with no prior commands answers with nothing pending
    let pending = hub.upload(7, &vec![entry(1000, "hello")], 1000);
    assert_eq!(pending, vec![]);

    // a fleet-wide cadence change sets the tracked maximum to max(600, 60)
    let cadence = Envelope {
        command: "set_update_interval".to_string(),
        parameters: Some(params(None, Some(600), Some(60))),
    };
    hub.submit(cadence.clone(), 1000);
    assert_eq!(hub.tracker.get(), 600);

    // a ping targeted at node 7 is delivered by its next upload, exactly
    // once; the broadcast cadence change reached node 7 too, since node 7
    // was known at enqueue time, and rides along in enqueue order
    let ping = Envelope {
        command: "ping".to_string(),
        parameters: Some(params(Some(7), None, None)),
    };
    hub.submit(ping.clone(), 1001);
    let delivered = hub.upload(7, &vec![], 1002);
    assert_eq!(delivered, vec![cadence, ping]);
    let again = hub.upload(7, &vec![], 1003);
    assert_eq!(again, vec![]);
}

#[test]
fn heartbeat_upload_is_valid() {
    let mut hub = Hub::new(300, 300, 1800);
    let pending = hub.upload(0, &vec![], 50);
    assert_eq!(pending, vec![]);
    let page = hub.export(0, 10_000).expect("cursor is valid");
    assert_eq!(page.len(), 0);
}

#[test]
fn targeted_command_needs_no_upload_history() {
    let mut hub = Hub::new(300, 300, 1800);
    let ping = Envelope {
        command: "ping".to_string(),
        parameters: Some(params(Some(5), None, None)),
    };
    hub.submit(ping.clone(), 10);
    let delivered = hub.upload(5, &vec![], 11);
    assert_eq!(delivered, vec![ping]);
    assert_eq!(hub.upload(5, &vec![], 12), vec![]);
}

#[test]
fn broadcast_reaches_known_nodes_only() {
    let mut hub = Hub::new(300, 3000, 1800);
    hub.upload(1, &vec![entry(100, "a")], 100);
    hub.upload(2, &vec![entry(101, "b")], 101);

    let notice = Envelope { command: "restart".to_string(), parameters: None };
    hub.submit(notice.clone(), 102);

    // both known nodes get one copy each
    assert_eq!(hub.upload(1, &vec![], 103), vec![notice.clone()]);
    assert_eq!(hub.upload(2, &vec![], 104), vec![notice.clone()]);
    // and only one copy
    assert_eq!(hub.upload(1, &vec![], 105), vec![]);
    // a node that never uploaded is not a broadcast target
    assert_eq!(hub.upload(3, &vec![], 106), vec![]);
}

#[test]
fn broadcast_fans_out_per_node_at_enqueue_time() {
    let mut hub = Hub::new(300, 3000, 1800);
    hub.upload(4, &vec![entry(10, "x")], 10);

    let notice = Envelope { command: "rotate".to_string(), parameters: None };
    hub.submit(notice.clone(), 11);

    // node 9 first appears after the broadcast, so it gets nothing
    hub.upload(9, &vec![entry(12, "y")], 12);
    assert_eq!(hub.upload(9, &vec![], 13), vec![]);
    assert_eq!(hub.upload(4, &vec![], 14), vec![notice]);
}

#[test]
fn unrecognized_command_round_trips_opaque_parameters() {
    let mut hub = Hub::new(300, 300, 1800);
    let odd = Envelope {
        command: "blink".to_string(),
        parameters: Some(EnvelopeParams {
            node_id: Some(6),
            active_period: None,
            inactive_period: None,
            opaque: "{\"color\":\"green\"}".to_string(),
        }),
    };
    hub.submit(odd.clone(), 5);
    assert_eq!(hub.upload(6, &vec![], 6), vec![odd]);
}

#[test]
fn drained_commands_arrive_in_enqueue_order() {
    let mut hub = Hub::new(300, 300, 1800);
    let first = Envelope {
        command: "alpha".to_string(),
        parameters: Some(params(Some(4), None, None)),
    };
    let second = Envelope {
        command: "beta".to_string(),
        parameters: Some(params(Some(4), None, None)),
    };
    hub.submit(first.clone(), 1);
    hub.submit(second.clone(), 2);
    assert_eq!(hub.upload(4, &vec![], 3), vec![first, second]);
}
