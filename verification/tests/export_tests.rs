//! The export cursor: validation, the safety cutoff, ordering, paging.

use telemetry_hub::{Envelope, EnvelopeParams, ExportError, Hub, LogEntry, EXPORT_PAGE_SIZE};

fn entry(timestamp: i64, message: &str) -> LogEntry {
    LogEntry { timestamp, message: message.to_string() }
}

#[test]
fn negative_cursor_is_a_bad_request() {
    let mut hub = Hub::new(300, 300, 1800);
    assert_eq!(hub.export(-1, 1000), Err(ExportError::InvalidCursor));
}

#[test]
fn cutoff_defers_recent_records() {
    let mut hub = Hub::new(300, 300, 100_000);
    hub.upload(1, &vec![entry(1000, "fresh")], 1000);

    // cutoff = 1000 - 300 * 11 / 10 = 670; a record stamped 1000 must wait
    let page = hub.export(0, 1000).expect("cursor is valid");
    assert_eq!(page.len(), 0);

    // at 1330 the cutoff is exactly 1000: still withheld
    assert_eq!(hub.export(0, 1330).expect("cursor is valid").len(), 0);

    // at 1331 the cutoff is 1001: the record is released
    let page = hub.export(0, 1331).expect("cursor is valid");
    assert_eq!(page.len(), 1);
    assert_eq!(page[0].id, 1);
    assert_eq!(page[0].timestamp, 1000);
    assert_eq!(page[0].node_id, 1);
    assert_eq!(page[0].message, "fresh");
}

#[test]
fn boundary_timestamp_equal_to_cutoff_is_withheld() {
    let mut hub = Hub::new(300, 300, 100_000);
    hub.upload(1, &vec![entry(1000, "edge")], 1000);
    // at 1330 the cutoff is exactly 1000, and eligibility is strict
    assert_eq!(hub.export(0, 1330).expect("cursor is valid").len(), 0);
}

#[test]
fn widened_interval_widens_the_window() {
    let mut hub = Hub::new(60, 300, 100_000);
    hub.upload(1, &vec![entry(1000, "slow")], 1000);
    // with a 60 s interval the window is 66 s, so 1100 suffices
    assert_eq!(hub.export(0, 1100).expect("cursor is valid").len(), 1);
}

#[test]
fn export_orders_by_timestamp_then_id() {
    let mut hub = Hub::new(300, 300, 100_000);
    // ids reflect insertion order, timestamps do not
    hub.upload(1, &vec![entry(500, "late-node")], 600); // id 1
    hub.upload(2, &vec![entry(300, "early-event")], 601); // id 2
    hub.upload(1, &vec![entry(500, "tie")], 602); // id 3, ties on timestamp with id 1

    let page = hub.export(0, 10_000).expect("cursor is valid");
    let got: Vec<(i64, i64)> = page.iter().map(|r| (r.timestamp, r.id)).collect();
    assert_eq!(got, vec![(300, 2), (500, 1), (500, 3)]);
}

#[test]
fn advanced_cursor_never_replays() {
    let mut hub = Hub::new(300, 300, 100_000);
    hub.upload(1, &vec![entry(100, "a"), entry(200, "b")], 200);

    let first = hub.export(0, 10_000).expect("cursor is valid");
    assert_eq!(first.len(), 2);
    let advanced = first.iter().map(|r| r.id).max().unwrap();

    let second = hub.export(advanced, 10_000).expect("cursor is valid");
    assert_eq!(second.len(), 0);
}

#[test]
fn repeating_a_cursor_over_unchanged_data_repeats_the_page() {
    let mut hub = Hub::new(300, 300_000, 1_000_000);
    hub.upload(3, &vec![entry(10, "p"), entry(20, "q")], 20);
    let first = hub.export(0, 5_000).expect("cursor is valid");
    let again = hub.export(0, 5_000).expect("cursor is valid");
    assert_eq!(first, again);
    assert_eq!(first.len(), 2);
}

#[test]
fn page_is_capped_and_serves_the_earliest_records() {
    let mut hub = Hub::new(300, 300, 10_000_000);
    let total = EXPORT_PAGE_SIZE + 5;
    // decreasing timestamps: later ids carry earlier instants
    let entries: Vec<LogEntry> =
        (0..total).map(|i| entry(200_000 - i as i64, "bulk")).collect();
    hub.upload(1, &entries, 200_000);

    let page = hub.export(0, 1_000_000).expect("cursor is valid");
    assert_eq!(page.len(), EXPORT_PAGE_SIZE);
    // the earliest timestamps win the page: the highest ids in this layout
    assert_eq!(page[0].id, total as i64);
    assert_eq!(page[0].timestamp, 200_000 - (total as i64 - 1));
    assert_eq!(page[EXPORT_PAGE_SIZE - 1].id, 6);
    // the page is in (timestamp, id) order
    for w in page.windows(2) {
        assert!(
            w[0].timestamp < w[1].timestamp
                || (w[0].timestamp == w[1].timestamp && w[0].id < w[1].id)
        );
    }
}

#[test]
fn window_scales_the_interval_by_eleven_tenths() {
    let mut hub = Hub::new(300, 300, 100_000);
    assert_eq!(hub.tracker.get(), 300);
    hub.upload(1, &vec![entry(1000, "fresh")], 1000);
    let page = hub.export(0, 2000).expect("cursor is valid");
    assert_eq!(page.len(), 1);
    assert_eq!(page[0].timestamp, 1000);
    let early = hub.export(0, 1000).expect("cursor is valid");
    assert_eq!(early.len(), 0);
}

#[test]
fn negative_cadence_swings_the_window_forward() {
    let mut hub = Hub::new(300, 300, 100_000);
    hub.upload(1, &vec![entry(5000, "ahead")], 1000);
    // a broadcast cadence change is authoritative, even downward past zero
    hub.submit(
        Envelope {
            command: "set_update_interval".to_string(),
            parameters: Some(EnvelopeParams {
                node_id: None,
                active_period: Some(-600),
                inactive_period: Some(-300),
                opaque: String::new(),
            }),
        },
        1001,
    );
    assert_eq!(hub.tracker.get(), -300);
    // the scaled window is now -330, so the cutoff lies 330 s in the future
    assert_eq!(hub.export(0, 4670).expect("cursor is valid").len(), 0);
    assert_eq!(hub.export(0, 4671).expect("cursor is valid").len(), 1);
}
