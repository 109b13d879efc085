//! End-to-end tests of the codec, the store, and the sync driver decisions.

use feed_archive::codec::{slack_ts_to_unix_micros, unix_micros_to_slack_ts};
use feed_archive::driver::{
    compute_start, process_page, validate_page_size, DEFAULT_EDIT_WINDOW_MICROS, PAGE_SIZE,
};
use feed_archive::message::{message_ts, MessageVariant, Record};
use feed_archive::store::Store;
use feed_archive::ArchiveError;

fn standard(ts: &str, user: &str, text: &str) -> MessageVariant {
    MessageVariant::Standard {
        ts: Some(ts.to_string()),
        user: Some(user.to_string()),
        text: Some(text.to_string()),
    }
}

fn wire(micros: u64) -> String {
    unix_micros_to_slack_ts(micros)
}

#[test]
fn encode_canonical_wire_timestamp() {
    assert_eq!(
        slack_ts_to_unix_micros("1530094641.000665").unwrap(),
        1_530_094_641_000_665
    );
    assert_eq!(slack_ts_to_unix_micros("0000000000.000001").unwrap(), 1);
}

#[test]
fn encode_accepts_unpadded_components() {
    assert_eq!(slack_ts_to_unix_micros("1.5").unwrap(), 1_000_005);
}

#[test]
fn encode_rejects_malformed_timestamps() {
    for bad in [
        "",
        "123",
        "1.2.3",
        ".5",
        "5.",
        "12a.000001",
        "1530094641.0006x5",
        "99999999999999999999.000000", // beyond the representable range
    ] {
        assert!(matches!(
            slack_ts_to_unix_micros(bad),
            Err(ArchiveError::MalformedTimestamp)
        ));
    }
}

#[test]
fn decode_pads_seconds_and_fraction() {
    assert_eq!(unix_micros_to_slack_ts(0), "0000000000.000000");
    assert_eq!(unix_micros_to_slack_ts(1), "0000000000.000001");
    assert_eq!(
        unix_micros_to_slack_ts(1_530_094_641_000_665),
        "1530094641.000665"
    );
    // more than ten digits of seconds are kept whole
    assert_eq!(
        unix_micros_to_slack_ts(u64::MAX),
        "18446744073709.551615"
    );
}

#[test]
fn round_trip_both_directions() {
    for m in [0u64, 1, 999_999, 1_000_000, 1_530_094_641_000_665, u64::MAX] {
        assert_eq!(slack_ts_to_unix_micros(&wire(m)).unwrap(), m);
    }
    for t in ["1530094641.000665", "0000000000.000000", "9999999999.999999"] {
        let m = slack_ts_to_unix_micros(t).unwrap();
        assert_eq!(unix_micros_to_slack_ts(m), t);
    }
}

#[test]
fn page_size_cap_is_enforced() {
    assert!(validate_page_size(PAGE_SIZE).is_ok());
    assert!(validate_page_size(1).is_ok());
    assert!(matches!(
        validate_page_size(PAGE_SIZE + 1),
        Err(ArchiveError::PageSizeExceeded)
    ));
}

#[test]
fn compute_start_first_run_pulls_full_history() {
    assert_eq!(compute_start(None, DEFAULT_EDIT_WINDOW_MICROS), 1);
    assert_eq!(compute_start(None, 0), 1);
}

#[test]
fn compute_start_subtracts_edit_window() {
    assert_eq!(
        compute_start(Some(10_000_000_000), DEFAULT_EDIT_WINDOW_MICROS),
        10_000_000_000 - DEFAULT_EDIT_WINDOW_MICROS
    );
    // a window reaching past the beginning of time behaves like a first run
    assert_eq!(compute_start(Some(5), 10), 1);
    // no window: resume exactly at the derived cursor
    assert_eq!(compute_start(Some(42), 0), 42);
}

#[test]
fn message_ts_reads_any_variant() {
    let ev = MessageVariant::Event {
        ts: Some("1530094641.000665".to_string()),
    };
    assert_eq!(message_ts(&ev), Some(1_530_094_641_000_665));
    assert_eq!(message_ts(&MessageVariant::Event { ts: None }), None);
    let bad = MessageVariant::Event {
        ts: Some("nonsense".to_string()),
    };
    assert_eq!(message_ts(&bad), None);
}

#[test]
fn upsert_is_idempotent_and_last_write_wins() {
    let mut store = Store::new();
    store.upsert(Record {
        channel_id: "C1".to_string(),
        ts: 77,
        author: "alice".to_string(),
        body: "original".to_string(),
    });
    assert_eq!(store.len(), 1);
    store.upsert(Record {
        channel_id: "C1".to_string(),
        ts: 77,
        author: "alice".to_string(),
        body: "edited".to_string(),
    });
    assert_eq!(store.len(), 1);
    let rec = store.lookup("C1", 77).unwrap();
    assert_eq!(rec.body, "edited");
    assert_eq!(rec.author, "alice");
}

#[test]
fn upsert_keeps_channels_apart() {
    let mut store = Store::new();
    store.upsert(Record {
        channel_id: "C1".to_string(),
        ts: 77,
        author: "a".to_string(),
        body: "x".to_string(),
    });
    store.upsert(Record {
        channel_id: "C2".to_string(),
        ts: 77,
        author: "b".to_string(),
        body: "y".to_string(),
    });
    assert_eq!(store.len(), 2);
    assert_eq!(store.get_last_ts("C1"), Some(77));
    assert_eq!(store.get_last_ts("C3"), None);
}

#[test]
fn page_is_persisted_in_ascending_time_order() {
    // fetched page, descending: newest first
    let page = vec![
        standard(&wire(30), "u3", "third"),
        standard(&wire(20), "u2", "second"),
        standard(&wire(10), "u1", "first"),
    ];
    let out = process_page("C1", 1, &page, Some(false));
    let ts: Vec<u64> = out.records.iter().map(|r| r.ts).collect();
    assert_eq!(ts, vec![10, 20, 30]);
    assert_eq!(out.records[0].body, "first");
    assert_eq!(out.records[2].body, "third");
    assert_eq!(out.next_oldest, 30);
    assert!(out.done);
}

#[test]
fn empty_channel_goes_directly_to_done() {
    let mut store = Store::new();
    let page: Vec<MessageVariant> = vec![];
    let out = process_page("C1", 1, &page, None);
    assert!(out.done);
    assert!(out.records.is_empty());
    assert_eq!(out.next_oldest, 1);
    store.persist_batch(&out.records);
    assert_eq!(store.len(), 0);
}

#[test]
fn first_run_pages_through_large_channel() {
    // 1500 messages, page size 1000: two fetches, both persisted ascending.
    let mut store = Store::new();
    let channel = "C1";
    let base: u64 = 1_000_000_000_000_000;
    let ts_of = |k: u64| base + k * 1_000_000;

    let oldest0 = compute_start(store.get_last_ts(channel), 0);
    assert_eq!(oldest0, 1);

    // first page: the oldest 1000 messages, descending within the page
    let page1: Vec<MessageVariant> = (1..=1000)
        .rev()
        .map(|k| standard(&wire(ts_of(k)), "u", &format!("m{}", k)))
        .collect();
    let out1 = process_page(channel, oldest0, &page1, Some(true));
    assert!(!out1.done);
    assert_eq!(out1.records.len(), 1000);
    assert_eq!(out1.next_oldest, ts_of(1000));
    store.persist_batch(&out1.records);
    assert_eq!(store.len(), 1000);

    // second page: resumes at the newest seen message, which is re-delivered
    // as a duplicate and harmlessly re-persisted
    let page2: Vec<MessageVariant> = (1000..=1500)
        .rev()
        .map(|k| standard(&wire(ts_of(k)), "u", &format!("m{}", k)))
        .collect();
    let out2 = process_page(channel, out1.next_oldest, &page2, Some(false));
    assert!(out2.done);
    assert_eq!(out2.records.len(), 501);
    store.persist_batch(&out2.records);

    // the duplicate was absorbed; the cursor equals the newest timestamp
    assert_eq!(store.len(), 1500);
    assert_eq!(store.get_last_ts(channel), Some(ts_of(1500)));
}

#[test]
fn rerun_with_zero_window_adds_nothing() {
    let mut store = Store::new();
    let channel = "C1";
    let page = vec![
        standard(&wire(300), "u", "c"),
        standard(&wire(200), "u", "b"),
        standard(&wire(100), "u", "a"),
    ];
    let out = process_page(channel, 1, &page, Some(false));
    store.persist_batch(&out.records);
    assert_eq!(store.len(), 3);

    // re-run: no overlap window, so the next fetch starts at the cursor and
    // only the newest message is re-delivered
    let start = compute_start(store.get_last_ts(channel), 0);
    assert_eq!(start, 300);
    let repage = vec![standard(&wire(300), "u", "c")];
    let out2 = process_page(channel, start, &repage, None);
    store.persist_batch(&out2.records);
    assert_eq!(store.len(), 3);
    assert_eq!(store.lookup(channel, 300).unwrap().body, "c");
}

#[test]
fn overlap_window_captures_an_edit() {
    let mut store = Store::new();
    let channel = "C1";
    let t: u64 = 50_000_000;
    let window: u64 = 10_000_000;

    // first run persists the original
    let out1 = process_page(channel, 1, &vec![standard(&wire(t), "u", "original")], None);
    store.persist_batch(&out1.records);
    assert_eq!(store.lookup(channel, t).unwrap().body, "original");

    // second run starts a window earlier, so the edited message at the same
    // timestamp is delivered again and overwrites
    let start = compute_start(store.get_last_ts(channel), window);
    assert_eq!(start, t - window);
    assert!(start <= t);
    let out2 = process_page(channel, start, &vec![standard(&wire(t), "u", "edited")], None);
    store.persist_batch(&out2.records);
    assert_eq!(store.len(), 1);
    assert_eq!(store.lookup(channel, t).unwrap().body, "edited");
}

#[test]
fn non_standard_newest_message_still_advances_cursor() {
    let mut store = Store::new();
    // the newest element is a channel-join event: skipped for persistence,
    // but its timestamp advances the next fetch's lower bound
    let page = vec![
        MessageVariant::Event {
            ts: Some(wire(500)),
        },
        standard(&wire(400), "u", "hello"),
    ];
    let out = process_page("C1", 1, &page, Some(false));
    assert_eq!(out.next_oldest, 500);
    assert_eq!(out.records.len(), 1);
    assert_eq!(out.records[0].ts, 400);
    store.persist_batch(&out.records);
    assert_eq!(store.len(), 1);
    assert!(store.lookup("C1", 500).is_none());
}

#[test]
fn messages_missing_fields_are_filtered_not_failed() {
    // a standard message without a timestamp, author or body is skipped
    let page = vec![
        MessageVariant::Standard {
            ts: None,
            user: Some("u".to_string()),
            text: Some("x".to_string()),
        },
        MessageVariant::Standard {
            ts: Some(wire(90)),
            user: None,
            text: Some("x".to_string()),
        },
        MessageVariant::Standard {
            ts: Some(wire(80)),
            user: Some("u".to_string()),
            text: None,
        },
        standard(&wire(70), "u", "kept"),
    ];
    let out = process_page("C1", 1, &page, None);
    assert_eq!(out.records.len(), 1);
    assert_eq!(out.records[0].body, "kept");
    // the newest element has no timestamp, so the bound is unchanged
    assert_eq!(out.next_oldest, 1);
}
