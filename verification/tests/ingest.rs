use giganto::ingest::{
    check_sentinel, compose_storage_key, ingest_record, is_replay_agent, AckController,
    NetworkKey, RecordData, ACK_ROTATION_CNT, CHANNEL_CLOSE_TIMESTAMP,
};
use giganto::keys::{to_be4, to_be8};
use giganto::kind::RawEventKind;
use giganto::roster::{ConnState, SourceRoster};
use giganto::storage::RawEventStore;

#[test]
fn sentinel_is_exact() {
    assert!(check_sentinel(-1, b"channel done"));
    assert!(!check_sentinel(0, b"channel done"));
    assert!(!check_sentinel(-1, b"channel done!"));
    assert!(!check_sentinel(-1, b"channel don"));
}

#[test]
fn network_key_layout() {
    let nk = NetworkKey::new("einsis", "conn");
    assert_eq!(nk.source_key, "einsis\0conn");
    assert_eq!(nk.all_key, "all\0conn");
}

#[test]
fn kind_codes_round_trip() {
    for code in 0u32..37 {
        let kind = RawEventKind::from_code(code).unwrap();
        assert_eq!(kind.code(), code);
    }
    assert!(RawEventKind::from_code(37).is_none());
    assert!(RawEventKind::from_code(u32::MAX).is_none());
    assert_eq!(RawEventKind::from_code(0), Some(RawEventKind::Conn));
    assert_eq!(RawEventKind::from_code(36), Some(RawEventKind::SecuLog));
    assert_eq!(
        RawEventKind::Dns.network_protocol(),
        Some("dns")
    );
    assert_eq!(RawEventKind::Packet.network_protocol(), None);
}

#[test]
fn storage_key_layouts() {
    // network: sensor NUL ts
    let k = compose_storage_key("s", 7, &RecordData::Network);
    let mut want = b"s".to_vec();
    want.push(0);
    want.extend(to_be8(7));
    assert_eq!(k, want);

    // generic log: sensor NUL kind NUL ts
    let k = compose_storage_key(
        "s",
        7,
        &RecordData::Log {
            log_kind: b"Hello".to_vec(),
        },
    );
    let mut want = b"s".to_vec();
    want.push(0);
    want.extend_from_slice(b"Hello");
    want.push(0);
    want.extend(to_be8(7));
    assert_eq!(k, want);

    // packet: sensor NUL request-ts NUL packet-ts
    let k = compose_storage_key("s", 7, &RecordData::Packet { packet_timestamp: 9 });
    let mut want = b"s".to_vec();
    want.push(0);
    want.extend(to_be8(7));
    want.push(0);
    want.extend(to_be8(9));
    assert_eq!(k, want);

    // statistics: sensor NUL core(be) NUL ts
    let k = compose_storage_key("s", 7, &RecordData::Statistics { core: 3 });
    let mut want = b"s".to_vec();
    want.push(0);
    want.extend(to_be4(3));
    want.push(0);
    want.extend(to_be8(7));
    assert_eq!(k, want);

    // series and operational log open with their own identifier
    let k = compose_storage_key(
        "s",
        7,
        &RecordData::PeriodicTimeSeries {
            id: String::from("series9"),
        },
    );
    let mut want = b"series9".to_vec();
    want.push(0);
    want.extend(to_be8(7));
    assert_eq!(k, want);

    let agent = giganto::ingest::oplog_agent_id("agent", "s");
    assert_eq!(agent, "agent@s");
}

#[test]
fn ack_rotation() {
    // 1025 records: one acknowledgement at the 1024th record, of its own
    // timestamp, with a flush; a terminal one on stream close
    let mut store = RawEventStore::new();
    let mut ack = AckController::new();
    let mut mid_acks = Vec::new();
    for i in 0..1025i64 {
        let out = ingest_record(
            &mut store,
            &mut ack,
            "s",
            RawEventKind::Conn,
            1_000 + i,
            RecordData::Network,
            vec![1, 2, 3],
        );
        assert!(out.publish);
        assert_eq!(out.flush, out.ack.is_some());
        if let Some(t) = out.ack {
            mid_acks.push((i, t));
        }
    }
    assert_eq!(mid_acks, vec![(1023, 1_000 + 1023)]);
    assert_eq!(store.flush_count(), 1);
    let terminal = ack.on_stream_close();
    assert_eq!(terminal, Some(1_000 + 1024));
    assert_eq!(ack.on_stream_close(), None);
}

#[test]
fn ack_interval_and_sentinel() {
    let mut ack = AckController::new();
    // nothing pending: the interval trigger stays quiet
    assert_eq!(ack.on_interval_tick(), None);
    assert_eq!(ack.on_record(42), None);
    // one unacknowledged write: exactly one acknowledgement of the last
    // seen timestamp
    assert_eq!(ack.on_interval_tick(), Some(42));
    // everything acknowledged again: the next tick stays quiet
    assert_eq!(ack.on_interval_tick(), None);
    // the sentinel acknowledges its own negative timestamp, untouched state
    assert_eq!(ack.on_sentinel(), CHANNEL_CLOSE_TIMESTAMP);
    assert_eq!(ack.on_record(43), None);
    assert!(u32::from(ACK_ROTATION_CNT) == 1024);
}

#[test]
fn ack_monotonic_run() {
    // non-decreasing record timestamps give non-decreasing acknowledgements
    let mut ack = AckController::new();
    let mut emitted = Vec::new();
    let mut t = 5i64;
    for i in 0..3000i64 {
        if i % 7 == 0 {
            t += 1;
        }
        if let Some(a) = ack.on_record(t) {
            emitted.push(a);
        }
        if i % 900 == 0 {
            if let Some(a) = ack.on_interval_tick() {
                emitted.push(a);
            }
        }
    }
    if let Some(a) = ack.on_stream_close() {
        emitted.push(a);
    }
    assert!(!emitted.is_empty());
    for w in emitted.windows(2) {
        assert!(w[0] <= w[1]);
    }
}

#[test]
fn roster_tracks_live_sensors() {
    let mut roster = SourceRoster::new();
    let mut store = RawEventStore::new();
    let s = String::from("einsis");

    // non-replay connect: live, notified, persisted
    let notified = roster.handle_event(&mut store, &s, 100, ConnState::Connected, false);
    assert!(notified);
    assert!(roster.contains(&s));
    assert_eq!(store.all_keys(), vec![b"einsis".to_vec()]);

    // replay connect of another agent: persisted but never live
    let r = String::from("replayer");
    let notified = roster.handle_event(&mut store, &r, 110, ConnState::Connected, true);
    assert!(!notified);
    assert!(!roster.contains(&r));
    assert_eq!(store.all_keys().len(), 2);

    // non-replay disconnect: gone from the live roster, still persisted
    let notified = roster.handle_event(&mut store, &s, 120, ConnState::Disconnected, false);
    assert!(notified);
    assert!(!roster.contains(&s));
    assert_eq!(store.all_keys().len(), 2);
}

#[test]
fn security_log_stores_rewritten_body() {
    let mut store = RawEventStore::new();
    let mut ack = AckController::new();
    let out = ingest_record(
        &mut store,
        &mut ack,
        "sensor",
        RawEventKind::SecuLog,
        77,
        RecordData::SecuLog {
            secu_kind: String::from("wapples"),
            rewritten: b"body with sensor".to_vec(),
        },
        b"body without sensor".to_vec(),
    );
    assert!(!out.publish);
    let mut key = b"wapples".to_vec();
    key.push(0);
    key.extend(to_be8(77));
    let scan = store.scan_range(&key, &[0xffu8; 17], giganto::storage::Direction::Forward);
    assert_eq!(scan.len(), 1);
    assert_eq!(scan[0].0, key);
    assert_eq!(scan[0].1, b"body with sensor".to_vec());
}

#[test]
fn replay_classification_is_a_substring_test() {
    assert!(is_replay_agent("reproduce"));
    assert!(is_replay_agent("site-reproduce-01"));
    assert!(is_replay_agent("xreproducey"));
    assert!(!is_replay_agent("produce"));
    assert!(!is_replay_agent("re-produce"));
    assert!(!is_replay_agent(""));
    assert!(!is_replay_agent("piglet"));
}

#[test]
fn roster_refresh_updates_every_live_sensor() {
    let mut roster = SourceRoster::new();
    let mut store = RawEventStore::new();
    let a = String::from("alpha");
    let b = String::from("beta");
    roster.handle_event(&mut store, &a, 100, ConnState::Connected, false);
    roster.handle_event(&mut store, &b, 101, ConnState::Connected, false);

    roster.refresh_all(&mut store, 500);
    assert!(roster.contains(&a));
    assert!(roster.contains(&b));
    // the persisted rows now carry the refreshed instant
    let rows = store.scan_range(b"a", b"c", giganto::storage::Direction::Forward);
    assert_eq!(rows.len(), 2);
    for (_, v) in rows {
        assert_eq!(v, to_be8(500));
    }
}
