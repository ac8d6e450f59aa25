use chrono::TimeZone;
use chrono::Utc;
use giganto::graphql::{PacketFilter, PacketQuery, TimeRange};
use giganto::keys::{lower_bound_key, to_be8, upper_bound_key};
use giganto::storage::{Database, Direction, Iter, RawEventStore};

fn packet_key(source: &str, req_ts: i64, pkt_ts: i64) -> Vec<u8> {
    let mut key = Vec::new();
    key.extend_from_slice(source.as_bytes());
    key.push(0);
    key.extend(to_be8(req_ts));
    key.push(0);
    key.extend(to_be8(pkt_ts));
    key
}

fn insert_packet(store: &mut RawEventStore, source: &str, req_ts: i64, pkt_ts: i64) {
    let key = packet_key(source, req_ts, pkt_ts);
    let body: Vec<u8> = vec![0, 1, 2, 3];
    store.append(&key, &body);
}

fn ts(y: i32, mo: u32, d: u32, h: u32, mi: u32, s: u32) -> i64 {
    Utc.with_ymd_and_hms(y, mo, d, h, mi, s)
        .unwrap()
        .timestamp_nanos_opt()
        .unwrap()
}

#[test]
fn packets_empty() {
    let mut db = Database::open();
    let store = db.packet_store();
    let filter = PacketFilter {
        source: String::from("a"),
        request_time: ts(1992, 6, 5, 0, 0, 0),
        packet_time: Some(TimeRange {
            start: Some(ts(1992, 6, 5, 0, 0, 0)),
            end: Some(ts(2023, 9, 22, 0, 0, 0)),
        }),
    };
    let out = PacketQuery.packets(store, &filter);
    assert!(out.is_empty());
}

#[test]
fn packets_with_data() {
    let mut db = Database::open();
    let store = db.packet_store();

    let ts1 = ts(2023, 1, 20, 0, 0, 0);
    let ts2 = ts(2023, 1, 20, 0, 0, 1);
    let ts3 = ts(2023, 1, 20, 0, 0, 2);

    insert_packet(store, "src 1", ts1, ts1);
    insert_packet(store, "src 1", ts1, ts2);

    insert_packet(store, "src 2", ts1, ts1);
    insert_packet(store, "src 2", ts1, ts3);

    insert_packet(store, "src 1", ts2, ts1);
    insert_packet(store, "src 1", ts2, ts3);

    let filter = PacketFilter {
        source: String::from("src 1"),
        request_time: ts1,
        packet_time: None,
    };
    let out = PacketQuery.packets(store, &filter);
    let got: Vec<i64> = out
        .iter()
        .map(|(k, v)| {
            let p = giganto::graphql::Packet::from_key_value(k, v).unwrap();
            assert_eq!(p.request_time, ts1);
            p.packet_time
        })
        .collect();
    assert_eq!(got, vec![ts1, ts2]);

    let filter = PacketFilter {
        source: String::from("src 2"),
        request_time: ts1,
        packet_time: None,
    };
    let out = PacketQuery.packets(store, &filter);
    let got: Vec<i64> = out
        .iter()
        .map(|(k, v)| giganto::graphql::Packet::from_key_value(k, v).unwrap().packet_time)
        .collect();
    assert_eq!(got, vec![ts1, ts3]);

    let filter = PacketFilter {
        source: String::from("src 1"),
        request_time: ts2,
        packet_time: None,
    };
    let out = PacketQuery.packets(store, &filter);
    let got: Vec<i64> = out
        .iter()
        .map(|(k, v)| giganto::graphql::Packet::from_key_value(k, v).unwrap().packet_time)
        .collect();
    assert_eq!(got, vec![ts1, ts3]);
}

#[test]
fn range_scan_exact_interval() {
    let mut store = RawEventStore::new();
    let t = |n: i64| 1_000_000_000i64 + n;
    for i in 0..10i64 {
        let mut key = b"sensor a".to_vec();
        key.push(0);
        key.extend(to_be8(t(i)));
        store.append(&key, format!("body {i}").as_bytes());
    }
    // [t(3), t(7)) holds exactly t(3), t(4), t(5), t(6), ascending
    let from = upper_bound_key(b"sensor a", Some(t(3)));
    let to = upper_bound_key(b"sensor a", Some(t(7)));
    let out = store.scan_range(&from, &to, Direction::Forward);
    let bodies: Vec<Vec<u8>> = out.iter().map(|(_, v)| v.clone()).collect();
    assert_eq!(
        bodies,
        vec![
            b"body 3".to_vec(),
            b"body 4".to_vec(),
            b"body 5".to_vec(),
            b"body 6".to_vec()
        ]
    );
    // reverse over (t(3), t(7)] gives t(7) down to t(4)
    let out = store.scan_range(&to, &from, Direction::Reverse);
    let bodies: Vec<Vec<u8>> = out.iter().map(|(_, v)| v.clone()).collect();
    assert_eq!(
        bodies,
        vec![
            b"body 7".to_vec(),
            b"body 6".to_vec(),
            b"body 5".to_vec(),
            b"body 4".to_vec()
        ]
    );
}

#[test]
fn round_trip_overwrite_and_delete() {
    let mut store = RawEventStore::new();
    store.append(b"k1", b"first");
    store.append(b"k1", b"second");
    let keys = store.all_keys();
    assert_eq!(keys, vec![b"k1".to_vec()]);
    let out = store.scan_range(b"k0", b"k2", Direction::Forward);
    assert_eq!(out.len(), 1);
    assert_eq!(out[0].1, b"second".to_vec());
    store.delete(b"k1");
    assert!(store.all_keys().is_empty());
}

#[test]
fn bound_keys_bytes() {
    // the lower bound carries the nanosecond before the instant
    let lb = lower_bound_key(b"p", Some(1));
    assert_eq!(lb, vec![b'p', 0, 0, 0, 0, 0, 0, 0, 0, 0]);
    let lb = lower_bound_key(b"p", Some(0));
    assert_eq!(lb, vec![b'p', 0]);
    // with no instant the upper bound swaps the separator for 0x01
    let ub = upper_bound_key(b"p", None);
    assert_eq!(ub, vec![b'p', 1]);
    let ub = upper_bound_key(b"p", Some(256));
    assert_eq!(ub, vec![b'p', 0, 0, 0, 0, 0, 0, 0, 1, 0]);
    assert_eq!(to_be8(-1), vec![255u8; 8]);
}

#[test]
fn bounded_iter_stops() {
    let mut store = RawEventStore::new();
    for i in 0..5u8 {
        store.append(&[b'x', 0, i], &[i]);
    }
    let mut it = Iter::new(&store, &[b'x', 0, 1], &[b'x', 0, 4], Direction::Forward);
    let mut seen = Vec::new();
    while let Some((k, _)) = it.next() {
        seen.push(k);
    }
    assert_eq!(
        seen,
        vec![vec![b'x', 0, 1], vec![b'x', 0, 2], vec![b'x', 0, 3]]
    );
}

#[test]
fn retention_sweeps_old_records() {
    let mut db = Database::open();
    let now = Utc::now().timestamp_nanos_opt().unwrap();

    // the roster names the sensor the sweeper works for
    db.sources_store().append(b"s1", &to_be8(now));

    // a record ten seconds old, and a fresh one
    let mut old_key = b"s1".to_vec();
    old_key.push(0);
    old_key.extend(to_be8(now - 10_000_000_000));
    db.conn_store().append(&old_key, b"old");

    let mut new_key = b"s1".to_vec();
    new_key.push(0);
    new_key.extend(to_be8(now));
    db.conn_store().append(&new_key, b"new");

    // generic log: kind sits between sensor and timestamp
    let mut old_log = b"s1".to_vec();
    old_log.push(0);
    old_log.extend_from_slice(b"Hello");
    old_log.push(0);
    old_log.extend(to_be8(now - 10_000_000_000));
    db.log_store().append(&old_log, b"old line");

    // retention of one second
    let cutoff = now - 1_000_000_000;
    giganto::retention::retention_sweep(&mut db, cutoff);

    let conn_keys = db.conn_store().all_keys();
    assert_eq!(conn_keys, vec![new_key]);
    assert!(db.log_store().all_keys().is_empty());
    // the roster stands
    assert_eq!(db.sources_store().all_keys(), vec![b"s1".to_vec()]);
}
