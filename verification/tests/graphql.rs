use chrono::Utc;
use giganto::codec::{base64_encode, decode_log_body, encode_log_body};
use giganto::gen_key;
use giganto::graphql::{check_paging_type, LogRawEvent, PagingType, Query};
use giganto::ingestion::{Conn, Log};
use giganto::keys::to_be8;
use giganto::storage::Database;

#[test]
fn log_empty() {
    let mut db = Database::open();
    let store = db.log_store();
    let (page, _prev, _next) =
        giganto::graphql::log_events(store, "einsis", "Hello", PagingType::First(0)).unwrap();
    assert!(page.is_empty());
}

#[test]
fn log_with_data() {
    let mut db = Database::open();
    let store = db.log_store();

    let mut source_kind = b"einsis\x00Hello\x00".to_vec();
    source_kind.extend(to_be8(Utc::now().timestamp_nanos_opt().unwrap()));

    let body = base64::decode("aGVsbG8gd29ybGQ=").unwrap();
    let ser_log_body = bincode::serialize(&(String::from("Hello"), body.clone())).unwrap();

    store.append(&source_kind[..], &ser_log_body);

    let (page, prev, _next) =
        giganto::graphql::log_events(store, "einsis", "Hello", PagingType::First(1)).unwrap();
    assert_eq!(page.len(), 1);
    assert_eq!(page[0].0, source_kind);
    // a page exists as soon as any event does
    assert!(prev);

    let out = Query
        .log_raw_events(store, "einsis", &String::from("Hello"))
        .unwrap();
    assert_eq!(out, vec![String::from("aGVsbG8gd29ybGQ=")]);

    // another log kind of the same sensor stays out of the page
    let (page, _, _) =
        giganto::graphql::log_events(store, "einsis", "World", PagingType::First(10)).unwrap();
    assert!(page.is_empty());
}

#[test]
fn log_pagination_windows() {
    let mut db = Database::open();
    let store = db.log_store();
    let mut keys = Vec::new();
    for i in 0..5i64 {
        let mut key = b"s\x00k\x00".to_vec();
        key.extend(to_be8(1000 + i));
        store.append(&key, &encode_log_body("k", format!("line{i}").as_bytes()));
        keys.push(key);
    }
    let (page, prev, next) =
        giganto::graphql::log_events(store, "s", "k", PagingType::First(2)).unwrap();
    assert_eq!(page.len(), 2);
    assert_eq!(page[0].0, keys[0]);
    assert_eq!(page[1].0, keys[1]);
    assert!(prev);
    assert!(next);

    let (page, prev, next) =
        giganto::graphql::log_events(store, "s", "k", PagingType::Last(2)).unwrap();
    assert_eq!(page.len(), 2);
    assert_eq!(page[0].0, keys[3]);
    assert_eq!(page[1].0, keys[4]);
    assert!(prev);
    assert!(next);

    // pick up after the second event via its base64 cursor
    let cursor = base64_encode(&keys[1]);
    let (page, _prev, next) =
        giganto::graphql::log_events(store, "s", "k", PagingType::AfterFirst(cursor, 2)).unwrap();
    assert_eq!(page.len(), 2);
    assert_eq!(page[0].0, keys[2]);
    assert_eq!(page[1].0, keys[3]);
    assert!(next);

    // an invalid cursor is refused
    assert!(giganto::graphql::log_events(
        store,
        "s",
        "k",
        PagingType::AfterFirst(String::from("???"), 2)
    )
    .is_err());

    // a decodable but non-canonical cursor names no key either: "QQ"
    // decodes, yet the encoder writes "QQ==" for that byte
    assert!(giganto::graphql::log_events(
        store,
        "s",
        "k",
        PagingType::AfterFirst(String::from("QQ"), 2)
    )
    .is_err());
}

#[test]
fn paging_type_precedence() {
    assert!(matches!(
        check_paging_type(None, None, Some(3), None),
        Ok(PagingType::First(3))
    ));
    assert!(matches!(
        check_paging_type(Some(String::from("c")), None, Some(3), None),
        Ok(PagingType::AfterFirst(_, 3))
    ));
    assert!(matches!(
        check_paging_type(None, None, None, Some(4)),
        Ok(PagingType::Last(4))
    ));
    assert!(matches!(
        check_paging_type(None, Some(String::from("c")), None, Some(4)),
        Ok(PagingType::BeforeLast(_, 4))
    ));
    assert!(check_paging_type(None, None, None, None).is_err());
}

#[test]
fn codec_round_trips() {
    // the encoder writes real base64, not its input
    let text = base64_encode(b"hello world");
    assert_eq!(text, "aGVsbG8gd29ybGQ=");
    assert_eq!(
        giganto::codec::base64_decode(&text),
        Some(b"hello world".to_vec())
    );
    assert_eq!(giganto::codec::base64_decode("?b@d"), None);

    let encoded = encode_log_body("Hello", b"hello world");
    // the default serialisation: an 8-byte little-endian length before
    // each field
    let mut want: Vec<u8> = Vec::new();
    want.extend_from_slice(&5u64.to_le_bytes());
    want.extend_from_slice(b"Hello");
    want.extend_from_slice(&11u64.to_le_bytes());
    want.extend_from_slice(b"hello world");
    assert_eq!(encoded, want);
    let (k, b) = decode_log_body(&encoded).unwrap();
    assert_eq!(k, "Hello");
    assert_eq!(b, b"hello world".to_vec());

    let text = giganto::codec::std_base64_encode(&[0, 1, 2, 3]);
    assert_eq!(text, "AAECAw==");
}

#[test]
fn gen_key_joins_segments() {
    let key = gen_key(vec![b"einsis".to_vec(), b"Hello".to_vec()]);
    assert_eq!(key, b"einsis\x00Hello".to_vec());
    assert_eq!(gen_key(vec![]), Vec::<u8>::new());
    assert_eq!(gen_key(vec![b"one".to_vec()]), b"one".to_vec());
}

#[test]
fn raw_event_conversions() {
    let c = Conn {
        orig_addr: String::from("192.168.4.76"),
        resp_addr: String::from("192.168.4.76"),
        orig_port: 46378,
        resp_port: 80,
        proto: 6,
        duration: 1000,
        orig_bytes: 77,
        resp_bytes: 295,
        orig_pkts: 397,
        resp_pkts: 511,
    };
    let ev = giganto::graphql::ConnRawEvent::from(c);
    assert_eq!(ev.orig_addr, "192.168.4.76");
    assert_eq!(ev.resp_pkts, 511);

    let l = Log {
        log: (String::from("Hello"), b"hello world".to_vec()),
    };
    let ev = LogRawEvent::from_log(l);
    assert_eq!(ev.log, "aGVsbG8gd29ybGQ=");
}

#[test]
fn src_raw_events_scoped_by_source() {
    let mut db = Database::open();
    let store = db.conn_store();
    let mut key_a = b"a".to_vec();
    key_a.push(0);
    key_a.extend(to_be8(1));
    store.append(&key_a, b"event a");
    let mut key_b = b"b".to_vec();
    key_b.push(0);
    key_b.extend(to_be8(1));
    store.append(&key_b, b"event b");

    let out = Query.conn_raw_events(store, "a");
    assert_eq!(out.len(), 1);
    assert_eq!(out[0].1, b"event a".to_vec());
}

#[test]
fn malformed_log_body_fails_query() {
    let mut db = Database::open();
    let store = db.log_store();
    let mut key = b"s\x00k\x00".to_vec();
    key.extend(to_be8(1));
    // three bytes cannot hold a length-prefixed pair
    store.append(&key, &[1, 2, 3]);
    assert!(Query
        .log_raw_events(store, "s", &String::from("k"))
        .is_err());
}

#[test]
fn packet_key_too_short_is_refused() {
    assert!(giganto::graphql::Packet::from_key_value(&[0u8; 16], b"x").is_none());
    assert!(giganto::graphql::Packet::from_key_value(&[0u8; 17], b"x").is_some());
}
