use giganto::peer::{
    accept_peer_version, decode_peer_frame, encode_peer_frame, encode_u32_le, DialFailure,
    PeerCode, PeerConnMap, PeerInfo, PeerList, PeerSourceMap,
};

#[test]
fn peer_code_wire_numbers() {
    assert_eq!(PeerCode::UpdatePeerList.code(), 0);
    assert_eq!(PeerCode::UpdateSourceList.code(), 1);
    assert_eq!(PeerCode::from_code(0), Some(PeerCode::UpdatePeerList));
    assert_eq!(PeerCode::from_code(1), Some(PeerCode::UpdateSourceList));
    assert_eq!(PeerCode::from_code(2), None);
    assert_eq!(encode_u32_le(0x01020304), vec![4, 3, 2, 1]);
}

#[test]
fn peer_frame_round_trip() {
    let payload = b"any bytes at all".to_vec();
    let frame = encode_peer_frame(PeerCode::UpdateSourceList, &payload);
    assert_eq!(&frame[0..4], &[1, 0, 0, 0]);
    assert_eq!(&frame[4..8], &[16, 0, 0, 0]);
    let (code, got) = decode_peer_frame(&frame).unwrap();
    assert_eq!(code, PeerCode::UpdateSourceList);
    assert_eq!(got, payload);

    // a short buffer, a bad code and a bad length are refused
    assert!(decode_peer_frame(&frame[0..7]).is_none());
    let mut bad = frame.clone();
    bad[0] = 9;
    assert!(decode_peer_frame(&bad).is_none());
    let mut bad = frame;
    bad[4] = 3;
    assert!(decode_peer_frame(&bad).is_none());
}

#[test]
fn duplicate_connection_resolution() {
    // the first established connection wins; the newcomer is refused
    let mut conns = PeerConnMap::new();
    assert!(conns.try_register(&String::from("peer-b"), 1));
    assert!(!conns.try_register(&String::from("peer-b"), 2));
    assert!(conns.try_register(&String::from("peer-c"), 3));
    assert!(conns.contains(&String::from("peer-b")));
    conns.remove(&String::from("peer-b"));
    assert!(!conns.contains(&String::from("peer-b")));
    // cleanup is idempotent
    conns.remove(&String::from("peer-b"));
    assert!(conns.contains(&String::from("peer-c")));
}

#[test]
fn gossip_merge_skips_own_ip_and_known_peers() {
    let mut list = PeerList::new();
    let local_ip = String::from("10.0.0.1");
    let received = vec![
        PeerInfo {
            ip: String::from("10.0.0.1"),
            port: 38383,
            host_name: String::from("me"),
        },
        PeerInfo {
            ip: String::from("123.123.123.123"),
            port: 38383,
            host_name: String::from("einsis_peer"),
        },
        PeerInfo {
            ip: String::from("123.123.123.123"),
            port: 38383,
            host_name: String::from("einsis_peer"),
        },
    ];
    let added = list.update_to_new_peer_list(&local_ip, received);
    // the duplicate and this host's own address stay out
    assert_eq!(added.len(), 1);
    assert_eq!(added[0].host_name, "einsis_peer");
    assert_eq!(list.len(), 1);

    // learning the same peer again changes nothing: no persistence owed
    let again = vec![PeerInfo {
        ip: String::from("123.123.123.123"),
        port: 38383,
        host_name: String::from("einsis_peer"),
    }];
    let added = list.update_to_new_peer_list(&local_ip, again);
    assert!(added.is_empty());
    assert_eq!(list.len(), 1);
}

#[test]
fn recv_peer_data() {
    // engine A boots with peer B configured and one live sensor; the two
    // engines exchange their peer sets and rosters over framed messages
    let mut a_peers = PeerList::new();
    let a_ip = String::from("10.0.0.1");
    a_peers.update_to_new_peer_list(
        &a_ip,
        vec![PeerInfo {
            ip: String::from("123.123.123.123"),
            port: 38383,
            host_name: String::from("einsis_peer"),
        }],
    );
    let a_sources = vec![String::from("einsis_source")];

    // A sends its roster; B reads it off the wire
    let payload = bincode::serialize(&a_sources).unwrap();
    let frame = encode_peer_frame(PeerCode::UpdateSourceList, &payload);
    let (code, body) = decode_peer_frame(&frame).unwrap();
    assert_eq!(code, PeerCode::UpdateSourceList);
    let got: Vec<String> = bincode::deserialize(&body).unwrap();
    assert!(got.contains(&String::from("einsis_source")));

    let mut b_sources = PeerSourceMap::new();
    b_sources.update_to_new_source_list(&String::from("10.0.0.1"), got);

    // A's roster gains a sensor; B observes it in the next notification
    let a_sources = vec![
        String::from("einsis_source"),
        String::from("einsis_source2"),
    ];
    let payload = bincode::serialize(&a_sources).unwrap();
    let frame = encode_peer_frame(PeerCode::UpdateSourceList, &payload);
    let (code, body) = decode_peer_frame(&frame).unwrap();
    assert_eq!(code, PeerCode::UpdateSourceList);
    let update: Vec<String> = bincode::deserialize(&body).unwrap();
    assert!(update.contains(&String::from("einsis_source")));
    assert!(update.contains(&String::from("einsis_source2")));
    b_sources.update_to_new_source_list(&String::from("10.0.0.1"), update);

    // B's peer set learns A itself via the peer-list message
    let mut b_peers = PeerList::new();
    let a_info = vec![PeerInfo {
        ip: String::from("10.0.0.1"),
        port: 38383,
        host_name: String::from("engine_a"),
    }];
    let added = b_peers.update_to_new_peer_list(&String::from("123.123.123.123"), a_info);
    assert_eq!(added.len(), 1);
    assert!(b_peers.contains(&PeerInfo {
        ip: String::from("10.0.0.1"),
        port: 38383,
        host_name: String::from("engine_a"),
    }));
}

#[test]
fn version_and_retry_policies() {
    // siblings: at least 0.12.0 and below 0.16.0
    assert!(accept_peer_version(0, 12));
    assert!(accept_peer_version(0, 15));
    assert!(!accept_peer_version(0, 11));
    assert!(!accept_peer_version(0, 16));
    assert!(!accept_peer_version(1, 12));
    // sensors: exactly the 0.15 line
    assert!(giganto::ingest::accept_ingest_version(0, 15));
    assert!(!giganto::ingest::accept_ingest_version(0, 14));
    assert!(!giganto::ingest::accept_ingest_version(0, 16));

    assert!(DialFailure::ConnectionClosed.should_retry());
    assert!(DialFailure::ApplicationClosed.should_retry());
    assert!(DialFailure::Reset.should_retry());
    assert!(DialFailure::TimedOut.should_retry());
    assert!(!DialFailure::Other.should_retry());
}
