use tracker_core::bencode::{encode_announce_response, encode_scrape_response};
use tracker_core::bittorrent::{AnnounceRequest, ScrapeRequest};
use tracker_core::engine::{handle_announce, handle_scrape};
use tracker_core::middleware::ClientApproval;
use tracker_core::peer::Peer;
use tracker_core::storage::{Stores, Torrent, TorrentStore};

fn seeder_query(info_hash: &str, peer_id: &str, port: u16, event: &str) -> String {
    format!(
        "info_hash={}&peer_id={}&port={}&uploaded=0&downloaded=0&left=0&event={}&numwant=30&compact=1",
        info_hash, peer_id, port, event
    )
}

#[test]
fn empty_tracker_seeder_announce() {
    // A seeder announces `started` against an empty tracker: the
    // counters read zero (no torrent row), and both peer lists come
    // back empty — the announcing peer is never returned to itself.
    let mut stores = Stores::new(Vec::new());
    let query = "info_hash=%AA%AA%AA%AA%AA%AA%AA%AA%AA%AA%AA%AA%AA%AA%AA%AA%AA%AA%AA%AA\
        &peer_id=%BB%BB%BB%BB%BB%BB%BB%BB%BB%BB%BB%BB%BB%BB%BB%BB%BB%BB%BB%BB\
        &port=6881&uploaded=0&downloaded=0&left=0&event=started&numwant=30&compact=1";
    let req = AnnounceRequest::new(query, Some("10.0.0.1:49152"), 1000).unwrap();
    let response = handle_announce(&mut stores, &req, 1800);
    let body = encode_announce_response(response);

    assert_eq!(
        body.as_slice(),
        &b"d8:completei0e10:incompletei0e8:intervali1800e5:peers0:6:peers60:10:tracker_id0:e"[..]
    );
}

#[test]
fn two_families_partitioned_in_response() {
    // One IPv4 and one IPv6 peer have started; a third peer announces.
    // The third peer is not returned to itself, so the response holds
    // exactly the two prior peers: `peers` is the 6-byte record of the
    // IPv4 peer and `peers6` the 18-byte record of the IPv6 peer.
    let mut stores = Stores::new(Vec::new());
    let h = "aaaaaaaaaaaaaaaaaaaa";

    let q1 = seeder_query(h, "AAAAAAAAAAAAAAAAAAAA", 6881, "started");
    let r1 = AnnounceRequest::new(&q1, Some("10.0.0.1:1"), 0).unwrap();
    handle_announce(&mut stores, &r1, 1800);

    let q2 = seeder_query(h, "BBBBBBBBBBBBBBBBBBBB", 6882, "started");
    let r2 = AnnounceRequest::new(&q2, Some("[2001:db8::1]:2"), 0).unwrap();
    handle_announce(&mut stores, &r2, 1800);

    let q3 = format!(
        "info_hash={}&peer_id=CCCCCCCCCCCCCCCCCCCC&port=6883&uploaded=0&downloaded=0&left=10&event=started&numwant=10",
        h
    );
    let r3 = AnnounceRequest::new(&q3, Some("10.0.0.3:3"), 0).unwrap();
    let response = handle_announce(&mut stores, &r3, 1800);

    let peers4 = response.peersv4_as_compact();
    let mut v4_expected: Vec<u8> = vec![10, 0, 0, 1];
    v4_expected.extend_from_slice(&6881u16.to_be_bytes());
    assert_eq!(peers4, v4_expected);

    let peers6 = response.peersv6_as_compact();
    let mut v6_expected: Vec<u8> = 0x2001_0db8_0000_0000_0000_0000_0000_0001u128
        .to_be_bytes()
        .to_vec();
    v6_expected.extend_from_slice(&6882u16.to_be_bytes());
    assert_eq!(peers6, v6_expected);
}

#[test]
fn started_then_completed_promotes_and_counts() {
    // `started` then `completed` by one `(peer_id, ip, port)`: the peer
    // ends among the seeders and not among the leechers, and the
    // torrent row gains one completion and one seeder.
    let h = b"aaaaaaaaaaaaaaaaaaaa".to_vec();
    let records = vec![Torrent::new(h.clone(), 5, 7, 2, 0)];
    let mut stores = Stores::new(records);

    let q1 = seeder_query("aaaaaaaaaaaaaaaaaaaa", "AAAAAAAAAAAAAAAAAAAA", 6881, "started");
    let r1 = AnnounceRequest::new(&q1, Some("10.0.0.1:1"), 0).unwrap();
    handle_announce(&mut stores, &r1, 1800);

    let q2 = seeder_query("aaaaaaaaaaaaaaaaaaaa", "AAAAAAAAAAAAAAAAAAAA", 6881, "completed");
    let r2 = AnnounceRequest::new(&q2, Some("10.0.0.1:1"), 5).unwrap();
    let response = handle_announce(&mut stores, &r2, 1800);

    let swarm = &stores
        .peer_store
        .records
        .iter()
        .find(|(hash, _)| hash.as_slice() == h.as_slice())
        .unwrap()
        .1;
    assert!(swarm.seeders.contains(&r2.peer));
    assert!(!swarm.leechers.contains(&r2.peer));

    assert_eq!(stores.torrent_store.get_announce_stats(h.clone()), (6, 2));
    let row = stores
        .torrent_store
        .torrents
        .iter()
        .find(|t| t.info_hash.as_slice() == h.as_slice())
        .unwrap();
    assert_eq!(row.downloaded, 8);
    assert_eq!(response.complete, 6);
    assert_eq!(response.incomplete, 2);
}

#[test]
fn malformed_scrape_body() {
    let result = ScrapeRequest::new("bad_stuff=123");
    let failure = result.err().unwrap();
    let body = encode_scrape_response(failure);
    assert_eq!(
        body.as_slice(),
        &b"d14:failure_reason24:Malformed scrape requeste"[..]
    );
}

#[test]
fn malformed_announce_body() {
    let result = AnnounceRequest::new("bad_stuff=123", Some("10.0.0.1:1"), 0);
    let failure = result.err().unwrap();
    let body = encode_announce_response(failure);
    assert_eq!(
        body.as_slice(),
        &b"d14:failure_reason17:Malformed requeste"[..]
    );
}

#[test]
fn scrape_returns_stats_for_known_hashes() {
    let h1 = b"A1B2C3D4E5F6G7H8I9J0".to_vec();
    let h2 = b"B2C3D4E5F6G7H8I9J0K1".to_vec();
    let records = vec![
        Torrent::new(h1.clone(), 10, 34, 7, 10000000),
        Torrent::new(h2.clone(), 25, 57, 19, 20000000),
    ];
    let store = TorrentStore::new(records).unwrap();

    let req = ScrapeRequest::new("info_hash=A1B2C3D4E5F6G7H8I9J0&info_hash=B2C3D4E5F6G7H8I9J0K1")
        .unwrap();
    let response = handle_scrape(&store, req);
    let body = encode_scrape_response(response);
    assert_eq!(
        body.as_slice(),
        &b"d5:filesd20:A1B2C3D4E5F6G7H8I9J0d8:completei10e10:downloadedi34e10:incompletei7ee20:B2C3D4E5F6G7H8I9J0K1d8:completei25e10:downloadedi57e10:incompletei19eeee"[..]
    );
}

#[test]
fn reaped_peer_is_not_returned() {
    // With a one-second timeout, a peer that announced two seconds ago
    // is evicted by the reaper, and a later `event=none` announce finds
    // and re-registers nothing.
    let mut stores = Stores::new(Vec::new());
    let q1 = seeder_query("aaaaaaaaaaaaaaaaaaaa", "AAAAAAAAAAAAAAAAAAAA", 6881, "started");
    let r1 = AnnounceRequest::new(&q1, Some("10.0.0.1:1"), 1000).unwrap();
    handle_announce(&mut stores, &r1, 1800);

    let (seeds, leeches) = stores.peer_store.reap(1002, 1);
    assert_eq!((seeds, leeches), (0, 1));

    let q2 = format!(
        "info_hash=aaaaaaaaaaaaaaaaaaaa&peer_id=AAAAAAAAAAAAAAAAAAAA&port=6881&uploaded=0&downloaded=0&left=0&numwant=30"
    );
    let r2 = AnnounceRequest::new(&q2, Some("10.0.0.1:1"), 1002).unwrap();
    let response = handle_announce(&mut stores, &r2, 1800);
    let body = encode_announce_response(response);
    assert_eq!(
        body.as_slice(),
        &b"d8:completei0e10:incompletei0e8:intervali1800e5:peers0:6:peers60:10:tracker_id0:e"[..]
    );
}

#[test]
fn approval_filter_end_to_end() {
    // Whitelist {qB}, non-versioned: an Azureus-style client is turned
    // away with the bencoded failure; a qBittorrent client reaches the
    // engine and is served.
    let filter = ClientApproval::new(false, false, vec!["qB".to_string()]);
    let mut stores = Stores::new(Vec::new());

    let rejected = "info_hash=aaaaaaaaaaaaaaaaaaaa&peer_id=-AZ0000-000000000000&port=6881&uploaded=0&downloaded=0&left=0&event=started";
    match filter.check_query(rejected) {
        Ok(_) => panic!("unapproved client must not pass"),
        Err(e) => {
            let body = encode_announce_response(
                tracker_core::bittorrent::AnnounceResponse::failure(e.text()),
            );
            assert_eq!(
                body.as_slice(),
                &b"d14:failure_reason17:Unapproved cliente"[..]
            );
        }
    }

    // A swarm member announced earlier, so the approved client has a
    // peer to receive.
    let prior = "info_hash=aaaaaaaaaaaaaaaaaaaa&peer_id=-qB0000-111111111111&port=7000&uploaded=0&downloaded=0&left=0&event=started";
    assert!(filter.check_query(prior).is_ok());
    let prior_req = AnnounceRequest::new(prior, Some("10.0.0.9:1"), 0).unwrap();
    handle_announce(&mut stores, &prior_req, 1800);

    let accepted = "info_hash=aaaaaaaaaaaaaaaaaaaa&peer_id=-qB4450-000000000000&port=6881&uploaded=0&downloaded=0&left=0&event=started";
    assert!(filter.check_query(accepted).is_ok());
    let req = AnnounceRequest::new(accepted, Some("10.0.0.1:1"), 0).unwrap();
    let response = handle_announce(&mut stores, &req, 1800);
    assert!(response.failure_reason.is_none());
    // Exactly the earlier member comes back, never the requester.
    assert_eq!(response.peersv4_as_compact(), vec![10, 0, 0, 9, 0x1b, 0x58]);
}

#[test]
fn stopped_after_started_empties_swarm() {
    let mut stores = Stores::new(Vec::new());
    let q1 = seeder_query("aaaaaaaaaaaaaaaaaaaa", "AAAAAAAAAAAAAAAAAAAA", 6881, "started");
    let r1 = AnnounceRequest::new(&q1, Some("10.0.0.1:1"), 0).unwrap();
    handle_announce(&mut stores, &r1, 1800);

    let q2 = seeder_query("aaaaaaaaaaaaaaaaaaaa", "AAAAAAAAAAAAAAAAAAAA", 6881, "stopped");
    let r2 = AnnounceRequest::new(&q2, Some("10.0.0.1:1"), 1).unwrap();
    let response = handle_announce(&mut stores, &r2, 1800);
    assert_eq!(response.peers.len(), 0);
    assert_eq!(response.peers6.len(), 0);
    match &r2.peer {
        Peer::V4(_) => {}
        _ => panic!("expected an IPv4 peer"),
    }
}
