use tracker_core::peer::{Peer, Peerv4};
use tracker_core::storage::{PeerStore, Stores, Swarm, Torrent, TorrentStore};

fn swarm_of<'a>(store: &'a PeerStore, info_hash: &[u8]) -> &'a Swarm {
    &store
        .records
        .iter()
        .find(|(h, _)| h.as_slice() == info_hash)
        .unwrap()
        .1
}

fn test_peer(peer_id: &[u8], ip: u32, port: u16, last_announced: u64) -> Peer {
    Peer::V4(Peerv4 {
        peer_id: peer_id.to_vec(),
        ip,
        port,
        last_announced,
    })
}

const LOCALHOST: u32 = 2130706433;

#[test]
fn memory_peer_storage_put_seeder_new_swarm() {
    let records: Vec<Torrent> = Vec::new();
    let mut stores = Stores::new(records);
    let info_hash = b"A1B2C3D4E5F6G7H8I9J0".to_vec();
    let peer = test_peer(b"ABCDEFGHIJKLMNOPQRST", LOCALHOST, 6893, 0);

    stores.peer_store.put_seeder(info_hash.clone(), peer.clone());
    assert_eq!(
        swarm_of(&stores.peer_store, &info_hash).seeders.contains(&peer),
        true
    );
}

#[test]
fn memory_peer_storage_put_seeder_prior_swarm() {
    let records: Vec<Torrent> = Vec::new();
    let mut stores = Stores::new(records);
    let info_hash = b"A1B2C3D4E5F6G7H8I9J0".to_vec();
    let peer1 = test_peer(b"ABCDEFGHIJKLMNOPQRST", LOCALHOST, 6893, 0);

    stores.peer_store.put_seeder(info_hash.clone(), peer1);

    let peer2 = test_peer(b"TSRQPONMLKJIHGFEDCBA", LOCALHOST, 6881, 0);

    stores.peer_store.put_seeder(info_hash.clone(), peer2.clone());
    assert_eq!(
        swarm_of(&stores.peer_store, &info_hash).seeders.contains(&peer2),
        true
    );
}

#[test]
fn memory_peer_storage_put_leecher_new_swarm() {
    let records: Vec<Torrent> = Vec::new();
    let mut stores = Stores::new(records);
    let info_hash = b"A1B2C3D4E5F6G7H8I9J0".to_vec();
    let peer = test_peer(b"ABCDEFGHIJKLMNOPQRST", LOCALHOST, 6893, 0);

    stores.peer_store.put_leecher(info_hash.clone(), peer.clone());
    assert_eq!(
        swarm_of(&stores.peer_store, &info_hash).leechers.contains(&peer),
        true
    );
}

#[test]
fn memory_peer_storage_put_leecher_prior_swarm() {
    let records: Vec<Torrent> = Vec::new();
    let mut stores = Stores::new(records);
    let info_hash = b"A1B2C3D4E5F6G7H8I9J0".to_vec();
    let peer1 = test_peer(b"ABCDEFGHIJKLMNOPQRST", LOCALHOST, 6893, 0);

    stores.peer_store.put_seeder(info_hash.clone(), peer1);

    let peer2 = test_peer(b"TSRQPONMLKJIHGFEDCBA", LOCALHOST, 6881, 0);

    stores.peer_store.put_leecher(info_hash.clone(), peer2.clone());
    assert_eq!(
        swarm_of(&stores.peer_store, &info_hash).leechers.contains(&peer2),
        true
    );
}

#[test]
fn memory_peer_storage_remove_seeder() {
    let records: Vec<Torrent> = Vec::new();
    let mut stores = Stores::new(records);
    let info_hash = b"A1B2C3D4E5F6G7H8I9J0".to_vec();
    let peer = test_peer(b"ABCDEFGHIJKLMNOPQRST", LOCALHOST, 6893, 0);

    stores.peer_store.put_seeder(info_hash.clone(), peer.clone());
    stores.peer_store.remove_seeder(info_hash.clone(), peer.clone());
    assert_eq!(
        swarm_of(&stores.peer_store, &info_hash).seeders.contains(&peer),
        false
    );
}

#[test]
fn memory_peer_storage_remove_leecher() {
    let records: Vec<Torrent> = Vec::new();
    let mut stores = Stores::new(records);
    let info_hash = b"A1B2C3D4E5F6G7H8I9J0".to_vec();
    let peer = test_peer(b"ABCDEFGHIJKLMNOPQRST", LOCALHOST, 6893, 0);

    stores.peer_store.put_leecher(info_hash.clone(), peer.clone());
    stores.peer_store.remove_leecher(info_hash.clone(), peer.clone());
    assert_eq!(
        swarm_of(&stores.peer_store, &info_hash).leechers.contains(&peer),
        false
    );
}

#[test]
fn memory_peer_storage_promote_leecher() {
    let records: Vec<Torrent> = Vec::new();
    let mut stores = Stores::new(records);
    let info_hash = b"A1B2C3D4E5F6G7H8I9J0".to_vec();
    let peer = test_peer(b"ABCDEFGHIJKLMNOPQRST", LOCALHOST, 6893, 0);

    stores.peer_store.put_leecher(info_hash.clone(), peer.clone());
    stores.peer_store.promote_leecher(info_hash.clone(), peer.clone());

    assert_eq!(
        swarm_of(&stores.peer_store, &info_hash).seeders.contains(&peer),
        true
    );
    // Promotion is atomic: the peer left the leechers as it entered the
    // seeders.
    assert_eq!(
        swarm_of(&stores.peer_store, &info_hash).leechers.contains(&peer),
        false
    );
}

#[test]
fn memory_peer_storage_update_peer() {
    let records: Vec<Torrent> = Vec::new();
    let mut stores = Stores::new(records);
    let info_hash = b"A1B2C3D4E5F6G7H8I9J0".to_vec();
    let peer = test_peer(b"ABCDEFGHIJKLMNOPQRST", LOCALHOST, 6893, 0);

    stores.peer_store.put_leecher(info_hash.clone(), peer.clone());

    let peer2 = test_peer(b"ABCDEFGHIJKLMNOPQRST", LOCALHOST, 6893, 5);

    stores.peer_store.update_peer(info_hash.clone(), peer2.clone());

    assert_eq!(
        swarm_of(&stores.peer_store, &info_hash).leechers.contains(&peer2),
        true
    );
}

#[test]
fn peer_identity_ignores_timestamp_and_keeps_later_record() {
    // Two records of one identity with different announce times: the
    // set holds one record, and it carries the later-inserted time.
    let records: Vec<Torrent> = Vec::new();
    let mut stores = Stores::new(records);
    let info_hash = b"A1B2C3D4E5F6G7H8I9J0".to_vec();
    let early = test_peer(b"ABCDEFGHIJKLMNOPQRST", LOCALHOST, 6893, 100);
    let late = test_peer(b"ABCDEFGHIJKLMNOPQRST", LOCALHOST, 6893, 900);
    assert_eq!(early, late);

    stores.peer_store.put_leecher(info_hash.clone(), early);
    stores.peer_store.put_leecher(info_hash.clone(), late);

    let swarm = swarm_of(&stores.peer_store, &info_hash);
    assert_eq!(swarm.leechers.len(), 1);
    match &swarm.leechers[0] {
        Peer::V4(p) => assert_eq!(p.last_announced, 900),
        _ => panic!("expected an IPv4 peer"),
    }
}

#[test]
fn update_peer_on_absent_peer_is_noop() {
    let records: Vec<Torrent> = Vec::new();
    let mut stores = Stores::new(records);
    let info_hash = b"A1B2C3D4E5F6G7H8I9J0".to_vec();
    let known = test_peer(b"ABCDEFGHIJKLMNOPQRST", LOCALHOST, 6893, 0);
    stores.peer_store.put_leecher(info_hash.clone(), known);

    let stranger = test_peer(b"TSRQPONMLKJIHGFEDCBA", LOCALHOST, 7000, 0);
    stores.peer_store.update_peer(info_hash.clone(), stranger.clone());

    let swarm = swarm_of(&stores.peer_store, &info_hash);
    assert_eq!(swarm.seeders.len(), 0);
    assert_eq!(swarm.leechers.len(), 1);
    assert!(!swarm.leechers.contains(&stranger));
}

#[test]
fn remove_both_sides_clears_membership() {
    let records: Vec<Torrent> = Vec::new();
    let mut stores = Stores::new(records);
    let info_hash = b"A1B2C3D4E5F6G7H8I9J0".to_vec();
    let peer = test_peer(b"ABCDEFGHIJKLMNOPQRST", LOCALHOST, 6893, 0);
    stores.peer_store.put_seeder(info_hash.clone(), peer.clone());

    stores.peer_store.remove_seeder(info_hash.clone(), peer.clone());
    stores.peer_store.remove_leecher(info_hash.clone(), peer.clone());

    let swarm = swarm_of(&stores.peer_store, &info_hash);
    assert!(!swarm.seeders.contains(&peer));
    assert!(!swarm.leechers.contains(&peer));
}

#[test]
fn get_peers_returns_all_when_swarm_fits() {
    let records: Vec<Torrent> = Vec::new();
    let mut stores = Stores::new(records);
    let info_hash = b"A1B2C3D4E5F6G7H8I9J0".to_vec();
    stores
        .peer_store
        .put_seeder(info_hash.clone(), test_peer(b"AAAAAAAAAAAAAAAAAAAA", 1, 1, 0));
    stores
        .peer_store
        .put_leecher(info_hash.clone(), test_peer(b"BBBBBBBBBBBBBBBBBBBB", 2, 2, 0));

    let peers = stores.peer_store.get_peers(info_hash.clone(), 30);
    assert_eq!(peers.len(), 2);
}

#[test]
fn get_peers_samples_numwant_members() {
    let records: Vec<Torrent> = Vec::new();
    let mut stores = Stores::new(records);
    let info_hash = b"A1B2C3D4E5F6G7H8I9J0".to_vec();
    let members = [
        test_peer(b"AAAAAAAAAAAAAAAAAAAA", 1, 1, 0),
        test_peer(b"BBBBBBBBBBBBBBBBBBBB", 2, 2, 0),
        test_peer(b"CCCCCCCCCCCCCCCCCCCC", 3, 3, 0),
    ];
    for m in members.iter() {
        stores.peer_store.put_leecher(info_hash.clone(), m.clone());
    }

    let sampled = stores.peer_store.get_peers(info_hash.clone(), 2);
    assert_eq!(sampled.len(), 2);
    for p in sampled.iter() {
        assert!(members.contains(p));
    }
    assert_ne!(sampled[0], sampled[1]);
}

#[test]
fn reap_evicts_only_stale_peers() {
    let records: Vec<Torrent> = Vec::new();
    let mut stores = Stores::new(records);
    let info_hash = b"A1B2C3D4E5F6G7H8I9J0".to_vec();
    let stale = test_peer(b"AAAAAAAAAAAAAAAAAAAA", 1, 1, 100);
    let fresh = test_peer(b"BBBBBBBBBBBBBBBBBBBB", 2, 2, 990);
    stores.peer_store.put_seeder(info_hash.clone(), stale.clone());
    stores.peer_store.put_leecher(info_hash.clone(), fresh.clone());

    let (seeds, leeches) = stores.peer_store.reap(1000, 100);
    assert_eq!((seeds, leeches), (1, 0));

    let swarm = swarm_of(&stores.peer_store, &info_hash);
    assert!(!swarm.seeders.contains(&stale));
    assert!(swarm.leechers.contains(&fresh));
}

#[test]
fn reap_counts_aggregate_across_swarms() {
    // The returned pair is the total of dropped seeder and leecher
    // records over every swarm.
    let records: Vec<Torrent> = Vec::new();
    let mut stores = Stores::new(records);
    let h1 = b"A1B2C3D4E5F6G7H8I9J0".to_vec();
    let h2 = b"B2C3D4E5F6G7H8I9J0K1".to_vec();

    stores.peer_store.put_seeder(h1.clone(), test_peer(b"AAAAAAAAAAAAAAAAAAAA", 1, 1, 100));
    stores.peer_store.put_seeder(h1.clone(), test_peer(b"BBBBBBBBBBBBBBBBBBBB", 2, 2, 150));
    stores.peer_store.put_leecher(h1.clone(), test_peer(b"CCCCCCCCCCCCCCCCCCCC", 3, 3, 995));
    stores.peer_store.put_seeder(h2.clone(), test_peer(b"DDDDDDDDDDDDDDDDDDDD", 4, 4, 120));
    stores.peer_store.put_leecher(h2.clone(), test_peer(b"EEEEEEEEEEEEEEEEEEEE", 5, 5, 130));

    let (seeds, leeches) = stores.peer_store.reap(1000, 100);
    assert_eq!((seeds, leeches), (3, 1));
    assert!(swarm_of(&stores.peer_store, &h1).leechers.len() == 1);
    assert!(swarm_of(&stores.peer_store, &h2).seeders.is_empty());
}

#[test]
fn torrent_store_counters() {
    let h = b"A1B2C3D4E5F6G7H8I9J0".to_vec();
    let records = vec![Torrent::new(h.clone(), 10, 34, 7, 10000000)];
    let mut store = TorrentStore::new(records).unwrap();

    assert_eq!(store.get_announce_stats(h.clone()), (10, 7));

    store.new_leech(h.clone());
    assert_eq!(store.get_announce_stats(h.clone()), (10, 8));

    store.new_seed(h.clone());
    assert_eq!(store.get_announce_stats(h.clone()), (11, 7));

    // Unknown hashes read as zero and are never created here.
    assert_eq!(store.get_announce_stats(b"unknown".to_vec()), (0, 0));
}

#[test]
fn torrent_store_saturating_decrement() {
    let h = b"A1B2C3D4E5F6G7H8I9J0".to_vec();
    let records = vec![Torrent::new(h.clone(), 0, 0, 0, 0)];
    let mut store = TorrentStore::new(records).unwrap();

    // A completion with no booked leechers must not underflow.
    store.new_seed(h.clone());
    assert_eq!(store.get_announce_stats(h.clone()), (1, 0));
}

#[test]
fn torrent_store_get_scrapes_skips_unknown() {
    let h1 = b"A1B2C3D4E5F6G7H8I9J0".to_vec();
    let h2 = b"B2C3D4E5F6G7H8I9J0K1".to_vec();
    let records = vec![
        Torrent::new(h1.clone(), 10, 34, 7, 10000000),
        Torrent::new(h2.clone(), 25, 57, 19, 20000000),
    ];
    let store = TorrentStore::new(records).unwrap();

    let scrapes = store.get_scrapes(vec![h1.clone(), b"missing-hash-missing".to_vec(), h2.clone()]);
    assert_eq!(scrapes.len(), 2);
    assert_eq!(scrapes[0].info_hash, h1);
    assert_eq!((scrapes[0].complete, scrapes[0].downloaded, scrapes[0].incomplete), (10, 34, 7));
    assert_eq!(scrapes[1].info_hash, h2);
    assert_eq!((scrapes[1].complete, scrapes[1].downloaded, scrapes[1].incomplete), (25, 57, 19));
}

#[test]
fn torrent_store_snapshot_copies_rows() {
    let h = b"A1B2C3D4E5F6G7H8I9J0".to_vec();
    let records = vec![Torrent::new(h.clone(), 1, 2, 3, 4)];
    let store = TorrentStore::new(records).unwrap();
    let snap = store.snapshot();
    assert_eq!(snap.len(), 1);
    assert_eq!(snap[0].info_hash, h);
    assert_eq!(
        (snap[0].complete, snap[0].downloaded, snap[0].incomplete, snap[0].balance),
        (1, 2, 3, 4)
    );
}
