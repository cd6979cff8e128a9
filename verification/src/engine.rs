use vstd::prelude::*;

verus! {

use crate::bittorrent::{
    files_has, lemma_files_insert_presence, lemma_files_update_presence, AnnounceRequest,
    AnnounceResponse, ScrapeFile, ScrapeRequest, ScrapeResponse,
};
use crate::peer::{clone_bytes, clone_peer, Peer, Peerv4, Peerv6};
use crate::storage::{
    filter_key_out, has_key, key_removed, matches_member, sampled_from, scrape_file_obs,
    scrape_obs_of, spec_scrapes, unique_keys, upserted_like, Stores, TorrentStore,
};
use crate::util::Event;

/// The `numwant` a request is served with: its own ask, or fifty.
pub open spec fn spec_numwant(req: AnnounceRequest) -> u32 {
    match req.numwant {
        Some(n) => n,
        None => 50u32,
    }
}

/// Serves one parsed announce: drives the per-event transition on both
/// stores, then samples the rest of the swarm — never the announcing
/// peer itself — and reads the counters for the response.
pub fn handle_announce(stores: &mut Stores, req: &AnnounceRequest, interval: u32) -> (r:
    AnnounceResponse)
    requires
        old(stores).peer_store.wf(),
        old(stores).torrent_store.wf(),
    ensures
        final(stores).peer_store.wf(),
        final(stores).torrent_store.wf(),
        ({
            let h = req.info_hash@;
            let k = req.peer.key();
            let t = req.peer.stamp();
            let ps0 = old(stores).peer_store;
            let ps1 = final(stores).peer_store;
            let ts0 = old(stores).torrent_store;
            let ts1 = final(stores).torrent_store;
            &&& (forall|g: Seq<u8>|
                g != h ==> #[trigger] ps1.seeders_of(g) == ps0.seeders_of(g) && ps1.leechers_of(g)
                    == ps0.leechers_of(g))
            &&& (forall|g: Seq<u8>|
                g != h ==> (#[trigger] ps1.has_swarm(g) <==> ps0.has_swarm(g)))
            &&& (forall|g: Seq<u8>| #[trigger] ts1.has_torrent(g) <==> ts0.has_torrent(g))
            &&& (forall|g: Seq<u8>|
                g != h && ts0.has_torrent(g) ==> #[trigger] ts1.torrent_at(g) == ts0.torrent_at(g))
            &&& (match req.event {
                Event::Started => {
                    &&& ps1.has_swarm(h)
                    &&& upserted_like(ps0.leechers_of(h), ps1.leechers_of(h), k, t)
                    &&& key_removed(ps0.seeders_of(h), ps1.seeders_of(h), k)
                    &&& (ts0.has_torrent(h) ==> {
                        let t0 = ts0.torrent_at(h);
                        let t1 = ts1.torrent_at(h);
                        &&& t1.incomplete == t0.incomplete.saturating_add(1)
                        &&& t1.complete == t0.complete
                        &&& t1.downloaded == t0.downloaded
                        &&& t1.balance == t0.balance
                        &&& t1.info_hash@ == t0.info_hash@
                    })
                },
                Event::Stopped => {
                    &&& (ps1.has_swarm(h) <==> ps0.has_swarm(h))
                    &&& key_removed(ps0.seeders_of(h), ps1.seeders_of(h), k)
                    &&& key_removed(ps0.leechers_of(h), ps1.leechers_of(h), k)
                    &&& ts1 == ts0
                },
                Event::Completed => {
                    &&& (ps1.has_swarm(h) <==> ps0.has_swarm(h))
                    &&& key_removed(ps0.leechers_of(h), ps1.leechers_of(h), k)
                    &&& (ps0.has_swarm(h) ==> has_key(ps1.seeders_of(h), k))
                    &&& (if has_key(ps0.leechers_of(h), k) {
                        exists|l: Peer|
                            ps0.leechers_of(h).contains(l) && l.key() == k && crate::storage::upserted(
                                ps0.seeders_of(h),
                                ps1.seeders_of(h),
                                l,
                            )
                    } else if !ps0.has_swarm(h) || has_key(ps0.seeders_of(h), k) {
                        ps1.seeders_of(h) == ps0.seeders_of(h)
                    } else {
                        exists|p2: Peer|
                            p2.key() == k && p2.stamp() == t && ps1.seeders_of(h)
                                == ps0.seeders_of(h).push(p2)
                    })
                    &&& (ts0.has_torrent(h) ==> {
                        let t0 = ts0.torrent_at(h);
                        let t1 = ts1.torrent_at(h);
                        &&& t1.complete == t0.complete.saturating_add(1)
                        &&& t1.incomplete == t0.incomplete.saturating_sub(1)
                        &&& t1.downloaded == t0.downloaded.saturating_add(1)
                        &&& t1.balance == t0.balance
                        &&& t1.info_hash@ == t0.info_hash@
                    })
                },
                Event::Unspecified => {
                    &&& (ps1.has_swarm(h) <==> ps0.has_swarm(h))
                    &&& (if has_key(ps0.seeders_of(h), k) {
                        upserted_like(ps0.seeders_of(h), ps1.seeders_of(h), k, t)
                    } else {
                        ps1.seeders_of(h) == ps0.seeders_of(h)
                    })
                    &&& (if has_key(ps0.leechers_of(h), k) {
                        upserted_like(ps0.leechers_of(h), ps1.leechers_of(h), k, t)
                    } else {
                        ps1.leechers_of(h) == ps0.leechers_of(h)
                    })
                    &&& ts1 == ts0
                },
            })
            &&& r.failure_reason is None
            &&& r.interval == interval
            &&& r.min_interval is None
            &&& r.tracker_id@ == Seq::<char>::empty()
            &&& r.complete == ts1.spec_complete(h)
            &&& r.incomplete == ts1.spec_incomplete(h)
            &&& ({
                let total = filter_key_out(ps1.seeders_of(h), k).len() + filter_key_out(
                    ps1.leechers_of(h),
                    k,
                ).len();
                r.peers@.len() + r.peers6@.len() == if total <= spec_numwant(*req) as int {
                    total as int
                } else {
                    spec_numwant(*req) as int
                }
            })
            &&& (forall|i: int|
                0 <= i < r.peers@.len() ==> matches_member(
                    ps1.seeders_of(h),
                    ps1.leechers_of(h),
                    Peer::V4(#[trigger] r.peers@[i]),
                ) && Peer::V4(r.peers@[i]).key() != k)
            &&& (forall|i: int|
                0 <= i < r.peers6@.len() ==> matches_member(
                    ps1.seeders_of(h),
                    ps1.leechers_of(h),
                    Peer::V6(#[trigger] r.peers6@[i]),
                ) && Peer::V6(r.peers6@[i]).key() != k)
            &&& (forall|i: int, j: int|
                0 <= i < j < r.peers@.len() ==> Peer::V4(#[trigger] r.peers@[i]).key()
                    != Peer::V4(#[trigger] r.peers@[j]).key())
            &&& (forall|i: int, j: int|
                0 <= i < j < r.peers6@.len() ==> Peer::V6(#[trigger] r.peers6@[i]).key()
                    != Peer::V6(#[trigger] r.peers6@[j]).key())
            &&& (forall|i: int, j: int|
                0 <= i < r.peers@.len() && 0 <= j < r.peers6@.len() ==> Peer::V4(
                    #[trigger] r.peers@[i],
                ).key() != Peer::V6(#[trigger] r.peers6@[j]).key())
        }),
{
    match req.event {
        Event::Started => {
            stores.peer_store.put_leecher(clone_bytes(&req.info_hash), clone_peer(&req.peer));
            stores.torrent_store.new_leech(clone_bytes(&req.info_hash));
        },
        Event::Stopped => {
            stores.peer_store.remove_seeder(clone_bytes(&req.info_hash), clone_peer(&req.peer));
            stores.peer_store.remove_leecher(clone_bytes(&req.info_hash), clone_peer(&req.peer));
        },
        Event::Completed => {
            stores.peer_store.promote_leecher(clone_bytes(&req.info_hash), clone_peer(&req.peer));
            stores.torrent_store.new_seed(clone_bytes(&req.info_hash));
        },
        Event::Unspecified => {
            stores.peer_store.update_peer(clone_bytes(&req.info_hash), clone_peer(&req.peer));
        },
    }
    let numwant = match req.numwant {
        Some(n) => n,
        None => 50,
    };
    let mut sampled = stores.peer_store.get_peers_excluding(
        clone_bytes(&req.info_hash),
        numwant,
        &req.peer,
    );
    let stats = stores.torrent_store.get_announce_stats(clone_bytes(&req.info_hash));
    let ghost ss = stores.peer_store.seeders_of(req.info_hash@);
    let ghost ls = stores.peer_store.leechers_of(req.info_hash@);
    let ghost xk = req.peer.key();
    let ghost total_sampled = sampled@.len();
    let mut peers: Vec<Peerv4> = Vec::new();
    let mut peers6: Vec<Peerv6> = Vec::new();
    while sampled.len() > 0
        invariant
            xk == req.peer.key(),
            sampled_from(sampled@, ss, ls),
            unique_keys(sampled@),
            forall|i: int| 0 <= i < sampled@.len() ==> (#[trigger] sampled@[i]).key() != xk,
            peers@.len() + peers6@.len() + sampled@.len() == total_sampled,
            forall|i: int|
                0 <= i < peers@.len() ==> matches_member(ss, ls, Peer::V4(#[trigger] peers@[i]))
                    && Peer::V4(peers@[i]).key() != xk,
            forall|i: int|
                0 <= i < peers6@.len() ==> matches_member(ss, ls, Peer::V6(#[trigger] peers6@[i]))
                    && Peer::V6(peers6@[i]).key() != xk,
            forall|a: int, b: int|
                0 <= a < peers@.len() && 0 <= b < sampled@.len() ==> Peer::V4(
                    #[trigger] peers@[a],
                ).key() != (#[trigger] sampled@[b]).key(),
            forall|a: int, b: int|
                0 <= a < peers6@.len() && 0 <= b < sampled@.len() ==> Peer::V6(
                    #[trigger] peers6@[a],
                ).key() != (#[trigger] sampled@[b]).key(),
            forall|a: int, b: int|
                0 <= a < b < peers@.len() ==> Peer::V4(#[trigger] peers@[a]).key() != Peer::V4(
                    #[trigger] peers@[b],
                ).key(),
            forall|a: int, b: int|
                0 <= a < b < peers6@.len() ==> Peer::V6(#[trigger] peers6@[a]).key() != Peer::V6(
                    #[trigger] peers6@[b],
                ).key(),
        decreases sampled@.len(),
    {
        let ghost pre = sampled@;
        let p = match sampled.pop() {
            Some(p) => p,
            None => {
                proof {
                    assert(false);
                }
                return AnnounceResponse::failure(String::new());
            },
        };
        proof {
            assert(pre[pre.len() - 1] == p);
            assert(matches_member(ss, ls, p));
            assert(p.key() != xk);
            assert(forall|i: int| 0 <= i < sampled@.len() ==> #[trigger] sampled@[i] == pre[i]);
            assert forall|a: int, b: int| 0 <= a < b < sampled@.len() implies (
            #[trigger] sampled@[a]).key() != (#[trigger] sampled@[b]).key() by {
                assert(sampled@[a] == pre[a] && sampled@[b] == pre[b]);
            }
            // The popped record's identity is new to both lists and to
            // what remains to be partitioned.
            assert forall|b: int| 0 <= b < sampled@.len() implies p.key() != (
            #[trigger] sampled@[b]).key() by {
                assert(sampled@[b] == pre[b]);
                assert(pre[b].key() != pre[pre.len() - 1].key());
            }
            assert forall|a: int| 0 <= a < peers@.len() implies Peer::V4(
                #[trigger] peers@[a],
            ).key() != p.key() by {
                assert(Peer::V4(peers@[a]).key() != pre[pre.len() - 1].key());
            }
            assert forall|a: int| 0 <= a < peers6@.len() implies Peer::V6(
                #[trigger] peers6@[a],
            ).key() != p.key() by {
                assert(Peer::V6(peers6@[a]).key() != pre[pre.len() - 1].key());
            }
        }
        match p {
            Peer::V4(q) => {
                let ghost peers0 = peers@;
                peers.push(q);
                proof {
                    assert(Peer::V4(peers@[peers@.len() - 1]) == p);
                    assert(forall|a: int|
                        0 <= a < peers0.len() ==> #[trigger] peers@[a] == peers0[a]);
                }
            },
            Peer::V6(q) => {
                let ghost peers60 = peers6@;
                peers6.push(q);
                proof {
                    assert(Peer::V6(peers6@[peers6@.len() - 1]) == p);
                    assert(forall|a: int|
                        0 <= a < peers60.len() ==> #[trigger] peers6@[a] == peers60[a]);
                }
            },
        }
    }
    proof {
        assert forall|i: int, j: int|
            0 <= i < peers@.len() && 0 <= j < peers6@.len() implies Peer::V4(
            #[trigger] peers@[i],
        ).key() != Peer::V6(#[trigger] peers6@[j]).key() by {
            assert(Peer::V4(peers@[i]).key().0 == false);
            assert(Peer::V6(peers6@[j]).key().0 == true);
        }
    }
    match AnnounceResponse::new(interval, stats.0, stats.1, peers, peers6) {
        Ok(resp) => resp,
        Err(_) => AnnounceResponse::failure(String::new()),
    }
}

/// Serves one parsed scrape: looks each requested torrent up and
/// assembles the `files` dictionary, keyed and sorted by info-hash.
pub fn handle_scrape(torrent_store: &TorrentStore, req: ScrapeRequest) -> (r: ScrapeResponse)
    requires
        torrent_store.wf(),
    ensures
        r.wf(),
        r.failure_reason is None,
        forall|k: Seq<u8>|
            #[trigger] files_has(r.files@, k) <==> (torrent_store.has_torrent(k) && exists|i: int|
                0 <= i < req.info_hashes@.len() && (#[trigger] req.info_hashes@[i])@ == k),
        forall|j: int|
            0 <= j < r.files@.len() ==> {
                let e = #[trigger] r.files@[j];
                &&& torrent_store.has_torrent(e.0@)
                &&& scrape_file_obs(e.1) == scrape_obs_of(torrent_store.torrent_at(e.0@))
                &&& e.1.name is None
            },
{
    let ghost hviews = req.info_hashes@.map_values(|h: Vec<u8>| h@);
    let mut scrapes = torrent_store.get_scrapes(req.info_hashes);
    let ghost sviews = scrapes@.map_values(|f: ScrapeFile| scrape_file_obs(f));
    proof {
        lemma_spec_scrapes_content(*torrent_store, hviews);
    }
    let mut response = match ScrapeResponse::new() {
        Ok(resp) => resp,
        Err(_) => ScrapeResponse { failure_reason: None, files: Vec::new() },
    };
    let ghost scrapes0 = scrapes@;
    proof {
        assert(scrapes0.take(scrapes0.len() as int) =~= scrapes0);
        assert forall|j: int|
            0 <= j < scrapes0.len() implies {
            let f = #[trigger] scrapes0[j];
            &&& torrent_store.has_torrent(f.info_hash@)
            &&& scrape_file_obs(f) == scrape_obs_of(torrent_store.torrent_at(f.info_hash@))
            &&& f.name is None
            &&& exists|i: int|
                0 <= i < req.info_hashes@.len() && (#[trigger] req.info_hashes@[i])@
                    == f.info_hash@
        } by {
            assert(sviews[j] == scrape_file_obs(scrapes0[j]));
            assert(sviews[j] == spec_scrapes(*torrent_store, hviews)[j]);
            let e = spec_scrapes(*torrent_store, hviews)[j];
            assert(e.0 == scrapes0[j].info_hash@);
            assert(hviews.contains(e.0));
            let i = choose|i: int| 0 <= i < hviews.len() && hviews[i] == e.0;
            assert(req.info_hashes@[i]@ == e.0);
        }
    }
    while scrapes.len() > 0
        invariant
            response.wf(),
            response.failure_reason is None,
            torrent_store.wf(),
            scrapes@.len() <= scrapes0.len(),
            scrapes@ == scrapes0.take(scrapes@.len() as int),
            forall|j: int|
                0 <= j < scrapes0.len() ==> {
                    let f = #[trigger] scrapes0[j];
                    &&& torrent_store.has_torrent(f.info_hash@)
                    &&& scrape_file_obs(f) == scrape_obs_of(torrent_store.torrent_at(f.info_hash@))
                    &&& f.name is None
                    &&& exists|i: int|
                        0 <= i < req.info_hashes@.len() && (#[trigger] req.info_hashes@[i])@
                            == f.info_hash@
                },
            forall|k: Seq<u8>|
                #[trigger] files_has(response.files@, k) <==> exists|j: int|
                    scrapes@.len() <= j < scrapes0.len() && (#[trigger] scrapes0[j]).info_hash@
                        == k,
            forall|j: int|
                0 <= j < response.files@.len() ==> {
                    let e = #[trigger] response.files@[j];
                    &&& torrent_store.has_torrent(e.0@)
                    &&& scrape_file_obs(e.1) == scrape_obs_of(torrent_store.torrent_at(e.0@))
                    &&& e.1.name is None
                },
        decreases scrapes@.len(),
    {
        let ghost pre = scrapes@;
        let ghost files0 = response.files@;
        let f = match scrapes.pop() {
            Some(f) => f,
            None => {
                proof {
                    assert(false);
                }
                return response;
            },
        };
        proof {
            assert(pre == scrapes0.take(pre.len() as int));
            assert(0 < pre.len() <= scrapes0.len());
            assert(f == pre[pre.len() - 1]);
            assert(pre[pre.len() - 1] == scrapes0[pre.len() - 1]);
            assert(scrapes@ == pre.drop_last());
            assert(scrapes@ =~= scrapes0.take(scrapes@.len() as int));
        }
        let key = clone_bytes(&f.info_hash);
        let ghost kview = key@;
        let ghost gk = key;
        let ghost gf = f;
        response.add_file(key, f);
        proof {
            let m = pre.len() - 1;
            assert(kview == scrapes0[m].info_hash@);
            assert(gf == scrapes0[m]);
            if files_has(files0, kview) {
                let i = choose|i: int|
                    0 <= i < files0.len() && files0[i].0@ == kview && response.files@
                        == files0.update(i, (gk, gf));
                lemma_files_update_presence(files0, response.files@, i, (gk, gf));
            } else {
                let i = choose|i: int|
                    0 <= i <= files0.len() && response.files@ == files0.insert(i, (gk, gf));
                lemma_files_insert_presence(files0, response.files@, i, (gk, gf));
            }
            assert forall|j: int|
                0 <= j < response.files@.len() implies {
                let e = #[trigger] response.files@[j];
                &&& torrent_store.has_torrent(e.0@)
                &&& scrape_file_obs(e.1) == scrape_obs_of(torrent_store.torrent_at(e.0@))
                &&& e.1.name is None
            } by {
                let e = response.files@[j];
                if e == (gk, gf) {
                    assert(e.0@ == kview && e.1 == gf);
                } else {
                    assert(files0.contains(e));
                    let j0 = choose|j0: int| 0 <= j0 < files0.len() && files0[j0] == e;
                }
            }
            assert forall|k: Seq<u8>| #[trigger]
                files_has(response.files@, k) <==> exists|j: int|
                    scrapes@.len() <= j < scrapes0.len() && (#[trigger] scrapes0[j]).info_hash@
                        == k by {
                if files_has(response.files@, k) {
                    if k == kview {
                        assert(scrapes0[m].info_hash@ == k);
                        assert(scrapes@.len() <= m < scrapes0.len());
                    } else {
                        assert(files_has(files0, k));
                        let j = choose|j: int|
                            pre.len() <= j < scrapes0.len() && scrapes0[j].info_hash@ == k;
                        assert(scrapes@.len() <= j < scrapes0.len());
                    }
                }
                if exists|j: int|
                    scrapes@.len() <= j < scrapes0.len() && (#[trigger] scrapes0[j]).info_hash@
                        == k {
                    let j = choose|j: int|
                        scrapes@.len() <= j < scrapes0.len() && scrapes0[j].info_hash@ == k;
                    if j == m {
                        assert(k == kview);
                        assert(files_has(response.files@, k));
                    } else {
                        assert(pre.len() <= j);
                        assert(files_has(files0, k));
                    }
                }
            }
        }
    }
    proof {
        assert(scrapes@.len() == 0);
        assert forall|k: Seq<u8>| #[trigger]
            files_has(response.files@, k) <==> (torrent_store.has_torrent(k) && exists|i: int|
                0 <= i < req.info_hashes@.len() && (#[trigger] req.info_hashes@[i])@ == k) by {
            if files_has(response.files@, k) {
                let j = choose|j: int| 0 <= j < scrapes0.len() && scrapes0[j].info_hash@ == k;
                assert(torrent_store.has_torrent(k));
            }
            if torrent_store.has_torrent(k) && exists|i: int|
                0 <= i < req.info_hashes@.len() && (#[trigger] req.info_hashes@[i])@ == k {
                let i = choose|i: int|
                    0 <= i < req.info_hashes@.len() && req.info_hashes@[i]@ == k;
                assert(hviews[i] == k);
                assert(hviews.contains(k));
                let j = choose|j: int| 0 <= j < sviews.len() && sviews[j].0 == k;
                assert(scrape_file_obs(scrapes0[j]).0 == k);
                assert(scrapes0[j].info_hash@ == k);
                assert(files_has(response.files@, k));
            }
        }
    }
    response
}

/// Every entry of `spec_scrapes` names a known torrent from the request
/// list and shows that torrent's counters; every known requested torrent
/// is represented.
proof fn lemma_spec_scrapes_content(s: TorrentStore, hs: Seq<Seq<u8>>)
    ensures
        forall|j: int|
            0 <= j < spec_scrapes(s, hs).len() ==> {
                let e = #[trigger] spec_scrapes(s, hs)[j];
                &&& s.has_torrent(e.0)
                &&& e == scrape_obs_of(s.torrent_at(e.0))
                &&& hs.contains(e.0)
            },
        forall|h: Seq<u8>|
            hs.contains(h) && s.has_torrent(h) ==> exists|j: int|
                0 <= j < spec_scrapes(s, hs).len() && (#[trigger] spec_scrapes(s, hs)[j]).0 == h,
    decreases hs.len(),
{
    if hs.len() > 0 {
        lemma_spec_scrapes_content(s, hs.drop_last());
        let prev = spec_scrapes(s, hs.drop_last());
        let full = spec_scrapes(s, hs);
        assert forall|j: int| 0 <= j < full.len() implies {
            let e = #[trigger] full[j];
            &&& s.has_torrent(e.0)
            &&& e == scrape_obs_of(s.torrent_at(e.0))
            &&& hs.contains(e.0)
        } by {
            if j < prev.len() {
                assert(full[j] == prev[j]);
                let e = prev[j];
                assert(hs.drop_last().contains(e.0));
                let m = choose|m: int|
                    0 <= m < hs.drop_last().len() && hs.drop_last()[m] == e.0;
                assert(hs[m] == e.0);
            } else {
                assert(s.has_torrent(hs.last()));
                assert(full[j] == scrape_obs_of(s.torrent_at(hs.last())));
                assert(hs[hs.len() - 1] == hs.last());
            }
        }
        assert forall|h: Seq<u8>| hs.contains(h) && s.has_torrent(h) implies exists|j: int|
            0 <= j < full.len() && (#[trigger] full[j]).0 == h by {
            let m = choose|m: int| 0 <= m < hs.len() && hs[m] == h;
            if m < hs.len() - 1 {
                assert(hs.drop_last()[m] == h);
                assert(hs.drop_last().contains(h));
                let j = choose|j: int| 0 <= j < prev.len() && prev[j].0 == h;
                assert(full[j] == prev[j]);
            } else {
                assert(hs.last() == h);
                assert(full[full.len() - 1].0 == h);
            }
        }
    }
}

} // verus!
