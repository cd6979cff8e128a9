use vstd::prelude::*;

verus! {

use crate::config::Config;
use crate::statistics::GlobalStatistics;
use crate::storage::{PeerStore, TorrentStore};

/// Everything a request handler shares: configuration, the two
/// directories, and the global counters.
#[derive(Debug)]
pub struct State {
    pub config: Config,
    pub peer_store: PeerStore,
    pub stats: GlobalStatistics,
    pub torrent_store: TorrentStore,
}

impl State {
    /// Boots the shared state around a loaded torrent directory, with
    /// the clock reading `now`.
    pub fn new(config: Config, torrent_store: TorrentStore, now: u64) -> (r: State)
        requires
            torrent_store.wf(),
        ensures
            r.peer_store.wf(),
            r.peer_store.records@.len() == 0,
            r.stats.wf(),
            r.stats.start_time == now,
            r.torrent_store == torrent_store,
            r.config == config,
    {
        let peer_store = match PeerStore::new() {
            Ok(s) => s,
            Err(_) => PeerStore { records: Vec::new() },
        };
        State { config, peer_store, stats: GlobalStatistics::new(now), torrent_store }
    }
}

} // verus!
