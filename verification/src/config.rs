use vstd::prelude::*;

verus! {

/// The tracker's configuration, as the loader hands it over; a missing
/// or unreadable file falls back to these defaults.
#[derive(Clone, Debug)]
pub struct Config {
    pub network: Network,
    pub storage: Storage,
    pub bt: BitTorrent,
    pub client_approval: ClientApproval,
}

#[derive(Clone, Debug)]
pub struct Network {
    pub binding: String,
}

#[derive(Clone, Debug)]
pub struct Storage {
    pub backend: String,
    pub path: String,
    pub password: Option<String>,
}

#[derive(Clone, Debug)]
pub struct BitTorrent {
    pub announce_rate: u64,
    pub peer_timeout: u64,
    pub reap_interval: u64,
    pub flush_interval: u64,
}

#[derive(Clone, Debug)]
pub struct ClientApproval {
    pub enabled: bool,
    pub blacklist_style: bool,
    pub versioned: bool,
    pub client_list: Vec<String>,
}

impl Default for Network {
    fn default() -> (r: Network)
        ensures
            r.binding@ == "0.0.0.0:8585"@,
    {
        Network { binding: "0.0.0.0:8585".to_owned() }
    }
}

impl Default for Storage {
    fn default() -> (r: Storage)
        ensures
            r.backend@ == "memory"@,
            r.path@ == ""@,
            r.password is None,
    {
        Storage { backend: "memory".to_owned(), path: "".to_owned(), password: None }
    }
}

impl Default for BitTorrent {
    fn default() -> (r: BitTorrent)
        ensures
            r.announce_rate == 1800,
            r.peer_timeout == 7200,
            r.reap_interval == 1800,
            r.flush_interval == 900,
    {
        BitTorrent { announce_rate: 1800, peer_timeout: 7200, reap_interval: 1800, flush_interval: 900 }
    }
}

impl Default for ClientApproval {
    fn default() -> (r: ClientApproval)
        ensures
            !r.enabled,
            !r.blacklist_style,
            !r.versioned,
            r.client_list@.len() == 0,
    {
        ClientApproval { enabled: false, blacklist_style: false, versioned: false, client_list: Vec::new() }
    }
}

impl Default for Config {
    fn default() -> (r: Config)
        ensures
            r.network.binding@ == "0.0.0.0:8585"@,
            r.storage.backend@ == "memory"@,
            r.storage.path@ == ""@,
            r.storage.password is None,
            r.bt.announce_rate == 1800,
            r.bt.peer_timeout == 7200,
            r.bt.reap_interval == 1800,
            r.bt.flush_interval == 900,
            !r.client_approval.enabled,
            !r.client_approval.blacklist_style,
            !r.client_approval.versioned,
            r.client_approval.client_list@.len() == 0,
    {
        Config {
            network: Network::default(),
            storage: Storage::default(),
            bt: BitTorrent::default(),
            client_approval: ClientApproval::default(),
        }
    }
}

} // verus!
