use tracker_core::errors::ClientError;
use tracker_core::middleware::{ClientApproval, TorrentApproval};

const BLACKLISTED_QUERY: &str = "info_hash=2fa90c59c8072c5a4c54c1f1307dacaeb4c82f0f&peer_id=-DE9824-143964258012&port=6881&uploaded=9000&downloaded=1000&left=727955456&numwant=30&no_peer_id=1&compact=1";

#[test]
fn client_blacklist_non_versioned() {
    let blacklist_style = true;
    let versioned = false;
    let client_list = vec![
        "DE".to_string(),
        "LT".to_string(),
        "qB".to_string(),
        "TR".to_string(),
        "UT".to_string(),
    ];

    let filter = ClientApproval::new(blacklist_style, versioned, client_list);
    assert_eq!(
        filter.check_query(BLACKLISTED_QUERY),
        Err(ClientError::UnapprovedClient)
    );
}

#[test]
fn client_blacklist_versioned() {
    let blacklist_style = true;
    let versioned = true;
    let client_list = vec![
        "DE9824".to_string(),
        "LT1111".to_string(),
        "qB2222".to_string(),
        "TR3333".to_string(),
        "UT4444".to_string(),
    ];

    let filter = ClientApproval::new(blacklist_style, versioned, client_list);
    assert_eq!(
        filter.check_query(BLACKLISTED_QUERY),
        Err(ClientError::UnapprovedClient)
    );
}

#[test]
fn client_whitelist_non_versioned() {
    let blacklist_style = false;
    let versioned = false;
    let client_list = vec![
        "DE".to_string(),
        "LT".to_string(),
        "qB".to_string(),
        "TR".to_string(),
        "UT".to_string(),
    ];

    let filter = ClientApproval::new(blacklist_style, versioned, client_list);
    let query = "info_hash=2fa90c59c8072c5a4c54c1f1307dacaeb4c82f0f&peer_id=-AZ9824-143964258012&port=6881&uploaded=9000&downloaded=1000&left=727955456&numwant=30&no_peer_id=1&compact=1";
    assert_eq!(filter.check_query(query), Err(ClientError::UnapprovedClient));
}

#[test]
fn client_whitelist_versioned() {
    let blacklist_style = false;
    let versioned = true;
    let client_list = vec![
        "DE1111".to_string(),
        "LT2222".to_string(),
        "qB3333".to_string(),
        "TR4444".to_string(),
        "UT5555".to_string(),
    ];

    let filter = ClientApproval::new(blacklist_style, versioned, client_list);
    let query = "info_hash=2fa90c59c8072c5a4c54c1f1307dacaeb4c82f0f&peer_id=-DE0000-143964258012&port=6881&uploaded=9000&downloaded=1000&left=727955456&numwant=30&no_peer_id=1&compact=1";
    assert_eq!(filter.check_query(query), Err(ClientError::UnapprovedClient));
}

#[test]
fn torrent_blacklist() {
    let prohibited_list = vec![
        "2fa90c59c8072c5a4c54c1f1307dacaeb4c82f0f".to_string(),
        "3bbc36a0bcae854bd40c4deec639d4afadf65deb".to_string(),
        "8a541fa2db56003884b0acf9c059f6652d5f611c".to_string(),
    ];

    let filter = TorrentApproval::new(prohibited_list);
    let query = "info_hash=2fa90c59c8072c5a4c54c1f1307dacaeb4c82f0f&peer_id=-DE0000-143964258012&port=6881&uploaded=9000&downloaded=1000&left=727955456&numwant=30&no_peer_id=1&compact=1";
    assert_eq!(filter.check_query(query), Err(ClientError::UnapprovedTorrent));

    let other = "info_hash=aaaaaaaaaaaaaaaaaaaa&peer_id=-DE0000-143964258012&port=6881&uploaded=0&downloaded=0&left=0";
    assert_eq!(filter.check_query(other), Ok(()));
}

#[test]
fn client_whitelist_passes_listed_client() {
    let filter = ClientApproval::new(false, false, vec!["qB".to_string()]);
    let query = "info_hash=aaaaaaaaaaaaaaaaaaaa&peer_id=-qB4450-000000000000&port=6881&uploaded=0&downloaded=0&left=0";
    assert_eq!(filter.check_query(query), Ok(()));
}

#[test]
fn client_empty_peer_id_rejected() {
    let filter = ClientApproval::new(true, false, Vec::new());
    let query = "info_hash=aaaaaaaaaaaaaaaaaaaa&peer_id=&port=6881";
    assert_eq!(filter.check_query(query), Err(ClientError::UnapprovedClient));
}
