use tracker_core::bittorrent::{AnnounceRequest, AnnounceResponse, IpVal, ScrapeFile, ScrapeRequest, ScrapeResponse};
use tracker_core::peer::{Peerv4, Peerv6};
use tracker_core::util::Event;

#[test]
fn announce_bad_request_creation() {
    let url_string = "info_hash=%90%28%9F%D3M%FC%1C%F8%F3%16%A2h%AD%D85L%853DX\
         &peer_id=ABCDEFGHIJKLMNOPQRST&port=thisisnotanumber&uploaded=0&downloaded=0\
         &left=727955456&event=started&numwant=100&no_peer_id=1&compact=thisisnotanumber";

    assert!(
        AnnounceRequest::new(url_string, None, 0).is_err(),
        "Incorrect announce request parameter parsing"
    );
}

#[test]
fn announce_failure_return() {
    let failure_reason = "It's not you...no, it's just you".to_string();
    let failure = AnnounceResponse::failure(failure_reason);
    assert_eq!(
        failure.failure_reason,
        Some("It's not you...no, it's just you".to_string())
    );
}

#[test]
fn announce_response_creation() {
    let peerv4_1 = Peerv4 {
        peer_id: b"ABCDEFGHIJKLMNOPQRST".to_vec(),
        ip: 2130706433,
        port: 6893,
        last_announced: 0,
    };
    let peerv4_2 = Peerv4 {
        peer_id: b"ABCDEFGHIJKLMNOPQRST".to_vec(),
        ip: u32::MAX,
        port: 6894,
        last_announced: 0,
    };

    let mut peers: Vec<Peerv4> = Vec::new();
    peers.push(peerv4_1);
    peers.push(peerv4_2);

    let peerv6_1 = Peerv6 {
        peer_id: b"ABCDEFGHIJKLMNOPABCD".to_vec(),
        ip: 0x2001_0db8_85a3_0000_0000_8a2e_0370_7334,
        port: 6681,
        last_announced: 0,
    };
    let peerv6_2 = Peerv6 {
        peer_id: b"ABCDEFGHIJKLMNOPZZZZ".to_vec(),
        ip: 0xfe80_0000_0000_0000_0202_b3ff_fe1e_8329,
        port: 6699,
        last_announced: 0,
    };

    let mut peers6: Vec<Peerv6> = Vec::new();
    peers6.push(peerv6_1);
    peers6.push(peerv6_2);

    let response = AnnounceResponse::new(60, 100, 23, peers, peers6);

    assert!(response.is_ok(), "Incorrect announce response creation");
}

#[test]
fn scrape_good_request_creation() {
    let url_string = "info_hash=aaaaaaaaaaaaaaaaaaaa&info_hash=bbbbbbbbbbbbbbbbbbbb&info_hash=cccccccccccccccccccc";

    assert!(
        ScrapeRequest::new(url_string).is_ok(),
        "Scrape request creation failed"
    );
}

#[test]
fn scrape_good_request_multiple_hashes() {
    let url_string = "info_hash=aaaaaaaaaaaaaaaaaaaa&info_hash=bbbbbbbbbbbbbbbbbbbb&info_hash=cccccccccccccccccccc";
    let scrape = ScrapeRequest::new(url_string).unwrap();
    assert_eq!(
        scrape.info_hashes,
        vec![
            b"aaaaaaaaaaaaaaaaaaaa".to_vec(),
            b"bbbbbbbbbbbbbbbbbbbb".to_vec(),
            b"cccccccccccccccccccc".to_vec()
        ]
    );
}

#[test]
fn scrape_bad_request_creation() {
    let url_string = "info_hash=aaaaaaaaaaaaaaaaaaaa&info_bash=bbbbbbbbbbbbbbbbbbbb&info_slash=cccccccccccccccccccc";

    assert!(
        ScrapeRequest::new(url_string).is_err(),
        "Incorrect scrape request parsing"
    );
}

#[test]
fn scrape_response_add_file() {
    let file = ScrapeFile {
        info_hash: Vec::new(),
        complete: 0,
        downloaded: 0,
        incomplete: 0,
        name: None,
    };
    let mut scrape_response = ScrapeResponse::new().unwrap();
    scrape_response.add_file(b"test".to_vec(), file);

    assert_eq!(scrape_response.files.len(), 1);
}

#[test]
fn announce_good_request_decodes_binary_hash() {
    // The info-hash travels percent-encoded and must come out as its
    // twenty raw bytes.
    let url_string = "info_hash=%90%28%9F%D3M%FC%1C%F8%F3%16%A2h%AD%D85L%853DX\
         &peer_id=ABCDEFGHIJKLMNOPQRST&port=6881&uploaded=9000&downloaded=1000\
         &left=727955456&event=started&numwant=100&no_peer_id=1&compact=1";
    let req = AnnounceRequest::new(url_string, Some("203.0.113.7:51413"), 77).unwrap();
    assert_eq!(
        req.info_hash,
        vec![
            0x90, 0x28, 0x9f, 0xd3, b'M', 0xfc, 0x1c, 0xf8, 0xf3, 0x16, 0xa2, b'h', 0xad, 0xd8,
            b'5', b'L', 0x85, b'3', b'D', b'X'
        ]
    );
    assert_eq!(req.port, 6881);
    assert_eq!(req.uploaded, 9000);
    assert_eq!(req.downloaded, 1000);
    assert_eq!(req.left, 727955456);
    assert_eq!(req.event, Event::Started);
    assert_eq!(req.numwant, Some(100));
    assert!(req.no_peer_id);
    assert!(req.compact);
    // The remote address decides the family: an IPv4 remote makes an
    // IPv4 peer with the port split off.
    assert_eq!(req.ip, Some(IpVal::V4(0xcb007107)));
    match req.peer {
        tracker_core::peer::Peer::V4(p) => {
            assert_eq!(p.ip, 0xcb007107);
            assert_eq!(p.port, 6881);
            assert_eq!(p.last_announced, 77);
        }
        _ => panic!("expected an IPv4 peer"),
    }
}

#[test]
fn announce_ip_parameter_overrides_remote() {
    let url_string = "info_hash=aaaaaaaaaaaaaaaaaaaa&peer_id=ABCDEFGHIJKLMNOPQRST&port=1&uploaded=0&downloaded=0&left=0&ip=10.0.0.1";
    let req = AnnounceRequest::new(url_string, Some("192.0.2.9:1000"), 0).unwrap();
    assert_eq!(req.ip, Some(IpVal::V4(0x0a000001)));
}

#[test]
fn announce_ipv6_parameter() {
    let url_string = "info_hash=aaaaaaaaaaaaaaaaaaaa&peer_id=ABCDEFGHIJKLMNOPQRST&port=1&uploaded=0&downloaded=0&left=0&ip=2001:db8::1";
    let req = AnnounceRequest::new(url_string, None, 0).unwrap();
    assert_eq!(req.ip, Some(IpVal::V6(0x2001_0db8_0000_0000_0000_0000_0000_0001)));
}

#[test]
fn announce_bracketed_remote_is_ipv6() {
    let url_string = "info_hash=aaaaaaaaaaaaaaaaaaaa&peer_id=ABCDEFGHIJKLMNOPQRST&port=1&uploaded=0&downloaded=0&left=0";
    let req = AnnounceRequest::new(url_string, Some("[::1]:9999"), 0).unwrap();
    assert_eq!(req.ip, Some(IpVal::V6(1)));
}

#[test]
fn announce_missing_required_parameter_is_malformed() {
    // No port.
    let url_string = "info_hash=aaaaaaaaaaaaaaaaaaaa&peer_id=ABCDEFGHIJKLMNOPQRST&uploaded=0&downloaded=0&left=0";
    assert!(AnnounceRequest::new(url_string, Some("10.0.0.1"), 0).is_err());
}

#[test]
fn announce_short_info_hash_is_malformed() {
    let url_string = "info_hash=aaa&peer_id=ABCDEFGHIJKLMNOPQRST&port=1&uploaded=0&downloaded=0&left=0";
    assert!(AnnounceRequest::new(url_string, Some("10.0.0.1"), 0).is_err());
}

#[test]
fn announce_bad_event_is_malformed() {
    let url_string = "info_hash=aaaaaaaaaaaaaaaaaaaa&peer_id=ABCDEFGHIJKLMNOPQRST&port=1&uploaded=0&downloaded=0&left=0&event=paused";
    assert!(AnnounceRequest::new(url_string, Some("10.0.0.1"), 0).is_err());
}
