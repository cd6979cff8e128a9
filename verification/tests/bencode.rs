use bytes::BufMut;
use tracker_core::bencode::{encode_announce_response, encode_scrape_response};
use tracker_core::bittorrent::{AnnounceResponse, ScrapeFile, ScrapeResponse};
use tracker_core::peer::{Peer, Peerv4, Peerv6};

#[test]
fn announce_response_encoding() {
    let peerv4_1 = Peerv4 {
        peer_id: b"ABCDEFGHIJKLMNOPQRST".to_vec(),
        ip: 2130706433,
        port: 6893,
        last_announced: 0,
    };
    let peerv4_2 = Peerv4 {
        peer_id: b"ABCDEFGHIJKLMNOPQRST".to_vec(),
        ip: u32::MAX,
        port: 6894,
        last_announced: 0,
    };

    let mut peers: Vec<Peerv4> = Vec::new();
    peers.push(peerv4_1);
    peers.push(peerv4_2);

    let peerv6_1 = Peerv6 {
        peer_id: b"ABCDEFGHIJKLMNOPABCD".to_vec(),
        ip: 0x2001_0db8_85a3_0000_0000_8a2e_0370_7334,
        port: 6681,
        last_announced: 0,
    };
    let peerv6_2 = Peerv6 {
        peer_id: b"ABCDEFGHIJKLMNOPZZZZ".to_vec(),
        ip: 0xfe80_0000_0000_0000_0202_b3ff_fe1e_8329,
        port: 6699,
        last_announced: 0,
    };

    let mut peers6: Vec<Peerv6> = Vec::new();
    peers6.push(peerv6_1);
    peers6.push(peerv6_2);

    let response = AnnounceResponse::new(60, 100, 23, peers, peers6).unwrap();
    let encoded = encode_announce_response(response);

    // The compact lists are byte strings: two six-byte IPv4 records and
    // two eighteen-byte IPv6 records.
    let mut expected: Vec<u8> = Vec::new();
    expected.extend_from_slice(b"d8:completei100e10:incompletei23e8:intervali60e5:peers12:");
    expected.put_u32(2130706433);
    expected.put_u16(6893);
    expected.put_u32(u32::MAX);
    expected.put_u16(6894);
    expected.extend_from_slice(b"6:peers636:");
    expected.put_u128(0x2001_0db8_85a3_0000_0000_8a2e_0370_7334);
    expected.put_u16(6681);
    expected.put_u128(0xfe80_0000_0000_0000_0202_b3ff_fe1e_8329);
    expected.put_u16(6699);
    expected.extend_from_slice(b"10:tracker_id0:e");

    assert_eq!(encoded, expected);
}

#[test]
fn announce_failure_encoding() {
    let failure_reason = "ouch".to_string();
    let failure = AnnounceResponse::failure(failure_reason);

    let encoded = encode_announce_response(failure);

    assert_eq!(encoded.as_slice(), b"d14:failure_reason4:ouche");
}

#[test]
fn scrape_response_encoding() {
    let file1 = ScrapeFile {
        info_hash: Vec::new(),
        complete: 1,
        downloaded: 2,
        incomplete: 3,
        name: Some("test".to_string()),
    };

    let file2 = ScrapeFile {
        info_hash: Vec::new(),
        complete: 4000,
        downloaded: 5678,
        incomplete: 785,
        name: Some("Reflections".to_string()),
    };

    let mut scrape_response = ScrapeResponse::new().unwrap();
    scrape_response.add_file(b"ABCDEFGHIJKLMNOPQRST".to_vec(), file1);
    scrape_response.add_file(b"TSRQPONMLKJIHGFEDCBA".to_vec(), file2);

    let encoded = encode_scrape_response(scrape_response);

    assert_eq!(encoded.as_slice(), &b"d5:filesd20:ABCDEFGHIJKLMNOPQRSTd8:completei1e10:downloadedi2e10:incompletei3e4:name4:teste20:TSRQPONMLKJIHGFEDCBAd8:completei4000e10:downloadedi5678e10:incompletei785e4:name11:Reflectionseee"[..]);
}

#[test]
fn peerv4_compact_transform() {
    let peer = Peer::V4(Peerv4 {
        peer_id: b"ABCDEFGHIJKLMNOPQRST".to_vec(),
        ip: 2130706433,
        port: 6681,
        last_announced: 0,
    });

    let mut localhost_port_byte_string = vec![];
    localhost_port_byte_string.put_u32(2130706433); // localhost in decimal
    localhost_port_byte_string.put_u16(6681);

    let compact_rep_byte_string = peer.compact();

    assert_eq!(compact_rep_byte_string, localhost_port_byte_string.to_vec());
}

#[test]
fn peerv6_compact_transform() {
    let peer = Peer::V6(Peerv6 {
        peer_id: b"ABCDEFGHIJKLMNOPQRST".to_vec(),
        ip: 0x2001_0db8_85a3_0000_0000_8a2e_0370_7334,
        port: 6681,
        last_announced: 0,
    });

    let mut localhost_port_byte_string = vec![];
    let localhost_decimal = 42540766452641154071740215577757643572 as u128;
    let port = 6681 as u16;
    localhost_port_byte_string.put_slice(&localhost_decimal.to_be_bytes());
    localhost_port_byte_string.put_slice(&port.to_be_bytes());

    let compact_rep_byte_string = peer.compact();

    assert_eq!(compact_rep_byte_string, localhost_port_byte_string.to_vec());
}

#[test]
fn scrape_failure_encoding() {
    let failure = ScrapeResponse::failure("Malformed scrape request".to_string());
    let encoded = encode_scrape_response(failure);
    assert_eq!(
        encoded.as_slice(),
        &b"d14:failure_reason24:Malformed scrape requeste"[..]
    );
}

#[test]
fn scrape_empty_files_encoding() {
    let response = ScrapeResponse::new().unwrap();
    let encoded = encode_scrape_response(response);
    assert_eq!(encoded.as_slice(), b"d5:filesdee");
}

#[test]
fn announce_min_interval_encoding() {
    let mut response = AnnounceResponse::new(60, 0, 0, Vec::new(), Vec::new()).unwrap();
    response.min_interval = Some(30);
    let encoded = encode_announce_response(response);
    assert_eq!(
        encoded.as_slice(),
        &b"d8:completei0e10:incompletei0e8:intervali60e12:min_intervali30e5:peers0:6:peers60:10:tracker_id0:e"[..]
    );
}
