use tracker_core::bencode::{encode_announce_response, encode_scrape_response};
use tracker_core::bittorrent::{AnnounceResponse, ScrapeFile, ScrapeResponse};
use tracker_core::peer::{Peerv4, Peerv6};

// A small, strict bencode reader: enough of the format to accept any
// body this tracker emits and to rebuild it byte for byte.
#[derive(Debug, PartialEq, Eq)]
enum BVal {
    Int(u64),
    Bytes(Vec<u8>),
    Dict(Vec<(Vec<u8>, BVal)>),
}

fn parse_bval(s: &[u8], pos: usize) -> Option<(BVal, usize)> {
    match *s.get(pos)? {
        b'i' => {
            let end = s[pos..].iter().position(|&c| c == b'e')? + pos;
            let digits = &s[pos + 1..end];
            if digits.is_empty() || !digits.iter().all(|c| c.is_ascii_digit()) {
                return None;
            }
            let val: u64 = std::str::from_utf8(digits).ok()?.parse().ok()?;
            Some((BVal::Int(val), end + 1))
        }
        b'd' => {
            let mut items = Vec::new();
            let mut at = pos + 1;
            let mut last_key: Option<Vec<u8>> = None;
            while *s.get(at)? != b'e' {
                let (key, next) = parse_bval(s, at)?;
                let key = match key {
                    BVal::Bytes(k) => k,
                    _ => return None,
                };
                // A conforming reader insists on strictly sorted keys.
                if let Some(prev) = &last_key {
                    if *prev >= key {
                        return None;
                    }
                }
                last_key = Some(key.clone());
                let (val, next) = parse_bval(s, next)?;
                items.push((key, val));
                at = next;
            }
            Some((BVal::Dict(items), at + 1))
        }
        c if c.is_ascii_digit() => {
            let colon = s[pos..].iter().position(|&c| c == b':')? + pos;
            let len: usize = std::str::from_utf8(&s[pos..colon]).ok()?.parse().ok()?;
            let start = colon + 1;
            if start + len > s.len() {
                return None;
            }
            Some((BVal::Bytes(s[start..start + len].to_vec()), start + len))
        }
        _ => None,
    }
}

fn encode_bval(v: &BVal, out: &mut Vec<u8>) {
    match v {
        BVal::Int(n) => {
            out.extend_from_slice(format!("i{}e", n).as_bytes());
        }
        BVal::Bytes(b) => {
            out.extend_from_slice(format!("{}:", b.len()).as_bytes());
            out.extend_from_slice(b);
        }
        BVal::Dict(items) => {
            out.push(b'd');
            for (k, val) in items {
                encode_bval(&BVal::Bytes(k.clone()), out);
                encode_bval(val, out);
            }
            out.push(b'e');
        }
    }
}

fn assert_round_trips(body: &[u8]) -> BVal {
    let (val, used) = parse_bval(body, 0).expect("body must parse as bencode");
    assert_eq!(used, body.len(), "body must parse to its full length");
    let mut rebuilt = Vec::new();
    encode_bval(&val, &mut rebuilt);
    assert_eq!(rebuilt, body, "re-encoding must give the same bytes");
    val
}

#[test]
fn announce_success_round_trips() {
    let peers = vec![Peerv4 {
        peer_id: b"AAAAAAAAAAAAAAAAAAAA".to_vec(),
        ip: 0x0a000001,
        port: 6881,
        last_announced: 0,
    }];
    let peers6 = vec![Peerv6 {
        peer_id: b"BBBBBBBBBBBBBBBBBBBB".to_vec(),
        ip: 1,
        port: 6882,
        last_announced: 0,
    }];
    let mut response = AnnounceResponse::new(1800, 4, 9, peers, peers6).unwrap();
    response.min_interval = Some(60);
    let body = encode_announce_response(response);

    let val = assert_round_trips(&body);
    match val {
        BVal::Dict(items) => {
            let keys: Vec<&[u8]> = items.iter().map(|(k, _)| k.as_slice()).collect();
            assert_eq!(
                keys,
                vec![
                    b"complete".as_slice(),
                    b"incomplete".as_slice(),
                    b"interval".as_slice(),
                    b"min_interval".as_slice(),
                    b"peers".as_slice(),
                    b"peers6".as_slice(),
                    b"tracker_id".as_slice()
                ]
            );
            assert_eq!(items[0].1, BVal::Int(4));
            assert_eq!(items[1].1, BVal::Int(9));
            assert_eq!(items[2].1, BVal::Int(1800));
            assert_eq!(items[3].1, BVal::Int(60));
            assert_eq!(
                items[4].1,
                BVal::Bytes(vec![0x0a, 0, 0, 1, 0x1a, 0xe1])
            );
        }
        _ => panic!("announce body must be a dict"),
    }
}

#[test]
fn announce_failure_round_trips() {
    let body = encode_announce_response(AnnounceResponse::failure("ouch".to_string()));
    let val = assert_round_trips(&body);
    assert_eq!(
        val,
        BVal::Dict(vec![(b"failure_reason".to_vec(), BVal::Bytes(b"ouch".to_vec()))])
    );
}

#[test]
fn scrape_round_trips() {
    let mut response = ScrapeResponse::new().unwrap();
    response.add_file(
        b"aaaaaaaaaaaaaaaaaaaa".to_vec(),
        ScrapeFile {
            info_hash: b"aaaaaaaaaaaaaaaaaaaa".to_vec(),
            complete: 3,
            downloaded: 14,
            incomplete: 15,
            name: None,
        },
    );
    let body = encode_scrape_response(response);
    let val = assert_round_trips(&body);
    match val {
        BVal::Dict(items) => {
            assert_eq!(items.len(), 1);
            assert_eq!(items[0].0, b"files".to_vec());
        }
        _ => panic!("scrape body must be a dict"),
    }
}
