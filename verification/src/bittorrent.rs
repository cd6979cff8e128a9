use vstd::prelude::*;

verus! {

use crate::ip::{spec_parse_ip, spec_parse_ipv4, spec_parse_ipv6};
use crate::peer::{Peer, Peerv4, Peerv6};
use crate::query::{find_byte, spec_parse_u16, spec_parse_u32, spec_parse_u64, spec_query_pairs};
use crate::util::{lex_lt, slice_eq, slice_lt, spec_event_of_bytes, Event};
use vstd::string::StringSliceAdditionalSpecFns;

/// An IP address as a plain value: the integer form of its octets.
#[derive(Clone, Copy, Debug, PartialEq, Eq, Structural)]
pub enum IpVal {
    V4(u32),
    V6(u128),
}

/// A fully parsed and validated announce request.
#[derive(Clone, Debug)]
pub struct AnnounceRequest {
    pub info_hash: Vec<u8>,
    pub peer: Peer,
    pub port: u16,
    pub uploaded: u64,
    pub downloaded: u64,
    pub left: u64,
    pub compact: bool,
    pub no_peer_id: bool,
    pub event: Event,
    pub ip: Option<IpVal>,
    pub numwant: Option<u32>,
    pub key: Option<Vec<u8>>,
    pub trackerid: Option<Vec<u8>>,
}

/// ASCII bytes of `"info_hash"`.
pub open spec fn key_info_hash() -> Seq<u8> {
    seq![105u8, 110u8, 102u8, 111u8, 95u8, 104u8, 97u8, 115u8, 104u8]
}

/// ASCII bytes of `"peer_id"`.
pub open spec fn key_peer_id() -> Seq<u8> {
    seq![112u8, 101u8, 101u8, 114u8, 95u8, 105u8, 100u8]
}

/// ASCII bytes of `"port"`.
pub open spec fn key_port() -> Seq<u8> {
    seq![112u8, 111u8, 114u8, 116u8]
}

/// ASCII bytes of `"uploaded"`.
pub open spec fn key_uploaded() -> Seq<u8> {
    seq![117u8, 112u8, 108u8, 111u8, 97u8, 100u8, 101u8, 100u8]
}

/// ASCII bytes of `"downloaded"`.
pub open spec fn key_downloaded() -> Seq<u8> {
    seq![100u8, 111u8, 119u8, 110u8, 108u8, 111u8, 97u8, 100u8, 101u8, 100u8]
}

/// ASCII bytes of `"left"`.
pub open spec fn key_left() -> Seq<u8> {
    seq![108u8, 101u8, 102u8, 116u8]
}

/// ASCII bytes of `"compact"`.
pub open spec fn key_compact() -> Seq<u8> {
    seq![99u8, 111u8, 109u8, 112u8, 97u8, 99u8, 116u8]
}

/// ASCII bytes of `"no_peer_id"`.
pub open spec fn key_no_peer_id() -> Seq<u8> {
    seq![110u8, 111u8, 95u8, 112u8, 101u8, 101u8, 114u8, 95u8, 105u8, 100u8]
}

/// ASCII bytes of `"event"`.
pub open spec fn key_event() -> Seq<u8> {
    seq![101u8, 118u8, 101u8, 110u8, 116u8]
}

/// ASCII bytes of `"ip"`.
pub open spec fn key_ip() -> Seq<u8> {
    seq![105u8, 112u8]
}

/// ASCII bytes of `"numwant"`.
pub open spec fn key_numwant() -> Seq<u8> {
    seq![110u8, 117u8, 109u8, 119u8, 97u8, 110u8, 116u8]
}

/// ASCII bytes of `"key"`.
pub open spec fn key_key() -> Seq<u8> {
    seq![107u8, 101u8, 121u8]
}

/// ASCII bytes of `"trackerid"`.
pub open spec fn key_trackerid() -> Seq<u8> {
    seq![116u8, 114u8, 97u8, 99u8, 107u8, 101u8, 114u8, 105u8, 100u8]
}

/// The value of the last pair that carries `key`; a repeated parameter
/// is taken at its last occurrence.
pub open spec fn last_value(pairs: Seq<(Seq<u8>, Seq<u8>)>, key: Seq<u8>) -> Option<Seq<u8>>
    decreases pairs.len(),
{
    if pairs.len() == 0 {
        None
    } else if pairs.last().0 == key {
        Some(pairs.last().1)
    } else {
        last_value(pairs.drop_last(), key)
    }
}

impl AnnounceRequest {
    /// Parses and validates an announce query string. The peer's
    /// address comes from the `ip` parameter or from `req_ip`, and its
    /// record is stamped with the clock reading `now`. A request that
    /// breaks any rule of the parameter table is answered with a
    /// bencodable failure, never an error of the transport.
    pub fn new(url_string: &str, req_ip: Option<&str>, now: u64) -> (r: Result<
        AnnounceRequest,
        AnnounceResponse,
    >)
        ensures
            ({
                let pairs = spec_query_pairs(url_string.spec_bytes());
                let rip = match req_ip {
                    Some(s) => Some(s.spec_bytes()),
                    None => None,
                };
                match r {
                    Ok(req) => {
                        &&& spec_announce_valid(pairs, rip)
                        &&& last_value(pairs, key_info_hash()) == Some(req.info_hash@)
                        &&& (match last_value(pairs, key_port()) {
                            Some(v) => spec_parse_u16(v) == Some(req.port),
                            None => false,
                        })
                        &&& (match last_value(pairs, key_uploaded()) {
                            Some(v) => spec_parse_u64(v) == Some(req.uploaded),
                            None => false,
                        })
                        &&& (match last_value(pairs, key_downloaded()) {
                            Some(v) => spec_parse_u64(v) == Some(req.downloaded),
                            None => false,
                        })
                        &&& (match last_value(pairs, key_left()) {
                            Some(v) => spec_parse_u64(v) == Some(req.left),
                            None => false,
                        })
                        &&& req.compact == spec_compact_field(pairs)
                        &&& req.no_peer_id == spec_no_peer_id_field(pairs)
                        &&& req.event == spec_event_field(pairs)
                        &&& req.numwant == spec_numwant_field(pairs)
                        &&& (match req.key {
                            Some(v) => last_value(pairs, key_key()) == Some(v@),
                            None => last_value(pairs, key_key()) is None,
                        })
                        &&& (match req.trackerid {
                            Some(v) => last_value(pairs, key_trackerid()) == Some(v@),
                            None => last_value(pairs, key_trackerid()) is None,
                        })
                        &&& req.ip == spec_resolved_ip(pairs, rip)
                        &&& req.peer.stamp() == now
                        &&& (match (spec_resolved_ip(pairs, rip), last_value(
                            pairs,
                            key_peer_id(),
                        )) {
                            (Some(IpVal::V4(a)), Some(pid)) => req.peer.key() == (
                                false,
                                pid,
                                a as int,
                                req.port as int,
                            ),
                            (Some(IpVal::V6(a)), Some(pid)) => req.peer.key() == (
                                true,
                                pid,
                                a as int,
                                req.port as int,
                            ),
                            _ => false,
                        })
                    },
                    Err(resp) => {
                        &&& !spec_announce_valid(pairs, rip)
                        &&& (resp.failure_reason matches Some(m) && m@ == "Malformed request"@)
                    },
                }
            }),
    {
        let pairs = crate::query::parse_query(url_string.as_bytes());
        let k_info_hash: Vec<u8> = vec![105u8, 110u8, 102u8, 111u8, 95u8, 104u8, 97u8, 115u8, 104u8];
        let k_peer_id: Vec<u8> = vec![112u8, 101u8, 101u8, 114u8, 95u8, 105u8, 100u8];
        let k_port: Vec<u8> = vec![112u8, 111u8, 114u8, 116u8];
        let k_uploaded: Vec<u8> = vec![117u8, 112u8, 108u8, 111u8, 97u8, 100u8, 101u8, 100u8];
        let k_downloaded: Vec<u8> = vec![
            100u8,
            111u8,
            119u8,
            110u8,
            108u8,
            111u8,
            97u8,
            100u8,
            101u8,
            100u8,
        ];
        let k_left: Vec<u8> = vec![108u8, 101u8, 102u8, 116u8];
        let k_compact: Vec<u8> = vec![99u8, 111u8, 109u8, 112u8, 97u8, 99u8, 116u8];
        let k_no_peer_id: Vec<u8> = vec![
            110u8,
            111u8,
            95u8,
            112u8,
            101u8,
            101u8,
            114u8,
            95u8,
            105u8,
            100u8,
        ];
        let k_event: Vec<u8> = vec![101u8, 118u8, 101u8, 110u8, 116u8];
        let k_ip: Vec<u8> = vec![105u8, 112u8];
        let k_numwant: Vec<u8> = vec![110u8, 117u8, 109u8, 119u8, 97u8, 110u8, 116u8];
        let k_key: Vec<u8> = vec![107u8, 101u8, 121u8];
        let k_trackerid: Vec<u8> = vec![116u8, 114u8, 97u8, 99u8, 107u8, 101u8, 114u8, 105u8, 100u8];
        proof {
            assert(k_info_hash@ =~= key_info_hash());
            assert(k_peer_id@ =~= key_peer_id());
            assert(k_port@ =~= key_port());
            assert(k_uploaded@ =~= key_uploaded());
            assert(k_downloaded@ =~= key_downloaded());
            assert(k_left@ =~= key_left());
            assert(k_compact@ =~= key_compact());
            assert(k_no_peer_id@ =~= key_no_peer_id());
            assert(k_event@ =~= key_event());
            assert(k_ip@ =~= key_ip());
            assert(k_numwant@ =~= key_numwant());
            assert(k_key@ =~= key_key());
            assert(k_trackerid@ =~= key_trackerid());
        }
        let info_hash = match lookup_last(&pairs, &k_info_hash) {
            Some(v) => {
                if v.len() != 20 {
                    return Err(AnnounceResponse::failure("Malformed request".to_owned()));
                }
                v
            },
            None => {
                return Err(AnnounceResponse::failure("Malformed request".to_owned()));
            },
        };
        let peer_id = match lookup_last(&pairs, &k_peer_id) {
            Some(v) => {
                if v.len() != 20 {
                    return Err(AnnounceResponse::failure("Malformed request".to_owned()));
                }
                v
            },
            None => {
                return Err(AnnounceResponse::failure("Malformed request".to_owned()));
            },
        };
        let port = match lookup_last(&pairs, &k_port) {
            Some(v) => match crate::query::parse_u16(v.as_slice()) {
                Some(n) => n,
                None => {
                    return Err(AnnounceResponse::failure("Malformed request".to_owned()));
                },
            },
            None => {
                return Err(AnnounceResponse::failure("Malformed request".to_owned()));
            },
        };
        let uploaded = match lookup_last(&pairs, &k_uploaded) {
            Some(v) => match crate::query::parse_u64(v.as_slice()) {
                Some(n) => n,
                None => {
                    return Err(AnnounceResponse::failure("Malformed request".to_owned()));
                },
            },
            None => {
                return Err(AnnounceResponse::failure("Malformed request".to_owned()));
            },
        };
        let downloaded = match lookup_last(&pairs, &k_downloaded) {
            Some(v) => match crate::query::parse_u64(v.as_slice()) {
                Some(n) => n,
                None => {
                    return Err(AnnounceResponse::failure("Malformed request".to_owned()));
                },
            },
            None => {
                return Err(AnnounceResponse::failure("Malformed request".to_owned()));
            },
        };
        let left = match lookup_last(&pairs, &k_left) {
            Some(v) => match crate::query::parse_u64(v.as_slice()) {
                Some(n) => n,
                None => {
                    return Err(AnnounceResponse::failure("Malformed request".to_owned()));
                },
            },
            None => {
                return Err(AnnounceResponse::failure("Malformed request".to_owned()));
            },
        };
        let compact = match lookup_last(&pairs, &k_compact) {
            Some(v) => match crate::query::parse_u32(v.as_slice()) {
                Some(n) => n != 0,
                None => {
                    return Err(AnnounceResponse::failure("Malformed request".to_owned()));
                },
            },
            None => false,
        };
        let no_peer_id = match lookup_last(&pairs, &k_no_peer_id) {
            Some(v) => match crate::query::parse_u32(v.as_slice()) {
                Some(n) => n != 0,
                None => {
                    return Err(AnnounceResponse::failure("Malformed request".to_owned()));
                },
            },
            None => false,
        };
        let event = match lookup_last(&pairs, &k_event) {
            Some(v) => match crate::util::event_of_bytes(v.as_slice()) {
                Ok(e) => e,
                Err(_) => {
                    return Err(AnnounceResponse::failure("Malformed request".to_owned()));
                },
            },
            None => Event::Unspecified,
        };
        let numwant = match lookup_last(&pairs, &k_numwant) {
            Some(v) => match crate::query::parse_u32(v.as_slice()) {
                Some(n) => Some(n),
                None => Some(50u32),
            },
            None => None,
        };
        let key = lookup_last(&pairs, &k_key);
        let trackerid = lookup_last(&pairs, &k_trackerid);
        let ipval = match lookup_last(&pairs, &k_ip) {
            Some(v) => match crate::ip::parse_ip(v.as_slice()) {
                Some(x) => x,
                None => {
                    return Err(AnnounceResponse::failure("Malformed request".to_owned()));
                },
            },
            None => match req_ip {
                Some(rs) => match crate::ip::remote_ip(rs.as_bytes()) {
                    Some(x) => x,
                    None => {
                        return Err(AnnounceResponse::failure("Malformed request".to_owned()));
                    },
                },
                None => {
                    return Err(AnnounceResponse::failure("Malformed request".to_owned()));
                },
            },
        };
        let peer = match ipval {
            IpVal::V4(a) => Peer::V4(
                Peerv4 {
                    peer_id: crate::peer::clone_bytes(&peer_id),
                    ip: a,
                    port,
                    last_announced: now,
                },
            ),
            IpVal::V6(a) => Peer::V6(
                Peerv6 {
                    peer_id: crate::peer::clone_bytes(&peer_id),
                    ip: a,
                    port,
                    last_announced: now,
                },
            ),
        };
        Ok(
            AnnounceRequest {
                info_hash,
                peer,
                port,
                uploaded,
                downloaded,
                left,
                compact,
                no_peer_id,
                event,
                ip: Some(ipval),
                numwant,
                key,
                trackerid,
            },
        )
    }
}

/// Concatenated six-byte compact forms, in list order.
pub open spec fn spec_compact_v4_list(ps: Seq<Peerv4>) -> Seq<u8>
    decreases ps.len(),
{
    if ps.len() == 0 {
        Seq::empty()
    } else {
        spec_compact_v4_list(ps.drop_last()) + ps.last().spec_compact()
    }
}

/// Concatenated eighteen-byte compact forms, in list order.
pub open spec fn spec_compact_v6_list(ps: Seq<Peerv6>) -> Seq<u8>
    decreases ps.len(),
{
    if ps.len() == 0 {
        Seq::empty()
    } else {
        spec_compact_v6_list(ps.drop_last()) + ps.last().spec_compact()
    }
}

/// The view of a pair list: each vector as its byte sequence.
pub open spec fn pairs_view(pairs: Seq<(Vec<u8>, Vec<u8>)>) -> Seq<(Seq<u8>, Seq<u8>)> {
    pairs.map_values(|p: (Vec<u8>, Vec<u8>)| (p.0@, p.1@))
}

/// The address an announce speaks for: the `ip` parameter when given
/// (malformed text invalidates the request), else the remote address.
pub open spec fn spec_resolved_ip(pairs: Seq<(Seq<u8>, Seq<u8>)>, rip: Option<Seq<u8>>) -> Option<
    IpVal,
> {
    match last_value(pairs, key_ip()) {
        Some(v) => spec_parse_ip(v),
        None => match rip {
            Some(s) => crate::ip::spec_remote_ip(s),
            None => None,
        },
    }
}

/// When an announce query is well-formed: the six required parameters
/// are present and valid, the optional ones parse where given, and an
/// address can be resolved.
pub open spec fn spec_announce_valid(pairs: Seq<(Seq<u8>, Seq<u8>)>, rip: Option<Seq<u8>>) -> bool {
    &&& (match last_value(pairs, key_info_hash()) {
        Some(v) => v.len() == 20,
        None => false,
    })
    &&& (match last_value(pairs, key_peer_id()) {
        Some(v) => v.len() == 20,
        None => false,
    })
    &&& (match last_value(pairs, key_port()) {
        Some(v) => spec_parse_u16(v) is Some,
        None => false,
    })
    &&& (match last_value(pairs, key_uploaded()) {
        Some(v) => spec_parse_u64(v) is Some,
        None => false,
    })
    &&& (match last_value(pairs, key_downloaded()) {
        Some(v) => spec_parse_u64(v) is Some,
        None => false,
    })
    &&& (match last_value(pairs, key_left()) {
        Some(v) => spec_parse_u64(v) is Some,
        None => false,
    })
    &&& (match last_value(pairs, key_compact()) {
        Some(v) => spec_parse_u32(v) is Some,
        None => true,
    })
    &&& (match last_value(pairs, key_no_peer_id()) {
        Some(v) => spec_parse_u32(v) is Some,
        None => true,
    })
    &&& (match last_value(pairs, key_event()) {
        Some(v) => spec_event_of_bytes(v) is Ok,
        None => true,
    })
    &&& spec_resolved_ip(pairs, rip) is Some
}

/// The event field of a well-formed announce.
pub open spec fn spec_event_field(pairs: Seq<(Seq<u8>, Seq<u8>)>) -> Event {
    match last_value(pairs, key_event()) {
        Some(v) => match spec_event_of_bytes(v) {
            Ok(e) => e,
            Err(_) => Event::Unspecified,
        },
        None => Event::Unspecified,
    }
}

/// The `compact` flag of a well-formed announce.
pub open spec fn spec_compact_field(pairs: Seq<(Seq<u8>, Seq<u8>)>) -> bool {
    match last_value(pairs, key_compact()) {
        Some(v) => match spec_parse_u32(v) {
            Some(n) => n != 0,
            None => false,
        },
        None => false,
    }
}

/// The `no_peer_id` flag of a well-formed announce.
pub open spec fn spec_no_peer_id_field(pairs: Seq<(Seq<u8>, Seq<u8>)>) -> bool {
    match last_value(pairs, key_no_peer_id()) {
        Some(v) => match spec_parse_u32(v) {
            Some(n) => n != 0,
            None => false,
        },
        None => false,
    }
}

/// The peer count a client asked for; a present but unreadable number
/// falls back to fifty.
pub open spec fn spec_numwant_field(pairs: Seq<(Seq<u8>, Seq<u8>)>) -> Option<u32> {
    match last_value(pairs, key_numwant()) {
        Some(v) => match spec_parse_u32(v) {
            Some(n) => Some(n),
            None => Some(50u32),
        },
        None => None,
    }
}

/// The value of the last pair carrying `key`, copied out.
pub fn lookup_last(pairs: &Vec<(Vec<u8>, Vec<u8>)>, key: &Vec<u8>) -> (r: Option<Vec<u8>>)
    ensures
        match r {
            Some(v) => last_value(pairs_view(pairs@), key@) == Some(v@),
            None => last_value(pairs_view(pairs@), key@) is None,
        },
{
    let ghost pview = pairs_view(pairs@);
    let mut i: usize = pairs.len();
    proof {
        assert(pview.take(pairs@.len() as int) =~= pview);
    }
    while i > 0
        invariant
            i <= pairs@.len(),
            pview == pairs_view(pairs@),
            last_value(pview, key@) == last_value(pview.take(i as int), key@),
        decreases i,
    {
        i -= 1;
        proof {
            assert(pview.take(i + 1 as int).drop_last() =~= pview.take(i as int));
            assert(pview.take(i + 1 as int).last() == pview[i as int]);
            assert(pview[i as int] == (pairs@[i as int].0@, pairs@[i as int].1@));
        }
        if slice_eq(pairs[i].0.as_slice(), key.as_slice()) {
            return Some(crate::peer::clone_bytes(&pairs[i].1));
        }
    }
    proof {
        assert(pview.take(0) =~= Seq::<(Seq<u8>, Seq<u8>)>::empty());
    }
    None
}

/// A success or failure body for an announce. A failure carries only
/// its reason; everything else belongs to the success shape.
#[derive(Debug)]
pub struct AnnounceResponse {
    pub failure_reason: Option<String>,
    pub interval: u32,
    pub min_interval: Option<u32>,
    pub tracker_id: String,
    pub complete: u32,
    pub incomplete: u32,
    pub peers: Vec<Peerv4>,
    pub peers6: Vec<Peerv6>,
}

impl AnnounceResponse {
    /// Builds a success response around the sampled peers and counters.
    pub fn new(
        interval: u32,
        complete: u32,
        incomplete: u32,
        peers: Vec<Peerv4>,
        peers6: Vec<Peerv6>,
    ) -> (r: Result<AnnounceResponse, &'static str>)
        ensures
            r is Ok,
            r matches Ok(a) ==> {
                &&& a.failure_reason is None
                &&& a.interval == interval
                &&& a.min_interval is None
                &&& a.tracker_id@ == Seq::<char>::empty()
                &&& a.complete == complete
                &&& a.incomplete == incomplete
                &&& a.peers == peers
                &&& a.peers6 == peers6
            },
    {
        Ok(AnnounceResponse {
            failure_reason: None,
            interval,
            min_interval: None,
            tracker_id: String::new(),
            complete,
            incomplete,
            peers,
            peers6,
        })
    }

    /// Builds a failure response that carries only `reason`.
    pub fn failure(reason: String) -> (r: AnnounceResponse)
        ensures
            r.failure_reason matches Some(s) && s@ == reason@,
            r.interval == 0,
            r.min_interval is None,
            r.tracker_id@ == Seq::<char>::empty(),
            r.complete == 0,
            r.incomplete == 0,
            r.peers@.len() == 0,
            r.peers6@.len() == 0,
    {
        AnnounceResponse {
            failure_reason: Some(reason),
            interval: 0,
            min_interval: None,
            tracker_id: String::new(),
            complete: 0,
            incomplete: 0,
            peers: Vec::new(),
            peers6: Vec::new(),
        }
    }

    /// The IPv4 peer list in its compact wire form.
    pub fn peersv4_as_compact(&self) -> (r: Vec<u8>)
        ensures
            r@ == spec_compact_v4_list(self.peers@),
    {
        let mut out: Vec<u8> = Vec::new();
        let mut i: usize = 0;
        while i < self.peers.len()
            invariant
                i <= self.peers@.len(),
                out@ == spec_compact_v4_list(self.peers@.take(i as int)),
            decreases self.peers@.len() - i,
        {
            let mut c = self.peers[i].compact();
            out.append(&mut c);
            proof {
                assert(self.peers@.take(i + 1 as int).drop_last() =~= self.peers@.take(i as int));
                assert(self.peers@.take(i + 1 as int).last() == self.peers@[i as int]);
            }
            i += 1;
        }
        proof {
            assert(self.peers@.take(self.peers@.len() as int) =~= self.peers@);
        }
        out
    }

    /// The IPv6 peer list in its compact wire form.
    pub fn peersv6_as_compact(&self) -> (r: Vec<u8>)
        ensures
            r@ == spec_compact_v6_list(self.peers6@),
    {
        let mut out: Vec<u8> = Vec::new();
        let mut i: usize = 0;
        while i < self.peers6.len()
            invariant
                i <= self.peers6@.len(),
                out@ == spec_compact_v6_list(self.peers6@.take(i as int)),
            decreases self.peers6@.len() - i,
        {
            let mut c = self.peers6[i].compact();
            out.append(&mut c);
            proof {
                assert(self.peers6@.take(i + 1 as int).drop_last() =~= self.peers6@.take(i as int));
                assert(self.peers6@.take(i + 1 as int).last() == self.peers6@[i as int]);
            }
            i += 1;
        }
        proof {
            assert(self.peers6@.take(self.peers6@.len() as int) =~= self.peers6@);
        }
        out
    }
}

/// Aggregate counters for one torrent, as a scrape reports them.
#[derive(Clone, Debug)]
pub struct ScrapeFile {
    pub info_hash: Vec<u8>,
    pub complete: u32,
    pub downloaded: u32,
    pub incomplete: u32,
    pub name: Option<String>,
}

impl Default for ScrapeFile {
    fn default() -> (r: ScrapeFile)
        ensures
            r.info_hash@.len() == 0,
            r.complete == 0,
            r.downloaded == 0,
            r.incomplete == 0,
            r.name is None,
    {
        ScrapeFile {
            info_hash: Vec::new(),
            complete: 0,
            downloaded: 0,
            incomplete: 0,
            name: None,
        }
    }
}

/// A validated scrape request: the requested info-hashes, in order.
pub struct ScrapeRequest {
    pub info_hashes: Vec<Vec<u8>>,
}

impl ScrapeRequest {
    /// Parses a scrape query string: one or more repeated `info_hash`
    /// parameters and nothing else; anything else is a malformed
    /// scrape.
    pub fn new(url_string: &str) -> (r: Result<ScrapeRequest, ScrapeResponse>)
        ensures
            ({
                let pairs = spec_query_pairs(url_string.spec_bytes());
                match r {
                    Ok(req) => {
                        &&& pairs.len() > 0
                        &&& forall|i: int|
                            0 <= i < pairs.len() ==> (#[trigger] pairs[i]).0 == key_info_hash()
                        &&& req.info_hashes@.map_values(|h: Vec<u8>| h@) == pairs.map_values(
                            |p: (Seq<u8>, Seq<u8>)| p.1,
                        )
                    },
                    Err(resp) => {
                        &&& !(pairs.len() > 0 && forall|i: int|
                            0 <= i < pairs.len() ==> (#[trigger] pairs[i]).0 == key_info_hash())
                        &&& (resp.failure_reason matches Some(m) && m@
                            == "Malformed scrape request"@)
                    },
                }
            }),
    {
        let pairs = crate::query::parse_query(url_string.as_bytes());
        let ghost pview = pairs_view(pairs@);
        if pairs.len() == 0 {
            return Err(ScrapeResponse::failure("Malformed scrape request".to_owned()));
        }
        let k_info_hash: Vec<u8> = vec![105u8, 110u8, 102u8, 111u8, 95u8, 104u8, 97u8, 115u8, 104u8];
        proof {
            assert(k_info_hash@ =~= key_info_hash());
        }
        let mut info_hashes: Vec<Vec<u8>> = Vec::new();
        let mut i: usize = 0;
        proof {
            assert(info_hashes@.map_values(|h: Vec<u8>| h@) =~= pview.take(0).map_values(
                |p: (Seq<u8>, Seq<u8>)| p.1,
            ));
        }
        while i < pairs.len()
            invariant
                i <= pairs@.len(),
                pview == pairs_view(pairs@),
                pview == spec_query_pairs(url_string.spec_bytes()),
                k_info_hash@ == key_info_hash(),
                forall|j: int| 0 <= j < i ==> (#[trigger] pview[j]).0 == key_info_hash(),
                info_hashes@.map_values(|h: Vec<u8>| h@) == pview.take(i as int).map_values(
                    |p: (Seq<u8>, Seq<u8>)| p.1,
                ),
            decreases pairs@.len() - i,
        {
            proof {
                assert(pview[i as int] == (pairs@[i as int].0@, pairs@[i as int].1@));
            }
            if !slice_eq(pairs[i].0.as_slice(), k_info_hash.as_slice()) {
                return Err(ScrapeResponse::failure("Malformed scrape request".to_owned()));
            }
            let v = crate::peer::clone_bytes(&pairs[i].1);
            let ghost vv = v@;
            let ghost prev = info_hashes@;
            info_hashes.push(v);
            proof {
                let f = |h: Vec<u8>| h@;
                let g = |p: (Seq<u8>, Seq<u8>)| p.1;
                assert(vv == pview[i as int].1);
                assert(info_hashes@.map_values(f) =~= prev.map_values(f).push(vv));
                assert(pview.take(i + 1 as int).map_values(g) =~= pview.take(i as int).map_values(
                    g,
                ).push(pview[i as int].1));
            }
            i += 1;
        }
        proof {
            assert(pview.take(pairs@.len() as int) =~= pview);
        }
        Ok(ScrapeRequest { info_hashes })
    }
}

/// A scrape body: either a failure reason, or one entry per requested
/// torrent that the tracker knows, keyed and sorted by info-hash.
#[derive(Debug)]
pub struct ScrapeResponse {
    pub failure_reason: Option<String>,
    pub files: Vec<(Vec<u8>, ScrapeFile)>,
}

/// File entries sorted strictly by info-hash, so every key is unique
/// and a bencode dict can be emitted in order.
pub open spec fn files_sorted(files: Seq<(Vec<u8>, ScrapeFile)>) -> bool {
    forall|i: int, j: int|
        0 <= i < j < files.len() ==> lex_lt(#[trigger] files[i].0@, #[trigger] files[j].0@)
}

/// Whether some entry carries the key `k`.
pub open spec fn files_has(files: Seq<(Vec<u8>, ScrapeFile)>, k: Seq<u8>) -> bool {
    exists|i: int| 0 <= i < files.len() && (#[trigger] files[i].0@) == k
}

impl ScrapeResponse {
    pub open spec fn wf(self) -> bool {
        files_sorted(self.files@)
    }

    pub fn new() -> (r: Result<ScrapeResponse, ()>)
        ensures
            r matches Ok(s) && s.failure_reason is None && s.files@.len() == 0 && s.wf(),
    {
        Ok(ScrapeResponse { failure_reason: None, files: Vec::new() })
    }

    pub fn failure(reason: String) -> (r: ScrapeResponse)
        ensures
            r.failure_reason matches Some(s) && s@ == reason@,
            r.files@.len() == 0,
            r.wf(),
    {
        ScrapeResponse { failure_reason: Some(reason), files: Vec::new() }
    }

    /// Records the counters for one torrent. A fresh key is inserted at
    /// its sorted position; a repeated key has its entry replaced.
    #[verifier::rlimit(60)]
    pub fn add_file(&mut self, info_hash: Vec<u8>, scrape_file: ScrapeFile)
        requires
            old(self).wf(),
        ensures
            final(self).wf(),
            final(self).failure_reason == old(self).failure_reason,
            files_has(final(self).files@, info_hash@),
            if files_has(old(self).files@, info_hash@) {
                exists|i: int|
                    0 <= i < old(self).files@.len() && old(self).files@[i].0@ == info_hash@
                        && final(self).files@ == old(self).files@.update(
                        i,
                        (info_hash, scrape_file),
                    )
            } else {
                exists|i: int|
                    0 <= i <= old(self).files@.len() && final(self).files@ == old(
                        self,
                    ).files@.insert(i, (info_hash, scrape_file))
            },
    {
        let ghost orig = self.files@;
        let mut i: usize = 0;
        while i < self.files.len()
            invariant
                orig == old(self).files@,
                self.files@ == orig,
                self.failure_reason == old(self).failure_reason,
                files_sorted(orig),
                i <= orig.len(),
                forall|j: int| 0 <= j < i ==> lex_lt(#[trigger] orig[j].0@, info_hash@),
            decreases orig.len() - i,
        {
            let same = slice_eq(self.files[i].0.as_slice(), info_hash.as_slice());
            if same {
                self.files[i] = (info_hash, scrape_file);
                proof {
                    assert(orig[i as int].0@ == info_hash@);
                    assert(files_has(orig, info_hash@));
                    assert(self.files@ == orig.update(i as int, (info_hash, scrape_file)));
                    assert(files_has(self.files@, self.files@[i as int].0@));
                    assert forall|p: int, q: int|
                        0 <= p < q < self.files@.len() implies lex_lt(
                        #[trigger] self.files@[p].0@,
                        #[trigger] self.files@[q].0@,
                    ) by {
                        assert(self.files@[p].0@ == orig[p].0@ || p == i);
                        assert(self.files@[q].0@ == orig[q].0@ || q == i);
                    }
                }
                return ;
            }
            let below = slice_lt(info_hash.as_slice(), self.files[i].0.as_slice());
            if below {
                proof {
                    lemma_lex_lt_total_here(orig, i as int, info_hash@);
                }
                self.files.insert(i, (info_hash, scrape_file));
                proof {
                    let fs = self.files@;
                    orig.insert_ensures(i as int, (info_hash, scrape_file));
                    assert(forall|j: int| 0 <= j < i ==> fs[j] == orig[j]);
                    assert(fs[i as int] == (info_hash, scrape_file));
                    assert(forall|j: int| i < j < fs.len() ==> fs[j] == orig[j - 1]);
                    assert(fs[i as int].0@ == info_hash@);
                    assert(files_has(fs, info_hash@));
                    assert(!files_has(orig, info_hash@));
                    assert forall|p: int, q: int|
                        0 <= p < q < fs.len() implies lex_lt(
                        #[trigger] fs[p].0@,
                        #[trigger] fs[q].0@,
                    ) by {
                        if p == i && q > i + 1 {
                            crate::util::lemma_lex_lt_transitive(
                                info_hash@,
                                orig[i as int].0@,
                                orig[q - 1].0@,
                            );
                        }
                    }
                }
                return ;
            }
            proof {
                crate::util::lemma_lex_lt_trichotomy(info_hash@, orig[i as int].0@);
            }
            i += 1;
        }
        proof {
            lemma_lex_lt_total_here(orig, orig.len() as int, info_hash@);
            assert(!files_has(orig, info_hash@));
        }
        self.files.push((info_hash, scrape_file));
        proof {
            let fs = self.files@;
            assert(fs =~= orig.insert(orig.len() as int, (info_hash, scrape_file)));
            assert(fs[orig.len() as int].0@ == info_hash@);
            assert(files_has(fs, info_hash@));
            assert forall|p: int, q: int|
                0 <= p < q < fs.len() implies lex_lt(
                #[trigger] fs[p].0@,
                #[trigger] fs[q].0@,
            ) by {
                assert(q < orig.len() || fs[q].0@ == info_hash@);
            }
        }
    }
}

/// Replacing an entry under its own key changes no key's presence.
pub proof fn lemma_files_update_presence(
    old: Seq<(Vec<u8>, ScrapeFile)>,
    new: Seq<(Vec<u8>, ScrapeFile)>,
    i: int,
    e: (Vec<u8>, ScrapeFile),
)
    requires
        0 <= i < old.len(),
        new == old.update(i, e),
        old[i].0@ == e.0@,
    ensures
        forall|k: Seq<u8>| files_has(new, k) <==> files_has(old, k),
        files_has(new, e.0@),
        forall|j: int| 0 <= j < new.len() ==> #[trigger] new[j] == e || old.contains(new[j]),
{
    assert(forall|j: int| 0 <= j < new.len() ==> (#[trigger] new[j]).0@ == old[j].0@);
    assert forall|k: Seq<u8>| files_has(new, k) <==> files_has(old, k) by {
        if files_has(new, k) {
            let j = choose|j: int| 0 <= j < new.len() && new[j].0@ == k;
            assert(old[j].0@ == k);
        }
        if files_has(old, k) {
            let j = choose|j: int| 0 <= j < old.len() && old[j].0@ == k;
            assert(new[j].0@ == k);
        }
    }
    assert(new[i].0@ == e.0@);
    assert forall|j: int| 0 <= j < new.len() implies #[trigger] new[j] == e || old.contains(
        new[j],
    ) by {
        if j != i {
            assert(new[j] == old[j]);
        }
    }
}

/// Inserting an entry adds exactly its key.
pub proof fn lemma_files_insert_presence(
    old: Seq<(Vec<u8>, ScrapeFile)>,
    new: Seq<(Vec<u8>, ScrapeFile)>,
    i: int,
    e: (Vec<u8>, ScrapeFile),
)
    requires
        0 <= i <= old.len(),
        new == old.insert(i, e),
    ensures
        forall|k: Seq<u8>| files_has(new, k) <==> (files_has(old, k) || k == e.0@),
        forall|j: int| 0 <= j < new.len() ==> #[trigger] new[j] == e || old.contains(new[j]),
{
    old.insert_ensures(i, e);
    assert(new[i] == e);
    assert forall|k: Seq<u8>| files_has(new, k) <==> (files_has(old, k) || k == e.0@) by {
        if files_has(new, k) {
            let j = choose|j: int| 0 <= j < new.len() && new[j].0@ == k;
            if j < i {
                assert(old[j].0@ == k);
            } else if j > i {
                assert(old[j - 1].0@ == k);
            }
        }
        if files_has(old, k) {
            let j = choose|j: int| 0 <= j < old.len() && old[j].0@ == k;
            if j < i {
                assert(new[j].0@ == k);
            } else {
                assert(new[j + 1].0@ == k);
            }
        }
        if k == e.0@ {
            assert(new[i].0@ == k);
        }
    }
    assert forall|j: int| 0 <= j < new.len() implies #[trigger] new[j] == e || old.contains(
        new[j],
    ) by {
        if j < i {
            assert(new[j] == old[j]);
        } else if j > i {
            assert(new[j] == old[j - 1]);
        }
    }
}

/// If every key before `i` is below `k` and the keys are sorted, and
/// `k` is below the key at `i` (or `i` is the end), then `k` is absent.
proof fn lemma_lex_lt_total_here(files: Seq<(Vec<u8>, ScrapeFile)>, i: int, k: Seq<u8>)
    requires
        files_sorted(files),
        0 <= i <= files.len(),
        forall|j: int| 0 <= j < i ==> lex_lt(#[trigger] files[j].0@, k),
        i < files.len() ==> lex_lt(k, files[i].0@),
    ensures
        !files_has(files, k),
{
    assert forall|j: int| 0 <= j < files.len() implies (#[trigger] files[j].0@) != k by {
        if j < i {
            crate::util::lemma_lex_lt_trichotomy(files[j].0@, k);
        } else if j == i {
            crate::util::lemma_lex_lt_trichotomy(k, files[j].0@);
        } else {
            crate::util::lemma_lex_lt_transitive(k, files[i].0@, files[j].0@);
            crate::util::lemma_lex_lt_trichotomy(k, files[j].0@);
        }
    }
}

} // verus!
