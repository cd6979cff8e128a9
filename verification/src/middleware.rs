use vstd::prelude::*;

verus! {

use crate::bittorrent::{key_info_hash, key_peer_id, last_value};
use crate::errors::ClientError;
use crate::query::spec_query_pairs;
use crate::util::string_bytes;
use vstd::string::StringSliceAdditionalSpecFns;

/// Whether `x` is one of the byte strings in `list`.
pub open spec fn spec_in_list(list: Seq<Vec<u8>>, x: Seq<u8>) -> bool {
    exists|i: int| 0 <= i < list.len() && (#[trigger] list[i])@ == x
}

/// The vendor tag of a peer id: bytes one and two, or one through six
/// when versions are considered.
pub open spec fn spec_client_tag(pid: Seq<u8>, versioned: bool) -> Seq<u8> {
    if versioned {
        pid.subrange(1, 7)
    } else {
        pid.subrange(1, 3)
    }
}

fn in_list(list: &Vec<Vec<u8>>, x: &Vec<u8>) -> (r: bool)
    ensures
        r == spec_in_list(list@, x@),
{
    let mut i: usize = 0;
    while i < list.len()
        invariant
            i <= list@.len(),
            forall|j: int| 0 <= j < i ==> (#[trigger] list@[j])@ != x@,
        decreases list@.len() - i,
    {
        if crate::util::slice_eq(list[i].as_slice(), x.as_slice()) {
            return true;
        }
        i += 1;
    }
    false
}

/// Converts a list of text entries to their byte forms.
fn list_to_bytes(items: Vec<String>) -> (r: Vec<Vec<u8>>)
    ensures
        r@.len() == items@.len(),
        forall|i: int| 0 <= i < r@.len() ==> (#[trigger] r@[i])@ == string_bytes(items@[i]@),
{
    let mut r: Vec<Vec<u8>> = Vec::new();
    let mut i: usize = 0;
    while i < items.len()
        invariant
            i <= items@.len(),
            r@.len() == i,
            forall|j: int| 0 <= j < i ==> (#[trigger] r@[j])@ == string_bytes(items@[j]@),
        decreases items@.len() - i,
    {
        let s = &items[i];
        let b = s.as_str().as_bytes();
        r.push(crate::ip::copy_range(b, 0, b.len()));
        proof {
            assert(b@.subrange(0, b@.len() as int) =~= b@);
        }
        i += 1;
    }
    r
}

/// The client-approval gate: a request passes or is turned away by the
/// vendor tag of its peer id, before any engine runs.
pub struct ClientApproval {
    pub blacklist_style: bool,
    pub versioned: bool,
    pub list: Vec<Vec<u8>>,
}

impl ClientApproval {
    /// Whether a request carrying `pid` as its peer id may pass. A
    /// missing or short peer id never passes; otherwise the tag decides
    /// against the list, as a blacklist or as a whitelist.
    pub open spec fn spec_allows(self, pid: Option<Seq<u8>>) -> bool {
        match pid {
            None => false,
            Some(p) => {
                let need: int = if self.versioned {
                    7
                } else {
                    3
                };
                if p.len() < need {
                    false
                } else {
                    let tag = spec_client_tag(p, self.versioned);
                    if self.blacklist_style {
                        !spec_in_list(self.list@, tag)
                    } else {
                        spec_in_list(self.list@, tag)
                    }
                }
            },
        }
    }

    pub fn new(blacklist_style: bool, versioned: bool, client_list: Vec<String>) -> (r:
        ClientApproval)
        ensures
            r.blacklist_style == blacklist_style,
            r.versioned == versioned,
            r.list@.len() == client_list@.len(),
            forall|i: int|
                0 <= i < r.list@.len() ==> (#[trigger] r.list@[i])@ == string_bytes(
                    client_list@[i]@,
                ),
    {
        ClientApproval { blacklist_style, versioned, list: list_to_bytes(client_list) }
    }

    /// Decides a raw announce query string: `Ok` lets the request reach
    /// the engine, `Err` turns it away as an unapproved client.
    pub fn check_query(&self, query: &str) -> (r: Result<(), ClientError>)
        ensures
            ({
                let pid = last_value(spec_query_pairs(query.spec_bytes()), key_peer_id());
                match r {
                    Ok(_) => self.spec_allows(pid),
                    Err(e) => e == ClientError::UnapprovedClient && !self.spec_allows(pid),
                }
            }),
    {
        let pairs = crate::query::parse_query(query.as_bytes());
        let k_peer_id: Vec<u8> = vec![112u8, 101u8, 101u8, 114u8, 95u8, 105u8, 100u8];
        proof {
            assert(k_peer_id@ =~= key_peer_id());
        }
        let pid = match crate::bittorrent::lookup_last(&pairs, &k_peer_id) {
            Some(v) => v,
            None => {
                return Err(ClientError::UnapprovedClient);
            },
        };
        let need: usize = if self.versioned {
            7
        } else {
            3
        };
        if pid.len() < need {
            return Err(ClientError::UnapprovedClient);
        }
        let tag = crate::ip::copy_range(pid.as_slice(), 1, need);
        proof {
            assert(tag@ =~= spec_client_tag(pid@, self.versioned));
        }
        let listed = in_list(&self.list, &tag);
        if self.blacklist_style {
            if listed {
                Err(ClientError::UnapprovedClient)
            } else {
                Ok(())
            }
        } else {
            if listed {
                Ok(())
            } else {
                Err(ClientError::UnapprovedClient)
            }
        }
    }
}

/// The torrent-approval gate: announces for a prohibited info-hash are
/// turned away before any engine runs.
pub struct TorrentApproval {
    pub prohibited_list: Vec<Vec<u8>>,
}

impl TorrentApproval {
    /// Whether a request carrying `ih` as its info-hash is prohibited;
    /// a missing parameter counts as the empty hash.
    pub open spec fn spec_rejects(self, ih: Option<Seq<u8>>) -> bool {
        let v = match ih {
            Some(x) => x,
            None => Seq::<u8>::empty(),
        };
        spec_in_list(self.prohibited_list@, v)
    }

    pub fn new(prohibited_list: Vec<String>) -> (r: TorrentApproval)
        ensures
            r.prohibited_list@.len() == prohibited_list@.len(),
            forall|i: int|
                0 <= i < r.prohibited_list@.len() ==> (#[trigger] r.prohibited_list@[i])@
                    == string_bytes(prohibited_list@[i]@),
    {
        TorrentApproval { prohibited_list: list_to_bytes(prohibited_list) }
    }

    /// Decides a raw announce query string: `Err` turns the request
    /// away as an unapproved torrent.
    pub fn check_query(&self, query: &str) -> (r: Result<(), ClientError>)
        ensures
            ({
                let ih = last_value(spec_query_pairs(query.spec_bytes()), key_info_hash());
                match r {
                    Ok(_) => !self.spec_rejects(ih),
                    Err(e) => e == ClientError::UnapprovedTorrent && self.spec_rejects(ih),
                }
            }),
    {
        let pairs = crate::query::parse_query(query.as_bytes());
        let k_info_hash: Vec<u8> = vec![105u8, 110u8, 102u8, 111u8, 95u8, 104u8, 97u8, 115u8, 104u8];
        proof {
            assert(k_info_hash@ =~= key_info_hash());
        }
        let ih = match crate::bittorrent::lookup_last(&pairs, &k_info_hash) {
            Some(v) => v,
            None => Vec::new(),
        };
        if in_list(&self.prohibited_list, &ih) {
            Err(ClientError::UnapprovedTorrent)
        } else {
            Ok(())
        }
    }
}

} // verus!
