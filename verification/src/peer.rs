use vstd::prelude::*;

verus! {

/// A peer on an IPv4 address. The address is carried as the 32-bit
/// big-endian integer value of the four octets, the announce time as
/// seconds on the tracker's monotonic clock.
#[derive(Clone, Debug)]
pub struct Peerv4 {
    pub peer_id: Vec<u8>,
    pub ip: u32,
    pub port: u16,
    pub last_announced: u64,
}

/// A peer on an IPv6 address, carried as the 128-bit integer value of
/// the sixteen octets.
#[derive(Clone, Debug)]
pub struct Peerv6 {
    pub peer_id: Vec<u8>,
    pub ip: u128,
    pub port: u16,
    pub last_announced: u64,
}

#[derive(Clone, Debug)]
pub enum Peer {
    V4(Peerv4),
    V6(Peerv6),
}

impl Peerv4 {
    /// Peer identity: everything but `last_announced`, so that a
    /// re-announce refreshes the stored record instead of adding a
    /// second one.
    pub open spec fn key(self) -> (bool, Seq<u8>, int, int) {
        (false, self.peer_id@, self.ip as int, self.port as int)
    }

    /// Six-byte compact form: four address octets then the two port
    /// octets, all big-endian.
    pub open spec fn spec_compact(self) -> Seq<u8> {
        spec_be4(self.ip) + spec_be2(self.port)
    }
}

impl Peerv6 {
    pub open spec fn key(self) -> (bool, Seq<u8>, int, int) {
        (true, self.peer_id@, self.ip as int, self.port as int)
    }

    /// Eighteen-byte compact form: sixteen address octets then the two
    /// port octets, all big-endian.
    pub open spec fn spec_compact(self) -> Seq<u8> {
        spec_be16(self.ip) + spec_be2(self.port)
    }
}

impl Peer {
    pub open spec fn key(self) -> (bool, Seq<u8>, int, int) {
        match self {
            Peer::V4(p) => p.key(),
            Peer::V6(p) => p.key(),
        }
    }

    pub open spec fn stamp(self) -> u64 {
        match self {
            Peer::V4(p) => p.last_announced,
            Peer::V6(p) => p.last_announced,
        }
    }

    pub open spec fn is_v4(self) -> bool {
        self is V4
    }

    pub open spec fn spec_compact(self) -> Seq<u8> {
        match self {
            Peer::V4(p) => p.spec_compact(),
            Peer::V6(p) => p.spec_compact(),
        }
    }
}

/// Seconds elapsed on a clock that reads `now` since the moment `stamp`;
/// a stamp in the future counts as zero, as a monotonic-clock reading does.
pub open spec fn spec_elapsed(stamp: u64, now: u64) -> int {
    if now >= stamp {
        now - stamp
    } else {
        0
    }
}

/// A peer is live at `now` if it announced less than `timeout` seconds ago.
pub open spec fn spec_live(p: Peer, now: u64, timeout: u64) -> bool {
    spec_elapsed(p.stamp(), now) < timeout
}

pub open spec fn spec_be2(x: u16) -> Seq<u8> {
    seq![((x >> 8) & 0xff) as u8, (x & 0xff) as u8]
}

pub open spec fn spec_be4(x: u32) -> Seq<u8> {
    seq![
        ((x >> 24) & 0xff) as u8,
        ((x >> 16) & 0xff) as u8,
        ((x >> 8) & 0xff) as u8,
        (x & 0xff) as u8,
    ]
}

pub open spec fn spec_be16(x: u128) -> Seq<u8> {
    seq![
        ((x >> 120) & 0xff) as u8,
        ((x >> 112) & 0xff) as u8,
        ((x >> 104) & 0xff) as u8,
        ((x >> 96) & 0xff) as u8,
        ((x >> 88) & 0xff) as u8,
        ((x >> 80) & 0xff) as u8,
        ((x >> 72) & 0xff) as u8,
        ((x >> 64) & 0xff) as u8,
        ((x >> 56) & 0xff) as u8,
        ((x >> 48) & 0xff) as u8,
        ((x >> 40) & 0xff) as u8,
        ((x >> 32) & 0xff) as u8,
        ((x >> 24) & 0xff) as u8,
        ((x >> 16) & 0xff) as u8,
        ((x >> 8) & 0xff) as u8,
        (x & 0xff) as u8,
    ]
}

pub fn be_bytes_u16(x: u16) -> (r: Vec<u8>)
    ensures
        r@ == spec_be2(x),
{
    proof {
        assert((x >> 8) & 0xff < 256 && x & 0xff < 256) by (bit_vector);
    }
    let mut r: Vec<u8> = Vec::new();
    r.push(((x >> 8) & 0xff) as u8);
    r.push((x & 0xff) as u8);
    proof {
        assert(r@ =~= spec_be2(x));
    }
    r
}

pub fn be_bytes_u32(x: u32) -> (r: Vec<u8>)
    ensures
        r@ == spec_be4(x),
{
    proof {
        assert((x >> 24) & 0xff < 256 && (x >> 16) & 0xff < 256 && (x >> 8) & 0xff < 256 && x
            & 0xff < 256) by (bit_vector);
    }
    let mut r: Vec<u8> = Vec::new();
    r.push(((x >> 24) & 0xff) as u8);
    r.push(((x >> 16) & 0xff) as u8);
    r.push(((x >> 8) & 0xff) as u8);
    r.push((x & 0xff) as u8);
    proof {
        assert(r@ =~= spec_be4(x));
    }
    r
}

pub fn be_bytes_u128(x: u128) -> (r: Vec<u8>)
    ensures
        r@ == spec_be16(x),
{
    proof {
        assert(forall|sh: u128| (#[trigger] (x >> sh)) & 0xff < 256) by (bit_vector);
    }
    let mut r: Vec<u8> = Vec::new();
    r.push(((x >> 120) & 0xff) as u8);
    r.push(((x >> 112) & 0xff) as u8);
    r.push(((x >> 104) & 0xff) as u8);
    r.push(((x >> 96) & 0xff) as u8);
    r.push(((x >> 88) & 0xff) as u8);
    r.push(((x >> 80) & 0xff) as u8);
    r.push(((x >> 72) & 0xff) as u8);
    r.push(((x >> 64) & 0xff) as u8);
    r.push(((x >> 56) & 0xff) as u8);
    r.push(((x >> 48) & 0xff) as u8);
    r.push(((x >> 40) & 0xff) as u8);
    r.push(((x >> 32) & 0xff) as u8);
    r.push(((x >> 24) & 0xff) as u8);
    r.push(((x >> 16) & 0xff) as u8);
    r.push(((x >> 8) & 0xff) as u8);
    r.push((x & 0xff) as u8);
    proof {
        assert(r@ =~= spec_be16(x));
    }
    r
}

/// Byte-for-byte equality of two byte vectors.
pub fn bytes_eq(a: &Vec<u8>, b: &Vec<u8>) -> (r: bool)
    ensures
        r == (a@ == b@),
{
    if a.len() != b.len() {
        proof {
            assert(a@ != b@);
        }
        return false;
    }
    let mut i: usize = 0;
    while i < a.len()
        invariant
            i <= a.len(),
            a.len() == b.len(),
            forall|j: int| 0 <= j < i ==> a@[j] == b@[j],
        decreases a.len() - i,
    {
        if a[i] != b[i] {
            return false;
        }
        i += 1;
    }
    proof {
        assert(a@ =~= b@);
    }
    true
}

/// A fresh byte vector with the same contents.
pub fn clone_bytes(v: &Vec<u8>) -> (r: Vec<u8>)
    ensures
        r@ == v@,
{
    let mut r: Vec<u8> = Vec::new();
    let mut i: usize = 0;
    while i < v.len()
        invariant
            i <= v@.len(),
            r@ == v@.take(i as int),
        decreases v@.len() - i,
    {
        r.push(v[i]);
        proof {
            assert(r@ =~= v@.take(i + 1 as int));
        }
        i += 1;
    }
    proof {
        assert(v@.take(v@.len() as int) =~= v@);
    }
    r
}

/// A fresh record of the same peer: identity and announce time carry over.
pub fn clone_peer(p: &Peer) -> (r: Peer)
    ensures
        r.key() == p.key(),
        r.stamp() == p.stamp(),
{
    match p {
        Peer::V4(q) => Peer::V4(
            Peerv4 {
                peer_id: clone_bytes(&q.peer_id),
                ip: q.ip,
                port: q.port,
                last_announced: q.last_announced,
            },
        ),
        Peer::V6(q) => Peer::V6(
            Peerv6 {
                peer_id: clone_bytes(&q.peer_id),
                ip: q.ip,
                port: q.port,
                last_announced: q.last_announced,
            },
        ),
    }
}

impl PartialEq for Peerv4 {
    fn eq(&self, other: &Peerv4) -> (r: bool) {
        let ids = bytes_eq(&self.peer_id, &other.peer_id);
        ids && self.ip == other.ip && self.port == other.port
    }
}

impl vstd::std_specs::cmp::PartialEqSpecImpl for Peerv4 {
    open spec fn obeys_eq_spec() -> bool {
        true
    }

    open spec fn eq_spec(&self, other: &Peerv4) -> bool {
        self.key() == other.key()
    }
}

impl PartialEq for Peerv6 {
    fn eq(&self, other: &Peerv6) -> (r: bool) {
        let ids = bytes_eq(&self.peer_id, &other.peer_id);
        ids && self.ip == other.ip && self.port == other.port
    }
}

impl vstd::std_specs::cmp::PartialEqSpecImpl for Peerv6 {
    open spec fn obeys_eq_spec() -> bool {
        true
    }

    open spec fn eq_spec(&self, other: &Peerv6) -> bool {
        self.key() == other.key()
    }
}

impl PartialEq for Peer {
    fn eq(&self, other: &Peer) -> (r: bool) {
        match (self, other) {
            (Peer::V4(a), Peer::V4(b)) => a == b,
            (Peer::V6(a), Peer::V6(b)) => a == b,
            _ => false,
        }
    }
}

impl vstd::std_specs::cmp::PartialEqSpecImpl for Peer {
    open spec fn obeys_eq_spec() -> bool {
        true
    }

    open spec fn eq_spec(&self, other: &Peer) -> bool {
        self.key() == other.key()
    }
}

impl Peerv4 {
    pub fn compact(&self) -> (r: Vec<u8>)
        ensures
            r@ == self.spec_compact(),
    {
        let mut r = be_bytes_u32(self.ip);
        let mut p = be_bytes_u16(self.port);
        r.append(&mut p);
        r
    }
}

impl Peerv6 {
    pub fn compact(&self) -> (r: Vec<u8>)
        ensures
            r@ == self.spec_compact(),
    {
        let mut r = be_bytes_u128(self.ip);
        let mut p = be_bytes_u16(self.port);
        r.append(&mut p);
        r
    }
}

impl Peer {
    pub fn compact(&self) -> (r: Vec<u8>)
        ensures
            r@ == self.spec_compact(),
    {
        match self {
            Peer::V4(p) => p.compact(),
            Peer::V6(p) => p.compact(),
        }
    }

    /// The stored announce time, for either address family.
    pub fn last_announced(&self) -> (r: u64)
        ensures
            r == self.stamp(),
    {
        match self {
            Peer::V4(p) => p.last_announced,
            Peer::V6(p) => p.last_announced,
        }
    }
}

} // verus!
