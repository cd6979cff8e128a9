use rand::seq::SliceRandom;
use vstd::prelude::*;

verus! {

use crate::peer::{clone_peer, spec_live, Peer};
use crate::util::slice_eq;

/// The identity of a peer: address family, peer id, address, port.
pub type PeerKey = (bool, Seq<u8>, int, int);

/// Whether some record in `s` carries the identity `k`.
pub open spec fn has_key(s: Seq<Peer>, k: PeerKey) -> bool {
    exists|i: int| 0 <= i < s.len() && (#[trigger] s[i]).key() == k
}

/// No two records in `s` share an identity; the vector then behaves as
/// a set keyed by peer identity.
pub open spec fn unique_keys(s: Seq<Peer>) -> bool {
    forall|i: int, j: int|
        0 <= i < j < s.len() ==> (#[trigger] s[i]).key() != (#[trigger] s[j]).key()
}

/// `new` is `old` with `p` put in: `p` is present, and any prior record
/// with `p`'s identity is gone, so a re-announce keeps the newer record.
pub open spec fn upserted(old: Seq<Peer>, new: Seq<Peer>, p: Peer) -> bool {
    forall|q: Peer| #[trigger] new.contains(q) <==> (q == p || (old.contains(q) && q.key() != p.key()))
}

/// `new` is `old` without whatever record carries the identity `k`.
pub open spec fn key_removed(old: Seq<Peer>, new: Seq<Peer>, k: PeerKey) -> bool {
    forall|q: Peer| #[trigger] new.contains(q) <==> (old.contains(q) && q.key() != k)
}

/// `new` is `old` with some record of identity `k` and announce time
/// `t` put in, whatever its byte buffers are.
pub open spec fn upserted_like(old: Seq<Peer>, new: Seq<Peer>, k: PeerKey, t: u64) -> bool {
    exists|p: Peer| p.key() == k && p.stamp() == t && upserted(old, new, p)
}

proof fn lemma_update_contains(s: Seq<Peer>, i: int, p: Peer)
    requires
        0 <= i < s.len(),
        unique_keys(s),
        s[i].key() == p.key(),
    ensures
        unique_keys(s.update(i, p)),
        upserted(s, s.update(i, p), p),
        has_key(s.update(i, p), p.key()),
{
    let t = s.update(i, p);
    assert(t[i] == p);
    assert forall|q: Peer| #[trigger] t.contains(q) implies (q == p || (s.contains(q) && q.key()
        != p.key())) by {
        let j = choose|j: int| 0 <= j < t.len() && t[j] == q;
        if j != i {
            assert(s[j] == q);
        }
    }
    assert forall|q: Peer| q == p || (s.contains(q) && q.key() != p.key()) implies #[trigger] t.contains(
        q,
    ) by {
        if q == p {
            assert(t[i] == q);
        } else {
            let j = choose|j: int| 0 <= j < s.len() && s[j] == q;
            assert(j != i);
            assert(t[j] == q);
        }
    }
}

proof fn lemma_push_contains(s: Seq<Peer>, p: Peer)
    requires
        unique_keys(s),
        !has_key(s, p.key()),
    ensures
        unique_keys(s.push(p)),
        upserted(s, s.push(p), p),
        has_key(s.push(p), p.key()),
{
    let t = s.push(p);
    assert(t[s.len() as int] == p);
    assert forall|q: Peer| #[trigger] t.contains(q) implies (q == p || (s.contains(q) && q.key()
        != p.key())) by {
        let j = choose|j: int| 0 <= j < t.len() && t[j] == q;
        if j < s.len() {
            assert(s[j] == q);
            assert(s.contains(q));
            assert(q.key() != p.key());
        }
    }
    assert forall|q: Peer| q == p || (s.contains(q) && q.key() != p.key()) implies #[trigger] t.contains(
        q,
    ) by {
        if q != p {
            let j = choose|j: int| 0 <= j < s.len() && s[j] == q;
            assert(t[j] == q);
        }
    }
}

proof fn lemma_remove_contains(s: Seq<Peer>, i: int)
    requires
        0 <= i < s.len(),
        unique_keys(s),
    ensures
        unique_keys(s.remove(i)),
        key_removed(s, s.remove(i), s[i].key()),
{
    let t = s.remove(i);
    s.remove_ensures(i);
    assert forall|q: Peer| #[trigger] t.contains(q) implies (s.contains(q) && q.key()
        != s[i].key()) by {
        let j = choose|j: int| 0 <= j < t.len() && t[j] == q;
        if j < i {
            assert(s[j] == q);
        } else {
            assert(s[j + 1] == q);
        }
    }
    assert forall|q: Peer| s.contains(q) && q.key() != s[i].key() implies #[trigger] t.contains(
        q,
    ) by {
        let j = choose|j: int| 0 <= j < s.len() && s[j] == q;
        if j < i {
            assert(t[j] == q);
        } else {
            assert(j != i);
            assert(t[j - 1] == q);
        }
    }
}

/// Position of the record with `p`'s identity, if one is stored.
fn find_key(s: &Vec<Peer>, p: &Peer) -> (r: Option<usize>)
    ensures
        match r {
            Some(i) => i < s@.len() && s@[i as int].key() == p.key(),
            None => !has_key(s@, p.key()),
        },
{
    let mut i: usize = 0;
    while i < s.len()
        invariant
            i <= s@.len(),
            forall|j: int| 0 <= j < i ==> (#[trigger] s@[j]).key() != p.key(),
        decreases s@.len() - i,
    {
        if &s[i] == p {
            return Some(i);
        }
        i += 1;
    }
    None
}

/// Puts `p` into the set: replaces the record with `p`'s identity if
/// one is there, otherwise appends.
fn upsert(s: &mut Vec<Peer>, p: Peer)
    requires
        unique_keys(old(s)@),
    ensures
        unique_keys(final(s)@),
        upserted(old(s)@, final(s)@, p),
        has_key(final(s)@, p.key()),
        final(s)@.len() == old(s)@.len() + (if has_key(old(s)@, p.key()) {
            0int
        } else {
            1int
        }),
{
    let found = find_key(s, &p);
    match found {
        Some(i) => {
            proof {
                lemma_update_contains(s@, i as int, p);
            }
            s[i] = p;
        },
        None => {
            proof {
                lemma_push_contains(s@, p);
            }
            s.push(p);
        },
    }
}

/// Drops the record with `p`'s identity, if one is stored.
fn remove_key(s: &mut Vec<Peer>, p: &Peer)
    requires
        unique_keys(old(s)@),
    ensures
        unique_keys(final(s)@),
        key_removed(old(s)@, final(s)@, p.key()),
        !has_key(final(s)@, p.key()),
        final(s)@.len() == old(s)@.len() - (if has_key(old(s)@, p.key()) {
            1int
        } else {
            0int
        }),
{
    let found = find_key(s, p);
    match found {
        Some(i) => {
            proof {
                lemma_remove_contains(s@, i as int);
            }
            s.remove(i);
            proof {
                assert forall|q: Peer| !(#[trigger] s@.contains(q) && q.key() == p.key()) by {
                    if s@.contains(q) && q.key() == p.key() {
                        assert(old(s)@.contains(q));
                    }
                }
            }
        },
        None => {
            proof {
                assert forall|q: Peer| #[trigger] old(s)@.contains(q) implies q.key() != p.key() by {
                    let j = choose|j: int| 0 <= j < old(s)@.len() && old(s)@[j] == q;
                }
            }
        },
    }
}

/// Appends `p` only when its identity is absent; an existing record is
/// kept as it is.
fn add_if_absent(s: &mut Vec<Peer>, p: Peer)
    requires
        unique_keys(old(s)@),
    ensures
        unique_keys(final(s)@),
        has_key(final(s)@, p.key()),
        if has_key(old(s)@, p.key()) {
            *final(s) == *old(s)
        } else {
            final(s)@ == old(s)@.push(p)
        },
{
    let found = find_key(s, &p);
    match found {
        Some(_) => {},
        None => {
            proof {
                lemma_push_contains(s@, p);
            }
            s.push(p);
        },
    }
}

/// The records of `s` that are still live at `now`, in order.
pub open spec fn filter_live(s: Seq<Peer>, now: u64, timeout: u64) -> Seq<Peer>
    decreases s.len(),
{
    if s.len() == 0 {
        Seq::empty()
    } else if spec_live(s[0], now, timeout) {
        seq![s[0]] + filter_live(s.skip(1), now, timeout)
    } else {
        filter_live(s.skip(1), now, timeout)
    }
}

/// Extending the input on the right extends the filtered output on the right.
proof fn lemma_filter_live_push(s: Seq<Peer>, p: Peer, now: u64, timeout: u64)
    ensures
        filter_live(s.push(p), now, timeout) == filter_live(s, now, timeout) + (if spec_live(
            p,
            now,
            timeout,
        ) {
            seq![p]
        } else {
            Seq::empty()
        }),
    decreases s.len(),
{
    let tail = if spec_live(p, now, timeout) {
        seq![p]
    } else {
        Seq::<Peer>::empty()
    };
    if s.len() == 0 {
        assert(s.push(p)[0] == p);
        assert(s.push(p).skip(1) =~= Seq::<Peer>::empty());
        assert(filter_live(Seq::<Peer>::empty(), now, timeout) =~= Seq::<Peer>::empty());
        assert(filter_live(s.push(p), now, timeout) =~= tail);
        assert(filter_live(s, now, timeout) + tail =~= tail);
    } else {
        assert(s.push(p).skip(1) =~= s.skip(1).push(p));
        lemma_filter_live_push(s.skip(1), p, now, timeout);
        assert(s.push(p)[0] == s[0]);
        if spec_live(s[0], now, timeout) {
            assert(filter_live(s.push(p), now, timeout) == seq![s[0]] + filter_live(
                s.skip(1).push(p),
                now,
                timeout,
            ));
            assert(seq![s[0]] + (filter_live(s.skip(1), now, timeout) + tail) =~= (seq![s[0]]
                + filter_live(s.skip(1), now, timeout)) + tail);
        }
    }
}

/// What survives the filter: exactly the live records, still unique.
pub proof fn lemma_filter_live_contains(s: Seq<Peer>, now: u64, timeout: u64)
    ensures
        forall|q: Peer| #[trigger]
            filter_live(s, now, timeout).contains(q) <==> (s.contains(q) && spec_live(
                q,
                now,
                timeout,
            )),
        unique_keys(s) ==> unique_keys(filter_live(s, now, timeout)),
        filter_live(s, now, timeout).len() <= s.len(),
    decreases s.len(),
{
    let f = filter_live(s, now, timeout);
    if s.len() == 0 {
        assert(forall|q: Peer| !(#[trigger] s.contains(q)));
        assert(forall|q: Peer| !(#[trigger] f.contains(q)));
    } else {
        lemma_filter_live_contains(s.skip(1), now, timeout);
        let f1 = filter_live(s.skip(1), now, timeout);
        assert forall|q: Peer| #[trigger] s.contains(q) <==> (q == s[0] || s.skip(1).contains(
            q,
        )) by {
            if s.contains(q) {
                let j = choose|j: int| 0 <= j < s.len() && s[j] == q;
                if j > 0 {
                    assert(s.skip(1)[j - 1] == q);
                }
            }
            if s.skip(1).contains(q) {
                let j = choose|j: int| 0 <= j < s.skip(1).len() && s.skip(1)[j] == q;
                assert(s[j + 1] == q);
            }
        }
        if spec_live(s[0], now, timeout) {
            assert(f == seq![s[0]] + f1);
            assert forall|q: Peer| #[trigger] f.contains(q) implies (q == s[0] || f1.contains(
                q,
            )) by {
                let j = choose|j: int| 0 <= j < f.len() && f[j] == q;
                if j > 0 {
                    assert(f1[j - 1] == q);
                }
            }
            assert forall|q: Peer| q == s[0] || f1.contains(q) implies #[trigger] f.contains(
                q,
            ) by {
                if q == s[0] {
                    assert(f[0] == q);
                } else {
                    let j = choose|j: int| 0 <= j < f1.len() && f1[j] == q;
                    assert(f[j + 1] == q);
                }
            }
        }
        if unique_keys(s) {
            assert forall|i: int, j: int| 0 <= i < j < s.skip(1).len() implies (
            #[trigger] s.skip(1)[i]).key() != (#[trigger] s.skip(1)[j]).key() by {
                assert(s.skip(1)[i] == s[i + 1] && s.skip(1)[j] == s[j + 1]);
            }
            if spec_live(s[0], now, timeout) {
                assert forall|i: int, j: int| 0 <= i < j < f.len() implies (
                #[trigger] f[i]).key() != (#[trigger] f[j]).key() by {
                    if i > 0 {
                        assert(f[i] == f1[i - 1] && f[j] == f1[j - 1]);
                    } else {
                        assert(f[0] == s[0]);
                        assert(f[j] == f1[j - 1]);
                        assert(f1.contains(f1[j - 1]));
                        assert(s.skip(1).contains(f[j]));
                        let m = choose|m: int|
                            0 <= m < s.skip(1).len() && s.skip(1)[m] == f[j];
                        assert(s[m + 1] == f[j]);
                    }
                }
            }
        }
    }
}

/// No identity occurs on both sides.
pub open spec fn keys_disjoint(a: Seq<Peer>, b: Seq<Peer>) -> bool {
    forall|i: int, j: int|
        0 <= i < a.len() && 0 <= j < b.len() ==> (#[trigger] a[i]).key() != (#[trigger] b[j]).key()
}

proof fn lemma_disjoint_contains(a: Seq<Peer>, b: Seq<Peer>)
    requires
        keys_disjoint(a, b),
    ensures
        forall|q1: Peer, q2: Peer|
            #[trigger] a.contains(q1) && #[trigger] b.contains(q2) ==> q1.key() != q2.key(),
{
    assert forall|q1: Peer, q2: Peer|
        #[trigger] a.contains(q1) && #[trigger] b.contains(q2) implies q1.key() != q2.key() by {
        let i = choose|i: int| 0 <= i < a.len() && a[i] == q1;
        let j = choose|j: int| 0 <= j < b.len() && b[j] == q2;
        assert(a[i].key() != b[j].key());
    }
}

proof fn lemma_disjoint_from_contains(a: Seq<Peer>, b: Seq<Peer>)
    requires
        forall|q1: Peer, q2: Peer|
            #[trigger] a.contains(q1) && #[trigger] b.contains(q2) ==> q1.key() != q2.key(),
    ensures
        keys_disjoint(a, b),
{
    assert forall|i: int, j: int|
        0 <= i < a.len() && 0 <= j < b.len() implies (#[trigger] a[i]).key() != (
    #[trigger] b[j]).key() by {
        assert(a.contains(a[i]) && b.contains(b[j]));
    }
}

/// Identity presence restated over record membership.
proof fn lemma_has_key_contains(s: Seq<Peer>, k: PeerKey)
    ensures
        has_key(s, k) <==> exists|q: Peer| #[trigger] s.contains(q) && q.key() == k,
{
    if has_key(s, k) {
        let i = choose|i: int| 0 <= i < s.len() && s[i].key() == k;
        assert(s.contains(s[i]));
    }
    if exists|q: Peer| #[trigger] s.contains(q) && q.key() == k {
        let q = choose|q: Peer| #[trigger] s.contains(q) && q.key() == k;
        let i = choose|i: int| 0 <= i < s.len() && s[i] == q;
        assert(s[i].key() == k);
    }
}

/// Drops every record that is no longer live, keeping order.
fn retain_live(s: &mut Vec<Peer>, now: u64, timeout: u64)
    ensures
        final(s)@ == filter_live(old(s)@, now, timeout),
{
    let ghost orig = s@;
    let orig_len = s.len();
    let mut i: usize = 0;
    proof {
        assert(orig.len() == orig_len);
        assert(orig.take(0) =~= Seq::<Peer>::empty());
        assert(orig.skip(0) =~= orig);
    }
    let mut jj: usize = 0;
    while i < s.len()
        invariant
            orig == old(s)@,
            orig.len() <= usize::MAX,
            jj <= orig.len(),
            i == filter_live(orig.take(jj as int), now, timeout).len(),
            s@ == filter_live(orig.take(jj as int), now, timeout) + orig.skip(jj as int),
        decreases orig.len() - jj,
    {
        proof {
            assert(jj < orig.len());
            assert(s@[i as int] == orig.skip(jj as int)[0]);
            assert(orig.skip(jj as int)[0] == orig[jj as int]);
            assert(orig.take(jj + 1 as int) =~= orig.take(jj as int).push(orig[jj as int]));
            lemma_filter_live_push(orig.take(jj as int), orig[jj as int], now, timeout);
        }
        let alive = now.saturating_sub(s[i].last_announced()) < timeout;
        if alive {
            i += 1;
            proof {
                assert(s@ =~= filter_live(orig.take(jj + 1 as int), now, timeout) + orig.skip(
                    jj + 1 as int,
                ));
            }
        } else {
            s.remove(i);
            proof {
                assert(s@ =~= filter_live(orig.take(jj + 1 as int), now, timeout) + orig.skip(
                    jj + 1 as int,
                ));
            }
        }
        jj += 1;
    }
    proof {
        assert(orig.take(jj as int) =~= orig);
        assert(orig.skip(jj as int) =~= Seq::<Peer>::empty());
        assert(s@ =~= filter_live(orig, now, timeout));
    }
}

/// The peers of one torrent, split into seeders and leechers. Each side
/// is a set keyed by peer identity, and no peer is on both sides.
#[derive(Debug)]
pub struct Swarm {
    pub seeders: Vec<Peer>,
    pub leechers: Vec<Peer>,
}

impl Swarm {
    /// The well-formedness that every operation preserves: each side is
    /// a set, and membership is exclusive.
    pub open spec fn wf(self) -> bool {
        &&& unique_keys(self.seeders@)
        &&& unique_keys(self.leechers@)
        &&& keys_disjoint(self.seeders@, self.leechers@)
    }

    pub fn new() -> (r: Swarm)
        ensures
            r.wf(),
            r.seeders@.len() == 0,
            r.leechers@.len() == 0,
    {
        Swarm { seeders: Vec::new(), leechers: Vec::new() }
    }

    /// Puts `peer` among the seeders, replacing any record with the
    /// same identity, and drops that identity from the leechers.
    pub fn add_seeder(&mut self, peer: Peer)
        requires
            old(self).wf(),
        ensures
            final(self).wf(),
            upserted(old(self).seeders@, final(self).seeders@, peer),
            key_removed(old(self).leechers@, final(self).leechers@, peer.key()),
            has_key(final(self).seeders@, peer.key()),
            !has_key(final(self).leechers@, peer.key()),
    {
        let ghost pk = peer.key();
        remove_key(&mut self.leechers, &peer);
        upsert(&mut self.seeders, peer);
        proof {
            lemma_disjoint_contains(old(self).seeders@, old(self).leechers@);
            assert forall|q1: Peer, q2: Peer|
                #[trigger] self.seeders@.contains(q1) && #[trigger] self.leechers@.contains(
                q2,
            ) implies q1.key() != q2.key() by {
                assert(old(self).leechers@.contains(q2) && q2.key() != pk);
            }
            lemma_disjoint_from_contains(self.seeders@, self.leechers@);
            lemma_has_key_contains(self.leechers@, pk);
        }
    }

    /// Symmetric to `add_seeder`, for the leechers.
    pub fn add_leecher(&mut self, peer: Peer)
        requires
            old(self).wf(),
        ensures
            final(self).wf(),
            upserted(old(self).leechers@, final(self).leechers@, peer),
            key_removed(old(self).seeders@, final(self).seeders@, peer.key()),
            has_key(final(self).leechers@, peer.key()),
            !has_key(final(self).seeders@, peer.key()),
    {
        let ghost pk = peer.key();
        remove_key(&mut self.seeders, &peer);
        upsert(&mut self.leechers, peer);
        proof {
            lemma_disjoint_contains(old(self).seeders@, old(self).leechers@);
            assert forall|q1: Peer, q2: Peer|
                #[trigger] self.seeders@.contains(q1) && #[trigger] self.leechers@.contains(
                q2,
            ) implies q1.key() != q2.key() by {
                assert(old(self).seeders@.contains(q1) && q1.key() != pk);
            }
            lemma_disjoint_from_contains(self.seeders@, self.leechers@);
            lemma_has_key_contains(self.seeders@, pk);
        }
    }

    /// Replaces the stored seeder record of `peer`'s identity, if there
    /// is one; a stranger to the seeders is left unregistered.
    pub fn update_seeder(&mut self, peer: Peer)
        requires
            old(self).wf(),
        ensures
            final(self).wf(),
            final(self).leechers == old(self).leechers,
            if has_key(old(self).seeders@, peer.key()) {
                upserted(old(self).seeders@, final(self).seeders@, peer)
            } else {
                final(self).seeders == old(self).seeders
            },
    {
        let found = find_key(&self.seeders, &peer);
        match found {
            Some(i) => {
                proof {
                    lemma_update_contains(self.seeders@, i as int, peer);
                }
                self.seeders[i] = peer;
                proof {
                    lemma_disjoint_contains(old(self).seeders@, old(self).leechers@);
                    assert forall|q1: Peer, q2: Peer|
                        #[trigger] self.seeders@.contains(q1)
                            && #[trigger] self.leechers@.contains(q2) implies q1.key()
                        != q2.key() by {
                        if q1 == peer {
                            assert(old(self).seeders@.contains(old(self).seeders@[i as int]));
                        }
                    }
                    lemma_disjoint_from_contains(self.seeders@, self.leechers@);
                }
            },
            None => {},
        }
    }

    /// Symmetric to `update_seeder`, for the leechers.
    pub fn update_leecher(&mut self, peer: Peer)
        requires
            old(self).wf(),
        ensures
            final(self).wf(),
            final(self).seeders == old(self).seeders,
            if has_key(old(self).leechers@, peer.key()) {
                upserted(old(self).leechers@, final(self).leechers@, peer)
            } else {
                final(self).leechers == old(self).leechers
            },
    {
        let found = find_key(&self.leechers, &peer);
        match found {
            Some(i) => {
                proof {
                    lemma_update_contains(self.leechers@, i as int, peer);
                }
                self.leechers[i] = peer;
                proof {
                    lemma_disjoint_contains(old(self).seeders@, old(self).leechers@);
                    assert forall|q1: Peer, q2: Peer|
                        #[trigger] self.seeders@.contains(q1)
                            && #[trigger] self.leechers@.contains(q2) implies q1.key()
                        != q2.key() by {
                        if q2 == peer {
                            assert(old(self).leechers@.contains(old(self).leechers@[i as int]));
                        }
                    }
                    lemma_disjoint_from_contains(self.seeders@, self.leechers@);
                }
            },
            None => {},
        }
    }

    /// Drops `peer`'s identity from the seeders; silent when absent.
    pub fn remove_seeder(&mut self, peer: Peer)
        requires
            old(self).wf(),
        ensures
            final(self).wf(),
            key_removed(old(self).seeders@, final(self).seeders@, peer.key()),
            !has_key(final(self).seeders@, peer.key()),
            final(self).leechers == old(self).leechers,
    {
        remove_key(&mut self.seeders, &peer);
        proof {
            lemma_disjoint_contains(old(self).seeders@, old(self).leechers@);
            lemma_disjoint_from_contains(self.seeders@, self.leechers@);
        }
    }

    /// Drops `peer`'s identity from the leechers; silent when absent.
    pub fn remove_leecher(&mut self, peer: Peer)
        requires
            old(self).wf(),
        ensures
            final(self).wf(),
            key_removed(old(self).leechers@, final(self).leechers@, peer.key()),
            !has_key(final(self).leechers@, peer.key()),
            final(self).seeders == old(self).seeders,
    {
        remove_key(&mut self.leechers, &peer);
        proof {
            lemma_disjoint_contains(old(self).seeders@, old(self).leechers@);
            lemma_disjoint_from_contains(self.seeders@, self.leechers@);
        }
    }

    /// Moves the stored leecher record of `peer`'s identity over to the
    /// seeders; a peer that was no leecher becomes a seeder anyway, and
    /// a peer that already seeds stays as it is.
    pub fn promote_leecher(&mut self, peer: Peer)
        requires
            old(self).wf(),
        ensures
            final(self).wf(),
            has_key(final(self).seeders@, peer.key()),
            !has_key(final(self).leechers@, peer.key()),
            key_removed(old(self).leechers@, final(self).leechers@, peer.key()),
            if has_key(old(self).leechers@, peer.key()) {
                exists|l: Peer|
                    old(self).leechers@.contains(l) && l.key() == peer.key() && upserted(
                        old(self).seeders@,
                        final(self).seeders@,
                        l,
                    )
            } else if has_key(old(self).seeders@, peer.key()) {
                final(self).seeders == old(self).seeders
            } else {
                final(self).seeders@ == old(self).seeders@.push(peer)
            },
    {
        let ghost pk = peer.key();
        let found = find_key(&self.leechers, &peer);
        match found {
            Some(i) => {
                proof {
                    lemma_remove_contains(self.leechers@, i as int);
                }
                let l = self.leechers.remove(i);
                proof {
                    assert(l == old(self).leechers@[i as int]);
                    assert(old(self).leechers@.contains(l));
                    assert(l.key() == pk);
                    lemma_disjoint_contains(old(self).seeders@, old(self).leechers@);
                    assert(!has_key(self.seeders@, pk)) by {
                        lemma_has_key_contains(self.seeders@, pk);
                    }
                    lemma_push_contains(self.seeders@, l);
                }
                self.seeders.push(l);
                proof {
                    assert forall|q1: Peer, q2: Peer|
                        #[trigger] self.seeders@.contains(q1)
                            && #[trigger] self.leechers@.contains(q2) implies q1.key()
                        != q2.key() by {
                        assert(old(self).leechers@.contains(q2) && q2.key() != pk);
                        if q1 != l {
                            assert(old(self).seeders@.contains(q1));
                        }
                    }
                    lemma_disjoint_from_contains(self.seeders@, self.leechers@);
                    lemma_has_key_contains(self.leechers@, pk);
                    lemma_has_key_contains(self.seeders@, pk);
                    assert(upserted(old(self).seeders@, self.seeders@, l));
                    assert(old(self).leechers@.contains(l) && l.key() == peer.key());
                    assert(has_key(old(self).leechers@, pk));
                    assert(exists|w: Peer|
                        old(self).leechers@.contains(w) && w.key() == peer.key() && upserted(
                            old(self).seeders@,
                            self.seeders@,
                            w,
                        ));
                }
            },
            None => {
                add_if_absent(&mut self.seeders, peer);
                proof {
                    lemma_disjoint_contains(old(self).seeders@, old(self).leechers@);
                    assert forall|q1: Peer, q2: Peer|
                        #[trigger] self.seeders@.contains(q1)
                            && #[trigger] self.leechers@.contains(q2) implies q1.key()
                        != q2.key() by {
                        if !old(self).seeders@.contains(q1) {
                            assert(self.seeders@ == old(self).seeders@.push(peer));
                            let j = choose|j: int|
                                0 <= j < self.seeders@.len() && self.seeders@[j] == q1;
                            if j < old(self).seeders@.len() {
                                assert(old(self).seeders@[j] == q1);
                            } else {
                                assert(q1 == peer);
                                lemma_has_key_contains(old(self).leechers@, pk);
                            }
                        }
                    }
                    lemma_disjoint_from_contains(self.seeders@, self.leechers@);
                    if !has_key(old(self).seeders@, pk) {
                        lemma_push_contains(old(self).seeders@, peer);
                    }
                }
            },
        }
    }

    /// Evicts every record older than `timeout` from both sides and
    /// reports how many seeders and leechers were dropped.
    pub fn reap(&mut self, now: u64, timeout: u64) -> (r: (usize, usize))
        requires
            old(self).wf(),
        ensures
            final(self).wf(),
            final(self).seeders@ == filter_live(old(self).seeders@, now, timeout),
            final(self).leechers@ == filter_live(old(self).leechers@, now, timeout),
            r.0 == old(self).seeders@.len() - final(self).seeders@.len(),
            r.1 == old(self).leechers@.len() - final(self).leechers@.len(),
    {
        proof {
            lemma_filter_live_contains(old(self).seeders@, now, timeout);
            lemma_filter_live_contains(old(self).leechers@, now, timeout);
        }
        let s1 = self.seeders.len();
        let l1 = self.leechers.len();
        retain_live(&mut self.seeders, now, timeout);
        retain_live(&mut self.leechers, now, timeout);
        proof {
            lemma_disjoint_contains(old(self).seeders@, old(self).leechers@);
            lemma_disjoint_from_contains(self.seeders@, self.leechers@);
        }
        (s1 - self.seeders.len(), l1 - self.leechers.len())
    }
}

/// Membership in a well-formed swarm is exclusive: no identity is both
/// a seeder and a leecher.
pub proof fn lemma_swarm_exclusive(sw: Swarm, k: PeerKey)
    requires
        sw.wf(),
    ensures
        !(has_key(sw.seeders@, k) && has_key(sw.leechers@, k)),
{
    if has_key(sw.seeders@, k) && has_key(sw.leechers@, k) {
        lemma_has_key_contains(sw.seeders@, k);
        lemma_has_key_contains(sw.leechers@, k);
        let q1 = choose|q: Peer| sw.seeders@.contains(q) && q.key() == k;
        let q2 = choose|q: Peer| sw.leechers@.contains(q) && q.key() == k;
        lemma_disjoint_contains(sw.seeders@, sw.leechers@);
        assert(q1.key() != q2.key());
    }
}

/// Putting a record in replaces any prior record of its identity: the
/// set keeps exactly one record under that identity, the one inserted
/// later, so a re-announce carries the newer announce time.
pub proof fn lemma_upsert_replaces(old: Seq<Peer>, new: Seq<Peer>, p: Peer)
    requires
        upserted(old, new, p),
    ensures
        new.contains(p),
        forall|q: Peer| #[trigger] new.contains(q) && q.key() == p.key() ==> q == p,
{
    assert(new.contains(p));
}

/// Whether an entry for the info-hash `h` exists.
pub open spec fn entries_has(s: Seq<(Vec<u8>, Swarm)>, h: Seq<u8>) -> bool {
    exists|i: int| 0 <= i < s.len() && (#[trigger] s[i]).0@ == h
}

/// The index of the entry for `h`; meaningful only under `entries_wf`.
pub open spec fn entry_idx(s: Seq<(Vec<u8>, Swarm)>, h: Seq<u8>) -> int {
    choose|i: int| 0 <= i < s.len() && (#[trigger] s[i]).0@ == h
}

/// The seeders stored for `h`; an unknown hash has none.
pub open spec fn seeders_at(s: Seq<(Vec<u8>, Swarm)>, h: Seq<u8>) -> Seq<Peer> {
    if entries_has(s, h) {
        s[entry_idx(s, h)].1.seeders@
    } else {
        Seq::empty()
    }
}

/// The leechers stored for `h`; an unknown hash has none.
pub open spec fn leechers_at(s: Seq<(Vec<u8>, Swarm)>, h: Seq<u8>) -> Seq<Peer> {
    if entries_has(s, h) {
        s[entry_idx(s, h)].1.leechers@
    } else {
        Seq::empty()
    }
}

/// Each info-hash appears once, and each swarm is well-formed.
pub open spec fn entries_wf(s: Seq<(Vec<u8>, Swarm)>) -> bool {
    &&& forall|i: int, j: int| 0 <= i < j < s.len() ==> (#[trigger] s[i]).0@ != (#[trigger] s[j]).0@
    &&& forall|i: int| 0 <= i < s.len() ==> (#[trigger] s[i]).1.wf()
}

/// Under uniqueness, the entry index of a stored hash is its witness.
proof fn lemma_entry_idx(s: Seq<(Vec<u8>, Swarm)>, h: Seq<u8>, i: int)
    requires
        entries_wf(s),
        0 <= i < s.len(),
        s[i].0@ == h,
    ensures
        entries_has(s, h),
        entry_idx(s, h) == i,
{
    assert(entries_has(s, h));
    let j = entry_idx(s, h);
    assert(0 <= j < s.len() && s[j].0@ == h);
    if i != j {
        assert(s[i].0@ != s[j].0@);
    }
}

/// Replacing one entry's swarm, hash kept, preserves the directory's
/// shape: every other hash keeps its swarm.
proof fn lemma_entries_update(olds: Seq<(Vec<u8>, Swarm)>, news: Seq<(Vec<u8>, Swarm)>, i: int)
    requires
        entries_wf(olds),
        0 <= i < olds.len(),
        news == olds.update(i, news[i]),
        news[i].0@ == olds[i].0@,
        news[i].1.wf(),
    ensures
        entries_wf(news),
        forall|g: Seq<u8>| entries_has(news, g) <==> entries_has(olds, g),
        forall|g: Seq<u8>|
            g != olds[i].0@ ==> #[trigger] seeders_at(news, g) == seeders_at(olds, g)
                && leechers_at(news, g) == leechers_at(olds, g),
        seeders_at(news, olds[i].0@) == news[i].1.seeders@,
        leechers_at(news, olds[i].0@) == news[i].1.leechers@,
{
    assert(news.len() == olds.len());
    assert(forall|j: int| 0 <= j < news.len() ==> (#[trigger] news[j]).0@ == olds[j].0@);
    assert forall|g: Seq<u8>| entries_has(news, g) <==> entries_has(olds, g) by {
        if entries_has(news, g) {
            let j = choose|j: int| 0 <= j < news.len() && news[j].0@ == g;
            assert(olds[j].0@ == g);
        }
        if entries_has(olds, g) {
            let j = choose|j: int| 0 <= j < olds.len() && olds[j].0@ == g;
            assert(news[j].0@ == g);
        }
    }
    lemma_entry_idx(news, olds[i].0@, i);
    assert forall|g: Seq<u8>| g != olds[i].0@ implies #[trigger] seeders_at(news, g) == seeders_at(
        olds,
        g,
    ) && leechers_at(news, g) == leechers_at(olds, g) by {
        if entries_has(olds, g) {
            let j = choose|j: int| 0 <= j < olds.len() && olds[j].0@ == g;
            lemma_entry_idx(olds, g, j);
            lemma_entry_idx(news, g, j);
            assert(j != i);
            assert(news[j] == olds[j]);
        }
    }
}

/// Appending an entry for a fresh hash leaves every stored hash as it was.
proof fn lemma_entries_push(olds: Seq<(Vec<u8>, Swarm)>, e: (Vec<u8>, Swarm))
    requires
        entries_wf(olds),
        !entries_has(olds, e.0@),
        e.1.wf(),
    ensures
        entries_wf(olds.push(e)),
        forall|g: Seq<u8>|
            entries_has(olds.push(e), g) <==> (entries_has(olds, g) || g == e.0@),
        forall|g: Seq<u8>|
            g != e.0@ ==> #[trigger] seeders_at(olds.push(e), g) == seeders_at(olds, g)
                && leechers_at(olds.push(e), g) == leechers_at(olds, g),
        seeders_at(olds.push(e), e.0@) == e.1.seeders@,
        leechers_at(olds.push(e), e.0@) == e.1.leechers@,
{
    let news = olds.push(e);
    assert(news[olds.len() as int] == e);
    assert(forall|j: int| 0 <= j < olds.len() ==> (#[trigger] news[j]) == olds[j]);
    assert forall|i: int, j: int| 0 <= i < j < news.len() implies (#[trigger] news[i]).0@ != (
    #[trigger] news[j]).0@ by {
        if j == olds.len() {
            assert(news[i] == olds[i]);
        }
    }
    assert forall|g: Seq<u8>| entries_has(news, g) <==> (entries_has(olds, g) || g == e.0@) by {
        if entries_has(news, g) {
            let j = choose|j: int| 0 <= j < news.len() && news[j].0@ == g;
            if j < olds.len() {
                assert(olds[j].0@ == g);
            }
        }
        if entries_has(olds, g) {
            let j = choose|j: int| 0 <= j < olds.len() && olds[j].0@ == g;
            assert(news[j].0@ == g);
        }
    }
    lemma_entry_idx(news, e.0@, olds.len() as int);
    assert forall|g: Seq<u8>| g != e.0@ implies #[trigger] seeders_at(news, g) == seeders_at(
        olds,
        g,
    ) && leechers_at(news, g) == leechers_at(olds, g) by {
        if entries_has(olds, g) {
            let j = choose|j: int| 0 <= j < olds.len() && olds[j].0@ == g;
            lemma_entry_idx(olds, g, j);
            lemma_entry_idx(news, g, j);
        }
    }
}

/// The swarm directory: info-hash to swarm, each hash stored once.
#[derive(Debug)]
pub struct PeerStore {
    pub records: Vec<(Vec<u8>, Swarm)>,
}

impl PeerStore {
    pub open spec fn wf(self) -> bool {
        entries_wf(self.records@)
    }

    pub open spec fn has_swarm(self, h: Seq<u8>) -> bool {
        entries_has(self.records@, h)
    }

    /// The seeders known for `h`; none when the hash is unknown.
    pub open spec fn seeders_of(self, h: Seq<u8>) -> Seq<Peer> {
        seeders_at(self.records@, h)
    }

    /// The leechers known for `h`; none when the hash is unknown.
    pub open spec fn leechers_of(self, h: Seq<u8>) -> Seq<Peer> {
        leechers_at(self.records@, h)
    }

    pub fn new() -> (r: Result<PeerStore, &'static str>)
        ensures
            r matches Ok(s) && s.wf() && s.records@.len() == 0,
    {
        Ok(PeerStore { records: Vec::new() })
    }

    /// Position of the entry for `h`, if the hash is known.
    fn find_swarm(&self, h: &Vec<u8>) -> (r: Option<usize>)
        ensures
            match r {
                Some(i) => i < self.records@.len() && self.records@[i as int].0@ == h@,
                None => !self.has_swarm(h@),
            },
    {
        let mut i: usize = 0;
        while i < self.records.len()
            invariant
                i <= self.records@.len(),
                forall|j: int| 0 <= j < i ==> (#[trigger] self.records@[j]).0@ != h@,
            decreases self.records@.len() - i,
        {
            if slice_eq(self.records[i].0.as_slice(), h.as_slice()) {
                return Some(i);
            }
            i += 1;
        }
        None
    }

    /// Registers `peer` as a seeder of `h`, creating the swarm when the
    /// hash is new.
    pub fn put_seeder(&mut self, info_hash: Vec<u8>, peer: Peer)
        requires
            old(self).wf(),
        ensures
            final(self).wf(),
            forall|g: Seq<u8>|
                final(self).has_swarm(g) <==> (old(self).has_swarm(g) || g == info_hash@),
            forall|g: Seq<u8>|
                g != info_hash@ ==> #[trigger] final(self).seeders_of(g) == old(self).seeders_of(g)
                    && final(self).leechers_of(g) == old(self).leechers_of(g),
            upserted(old(self).seeders_of(info_hash@), final(self).seeders_of(info_hash@), peer),
            key_removed(
                old(self).leechers_of(info_hash@),
                final(self).leechers_of(info_hash@),
                peer.key(),
            ),
    {
        let found = self.find_swarm(&info_hash);
        match found {
            Some(i) => {
                proof {
                    lemma_entry_idx(self.records@, info_hash@, i as int);
                }
                let mut entry = self.records.remove(i);
                entry.1.add_seeder(peer);
                self.records.insert(i, entry);
                proof {
                    assert(self.records@ =~= old(self).records@.update(
                        i as int,
                        self.records@[i as int],
                    ));
                    lemma_entries_update(old(self).records@, self.records@, i as int);
                }
            },
            None => {
                let mut sw = Swarm::new();
                sw.add_seeder(peer);
                self.records.push((info_hash, sw));
                proof {
                    let e = self.records@[self.records@.len() - 1];
                    assert(self.records@ == old(self).records@.push(e));
                    lemma_entries_push(old(self).records@, e);
                    assert(old(self).seeders_of(e.0@) =~= Seq::<Peer>::empty());
                    assert(old(self).leechers_of(e.0@) =~= Seq::<Peer>::empty());
                }
            },
        }
    }

    /// Registers `peer` as a leecher of `h`, creating the swarm when
    /// the hash is new.
    pub fn put_leecher(&mut self, info_hash: Vec<u8>, peer: Peer)
        requires
            old(self).wf(),
        ensures
            final(self).wf(),
            forall|g: Seq<u8>|
                final(self).has_swarm(g) <==> (old(self).has_swarm(g) || g == info_hash@),
            forall|g: Seq<u8>|
                g != info_hash@ ==> #[trigger] final(self).seeders_of(g) == old(self).seeders_of(g)
                    && final(self).leechers_of(g) == old(self).leechers_of(g),
            upserted(old(self).leechers_of(info_hash@), final(self).leechers_of(info_hash@), peer),
            key_removed(
                old(self).seeders_of(info_hash@),
                final(self).seeders_of(info_hash@),
                peer.key(),
            ),
    {
        let found = self.find_swarm(&info_hash);
        match found {
            Some(i) => {
                proof {
                    lemma_entry_idx(self.records@, info_hash@, i as int);
                }
                let mut entry = self.records.remove(i);
                entry.1.add_leecher(peer);
                self.records.insert(i, entry);
                proof {
                    assert(self.records@ =~= old(self).records@.update(
                        i as int,
                        self.records@[i as int],
                    ));
                    lemma_entries_update(old(self).records@, self.records@, i as int);
                }
            },
            None => {
                let mut sw = Swarm::new();
                sw.add_leecher(peer);
                self.records.push((info_hash, sw));
                proof {
                    let e = self.records@[self.records@.len() - 1];
                    assert(self.records@ == old(self).records@.push(e));
                    lemma_entries_push(old(self).records@, e);
                    assert(old(self).seeders_of(e.0@) =~= Seq::<Peer>::empty());
                    assert(old(self).leechers_of(e.0@) =~= Seq::<Peer>::empty());
                }
            },
        }
    }

    /// Drops `peer`'s identity from the seeders of `h`; silent when the
    /// hash or the record is unknown.
    pub fn remove_seeder(&mut self, info_hash: Vec<u8>, peer: Peer)
        requires
            old(self).wf(),
        ensures
            final(self).wf(),
            forall|g: Seq<u8>| final(self).has_swarm(g) <==> old(self).has_swarm(g),
            forall|g: Seq<u8>|
                g != info_hash@ ==> #[trigger] final(self).seeders_of(g) == old(self).seeders_of(g)
                    && final(self).leechers_of(g) == old(self).leechers_of(g),
            key_removed(
                old(self).seeders_of(info_hash@),
                final(self).seeders_of(info_hash@),
                peer.key(),
            ),
            final(self).leechers_of(info_hash@) == old(self).leechers_of(info_hash@),
    {
        let found = self.find_swarm(&info_hash);
        match found {
            Some(i) => {
                proof {
                    lemma_entry_idx(self.records@, info_hash@, i as int);
                }
                let mut entry = self.records.remove(i);
                entry.1.remove_seeder(peer);
                self.records.insert(i, entry);
                proof {
                    assert(self.records@ =~= old(self).records@.update(
                        i as int,
                        self.records@[i as int],
                    ));
                    lemma_entries_update(old(self).records@, self.records@, i as int);
                }
            },
            None => {},
        }
    }

    /// Drops `peer`'s identity from the leechers of `h`; silent when
    /// the hash or the record is unknown.
    pub fn remove_leecher(&mut self, info_hash: Vec<u8>, peer: Peer)
        requires
            old(self).wf(),
        ensures
            final(self).wf(),
            forall|g: Seq<u8>| final(self).has_swarm(g) <==> old(self).has_swarm(g),
            forall|g: Seq<u8>|
                g != info_hash@ ==> #[trigger] final(self).seeders_of(g) == old(self).seeders_of(g)
                    && final(self).leechers_of(g) == old(self).leechers_of(g),
            key_removed(
                old(self).leechers_of(info_hash@),
                final(self).leechers_of(info_hash@),
                peer.key(),
            ),
            final(self).seeders_of(info_hash@) == old(self).seeders_of(info_hash@),
    {
        let found = self.find_swarm(&info_hash);
        match found {
            Some(i) => {
                proof {
                    lemma_entry_idx(self.records@, info_hash@, i as int);
                }
                let mut entry = self.records.remove(i);
                entry.1.remove_leecher(peer);
                self.records.insert(i, entry);
                proof {
                    assert(self.records@ =~= old(self).records@.update(
                        i as int,
                        self.records@[i as int],
                    ));
                    lemma_entries_update(old(self).records@, self.records@, i as int);
                }
            },
            None => {},
        }
    }

    /// Promotes `peer` within the swarm of `h`: out of the leechers,
    /// into the seeders. An unknown hash stays unknown.
    pub fn promote_leecher(&mut self, info_hash: Vec<u8>, peer: Peer)
        requires
            old(self).wf(),
        ensures
            final(self).wf(),
            forall|g: Seq<u8>| final(self).has_swarm(g) <==> old(self).has_swarm(g),
            forall|g: Seq<u8>|
                g != info_hash@ ==> #[trigger] final(self).seeders_of(g) == old(self).seeders_of(g)
                    && final(self).leechers_of(g) == old(self).leechers_of(g),
            key_removed(
                old(self).leechers_of(info_hash@),
                final(self).leechers_of(info_hash@),
                peer.key(),
            ),
            old(self).has_swarm(info_hash@) ==> has_key(
                final(self).seeders_of(info_hash@),
                peer.key(),
            ),
            if has_key(old(self).leechers_of(info_hash@), peer.key()) {
                exists|l: Peer|
                    old(self).leechers_of(info_hash@).contains(l) && l.key() == peer.key()
                        && upserted(
                        old(self).seeders_of(info_hash@),
                        final(self).seeders_of(info_hash@),
                        l,
                    )
            } else if !old(self).has_swarm(info_hash@) || has_key(
                old(self).seeders_of(info_hash@),
                peer.key(),
            ) {
                final(self).seeders_of(info_hash@) == old(self).seeders_of(info_hash@)
            } else {
                final(self).seeders_of(info_hash@) == old(self).seeders_of(info_hash@).push(peer)
            },
    {
        let found = self.find_swarm(&info_hash);
        match found {
            Some(i) => {
                proof {
                    lemma_entry_idx(self.records@, info_hash@, i as int);
                }
                let mut entry = self.records.remove(i);
                entry.1.promote_leecher(peer);
                self.records.insert(i, entry);
                proof {
                    assert(self.records@ =~= old(self).records@.update(
                        i as int,
                        self.records@[i as int],
                    ));
                    lemma_entries_update(old(self).records@, self.records@, i as int);
                    lemma_has_key_contains(self.records@[i as int].1.seeders@, peer.key());
                }
            },
            None => {},
        }
    }

    /// Refreshes the stored record of `peer`'s identity in the swarm of
    /// `h`, wherever it sits; a forgotten peer is not re-registered.
    pub fn update_peer(&mut self, info_hash: Vec<u8>, peer: Peer)
        requires
            old(self).wf(),
        ensures
            final(self).wf(),
            forall|g: Seq<u8>| final(self).has_swarm(g) <==> old(self).has_swarm(g),
            forall|g: Seq<u8>|
                g != info_hash@ ==> #[trigger] final(self).seeders_of(g) == old(self).seeders_of(g)
                    && final(self).leechers_of(g) == old(self).leechers_of(g),
            if has_key(old(self).seeders_of(info_hash@), peer.key()) {
                upserted(old(self).seeders_of(info_hash@), final(self).seeders_of(info_hash@), peer)
            } else {
                final(self).seeders_of(info_hash@) == old(self).seeders_of(info_hash@)
            },
            if has_key(old(self).leechers_of(info_hash@), peer.key()) {
                upserted(
                    old(self).leechers_of(info_hash@),
                    final(self).leechers_of(info_hash@),
                    peer,
                )
            } else {
                final(self).leechers_of(info_hash@) == old(self).leechers_of(info_hash@)
            },
    {
        let found = self.find_swarm(&info_hash);
        match found {
            Some(i) => {
                proof {
                    lemma_entry_idx(self.records@, info_hash@, i as int);
                }
                let mut entry = self.records.remove(i);
                proof {
                    lemma_swarm_exclusive(old(self).records@[i as int].1, peer.key());
                }
                let seeding = find_key(&entry.1.seeders, &peer);
                match seeding {
                    Some(_) => entry.1.update_seeder(peer),
                    None => entry.1.update_leecher(peer),
                }
                self.records.insert(i, entry);
                proof {
                    assert(self.records@ =~= old(self).records@.update(
                        i as int,
                        self.records@[i as int],
                    ));
                    lemma_entries_update(old(self).records@, self.records@, i as int);
                }
            },
            None => {},
        }
    }

    /// Evicts every peer that announced `timeout` or more seconds before
    /// `now`, over every swarm, and reports exactly how many seeder and
    /// leecher records were dropped (saturating only past `u64::MAX`).
    pub fn reap(&mut self, now: u64, timeout: u64) -> (r: (u64, u64))
        requires
            old(self).wf(),
        ensures
            final(self).wf(),
            final(self).records@.len() == old(self).records@.len(),
            forall|j: int|
                0 <= j < old(self).records@.len() ==> {
                    let oldrec = old(self).records@[j];
                    let newrec = #[trigger] final(self).records@[j];
                    &&& newrec.0@ == oldrec.0@
                    &&& newrec.1.seeders@ == filter_live(oldrec.1.seeders@, now, timeout)
                    &&& newrec.1.leechers@ == filter_live(oldrec.1.leechers@, now, timeout)
                },
            ({
                let total = reaped_seeders(old(self).records@, now, timeout);
                r.0 == if total <= u64::MAX {
                    total
                } else {
                    u64::MAX as int
                }
            }),
            ({
                let total = reaped_leechers(old(self).records@, now, timeout);
                r.1 == if total <= u64::MAX {
                    total
                } else {
                    u64::MAX as int
                }
            }),
    {
        let mut i: usize = 0;
        let n = self.records.len();
        let mut seeds: u64 = 0;
        let mut leeches: u64 = 0;
        proof {
            assert(old(self).records@.take(0) =~= Seq::<(Vec<u8>, Swarm)>::empty());
        }
        while i < n
            invariant
                n == self.records@.len(),
                n == old(self).records@.len(),
                i <= n,
                entries_wf(self.records@),
                seeds == ({
                    let total = reaped_seeders(old(self).records@.take(i as int), now, timeout);
                    if total <= u64::MAX {
                        total
                    } else {
                        u64::MAX as int
                    }
                }),
                leeches == ({
                    let total = reaped_leechers(old(self).records@.take(i as int), now, timeout);
                    if total <= u64::MAX {
                        total
                    } else {
                        u64::MAX as int
                    }
                }),
                forall|j: int|
                    0 <= j < n ==> (#[trigger] self.records@[j]).0@ == old(self).records@[j].0@,
                forall|j: int|
                    i <= j < n ==> (#[trigger] self.records@[j]) == old(self).records@[j],
                forall|j: int|
                    0 <= j < i ==> (#[trigger] self.records@[j]).1.seeders@ == filter_live(
                        old(self).records@[j].1.seeders@,
                        now,
                        timeout,
                    ) && self.records@[j].1.leechers@ == filter_live(
                        old(self).records@[j].1.leechers@,
                        now,
                        timeout,
                    ),
            decreases n - i,
        {
            let ghost before = self.records@;
            let mut entry = self.records.remove(i);
            proof {
                assert(entry == old(self).records@[i as int]);
            }
            let counts = entry.1.reap(now, timeout);
            self.records.insert(i, entry);
            seeds = seeds.saturating_add(counts.0 as u64);
            leeches = leeches.saturating_add(counts.1 as u64);
            proof {
                assert(self.records@ =~= before.update(i as int, self.records@[i as int]));
                lemma_entries_update(before, self.records@, i as int);
                let pre = old(self).records@.take(i as int);
                let post = old(self).records@.take(i + 1 as int);
                assert(post.drop_last() =~= pre);
                assert(post.last() == old(self).records@[i as int]);
                lemma_reaped_nonneg(pre, now, timeout);
                lemma_filter_live_contains(
                    old(self).records@[i as int].1.seeders@,
                    now,
                    timeout,
                );
                lemma_filter_live_contains(
                    old(self).records@[i as int].1.leechers@,
                    now,
                    timeout,
                );
                assert(counts.0 == old(self).records@[i as int].1.seeders@.len() - filter_live(
                    old(self).records@[i as int].1.seeders@,
                    now,
                    timeout,
                ).len());
                assert(counts.1 == old(self).records@[i as int].1.leechers@.len() - filter_live(
                    old(self).records@[i as int].1.leechers@,
                    now,
                    timeout,
                ).len());
                assert(reaped_seeders(post, now, timeout) == reaped_seeders(pre, now, timeout)
                    + counts.0);
                assert(reaped_leechers(post, now, timeout) == reaped_leechers(pre, now, timeout)
                    + counts.1);
            }
            i += 1;
        }
        proof {
            assert(old(self).records@.take(n as int) =~= old(self).records@);
        }
        (seeds, leeches)
    }
}

/// How many seeder records a reap at `now` with `timeout` drops over
/// the given directory entries.
pub open spec fn reaped_seeders(olds: Seq<(Vec<u8>, Swarm)>, now: u64, timeout: u64) -> int
    decreases olds.len(),
{
    if olds.len() == 0 {
        0
    } else {
        reaped_seeders(olds.drop_last(), now, timeout) + olds.last().1.seeders@.len()
            - filter_live(olds.last().1.seeders@, now, timeout).len()
    }
}

/// How many leecher records a reap at `now` with `timeout` drops over
/// the given directory entries.
pub open spec fn reaped_leechers(olds: Seq<(Vec<u8>, Swarm)>, now: u64, timeout: u64) -> int
    decreases olds.len(),
{
    if olds.len() == 0 {
        0
    } else {
        reaped_leechers(olds.drop_last(), now, timeout) + olds.last().1.leechers@.len()
            - filter_live(olds.last().1.leechers@, now, timeout).len()
    }
}

/// A reap never drops a negative number of records.
proof fn lemma_reaped_nonneg(olds: Seq<(Vec<u8>, Swarm)>, now: u64, timeout: u64)
    ensures
        reaped_seeders(olds, now, timeout) >= 0,
        reaped_leechers(olds, now, timeout) >= 0,
    decreases olds.len(),
{
    if olds.len() > 0 {
        lemma_reaped_nonneg(olds.drop_last(), now, timeout);
        lemma_filter_live_contains(olds.last().1.seeders@, now, timeout);
        lemma_filter_live_contains(olds.last().1.leechers@, now, timeout);
    }
}

/// Membership in a well-formed directory is exclusive for every swarm:
/// an identity is a seeder of `h`, or a leecher of `h`, or absent.
pub proof fn lemma_store_exclusive(s: PeerStore, h: Seq<u8>, k: PeerKey)
    requires
        s.wf(),
    ensures
        !(has_key(s.seeders_of(h), k) && has_key(s.leechers_of(h), k)),
{
    if s.has_swarm(h) {
        let i = entry_idx(s.records@, h);
        assert(s.records@[i].1.wf());
        lemma_swarm_exclusive(s.records@[i].1, k);
    }
}

/// `put_leecher(h, P)` followed by `promote_leecher(h, P)` leaves `P`
/// among the seeders of `h` and not among its leechers. The two middle
/// clauses are what the two calls ensure of the states they produce.
pub proof fn lemma_put_leecher_then_promote(
    s0: PeerStore,
    s1: PeerStore,
    s2: PeerStore,
    h: Seq<u8>,
    p: Peer,
)
    requires
        forall|g: Seq<u8>| #[trigger] s1.has_swarm(g) <==> (s0.has_swarm(g) || g == h),
        upserted(s0.leechers_of(h), s1.leechers_of(h), p),
        key_removed(s1.leechers_of(h), s2.leechers_of(h), p.key()),
        s1.has_swarm(h) ==> has_key(s2.seeders_of(h), p.key()),
    ensures
        has_key(s2.seeders_of(h), p.key()),
        !has_key(s2.leechers_of(h), p.key()),
{
    assert(s1.has_swarm(h));
    lemma_has_key_contains(s2.leechers_of(h), p.key());
}

/// `remove_seeder(h, P)` followed by `remove_leecher(h, P)` leaves `P`
/// outside the swarm of `h`, whatever its membership was before.
pub proof fn lemma_remove_both(
    s0: PeerStore,
    s1: PeerStore,
    s2: PeerStore,
    h: Seq<u8>,
    k: PeerKey,
)
    requires
        key_removed(s0.seeders_of(h), s1.seeders_of(h), k),
        s1.leechers_of(h) == s0.leechers_of(h),
        key_removed(s1.leechers_of(h), s2.leechers_of(h), k),
        s2.seeders_of(h) == s1.seeders_of(h),
    ensures
        !has_key(s2.seeders_of(h), k),
        !has_key(s2.leechers_of(h), k),
{
    lemma_has_key_contains(s2.seeders_of(h), k);
    lemma_has_key_contains(s2.leechers_of(h), k);
}

/// `update_peer(h, P)` with `P` absent from both sides changes nothing:
/// both sides keep their records and their sizes.
pub proof fn lemma_update_absent_noop(s0: PeerStore, s1: PeerStore, h: Seq<u8>, k: PeerKey)
    requires
        !has_key(s0.seeders_of(h), k),
        !has_key(s0.leechers_of(h), k),
        if has_key(s0.seeders_of(h), k) {
            upserted_like(s0.seeders_of(h), s1.seeders_of(h), k, 0)
        } else {
            s1.seeders_of(h) == s0.seeders_of(h)
        },
        if has_key(s0.leechers_of(h), k) {
            upserted_like(s0.leechers_of(h), s1.leechers_of(h), k, 0)
        } else {
            s1.leechers_of(h) == s0.leechers_of(h)
        },
    ensures
        s1.seeders_of(h) == s0.seeders_of(h),
        s1.leechers_of(h) == s0.leechers_of(h),
        s1.seeders_of(h).len() == s0.seeders_of(h).len(),
        s1.leechers_of(h).len() == s0.leechers_of(h).len(),
{
}

/// After a reap at `now` with `timeout`, every surviving peer of every
/// swarm announced less than `timeout` seconds before `now`. The first
/// clause is what `reap` ensures of the swarm at `j`.
pub proof fn lemma_reap_survivors_live(
    s0: PeerStore,
    s1: PeerStore,
    now: u64,
    timeout: u64,
    j: int,
)
    requires
        0 <= j < s0.records@.len(),
        0 <= j < s1.records@.len(),
        s1.records@[j].1.seeders@ == filter_live(s0.records@[j].1.seeders@, now, timeout),
        s1.records@[j].1.leechers@ == filter_live(s0.records@[j].1.leechers@, now, timeout),
    ensures
        forall|q: Peer|
            #[trigger] s1.records@[j].1.seeders@.contains(q) ==> spec_live(q, now, timeout)
                && s0.records@[j].1.seeders@.contains(q),
        forall|q: Peer|
            #[trigger] s1.records@[j].1.leechers@.contains(q) ==> spec_live(q, now, timeout)
                && s0.records@[j].1.leechers@.contains(q),
{
    lemma_filter_live_contains(s0.records@[j].1.seeders@, now, timeout);
    lemma_filter_live_contains(s0.records@[j].1.leechers@, now, timeout);
}

/// Relies on rand's `SliceRandom::shuffle`: a Fisher-Yates pass that
/// permutes the slice in place, so the records are unchanged as a
/// multiset; nothing is assumed about the order that comes out.
#[verifier::external_body]
fn shuffle_peers(v: &mut Vec<Peer>)
    ensures
        final(v)@.len() == old(v)@.len(),
        final(v)@.to_multiset() == old(v)@.to_multiset(),
{
    v.as_mut_slice().shuffle(&mut rand::thread_rng());
}

/// A permutation of records with pairwise distinct identities keeps
/// them pairwise distinct.
proof fn lemma_permutation_unique_keys(a: Seq<Peer>, b: Seq<Peer>)
    requires
        unique_keys(a),
        a.to_multiset() == b.to_multiset(),
    ensures
        unique_keys(b),
        forall|q: Peer| #[trigger] b.contains(q) ==> a.contains(q),
{
    broadcast use vstd::seq_lib::group_to_multiset_ensures;

    assert forall|i: int, j: int| 0 <= i < j < a.len() implies a[i] != a[j] by {
        assert(a[i].key() != a[j].key());
    }
    assert(a.no_duplicates());
    a.lemma_multiset_has_no_duplicates();
    b.lemma_multiset_has_no_duplicates_conv();
    assert forall|q: Peer| #[trigger] b.contains(q) implies a.contains(q) by {
        assert(b.to_multiset().count(q) > 0);
        assert(a.to_multiset().count(q) > 0);
    }
    assert forall|i: int, j: int| 0 <= i < j < b.len() implies (#[trigger] b[i]).key() != (
    #[trigger] b[j]).key() by {
        assert(b[i] != b[j]);
        assert(b.contains(b[i]) && b.contains(b[j]));
        assert(a.contains(b[i]) && a.contains(b[j]));
        if b[i].key() == b[j].key() {
            let k1 = choose|k: int| 0 <= k < a.len() && a[k] == b[i];
            let k2 = choose|k: int| 0 <= k < a.len() && a[k] == b[j];
            assert(a[k1].key() == a[k2].key());
        }
    }
}

/// `p` shows the identity and announce time of some member of `ss` or `ls`.
pub open spec fn matches_member(ss: Seq<Peer>, ls: Seq<Peer>, p: Peer) -> bool {
    exists|q: Peer|
        ((#[trigger] q.key()) == p.key() && q.stamp() == p.stamp() && (ss.contains(q)
            || ls.contains(q)))
}

/// Every record in `r` shows the identity and announce time of some
/// member of `ss` or `ls`.
pub open spec fn sampled_from(r: Seq<Peer>, ss: Seq<Peer>, ls: Seq<Peer>) -> bool {
    forall|i: int| 0 <= i < r.len() ==> matches_member(ss, ls, #[trigger] r[i])
}

/// A working list of peers about to be sampled for a response.
#[derive(Debug)]
pub struct PeerList(pub Vec<Peer>);

impl PeerList {
    pub fn new() -> (r: PeerList)
        ensures
            r.0@.len() == 0,
    {
        PeerList(Vec::new())
    }

    /// At most `numwant` of the held peers: all of them when they fit,
    /// otherwise a uniformly drawn subset, in unspecified order.
    pub fn give_random(self, numwant: u32) -> (r: Vec<Peer>)
        ensures
            r@.len() == if self.0@.len() <= numwant as int {
                self.0@.len() as int
            } else {
                numwant as int
            },
            forall|i: int| 0 <= i < r@.len() ==> self.0@.contains(#[trigger] r@[i]),
            unique_keys(self.0@) ==> unique_keys(r@),
    {
        let mut v = self.0;
        if v.len() <= numwant as usize {
            proof {
                assert(forall|i: int| 0 <= i < v@.len() ==> v@.contains(#[trigger] v@[i]));
            }
            v
        } else {
            let ghost orig = v@;
            shuffle_peers(&mut v);
            let ghost shuf = v@;
            v.truncate(numwant as usize);
            proof {
                broadcast use vstd::seq_lib::group_to_multiset_ensures;

                assert(v@ == shuf.subrange(0, numwant as int));
                assert forall|i: int| 0 <= i < v@.len() implies orig.contains(#[trigger] v@[i]) by {
                    assert(v@[i] == shuf[i]);
                    assert(shuf.contains(shuf[i]));
                    assert(shuf.to_multiset().count(shuf[i]) > 0);
                    assert(orig.to_multiset().count(shuf[i]) > 0);
                }
                if unique_keys(orig) {
                    lemma_permutation_unique_keys(orig, shuf);
                    assert forall|i: int, j: int| 0 <= i < j < v@.len() implies (
                    #[trigger] v@[i]).key() != (#[trigger] v@[j]).key() by {
                        assert(v@[i] == shuf[i] && v@[j] == shuf[j]);
                    }
                }
            }
            v
        }
    }
}

impl PeerStore {
    /// A random selection of at most `numwant` peers of the swarm of
    /// `h`, seeders and leechers together. Every returned record shows
    /// the identity and announce time of a member; when the swarm fits,
    /// all of it is returned.
    pub fn get_peers(&self, info_hash: Vec<u8>, numwant: u32) -> (r: Vec<Peer>)
        requires
            self.wf(),
        ensures
            ({
                let total = self.seeders_of(info_hash@).len() + self.leechers_of(info_hash@).len();
                r@.len() == if total <= numwant as int {
                    total as int
                } else {
                    numwant as int
                }
            }),
            sampled_from(r@, self.seeders_of(info_hash@), self.leechers_of(info_hash@)),
            unique_keys(r@),
    {
        let ghost ss = self.seeders_of(info_hash@);
        let ghost ls = self.leechers_of(info_hash@);
        let ghost c = ss + ls;
        let mut list: Vec<Peer> = Vec::new();
        let found = self.find_swarm(&info_hash);
        match found {
            Some(i) => {
                proof {
                    lemma_entry_idx(self.records@, info_hash@, i as int);
                }
                let sw = &self.records[i].1;
                let mut j: usize = 0;
                while j < sw.seeders.len()
                    invariant
                        j <= sw.seeders@.len(),
                        list@.len() == j,
                        forall|k: int|
                            0 <= k < j ==> (#[trigger] list@[k]).key() == sw.seeders@[k].key()
                                && list@[k].stamp() == sw.seeders@[k].stamp(),
                    decreases sw.seeders@.len() - j,
                {
                    list.push(clone_peer(&sw.seeders[j]));
                    j += 1;
                }
                let mut k: usize = 0;
                let ghost base = sw.seeders@.len() as int;
                while k < sw.leechers.len()
                    invariant
                        k <= sw.leechers@.len(),
                        base == sw.seeders@.len(),
                        list@.len() == base + k,
                        forall|m: int|
                            0 <= m < base ==> (#[trigger] list@[m]).key() == sw.seeders@[m].key()
                                && list@[m].stamp() == sw.seeders@[m].stamp(),
                        forall|m: int|
                            base <= m < base + k ==> (#[trigger] list@[m]).key()
                                == sw.leechers@[m - base].key() && list@[m].stamp()
                                == sw.leechers@[m - base].stamp(),
                    decreases sw.leechers@.len() - k,
                {
                    list.push(clone_peer(&sw.leechers[k]));
                    k += 1;
                }
                proof {
                    assert(ss == sw.seeders@ && ls == sw.leechers@);
                }
            },
            None => {
                proof {
                    assert(ss =~= Seq::<Peer>::empty());
                    assert(ls =~= Seq::<Peer>::empty());
                }
            },
        }
        proof {
            assert(list@.len() == c.len());
            assert forall|m: int|
                0 <= m < c.len() implies (#[trigger] list@[m]).key() == c[m].key()
                    && list@[m].stamp() == c[m].stamp() by {
                if m < ss.len() {
                    assert(c[m] == ss[m]);
                } else {
                    assert(c[m] == ls[m - ss.len()]);
                }
            }
            assert forall|i: int, j: int| 0 <= i < j < list@.len() implies (
            #[trigger] list@[i]).key() != (#[trigger] list@[j]).key() by {
                lemma_concat_unique_keys(ss, ls, *self, info_hash@);
                assert(c[i].key() != c[j].key());
            }
        }
        let ghost lv = list@;
        let pl = PeerList(list);
        proof {
            assert(pl.0@ == lv);
        }
        let r = pl.give_random(numwant);
        proof {
            assert forall|i: int| 0 <= i < r@.len() implies matches_member(
                ss,
                ls,
                #[trigger] r@[i],
            ) by {
                assert(lv.contains(r@[i]));
                let m = choose|m: int| 0 <= m < lv.len() && lv[m] == r@[i];
                assert(lv[m].key() == c[m].key() && lv[m].stamp() == c[m].stamp());
                let w = if m < ss.len() {
                    ss[m]
                } else {
                    ls[m - ss.len()]
                };
                if m < ss.len() {
                    assert(c[m] == ss[m]);
                    assert(ss.contains(w));
                } else {
                    assert(c[m] == ls[m - ss.len()]);
                    assert(ls.contains(w));
                }
                assert(w.key() == r@[i].key() && w.stamp() == r@[i].stamp() && (ss.contains(w)
                    || ls.contains(w)));
                assert(matches_member(ss, ls, r@[i]));
            }
            assert(sampled_from(r@, ss, ls));
        }
        r
    }
}

/// Within one well-formed swarm, the concatenation of seeders and
/// leechers still has pairwise distinct identities.
proof fn lemma_concat_unique_keys(ss: Seq<Peer>, ls: Seq<Peer>, store: PeerStore, h: Seq<u8>)
    requires
        store.wf(),
        ss == store.seeders_of(h),
        ls == store.leechers_of(h),
    ensures
        unique_keys(ss + ls),
{
    let c = ss + ls;
    if store.has_swarm(h) {
        let idx = entry_idx(store.records@, h);
        assert(store.records@[idx].1.wf());
        assert forall|i: int, j: int| 0 <= i < j < c.len() implies (#[trigger] c[i]).key() != (
        #[trigger] c[j]).key() by {
            if j < ss.len() {
                assert(c[i] == ss[i] && c[j] == ss[j]);
            } else if i >= ss.len() {
                assert(c[i] == ls[i - ss.len()] && c[j] == ls[j - ss.len()]);
            } else {
                assert(c[i] == ss[i] && c[j] == ls[j - ss.len()]);
            }
        }
    } else {
        assert(ss =~= Seq::<Peer>::empty());
        assert(ls =~= Seq::<Peer>::empty());
        assert(c.len() == 0);
    }
}

/// The records of `s` whose identity is not `k`, in order.
pub open spec fn filter_key_out(s: Seq<Peer>, k: PeerKey) -> Seq<Peer>
    decreases s.len(),
{
    if s.len() == 0 {
        Seq::empty()
    } else if s[0].key() == k {
        filter_key_out(s.skip(1), k)
    } else {
        seq![s[0]] + filter_key_out(s.skip(1), k)
    }
}

/// Extending the input on the right extends the filtered output on the right.
proof fn lemma_filter_key_out_push(s: Seq<Peer>, p: Peer, k: PeerKey)
    ensures
        filter_key_out(s.push(p), k) == filter_key_out(s, k) + (if p.key() == k {
            Seq::empty()
        } else {
            seq![p]
        }),
    decreases s.len(),
{
    let tail = if p.key() == k {
        Seq::<Peer>::empty()
    } else {
        seq![p]
    };
    if s.len() == 0 {
        assert(s.push(p)[0] == p);
        assert(s.push(p).skip(1) =~= Seq::<Peer>::empty());
        assert(filter_key_out(Seq::<Peer>::empty(), k) =~= Seq::<Peer>::empty());
        assert(filter_key_out(s.push(p), k) =~= tail);
        assert(filter_key_out(s, k) + tail =~= tail);
    } else {
        assert(s.push(p).skip(1) =~= s.skip(1).push(p));
        lemma_filter_key_out_push(s.skip(1), p, k);
        assert(s.push(p)[0] == s[0]);
        if s[0].key() == k {
            assert(filter_key_out(s.push(p), k) == filter_key_out(s.skip(1).push(p), k));
        } else {
            assert(filter_key_out(s.push(p), k) == seq![s[0]] + filter_key_out(
                s.skip(1).push(p),
                k,
            ));
            assert(seq![s[0]] + (filter_key_out(s.skip(1), k) + tail) =~= (seq![s[0]]
                + filter_key_out(s.skip(1), k)) + tail);
        }
    }
}

/// What survives the filter: exactly the records of other identities.
pub proof fn lemma_filter_key_out_contains(s: Seq<Peer>, k: PeerKey)
    ensures
        forall|q: Peer|
            #[trigger] filter_key_out(s, k).contains(q) <==> (s.contains(q) && q.key() != k),
        unique_keys(s) ==> unique_keys(filter_key_out(s, k)),
        filter_key_out(s, k).len() <= s.len(),
    decreases s.len(),
{
    let f = filter_key_out(s, k);
    if s.len() == 0 {
        assert(forall|q: Peer| !(#[trigger] s.contains(q)));
        assert(forall|q: Peer| !(#[trigger] f.contains(q)));
    } else {
        lemma_filter_key_out_contains(s.skip(1), k);
        let f1 = filter_key_out(s.skip(1), k);
        assert forall|q: Peer| #[trigger] s.contains(q) <==> (q == s[0] || s.skip(1).contains(
            q,
        )) by {
            if s.contains(q) {
                let j = choose|j: int| 0 <= j < s.len() && s[j] == q;
                if j > 0 {
                    assert(s.skip(1)[j - 1] == q);
                }
            }
            if s.skip(1).contains(q) {
                let j = choose|j: int| 0 <= j < s.skip(1).len() && s.skip(1)[j] == q;
                assert(s[j + 1] == q);
            }
        }
        if s[0].key() != k {
            assert(f == seq![s[0]] + f1);
            assert forall|q: Peer| #[trigger] f.contains(q) implies (q == s[0] || f1.contains(
                q,
            )) by {
                let j = choose|j: int| 0 <= j < f.len() && f[j] == q;
                if j > 0 {
                    assert(f1[j - 1] == q);
                }
            }
            assert forall|q: Peer| q == s[0] || f1.contains(q) implies #[trigger] f.contains(
                q,
            ) by {
                if q == s[0] {
                    assert(f[0] == q);
                } else {
                    let j = choose|j: int| 0 <= j < f1.len() && f1[j] == q;
                    assert(f[j + 1] == q);
                }
            }
        }
        if unique_keys(s) {
            assert forall|i: int, j: int| 0 <= i < j < s.skip(1).len() implies (
            #[trigger] s.skip(1)[i]).key() != (#[trigger] s.skip(1)[j]).key() by {
                assert(s.skip(1)[i] == s[i + 1] && s.skip(1)[j] == s[j + 1]);
            }
            if s[0].key() != k {
                assert forall|i: int, j: int| 0 <= i < j < f.len() implies (
                #[trigger] f[i]).key() != (#[trigger] f[j]).key() by {
                    if i > 0 {
                        assert(f[i] == f1[i - 1] && f[j] == f1[j - 1]);
                    } else {
                        assert(f[0] == s[0]);
                        assert(f[j] == f1[j - 1]);
                        assert(f1.contains(f1[j - 1]));
                        assert(s.skip(1).contains(f[j]));
                        let m = choose|m: int| 0 <= m < s.skip(1).len() && s.skip(1)[m] == f[j];
                        assert(s[m + 1] == f[j]);
                    }
                }
            }
        }
    }
}

/// Under uniqueness, the filter drops exactly one record when the
/// identity is present, and none otherwise.
proof fn lemma_filter_key_out_len(s: Seq<Peer>, k: PeerKey)
    requires
        unique_keys(s),
    ensures
        filter_key_out(s, k).len() == s.len() - (if has_key(s, k) {
            1int
        } else {
            0int
        }),
    decreases s.len(),
{
    if s.len() > 0 {
        assert forall|i: int, j: int| 0 <= i < j < s.skip(1).len() implies (
        #[trigger] s.skip(1)[i]).key() != (#[trigger] s.skip(1)[j]).key() by {
            assert(s.skip(1)[i] == s[i + 1] && s.skip(1)[j] == s[j + 1]);
        }
        lemma_filter_key_out_len(s.skip(1), k);
        if s[0].key() == k {
            assert(has_key(s, k));
            assert(!has_key(s.skip(1), k)) by {
                if has_key(s.skip(1), k) {
                    let i = choose|i: int|
                        0 <= i < s.skip(1).len() && s.skip(1)[i].key() == k;
                    assert(s[i + 1].key() == k && s[0].key() == k);
                }
            }
        } else {
            assert(has_key(s, k) <==> has_key(s.skip(1), k)) by {
                if has_key(s, k) {
                    let i = choose|i: int| 0 <= i < s.len() && s[i].key() == k;
                    assert(i > 0);
                    assert(s.skip(1)[i - 1].key() == k);
                }
                if has_key(s.skip(1), k) {
                    let i = choose|i: int|
                        0 <= i < s.skip(1).len() && s.skip(1)[i].key() == k;
                    assert(s[i + 1].key() == k);
                }
            }
        }
    }
}

/// Both sides of the swarm stored for `h` are identity sets, and they
/// are disjoint; an unknown hash has two empty sides.
pub proof fn lemma_store_sides_unique(s: PeerStore, h: Seq<u8>)
    requires
        s.wf(),
    ensures
        unique_keys(s.seeders_of(h)),
        unique_keys(s.leechers_of(h)),
        keys_disjoint(s.seeders_of(h), s.leechers_of(h)),
{
    if s.has_swarm(h) {
        let idx = entry_idx(s.records@, h);
        assert(s.records@[idx].1.wf());
    }
}

/// Two identity sets with disjoint identities concatenate to one.
proof fn lemma_concat_unique(a: Seq<Peer>, b: Seq<Peer>)
    requires
        unique_keys(a),
        unique_keys(b),
        keys_disjoint(a, b),
    ensures
        unique_keys(a + b),
{
    let c = a + b;
    assert forall|i: int, j: int| 0 <= i < j < c.len() implies (#[trigger] c[i]).key() != (
    #[trigger] c[j]).key() by {
        if j < a.len() {
            assert(c[i] == a[i] && c[j] == a[j]);
        } else if i >= a.len() {
            assert(c[i] == b[i - a.len()] && c[j] == b[j - a.len()]);
        } else {
            assert(c[i] == a[i] && c[j] == b[j - a.len()]);
        }
    }
}

/// `a` shows the same identities and announce times as `b`, in order.
pub open spec fn keys_stamps_match(a: Seq<Peer>, b: Seq<Peer>) -> bool {
    a.len() == b.len() && forall|i: int|
        0 <= i < a.len() ==> (#[trigger] a[i]).key() == b[i].key() && a[i].stamp() == b[i].stamp()
}

proof fn lemma_match_push(a: Seq<Peer>, b: Seq<Peer>, x: Peer, y: Peer)
    requires
        keys_stamps_match(a, b),
        x.key() == y.key(),
        x.stamp() == y.stamp(),
    ensures
        keys_stamps_match(a.push(x), b.push(y)),
{
    assert forall|i: int|
        0 <= i < a.push(x).len() implies (#[trigger] a.push(x)[i]).key() == b.push(y)[i].key()
            && a.push(x)[i].stamp() == b.push(y)[i].stamp() by {
        if i < a.len() {
            assert(a.push(x)[i] == a[i] && b.push(y)[i] == b[i]);
        } else {
            assert(a.push(x)[i] == x && b.push(y)[i] == y);
        }
    }
}

impl PeerStore {
    /// A random selection of at most `numwant` peers of the swarm of
    /// `h`, leaving out the record that carries `exclude`'s identity:
    /// an announcing peer is never handed back to itself. Every
    /// returned record shows a member's identity and announce time;
    /// when the rest of the swarm fits, all of it is returned.
    pub fn get_peers_excluding(&self, info_hash: Vec<u8>, numwant: u32, exclude: &Peer) -> (r: Vec<
        Peer,
    >)
        requires
            self.wf(),
        ensures
            ({
                let total = filter_key_out(self.seeders_of(info_hash@), exclude.key()).len()
                    + filter_key_out(self.leechers_of(info_hash@), exclude.key()).len();
                r@.len() == if total <= numwant as int {
                    total as int
                } else {
                    numwant as int
                }
            }),
            sampled_from(r@, self.seeders_of(info_hash@), self.leechers_of(info_hash@)),
            forall|i: int| 0 <= i < r@.len() ==> (#[trigger] r@[i]).key() != exclude.key(),
            unique_keys(r@),
    {
        let ghost ss = self.seeders_of(info_hash@);
        let ghost ls = self.leechers_of(info_hash@);
        let ghost xk = exclude.key();
        let ghost fss = filter_key_out(ss, xk);
        let ghost fls = filter_key_out(ls, xk);
        let ghost c = fss + fls;
        let mut list: Vec<Peer> = Vec::new();
        let found = self.find_swarm(&info_hash);
        match found {
            Some(i) => {
                proof {
                    lemma_entry_idx(self.records@, info_hash@, i as int);
                }
                let sw = &self.records[i].1;
                let mut j: usize = 0;
                proof {
                    assert(sw.seeders@.take(0) =~= Seq::<Peer>::empty());
                    assert(keys_stamps_match(list@, filter_key_out(sw.seeders@.take(0), xk)));
                }
                while j < sw.seeders.len()
                    invariant
                        j <= sw.seeders@.len(),
                        xk == exclude.key(),
                        keys_stamps_match(list@, filter_key_out(sw.seeders@.take(j as int), xk)),
                    decreases sw.seeders@.len() - j,
                {
                    proof {
                        assert(sw.seeders@.take(j + 1 as int) =~= sw.seeders@.take(j as int).push(
                            sw.seeders@[j as int],
                        ));
                        lemma_filter_key_out_push(
                            sw.seeders@.take(j as int),
                            sw.seeders@[j as int],
                            xk,
                        );
                    }
                    let same = &sw.seeders[j] == exclude;
                    if !same {
                        let q = clone_peer(&sw.seeders[j]);
                        proof {
                            lemma_match_push(
                                list@,
                                filter_key_out(sw.seeders@.take(j as int), xk),
                                q,
                                sw.seeders@[j as int],
                            );
                            assert(filter_key_out(sw.seeders@.take(j + 1 as int), xk)
                                =~= filter_key_out(sw.seeders@.take(j as int), xk).push(
                                sw.seeders@[j as int],
                            ));
                        }
                        list.push(q);
                    } else {
                        proof {
                            assert(filter_key_out(sw.seeders@.take(j + 1 as int), xk)
                                =~= filter_key_out(sw.seeders@.take(j as int), xk));
                        }
                    }
                    j += 1;
                }
                proof {
                    assert(sw.seeders@.take(sw.seeders@.len() as int) =~= sw.seeders@);
                    assert(ss == sw.seeders@ && ls == sw.leechers@);
                    assert(keys_stamps_match(list@, fss));
                }
                let mut m: usize = 0;
                proof {
                    assert(sw.leechers@.take(0) =~= Seq::<Peer>::empty());
                    assert(filter_key_out(Seq::<Peer>::empty(), xk) =~= Seq::<Peer>::empty());
                    assert(fss + filter_key_out(sw.leechers@.take(0), xk) =~= fss);
                }
                while m < sw.leechers.len()
                    invariant
                        m <= sw.leechers@.len(),
                        xk == exclude.key(),
                        fss == filter_key_out(sw.seeders@, xk),
                        keys_stamps_match(
                            list@,
                            fss + filter_key_out(sw.leechers@.take(m as int), xk),
                        ),
                    decreases sw.leechers@.len() - m,
                {
                    proof {
                        assert(sw.leechers@.take(m + 1 as int) =~= sw.leechers@.take(m as int).push(
                            sw.leechers@[m as int],
                        ));
                        lemma_filter_key_out_push(
                            sw.leechers@.take(m as int),
                            sw.leechers@[m as int],
                            xk,
                        );
                    }
                    let same = &sw.leechers[m] == exclude;
                    if !same {
                        let q = clone_peer(&sw.leechers[m]);
                        proof {
                            lemma_match_push(
                                list@,
                                fss + filter_key_out(sw.leechers@.take(m as int), xk),
                                q,
                                sw.leechers@[m as int],
                            );
                            assert(fss + filter_key_out(sw.leechers@.take(m + 1 as int), xk) =~= (
                            fss + filter_key_out(sw.leechers@.take(m as int), xk)).push(
                                sw.leechers@[m as int],
                            ));
                        }
                        list.push(q);
                    } else {
                        proof {
                            assert(fss + filter_key_out(sw.leechers@.take(m + 1 as int), xk)
                                =~= fss + filter_key_out(sw.leechers@.take(m as int), xk));
                        }
                    }
                    m += 1;
                }
                proof {
                    assert(sw.leechers@.take(sw.leechers@.len() as int) =~= sw.leechers@);
                    assert(keys_stamps_match(list@, c));
                }
            },
            None => {
                proof {
                    assert(ss =~= Seq::<Peer>::empty());
                    assert(ls =~= Seq::<Peer>::empty());
                    assert(fss =~= Seq::<Peer>::empty());
                    assert(fls =~= Seq::<Peer>::empty());
                    assert(c.len() == 0);
                    assert(keys_stamps_match(list@, c));
                }
            },
        }
        proof {
            lemma_filter_key_out_contains(ss, xk);
            lemma_filter_key_out_contains(ls, xk);
            lemma_store_sides_unique(*self, info_hash@);
            lemma_disjoint_contains(ss, ls);
            assert forall|q1: Peer, q2: Peer|
                #[trigger] fss.contains(q1) && #[trigger] fls.contains(q2) implies q1.key()
                != q2.key() by {
                assert(ss.contains(q1) && ls.contains(q2));
            }
            lemma_disjoint_from_contains(fss, fls);
            lemma_concat_unique(fss, fls);
            assert forall|i: int, j: int| 0 <= i < j < list@.len() implies (
            #[trigger] list@[i]).key() != (#[trigger] list@[j]).key() by {
                assert(list@[i].key() == c[i].key() && list@[j].key() == c[j].key());
            }
        }
        let ghost lv = list@;
        let pl = PeerList(list);
        proof {
            assert(pl.0@ == lv);
        }
        let r = pl.give_random(numwant);
        proof {
            assert forall|i: int|
                0 <= i < r@.len() implies matches_member(ss, ls, #[trigger] r@[i]) && r@[i].key()
                != xk by {
                assert(lv.contains(r@[i]));
                let m = choose|m: int| 0 <= m < lv.len() && lv[m] == r@[i];
                assert(lv[m].key() == c[m].key() && lv[m].stamp() == c[m].stamp());
                let w = if m < fss.len() {
                    fss[m]
                } else {
                    fls[m - fss.len()]
                };
                if m < fss.len() {
                    assert(c[m] == fss[m]);
                    assert(fss.contains(w));
                    assert(ss.contains(w) && w.key() != xk);
                } else {
                    assert(c[m] == fls[m - fss.len()]);
                    assert(fls.contains(w));
                    assert(ls.contains(w) && w.key() != xk);
                }
                assert(w.key() == r@[i].key() && w.stamp() == r@[i].stamp() && (ss.contains(w)
                    || ls.contains(w)));
                assert(matches_member(ss, ls, r@[i]));
            }
            assert(sampled_from(r@, ss, ls));
        }
        r
    }
}

/// One torrent's aggregate counters, as persistence and scrape see them.
#[derive(Debug)]
pub struct Torrent {
    pub info_hash: Vec<u8>,
    pub complete: u32,
    pub downloaded: u32,
    pub incomplete: u32,
    pub balance: u32,
}

impl Torrent {
    pub fn new(info_hash: Vec<u8>, complete: u32, downloaded: u32, incomplete: u32, balance: u32) -> (t:
        Torrent)
        ensures
            t.info_hash == info_hash,
            t.complete == complete,
            t.downloaded == downloaded,
            t.incomplete == incomplete,
            t.balance == balance,
    {
        Torrent { info_hash, complete, downloaded, incomplete, balance }
    }
}

/// Each info-hash appears in at most one row.
pub open spec fn torrents_wf(s: Seq<Torrent>) -> bool {
    forall|i: int, j: int|
        0 <= i < j < s.len() ==> (#[trigger] s[i]).info_hash@ != (#[trigger] s[j]).info_hash@
}

pub open spec fn torrents_has(s: Seq<Torrent>, h: Seq<u8>) -> bool {
    exists|i: int| 0 <= i < s.len() && (#[trigger] s[i]).info_hash@ == h
}

pub open spec fn torrent_idx(s: Seq<Torrent>, h: Seq<u8>) -> int {
    choose|i: int| 0 <= i < s.len() && (#[trigger] s[i]).info_hash@ == h
}

proof fn lemma_torrent_idx(s: Seq<Torrent>, h: Seq<u8>, i: int)
    requires
        torrents_wf(s),
        0 <= i < s.len(),
        s[i].info_hash@ == h,
    ensures
        torrents_has(s, h),
        torrent_idx(s, h) == i,
{
    assert(torrents_has(s, h));
    let j = torrent_idx(s, h);
    if i != j {
        assert(s[i].info_hash@ != s[j].info_hash@);
    }
}

/// Replacing one row, hash kept, leaves every other hash's row as it was.
proof fn lemma_torrents_update(olds: Seq<Torrent>, news: Seq<Torrent>, i: int)
    requires
        torrents_wf(olds),
        0 <= i < olds.len(),
        news == olds.update(i, news[i]),
        news[i].info_hash@ == olds[i].info_hash@,
    ensures
        torrents_wf(news),
        forall|g: Seq<u8>| torrents_has(news, g) <==> torrents_has(olds, g),
        forall|g: Seq<u8>|
            g != olds[i].info_hash@ && torrents_has(olds, g) ==> news[torrent_idx(news, g)]
                == olds[#[trigger] torrent_idx(olds, g)],
        torrent_idx(news, olds[i].info_hash@) == i,
{
    assert(news.len() == olds.len());
    assert(forall|j: int| 0 <= j < news.len() ==> (#[trigger] news[j]).info_hash@ == olds[j].info_hash@);
    assert forall|g: Seq<u8>| torrents_has(news, g) <==> torrents_has(olds, g) by {
        if torrents_has(news, g) {
            let j = choose|j: int| 0 <= j < news.len() && news[j].info_hash@ == g;
            assert(olds[j].info_hash@ == g);
        }
        if torrents_has(olds, g) {
            let j = choose|j: int| 0 <= j < olds.len() && olds[j].info_hash@ == g;
            assert(news[j].info_hash@ == g);
        }
    }
    lemma_torrent_idx(news, olds[i].info_hash@, i);
    assert forall|g: Seq<u8>|
        g != olds[i].info_hash@ && torrents_has(olds, g) implies news[torrent_idx(news, g)] == olds[#[trigger] torrent_idx(olds, g)] by {
        let j = choose|j: int| 0 <= j < olds.len() && olds[j].info_hash@ == g;
        lemma_torrent_idx(olds, g, j);
        lemma_torrent_idx(news, g, j);
        assert(j != i);
    }
}

/// The observable content of a scrape entry.
pub open spec fn scrape_file_obs(f: crate::bittorrent::ScrapeFile) -> (Seq<u8>, u32, u32, u32) {
    (f.info_hash@, f.complete, f.downloaded, f.incomplete)
}

/// The counters a torrent row reports to a scrape.
pub open spec fn scrape_obs_of(t: Torrent) -> (Seq<u8>, u32, u32, u32) {
    (t.info_hash@, t.complete, t.downloaded, t.incomplete)
}

/// The torrent directory: counters per info-hash, each hash held once.
#[derive(Debug)]
pub struct TorrentStore {
    pub torrents: Vec<Torrent>,
}

/// The scrape entries owed for a request list: one per requested hash
/// that the store knows, in request order; unknown hashes are skipped.
pub open spec fn spec_scrapes(s: TorrentStore, hs: Seq<Seq<u8>>) -> Seq<(Seq<u8>, u32, u32, u32)>
    decreases hs.len(),
{
    if hs.len() == 0 {
        Seq::empty()
    } else {
        spec_scrapes(s, hs.drop_last()) + (if s.has_torrent(hs.last()) {
            seq![scrape_obs_of(s.torrent_at(hs.last()))]
        } else {
            Seq::empty()
        })
    }
}

impl TorrentStore {
    pub open spec fn wf(self) -> bool {
        torrents_wf(self.torrents@)
    }

    pub open spec fn has_torrent(self, h: Seq<u8>) -> bool {
        torrents_has(self.torrents@, h)
    }

    /// The row stored for `h`; meaningful only when `has_torrent(h)`.
    pub open spec fn torrent_at(self, h: Seq<u8>) -> Torrent {
        self.torrents@[torrent_idx(self.torrents@, h)]
    }

    /// The seeder count reported for `h`; an unknown hash reports zero.
    pub open spec fn spec_complete(self, h: Seq<u8>) -> u32 {
        if self.has_torrent(h) {
            self.torrent_at(h).complete
        } else {
            0
        }
    }

    /// The leecher count reported for `h`; an unknown hash reports zero.
    pub open spec fn spec_incomplete(self, h: Seq<u8>) -> u32 {
        if self.has_torrent(h) {
            self.torrent_at(h).incomplete
        } else {
            0
        }
    }

    /// The lifetime completion count for `h`; zero when unknown.
    pub open spec fn spec_downloaded(self, h: Seq<u8>) -> u32 {
        if self.has_torrent(h) {
            self.torrent_at(h).downloaded
        } else {
            0
        }
    }

    pub fn new(torrent_records: Vec<Torrent>) -> (r: Result<TorrentStore, ()>)
        requires
            torrents_wf(torrent_records@),
        ensures
            r matches Ok(s) && s.torrents == torrent_records && s.wf(),
    {
        Ok(TorrentStore { torrents: torrent_records })
    }

    pub fn default() -> (r: Result<TorrentStore, ()>)
        ensures
            r matches Ok(s) && s.torrents@.len() == 0 && s.wf(),
    {
        Ok(TorrentStore { torrents: Vec::new() })
    }

    /// Position of the row for `h`, if the hash is known.
    fn find_torrent(&self, h: &Vec<u8>) -> (r: Option<usize>)
        ensures
            match r {
                Some(i) => i < self.torrents@.len() && self.torrents@[i as int].info_hash@ == h@,
                None => !self.has_torrent(h@),
            },
    {
        let mut i: usize = 0;
        while i < self.torrents.len()
            invariant
                i <= self.torrents@.len(),
                forall|j: int| 0 <= j < i ==> (#[trigger] self.torrents@[j]).info_hash@ != h@,
            decreases self.torrents@.len() - i,
        {
            if slice_eq(self.torrents[i].info_hash.as_slice(), h.as_slice()) {
                return Some(i);
            }
            i += 1;
        }
        None
    }

    /// The scrape entries for the requested hashes, in request order;
    /// hashes the store does not know are skipped, not an error.
    pub fn get_scrapes(&self, info_hashes: Vec<Vec<u8>>) -> (r: Vec<crate::bittorrent::ScrapeFile>)
        requires
            self.wf(),
        ensures
            r@.map_values(|f: crate::bittorrent::ScrapeFile| scrape_file_obs(f)) == spec_scrapes(
                *self,
                info_hashes@.map_values(|h: Vec<u8>| h@),
            ),
            forall|i: int| 0 <= i < r@.len() ==> (#[trigger] r@[i]).name is None,
    {
        let ghost hviews = info_hashes@.map_values(|h: Vec<u8>| h@);
        let mut out: Vec<crate::bittorrent::ScrapeFile> = Vec::new();
        let mut k: usize = 0;
        proof {
            assert(hviews.take(0) =~= Seq::<Seq<u8>>::empty());
            assert(out@.map_values(|f: crate::bittorrent::ScrapeFile| scrape_file_obs(f)) =~= Seq::<(
                Seq<u8>,
                u32,
                u32,
                u32,
            )>::empty());
        }
        while k < info_hashes.len()
            invariant
                self.wf(),
                k <= info_hashes@.len(),
                hviews == info_hashes@.map_values(|h: Vec<u8>| h@),
                out@.map_values(|f: crate::bittorrent::ScrapeFile| scrape_file_obs(f))
                    == spec_scrapes(*self, hviews.take(k as int)),
                forall|i: int| 0 <= i < out@.len() ==> (#[trigger] out@[i]).name is None,
            decreases info_hashes@.len() - k,
        {
            proof {
                assert(hviews.take(k + 1 as int).drop_last() =~= hviews.take(k as int));
                assert(hviews.take(k + 1 as int).last() == hviews[k as int]);
                assert(hviews[k as int] == info_hashes@[k as int]@);
            }
            let found = self.find_torrent(&info_hashes[k]);
            match found {
                Some(i) => {
                    proof {
                        lemma_torrent_idx(self.torrents@, info_hashes@[k as int]@, i as int);
                    }
                    let t = &self.torrents[i];
                    let f = crate::bittorrent::ScrapeFile {
                        info_hash: crate::peer::clone_bytes(&info_hashes[k]),
                        complete: t.complete,
                        downloaded: t.downloaded,
                        incomplete: t.incomplete,
                        name: None,
                    };
                    out.push(f);
                    proof {
                        assert(out@.map_values(|g: crate::bittorrent::ScrapeFile| scrape_file_obs(g))
                            =~= spec_scrapes(*self, hviews.take(k + 1 as int)));
                    }
                },
                None => {
                    proof {
                        assert(out@.map_values(|g: crate::bittorrent::ScrapeFile| scrape_file_obs(g))
                            =~= spec_scrapes(*self, hviews.take(k + 1 as int)));
                    }
                },
            }
            k += 1;
        }
        proof {
            assert(hviews.take(info_hashes@.len() as int) =~= hviews);
        }
        out
    }

    /// The `(complete, incomplete)` pair that an announce response
    /// reports for `h`; `(0, 0)` when the hash is unknown.
    pub fn get_announce_stats(&self, info_hash: Vec<u8>) -> (r: (u32, u32))
        requires
            self.wf(),
        ensures
            r.0 == self.spec_complete(info_hash@),
            r.1 == self.spec_incomplete(info_hash@),
    {
        let found = self.find_torrent(&info_hash);
        match found {
            Some(i) => {
                proof {
                    lemma_torrent_idx(self.torrents@, info_hash@, i as int);
                }
                (self.torrents[i].complete, self.torrents[i].incomplete)
            },
            None => (0, 0),
        }
    }

    /// Books one finished download for `h`: one more seeder, one fewer
    /// leecher, one more completion, all saturating. Unknown hashes are
    /// left alone.
    pub fn new_seed(&mut self, info_hash: Vec<u8>)
        requires
            old(self).wf(),
        ensures
            final(self).wf(),
            forall|g: Seq<u8>| final(self).has_torrent(g) <==> old(self).has_torrent(g),
            forall|g: Seq<u8>|
                g != info_hash@ && old(self).has_torrent(g) ==> #[trigger] final(self).torrent_at(g)
                    == old(self).torrent_at(g),
            old(self).has_torrent(info_hash@) ==> {
                let t0 = old(self).torrent_at(info_hash@);
                let t1 = final(self).torrent_at(info_hash@);
                &&& t1.info_hash@ == t0.info_hash@
                &&& t1.complete == t0.complete.saturating_add(1)
                &&& t1.incomplete == t0.incomplete.saturating_sub(1)
                &&& t1.downloaded == t0.downloaded.saturating_add(1)
                &&& t1.balance == t0.balance
            },
    {
        let found = self.find_torrent(&info_hash);
        match found {
            Some(i) => {
                proof {
                    lemma_torrent_idx(self.torrents@, info_hash@, i as int);
                }
                let t = self.torrents.remove(i);
                let t2 = Torrent {
                    info_hash: t.info_hash,
                    complete: t.complete.saturating_add(1),
                    downloaded: t.downloaded.saturating_add(1),
                    incomplete: t.incomplete.saturating_sub(1),
                    balance: t.balance,
                };
                self.torrents.insert(i, t2);
                proof {
                    assert(self.torrents@ =~= old(self).torrents@.update(
                        i as int,
                        self.torrents@[i as int],
                    ));
                    lemma_torrents_update(old(self).torrents@, self.torrents@, i as int);
                }
            },
            None => {},
        }
    }

    /// Books one new leecher for `h`, saturating; unknown hashes are
    /// left alone.
    pub fn new_leech(&mut self, info_hash: Vec<u8>)
        requires
            old(self).wf(),
        ensures
            final(self).wf(),
            forall|g: Seq<u8>| final(self).has_torrent(g) <==> old(self).has_torrent(g),
            forall|g: Seq<u8>|
                g != info_hash@ && old(self).has_torrent(g) ==> #[trigger] final(self).torrent_at(g)
                    == old(self).torrent_at(g),
            old(self).has_torrent(info_hash@) ==> {
                let t0 = old(self).torrent_at(info_hash@);
                let t1 = final(self).torrent_at(info_hash@);
                &&& t1.info_hash@ == t0.info_hash@
                &&& t1.complete == t0.complete
                &&& t1.incomplete == t0.incomplete.saturating_add(1)
                &&& t1.downloaded == t0.downloaded
                &&& t1.balance == t0.balance
            },
    {
        let found = self.find_torrent(&info_hash);
        match found {
            Some(i) => {
                proof {
                    lemma_torrent_idx(self.torrents@, info_hash@, i as int);
                }
                let t = self.torrents.remove(i);
                let t2 = Torrent {
                    info_hash: t.info_hash,
                    complete: t.complete,
                    downloaded: t.downloaded,
                    incomplete: t.incomplete.saturating_add(1),
                    balance: t.balance,
                };
                self.torrents.insert(i, t2);
                proof {
                    assert(self.torrents@ =~= old(self).torrents@.update(
                        i as int,
                        self.torrents@[i as int],
                    ));
                    lemma_torrents_update(old(self).torrents@, self.torrents@, i as int);
                }
            },
            None => {},
        }
    }

    /// A copy of every row, for the flusher to hand to persistence.
    pub fn snapshot(&self) -> (r: Vec<Torrent>)
        ensures
            r@.len() == self.torrents@.len(),
            forall|i: int|
                0 <= i < r@.len() ==> {
                    let a = #[trigger] r@[i];
                    let b = self.torrents@[i];
                    a.info_hash@ == b.info_hash@ && a.complete == b.complete && a.downloaded
                        == b.downloaded && a.incomplete == b.incomplete && a.balance == b.balance
                },
    {
        let mut r: Vec<Torrent> = Vec::new();
        let mut i: usize = 0;
        while i < self.torrents.len()
            invariant
                i <= self.torrents@.len(),
                r@.len() == i,
                forall|j: int|
                    0 <= j < i ==> {
                        let a = #[trigger] r@[j];
                        let b = self.torrents@[j];
                        a.info_hash@ == b.info_hash@ && a.complete == b.complete && a.downloaded
                            == b.downloaded && a.incomplete == b.incomplete && a.balance
                            == b.balance
                    },
            decreases self.torrents@.len() - i,
        {
            let t = &self.torrents[i];
            r.push(
                Torrent {
                    info_hash: crate::peer::clone_bytes(&t.info_hash),
                    complete: t.complete,
                    downloaded: t.downloaded,
                    incomplete: t.incomplete,
                    balance: t.balance,
                },
            );
            i += 1;
        }
        r
    }
}

/// The two shared directories, created together at boot.
#[derive(Debug)]
pub struct Stores {
    pub peer_store: PeerStore,
    pub torrent_store: TorrentStore,
}

impl Stores {
    pub fn new(torrent_records: Vec<Torrent>) -> (r: Stores)
        requires
            torrents_wf(torrent_records@),
        ensures
            r.peer_store.wf(),
            r.peer_store.records@.len() == 0,
            r.torrent_store.wf(),
            r.torrent_store.torrents == torrent_records,
    {
        let peer_store = match PeerStore::new() {
            Ok(s) => s,
            Err(_) => PeerStore { records: Vec::new() },
        };
        let torrent_store = match TorrentStore::new(torrent_records) {
            Ok(s) => s,
            Err(_) => TorrentStore { torrents: Vec::new() },
        };
        Stores { peer_store, torrent_store }
    }
}

} // verus!
