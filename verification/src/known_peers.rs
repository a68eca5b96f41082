//! The table of paired devices.
//!
//! It changes while the program runs: pairing, introductions and removals all write
//! it, dialling and authentication read it. A version number tells readers that it
//! changed; the number of devices is the table's own length and nothing else.

use vstd::prelude::*;
use vstd::std_specs::convert::FromSpec;

use crate::types::{bytes_eq, DeviceId, KnownPeer, PairingRecord};

verus! {

/// The paired devices.
pub struct KnownPeers {
    peers: Vec<KnownPeer>,
    version: u64,
}

/// The first place of a device in a table, or the table's length.
pub open spec fn device_at(peers: Seq<KnownPeer>, device: Seq<char>) -> nat
    decreases peers.len(),
{
    if peers.len() == 0 || peers[0].device@ == device {
        0
    } else {
        1 + device_at(peers.drop_first(), device)
    }
}

/// The first place of a key in a table, or the table's length.
pub open spec fn key_at(peers: Seq<KnownPeer>, key: Seq<u8>) -> nat
    decreases peers.len(),
{
    if peers.len() == 0 || peers[0].static_public_key@ == key {
        0
    } else {
        1 + key_at(peers.drop_first(), key)
    }
}

/// The table after a device was added or updated.
pub open spec fn with_peer(peers: Seq<KnownPeer>, peer: KnownPeer) -> Seq<KnownPeer> {
    let i = device_at(peers, peer.device@);
    if i < peers.len() {
        peers.update(i as int, peer)
    } else {
        peers.push(peer)
    }
}

/// The table without a device.
pub open spec fn without_device(peers: Seq<KnownPeer>, device: Seq<char>) -> Seq<KnownPeer>
    decreases peers.len(),
{
    if peers.len() == 0 {
        peers
    } else {
        let rest = without_device(peers.drop_last(), device);
        if peers.last().device@ == device {
            rest
        } else {
            rest.push(peers.last())
        }
    }
}

/// Whether a device is in a table.
pub open spec fn has_device(peers: Seq<KnownPeer>, device: Seq<char>) -> bool {
    exists|i: int| 0 <= i < peers.len() && (#[trigger] peers[i]).device@ == device
}

/// No device is listed twice.
pub open spec fn distinct(peers: Seq<KnownPeer>) -> bool {
    forall|i: int, j: int|
        0 <= i < j < peers.len() ==> (#[trigger] peers[i]).device@ != (#[trigger] peers[j]).device@
}

pub proof fn lemma_device_at(peers: Seq<KnownPeer>, device: Seq<char>)
    ensures
        device_at(peers, device) <= peers.len(),
        forall|i: int|
            0 <= i < device_at(peers, device) ==> (#[trigger] peers[i]).device@ != device,
        device_at(peers, device) < peers.len() ==> peers[device_at(peers, device) as int].device@
            == device,
        has_device(peers, device) == (device_at(peers, device) < peers.len()),
    decreases peers.len(),
{
    if peers.len() > 0 && peers[0].device@ != device {
        let t = peers.drop_first();
        lemma_device_at(t, device);
        assert forall|i: int| 0 <= i < device_at(peers, device) implies (
        #[trigger] peers[i]).device@ != device by {
            if i > 0 {
                assert(t[i - 1].device@ != device);
            }
        }
        if has_device(peers, device) {
            let i = choose|i: int| 0 <= i < peers.len() && (#[trigger] peers[i]).device@ == device;
            assert(t[i - 1].device@ == device);
        }
    }
}

proof fn lemma_device_at_is(peers: Seq<KnownPeer>, device: Seq<char>, n: int)
    requires
        0 <= n <= peers.len(),
        forall|i: int| 0 <= i < n ==> (#[trigger] peers[i]).device@ != device,
        n == peers.len() || peers[n].device@ == device,
    ensures
        device_at(peers, device) == n,
{
    lemma_device_at(peers, device);
    let m = device_at(peers, device) as int;
    if m < n {
        assert(peers[m].device@ != device);
    }
}

pub proof fn lemma_key_at(peers: Seq<KnownPeer>, key: Seq<u8>)
    ensures
        key_at(peers, key) <= peers.len(),
        forall|i: int|
            0 <= i < key_at(peers, key) && i < peers.len() ==> (
            #[trigger] peers[i]).static_public_key@ != key,
        key_at(peers, key) < peers.len() ==> peers[key_at(peers, key) as int].static_public_key@
            == key,
    decreases peers.len(),
{
    if peers.len() > 0 && peers[0].static_public_key@ != key {
        let t = peers.drop_first();
        lemma_key_at(t, key);
        assert forall|i: int| 0 <= i < key_at(peers, key) && i < peers.len() implies (
        #[trigger] peers[i]).static_public_key@ != key by {
            if i > 0 {
                assert(t[i - 1].static_public_key@ != key);
            }
        }
    }
}

proof fn lemma_key_at_is(peers: Seq<KnownPeer>, key: Seq<u8>, n: int)
    requires
        0 <= n <= peers.len(),
        forall|i: int| 0 <= i < n ==> (#[trigger] peers[i]).static_public_key@ != key,
        n == peers.len() || peers[n].static_public_key@ == key,
    ensures
        key_at(peers, key) == n,
    decreases n,
{
    if n > 0 {
        assert(peers[0].static_public_key@ != key);
        let t = peers.drop_first();
        assert forall|i: int| 0 <= i < n - 1 implies (#[trigger] t[i]).static_public_key@ != key by {
            assert(peers[i + 1].static_public_key@ != key);
        }
        lemma_key_at_is(t, key, n - 1);
    }
}

pub proof fn lemma_without_device(peers: Seq<KnownPeer>, device: Seq<char>)
    ensures
        without_device(peers, device).len() <= peers.len(),
        !has_device(without_device(peers, device), device),
        forall|d: Seq<char>|
            d != device ==> (#[trigger] has_device(without_device(peers, device), d) == has_device(
                peers,
                d,
            )),
        (without_device(peers, device).len() == peers.len()) == !has_device(peers, device),
        !has_device(peers, device) ==> without_device(peers, device) == peers,
        distinct(peers) ==> distinct(without_device(peers, device)),
    decreases peers.len(),
{
    if peers.len() > 0 {
        let t = peers.drop_last();
        let l = peers.last();
        let w = without_device(t, device);
        lemma_without_device(t, device);
        let r = without_device(peers, device);
        assert forall|d: Seq<char>| has_device(peers, d) == (has_device(t, d) || l.device@ == d) by {
            if has_device(peers, d) && l.device@ != d {
                let i = choose|i: int| 0 <= i < peers.len() && (#[trigger] peers[i]).device@ == d;
                assert(t[i].device@ == d);
            }
            if has_device(t, d) {
                let i = choose|i: int| 0 <= i < t.len() && (#[trigger] t[i]).device@ == d;
                assert(peers[i].device@ == d);
            }
            if l.device@ == d {
                assert(peers[peers.len() - 1].device@ == d);
            }
        }
        if l.device@ != device {
            assert forall|d: Seq<char>| has_device(r, d) == (has_device(w, d) || l.device@ == d) by {
                if has_device(r, d) && l.device@ != d {
                    let i = choose|i: int| 0 <= i < r.len() && (#[trigger] r[i]).device@ == d;
                    assert(w[i].device@ == d);
                }
                if has_device(w, d) {
                    let i = choose|i: int| 0 <= i < w.len() && (#[trigger] w[i]).device@ == d;
                    assert(r[i].device@ == d);
                }
                if l.device@ == d {
                    assert(r[r.len() - 1].device@ == d);
                }
            }
            if !has_device(peers, device) {
                assert(t.push(l) =~= peers);
            }
            if distinct(peers) {
                assert(distinct(t));
                assert forall|i: int, j: int| 0 <= i < j < r.len() implies (
                #[trigger] r[i]).device@ != (#[trigger] r[j]).device@ by {
                    if j == r.len() - 1 {
                        if r[i].device@ == l.device@ {
                            assert(has_device(w, l.device@)) by {
                                assert(w[i].device@ == l.device@);
                            }
                            assert(has_device(t, l.device@));
                            let k = choose|k: int|
                                0 <= k < t.len() && (#[trigger] t[k]).device@ == l.device@;
                            assert(peers[k].device@ == peers[peers.len() - 1].device@);
                        }
                    } else {
                        assert(w[i].device@ != w[j].device@);
                    }
                }
            }
        } else {
            assert(has_device(peers, device));
            if distinct(peers) {
                assert(distinct(t));
            }
        }
    }
}

/// The version after so many further changes; the number starts over at its limit.
pub open spec fn bumped(version: u64, changes: nat) -> u64 {
    ((version + changes) % 0x1_0000_0000_0000_0000) as u64
}

pub proof fn lemma_bumped(version: u64, changes: nat)
    ensures
        bumped(version, 0) == version,
        bumped(version, changes).wrapping_add(1) == bumped(version, changes + 1),
{
}

/// How many different devices a table lists.
pub open spec fn device_count(peers: Seq<KnownPeer>) -> nat
    decreases peers.len(),
{
    if peers.len() == 0 {
        0
    } else {
        device_count(peers.drop_last()) + if has_device(
            peers.drop_last(),
            peers.last().device@,
        ) {
            0nat
        } else {
            1nat
        }
    }
}

/// Where no device is listed twice, each of them counts.
pub proof fn every_device_counts(peers: Seq<KnownPeer>)
    requires
        distinct(peers),
    ensures
        device_count(peers) == peers.len(),
    decreases peers.len(),
{
    if peers.len() > 0 {
        let t = peers.drop_last();
        assert(distinct(t));
        every_device_counts(t);
        if has_device(t, peers.last().device@) {
            let k = choose|k: int|
                0 <= k < t.len() && (#[trigger] t[k]).device@ == peers.last().device@;
            assert(peers[k].device@ == peers[peers.len() - 1].device@);
        }
    }
}

/// A table's devices up to a place: those before it, and the one there.
pub proof fn lemma_next(peers: Seq<KnownPeer>, i: int, d: Seq<char>)
    requires
        0 <= i < peers.len(),
    ensures
        has_device(peers.take(i + 1), d) == (has_device(peers.take(i), d) || d
            == peers[i].device@),
        device_count(peers.take(i + 1)) == device_count(peers.take(i)) + if has_device(
            peers.take(i),
            peers[i].device@,
        ) {
            0nat
        } else {
            1nat
        },
{
    let now = peers.take(i + 1);
    let was = peers.take(i);
    assert(now.drop_last() =~= was);
    if has_device(was, d) {
        let k = choose|k: int| 0 <= k < was.len() && (#[trigger] was[k]).device@ == d;
        assert(now[k].device@ == d);
    }
    if d == peers[i].device@ {
        assert(now[i].device@ == d);
    }
    if has_device(now, d) && d != peers[i].device@ {
        let k = choose|k: int| 0 <= k < now.len() && (#[trigger] now[k]).device@ == d;
        assert(was[k].device@ == d);
    }
}

/// Nothing changed yet, and there is time left.
pub open spec fn waits_on(version: u64, since: u64, elapsed_ms: u64, timeout_ms: u64) -> bool {
    version == since && elapsed_ms < timeout_ms
}

impl From<PairingRecord> for KnownPeer {
    fn from(r: PairingRecord) -> (p: Self) {
        KnownPeer { device: r.device, name: r.name, static_public_key: r.static_public_key }
    }
}

impl vstd::std_specs::convert::FromSpecImpl<PairingRecord> for KnownPeer {
    open spec fn obeys_from_spec() -> bool {
        true
    }

    open spec fn from_spec(r: PairingRecord) -> Self {
        KnownPeer { device: r.device, name: r.name, static_public_key: r.static_public_key }
    }
}

impl KnownPeers {
    /// The devices, in the order in which they were added.
    pub closed spec fn view(&self) -> Seq<KnownPeer> {
        self.peers@
    }

    /// The number of changes so far.
    pub closed spec fn spec_version(&self) -> u64 {
        self.version
    }

    /// A table of `peers`.
    pub fn new(peers: Vec<KnownPeer>) -> (r: Self)
        ensures
            r@ == peers@,
            r.spec_version() == 0,
    {
        KnownPeers { peers, version: 0 }
    }

    /// A number that differs after every change.
    pub fn version(&self) -> (r: u64)
        ensures
            r == self.spec_version(),
    {
        self.version
    }

    /// Whether one who last saw the table at version `since`, and has waited for
    /// `elapsed_ms` of `timeout_ms`, waits on. A change ends the wait at once, also one
    /// from before it began.
    pub fn wait_for_change(&self, since: u64, elapsed_ms: u64, timeout_ms: u64) -> (r: bool)
        ensures
            r == waits_on(self.spec_version(), since, elapsed_ms, timeout_ms),
    {
        self.version == since && elapsed_ms < timeout_ms
    }

    /// All paired devices.
    pub fn snapshot(&self) -> (r: &Vec<KnownPeer>)
        ensures
            r@ == self@,
    {
        &self.peers
    }

    /// How many devices are paired.
    pub fn len(&self) -> (r: usize)
        ensures
            r == self@.len(),
    {
        self.peers.len()
    }

    fn position(&self, device: &DeviceId) -> (r: usize)
        ensures
            r == device_at(self@, device@),
            r <= self@.len(),
    {
        let mut i: usize = 0;
        while i < self.peers.len()
            invariant
                i <= self.peers.len(),
                forall|k: int| 0 <= k < i ==> (#[trigger] self.peers@[k]).device@ != device@,
            decreases self.peers.len() - i,
        {
            if self.peers[i].device.is(device) {
                proof {
                    lemma_device_at_is(self.peers@, device@, i as int);
                }
                return i;
            }
            i += 1;
        }
        proof {
            lemma_device_at_is(self.peers@, device@, i as int);
        }
        i
    }

    /// Whether a device is paired.
    pub fn contains(&self, device: &DeviceId) -> (r: bool)
        ensures
            r == has_device(self@, device@),
    {
        proof {
            lemma_device_at(self@, device@);
        }
        self.position(device) < self.peers.len()
    }

    /// The place of the device that a static public key belongs to.
    pub fn position_of_key(&self, key: &[u8]) -> (r: Option<usize>)
        ensures
            match r {
                Some(i) => i == key_at(self@, key@) && i < self@.len(),
                None => key_at(self@, key@) == self@.len(),
            },
    {
        let mut i: usize = 0;
        while i < self.peers.len()
            invariant
                i <= self.peers.len(),
                forall|k: int|
                    0 <= k < i ==> (#[trigger] self.peers@[k]).static_public_key@ != key@,
            decreases self.peers.len() - i,
        {
            if bytes_eq(self.peers[i].static_public_key.as_slice(), key) {
                proof {
                    lemma_key_at_is(self.peers@, key@, i as int);
                }
                return Some(i);
            }
            i += 1;
        }
        proof {
            lemma_key_at_is(self.peers@, key@, i as int);
        }
        None
    }

    /// The device that a static public key belongs to; what incoming connections are
    /// authenticated by.
    pub fn find_by_static_key(&self, key: &[u8]) -> (r: Option<&KnownPeer>)
        ensures
            match r {
                Some(p) => key_at(self@, key@) < self@.len() && *p == self@[key_at(
                    self@,
                    key@,
                ) as int],
                None => key_at(self@, key@) == self@.len(),
            },
    {
        match self.position_of_key(key) {
            Some(i) => Some(&self.peers[i]),
            None => None,
        }
    }

    /// Adds a device, or updates the entry it already has.
    pub fn upsert(&mut self, peer: KnownPeer)
        ensures
            final(self)@ == with_peer(old(self)@, peer),
            final(self).spec_version() == old(self).spec_version().wrapping_add(1),
    {
        let i = self.position(&peer.device);
        if i < self.peers.len() {
            self.peers.set(i, peer);
        } else {
            self.peers.push(peer);
        }
        self.version = self.version.wrapping_add(1);
    }

    /// Removes a device; the result says whether it was there.
    pub fn remove(&mut self, device: &DeviceId) -> (r: bool)
        ensures
            final(self)@ == without_device(old(self)@, device@),
            r == has_device(old(self)@, device@),
            final(self).spec_version() == if r {
                old(self).spec_version().wrapping_add(1)
            } else {
                old(self).spec_version()
            },
    {
        let ghost before = self.peers@;
        let total = self.peers.len();
        let mut i: usize = 0;
        let ghost mut seen: int = 0;
        assert(before.take(0) =~= Seq::<KnownPeer>::empty());
        assert(before.skip(0) =~= before);
        while i < self.peers.len()
            invariant
                0 <= seen <= before.len(),
                i <= self.peers.len(),
                self.version == old(self).version,
                self.peers@.take(i as int) == without_device(before.take(seen), device@),
                self.peers@.skip(i as int) == before.skip(seen),
            decreases before.len() - seen,
        {
            let ghost mid = self.peers@;
            proof {
                assert(mid.skip(i as int).len() == before.skip(seen).len());
                assert(before.take(seen + 1).drop_last() =~= before.take(seen));
                assert(mid[i as int] == mid.skip(i as int)[0]);
                assert(before.skip(seen)[0] == before[seen]);
                assert(before.take(seen + 1).last() == before[seen]);
                assert(before.skip(seen + 1) =~= before.skip(seen).drop_first());
            }
            if self.peers[i].device.is(device) {
                self.peers.remove(i);
                assert(self.peers@.take(i as int) =~= mid.take(i as int));
                assert(self.peers@.skip(i as int) =~= mid.skip(i as int).drop_first());
            } else {
                i += 1;
                assert(mid.take(i as int) =~= mid.take(i - 1).push(mid[i - 1]));
                assert(mid.skip(i as int) =~= mid.skip(i - 1).drop_first());
            }
            proof {
                seen = seen + 1;
            }
        }
        proof {
            assert(before.skip(seen).len() == 0) by {
                assert(self.peers@.skip(i as int).len() == 0);
            }
            assert(before.take(seen) =~= before);
            assert(self.peers@.take(i as int) =~= self.peers@);
            lemma_without_device(before, device@);
        }
        let changed = self.peers.len() != total;
        if changed {
            self.version = self.version.wrapping_add(1);
        }
        changed
    }
}

/// A paired device is recognised at once, a removed one no longer: by id when
/// dialling, and no other device is affected.
pub proof fn upsert_and_remove_take_effect(peers: Seq<KnownPeer>, peer: KnownPeer, d: Seq<char>)
    ensures
        has_device(with_peer(peers, peer), peer.device@),
        d != peer.device@ ==> has_device(with_peer(peers, peer), d) == has_device(peers, d),
        !has_device(without_device(peers, peer.device@), peer.device@),
        d != peer.device@ ==> has_device(without_device(peers, peer.device@), d) == has_device(
            peers,
            d,
        ),
{
    lemma_device_at(peers, peer.device@);
    lemma_without_device(peers, peer.device@);
    let i = device_at(peers, peer.device@) as int;
    let r = with_peer(peers, peer);
    assert(r[i].device@ == peer.device@);
    if d != peer.device@ {
        if has_device(peers, d) {
            let k = choose|k: int| 0 <= k < peers.len() && (#[trigger] peers[k]).device@ == d;
            assert(r[k].device@ == d);
        }
        if has_device(r, d) {
            let k = choose|k: int| 0 <= k < r.len() && (#[trigger] r[k]).device@ == d;
            assert(k != i);
            assert(peers[k].device@ == d);
        }
    }
}

/// A device never gets a second entry: the table stays free of duplicates, and only a
/// device that was not there makes it longer.
pub proof fn entries_stay_distinct(peers: Seq<KnownPeer>, peer: KnownPeer)
    requires
        distinct(peers),
    ensures
        distinct(with_peer(peers, peer)),
        distinct(without_device(peers, peer.device@)),
        with_peer(peers, peer).len() == peers.len() + if has_device(peers, peer.device@) {
            0int
        } else {
            1
        },
        with_peer(with_peer(peers, peer), peer) == with_peer(peers, peer),
{
    lemma_device_at(peers, peer.device@);
    lemma_without_device(peers, peer.device@);
    let i = device_at(peers, peer.device@) as int;
    let r = with_peer(peers, peer);
    assert forall|a: int, b: int| 0 <= a < b < r.len() implies (#[trigger] r[a]).device@ != (
    #[trigger] r[b]).device@ by {
        if i < peers.len() {
            assert(peers[a].device@ != peers[b].device@);
        } else if b < peers.len() {
            assert(peers[a].device@ != peers[b].device@);
        } else {
            assert(peers[a].device@ != peer.device@);
        }
    }
    lemma_device_at_is(r, peer.device@, i);
    assert(r.update(i, peer) =~= r);
}

/// Once no device with a key is left in the table, that key opens no connection.
pub proof fn absent_key_is_refused(peers: Seq<KnownPeer>, key: Seq<u8>)
    requires
        forall|i: int| 0 <= i < peers.len() ==> (#[trigger] peers[i]).static_public_key@ != key,
    ensures
        key_at(peers, key) == peers.len(),
{
    lemma_key_at_is(peers, key, peers.len() as int);
}

/// Whoever waits for a change misses none: after a device was added to the table they
/// last saw, or one was removed from it, they wait no longer, whatever time is left.
pub proof fn a_change_ends_the_wait(since: u64, elapsed_ms: u64, timeout_ms: u64)
    ensures
        !waits_on(since.wrapping_add(1), since, elapsed_ms, timeout_ms),
        waits_on(since, since, elapsed_ms, timeout_ms) == (elapsed_ms < timeout_ms),
{
}

/// A pairing is in force with all that belongs to it: the table holds the device under the
/// name and with the key that it was paired with, and a connection with that key is
/// recognised. Every other entry is as it was.
pub proof fn a_pairing_is_in_force(peers: Seq<KnownPeer>, peer: KnownPeer, other: KnownPeer)
    ensures
        with_peer(peers, peer).contains(peer),
        other.device@ != peer.device@ ==> with_peer(peers, peer).contains(other) == peers.contains(
            other,
        ),
        distinct(peers) && other.device@ == peer.device@ && with_peer(peers, peer).contains(other)
            ==> other == peer,
        exists|i: int|
            0 <= i < with_peer(peers, peer).len() && #[trigger] with_peer(peers, peer)[i] == peer,
        key_at(with_peer(peers, peer), peer.static_public_key@) < with_peer(peers, peer).len(),
        forall|i: int|
            0 <= i < peers.len() && (#[trigger] peers[i]).device@ != peer.device@ ==> with_peer(
                peers,
                peer,
            )[i] == peers[i],
{
    lemma_device_at(peers, peer.device@);
    let n = device_at(peers, peer.device@) as int;
    let r = with_peer(peers, peer);
    assert(r[n] == peer);
    lemma_key_at(r, peer.static_public_key@);
    if other.device@ != peer.device@ {
        if peers.contains(other) {
            let i = choose|i: int| 0 <= i < peers.len() && peers[i] == other;
            assert(r[i] == other);
        }
        if r.contains(other) {
            let i = choose|i: int| 0 <= i < r.len() && r[i] == other;
            assert(peers[i] == other);
        }
    }
    if distinct(peers) && other.device@ == peer.device@ && r.contains(other) {
        entries_stay_distinct(peers, peer);
        let i = choose|i: int| 0 <= i < r.len() && r[i] == other;
        if i < n {
            assert(r[i].device@ != r[n].device@);
        } else if i > n {
            assert(r[n].device@ != r[i].device@);
        }
    }
}

/// A removal takes out the device, whatever is known of it, and nobody else.
pub proof fn a_removal_is_complete(peers: Seq<KnownPeer>, device: Seq<char>, p: KnownPeer)
    ensures
        without_device(peers, device).contains(p) == (peers.contains(p) && p.device@ != device),
    decreases peers.len(),
{
    if peers.len() > 0 {
        let t = peers.drop_last();
        let l = peers.last();
        let (w, r) = (without_device(t, device), without_device(peers, device));
        a_removal_is_complete(t, device, p);
        assert(peers.contains(p) == (t.contains(p) || p == l)) by {
            if t.contains(p) {
                let i = choose|i: int| 0 <= i < t.len() && t[i] == p;
                assert(peers[i] == p);
            }
            if p == l {
                assert(peers[peers.len() - 1] == p);
            }
            if peers.contains(p) && p != l {
                let i = choose|i: int| 0 <= i < peers.len() && peers[i] == p;
                assert(t[i] == p);
            }
        }
        if l.device@ != device {
            assert(r.contains(p) == (w.contains(p) || p == l)) by {
                if w.contains(p) {
                    let i = choose|i: int| 0 <= i < w.len() && w[i] == p;
                    assert(r[i] == p);
                }
                if p == l {
                    assert(r[r.len() - 1] == p);
                }
                if r.contains(p) && p != l {
                    let i = choose|i: int| 0 <= i < r.len() && r[i] == p;
                    assert(w[i] == p);
                }
            }
        }
    }
}

/// A key leads to the device that it belongs to: to the first one in the table with it,
/// wherever there is any.
pub proof fn a_key_leads_to_its_device(peers: Seq<KnownPeer>, key: Seq<u8>, i: int)
    requires
        0 <= i < peers.len(),
        peers[i].static_public_key@ == key,
    ensures
        key_at(peers, key) <= i,
        peers[key_at(peers, key) as int].static_public_key@ == key,
{
    lemma_key_at(peers, key);
}

/// Changes are counted one by one, so that any number of them short of starting over leaves
/// another version.
pub proof fn changes_are_counted(version: u64, n: nat)
    ensures
        bumped(version, 0) == version,
        bumped(version, n + 1) == bumped(version, n).wrapping_add(1),
        0 < n < 0x1_0000_0000_0000_0000 ==> bumped(version, n) != version,
{
}

/// What is stored of a pairing is what its device is recognised by.
pub proof fn stored_pairings_are_recognised(r: PairingRecord)
    ensures
        KnownPeer::from_spec(r).device == r.device,
        KnownPeer::from_spec(r).name == r.name,
        KnownPeer::from_spec(r).static_public_key == r.static_public_key,
{
}

} // verus!
