//! Where other devices can be reached, and in which order to try.
//!
//! Addresses come from pairing, from beacons in the local network, from the devices
//! themselves and from the user. How good an address is depends on where this machine
//! is: in the same subnet first, then through an overlay network, then in public.

use vstd::prelude::*;

use crate::ipv4::{cgnat, is_cgnat, is_link_local, is_loopback, is_multicast, is_private, link_local, loopback, multicast, private};
use crate::types::{DeviceId, Endpoint, Ip, PairingRecord};

verus! {

/// How an address is reached, best first.
#[derive(Debug, Clone, Copy, PartialEq, Eq, Structural)]
pub enum AddrClass {
    /// In one of this machine's own subnets.
    LanDirect,
    /// Through an overlay network.
    Overlay,
    Public,
}

/// Where an address was learned from.
#[derive(Debug, Clone, Copy, PartialEq, Eq, Structural)]
pub enum AddrSource {
    Pairing,
    Beacon,
    Peer,
    Manual,
}

/// An address to try.
#[derive(Debug, Clone, Copy, PartialEq, Eq, Structural)]
pub struct Candidate {
    pub addr: Endpoint,
    pub class: AddrClass,
    pub source: AddrSource,
    /// Whether it worked the last time.
    pub known_good: bool,
}

/// The addresses and masks of this machine's interfaces.
#[derive(Debug)]
pub struct LocalNetworks {
    pub v4: Vec<(u32, u32)>,
    pub v6: Vec<(u128, u128)>,
}

impl LocalNetworks {
    /// Whether an address lies in one of this machine's own subnets.
    pub open spec fn has_v4(&self, ip: u32) -> bool {
        exists|i: int|
            0 <= i < self.v4@.len() && (ip & (#[trigger] self.v4@[i]).1) == (self.v4@[i].0
                & self.v4@[i].1)
    }

    /// Whether an address lies in one of this machine's own subnets.
    pub open spec fn has_v6(&self, ip: u128) -> bool {
        exists|i: int|
            0 <= i < self.v6@.len() && (ip & (#[trigger] self.v6@[i]).1) == (self.v6@[i].0
                & self.v6@[i].1)
    }

    fn contains_v4(&self, ip: u32) -> (r: bool)
        ensures
            r == self.has_v4(ip),
    {
        let mut i: usize = 0;
        while i < self.v4.len()
            invariant
                i <= self.v4.len(),
                forall|k: int|
                    0 <= k < i ==> (ip & (#[trigger] self.v4@[k]).1) != (self.v4@[k].0
                        & self.v4@[k].1),
            decreases self.v4.len() - i,
        {
            let (net, mask) = self.v4[i];
            if (ip & mask) == (net & mask) {
                assert((ip & self.v4@[i as int].1) == (self.v4@[i as int].0
                    & self.v4@[i as int].1));
                return true;
            }
            i += 1;
        }
        false
    }

    fn contains_v6(&self, ip: u128) -> (r: bool)
        ensures
            r == self.has_v6(ip),
    {
        let mut i: usize = 0;
        while i < self.v6.len()
            invariant
                i <= self.v6.len(),
                forall|k: int|
                    0 <= k < i ==> (ip & (#[trigger] self.v6@[k]).1) != (self.v6@[k].0
                        & self.v6@[k].1),
            decreases self.v6.len() - i,
        {
            let (net, mask) = self.v6[i];
            if (ip & mask) == (net & mask) {
                assert((ip & self.v6@[i as int].1) == (self.v6@[i as int].0
                    & self.v6@[i as int].1));
                return true;
            }
            i += 1;
        }
        false
    }
}

/// How an address is reached from here; `None` for addresses that lead nowhere:
/// link-local ones, multicast and the empty address.
pub open spec fn class_of(ip: Ip, local: LocalNetworks) -> Option<AddrClass> {
    match ip {
        Ip::V4(a) => if a == 0 || link_local(a) || multicast(a) {
            None
        } else if loopback(a) || local.has_v4(a) {
            Some(AddrClass::LanDirect)
        } else if private(a) || cgnat(a) {
            Some(AddrClass::Overlay)
        } else {
            Some(AddrClass::Public)
        },
        Ip::V6(a) => if a == 0 || v6_link_local(a) || v6_multicast(a) {
            None
        } else if a == 1 || local.has_v6(a) {
            Some(AddrClass::LanDirect)
        } else if v6_unique_local(a) {
            Some(AddrClass::Overlay)
        } else {
            Some(AddrClass::Public)
        },
    }
}

/// `fe80::/10`.
pub open spec fn v6_link_local(ip: u128) -> bool {
    0xfe80_0000_0000_0000_0000_0000_0000_0000 <= ip < 0xfec0_0000_0000_0000_0000_0000_0000_0000
}

/// `ff00::/8`.
pub open spec fn v6_multicast(ip: u128) -> bool {
    ip >= 0xff00_0000_0000_0000_0000_0000_0000_0000
}

/// `fc00::/7`.
pub open spec fn v6_unique_local(ip: u128) -> bool {
    0xfc00_0000_0000_0000_0000_0000_0000_0000 <= ip < 0xfe00_0000_0000_0000_0000_0000_0000_0000
}

/// How an address is reached from here.
pub fn classify(ip: Ip, local: &LocalNetworks) -> (r: Option<AddrClass>)
    ensures
        r == class_of(ip, *local),
{
    match ip {
        Ip::V4(a) => if a == 0 || is_link_local(a) || is_multicast(a) {
            None
        } else if is_loopback(a) || local.contains_v4(a) {
            Some(AddrClass::LanDirect)
        } else if is_private(a) || is_cgnat(a) {
            Some(AddrClass::Overlay)
        } else {
            Some(AddrClass::Public)
        },
        Ip::V6(a) => if a == 0 || (0xfe80_0000_0000_0000_0000_0000_0000_0000 <= a && a
            < 0xfec0_0000_0000_0000_0000_0000_0000_0000) || a
            >= 0xff00_0000_0000_0000_0000_0000_0000_0000 {
            None
        } else if a == 1 || local.contains_v6(a) {
            Some(AddrClass::LanDirect)
        } else if 0xfc00_0000_0000_0000_0000_0000_0000_0000 <= a && a
            < 0xfe00_0000_0000_0000_0000_0000_0000_0000 {
            Some(AddrClass::Overlay)
        } else {
            Some(AddrClass::Public)
        },
    }
}

/// The first place of an address, or the number of addresses.
pub open spec fn addr_at(list: Seq<Candidate>, addr: Endpoint) -> nat
    decreases list.len(),
{
    if list.len() == 0 || list[0].addr == addr {
        0
    } else {
        1 + addr_at(list.drop_first(), addr)
    }
}

proof fn lemma_addr_at(list: Seq<Candidate>, addr: Endpoint, n: int)
    requires
        0 <= n <= list.len(),
        forall|i: int| 0 <= i < n ==> (#[trigger] list[i]).addr != addr,
        n == list.len() || list[n].addr == addr,
    ensures
        addr_at(list, addr) == n,
    decreases n,
{
    if n > 0 {
        assert(list[0].addr != addr);
        let t = list.drop_first();
        assert forall|i: int| 0 <= i < n - 1 implies (#[trigger] t[i]).addr != addr by {
            assert(list[i + 1].addr != addr);
        }
        lemma_addr_at(t, addr, n - 1);
    }
}

fn position_of(list: &Vec<Candidate>, addr: Endpoint) -> (r: usize)
    ensures
        r == addr_at(list@, addr),
        r <= list@.len(),
{
    let mut i: usize = 0;
    while i < list.len()
        invariant
            i <= list.len(),
            forall|k: int| 0 <= k < i ==> (#[trigger] list@[k]).addr != addr,
        decreases list.len() - i,
    {
        if list[i].addr == addr {
            proof {
                lemma_addr_at(list@, addr, i as int);
            }
            return i;
        }
        i += 1;
    }
    proof {
        lemma_addr_at(list@, addr, i as int);
    }
    i
}

/// The addresses of a device after one was learned: a new one at the end, a known one
/// in its place, still marked if it worked before.
pub open spec fn with_candidate(
    list: Seq<Candidate>,
    addr: Endpoint,
    class: AddrClass,
    source: AddrSource,
) -> Seq<Candidate> {
    let i = addr_at(list, addr);
    if i < list.len() {
        list.update(
            i as int,
            Candidate { addr, class, source, known_good: list[i as int].known_good },
        )
    } else {
        list.push(Candidate { addr, class, source, known_good: false })
    }
}

/// The addresses of a device after several were learned; those that lead nowhere are
/// left out.
pub open spec fn with_addrs(
    list: Seq<Candidate>,
    addrs: Seq<Endpoint>,
    source: AddrSource,
    local: LocalNetworks,
) -> Seq<Candidate>
    decreases addrs.len(),
{
    if addrs.len() == 0 {
        list
    } else {
        let before = with_addrs(list, addrs.drop_last(), source, local);
        match class_of(addrs.last().ip, local) {
            Some(class) => with_candidate(before, addrs.last(), class, source),
            None => before,
        }
    }
}

/// Whether an address is in a list.
pub open spec fn has_addr(list: Seq<Candidate>, addr: Endpoint) -> bool {
    exists|i: int| 0 <= i < list.len() && (#[trigger] list[i]).addr == addr
}

proof fn lemma_addr_at_first(list: Seq<Candidate>, addr: Endpoint)
    ensures
        addr_at(list, addr) <= list.len(),
        addr_at(list, addr) < list.len() ==> list[addr_at(list, addr) as int].addr == addr,
    decreases list.len(),
{
    if list.len() > 0 && list[0].addr != addr {
        lemma_addr_at_first(list.drop_first(), addr);
    }
}

/// Learning addresses adds those that lead anywhere, and takes none away.
pub proof fn lemma_with_addrs(
    list: Seq<Candidate>,
    addrs: Seq<Endpoint>,
    source: AddrSource,
    local: LocalNetworks,
    addr: Endpoint,
)
    ensures
        has_addr(list, addr) ==> has_addr(with_addrs(list, addrs, source, local), addr),
        addrs.contains(addr) && class_of(addr.ip, local) is Some ==> has_addr(
            with_addrs(list, addrs, source, local),
            addr,
        ),
    decreases addrs.len(),
{
    if addrs.len() > 0 {
        let rest = addrs.drop_last();
        let before = with_addrs(list, rest, source, local);
        let after = with_addrs(list, addrs, source, local);
        let last = addrs.last();
        lemma_with_addrs(list, rest, source, local, addr);
        lemma_addr_at_first(before, last);
        if addrs.contains(addr) && addr != last {
            let i = choose|i: int| 0 <= i < addrs.len() && addrs[i] == addr;
            assert(rest[i] == addr);
        }
        if has_addr(before, addr) {
            let i = choose|i: int| 0 <= i < before.len() && (#[trigger] before[i]).addr == addr;
            assert(after[i].addr == addr);
        }
        if addr == last && class_of(addr.ip, local) is Some {
            assert(after[addr_at(before, last) as int].addr == addr);
        }
    }
}

/// Whether a class of paths is better than another, or as good: direct paths come before
/// overlay ones, and those before public ones.
pub open spec fn no_worse(a: AddrClass, b: AddrClass) -> bool {
    match a {
        AddrClass::LanDirect => true,
        AddrClass::Overlay => b != AddrClass::LanDirect,
        AddrClass::Public => b == AddrClass::Public,
    }
}

/// Whether an address may be tried before another: its path is of a better class, or of the
/// same class and not one that never worked where the other one did.
pub open spec fn goes_before(a: Candidate, b: Candidate) -> bool {
    &&& no_worse(a.class, b.class)
    &&& a.class == b.class ==> (b.known_good ==> a.known_good)
}

/// The order in which an address is tried: by class, and within a class those that
/// worked before first.
pub open spec fn rank(c: Candidate) -> int {
    (match c.class {
        AddrClass::LanDirect => 0int,
        AddrClass::Overlay => 2,
        AddrClass::Public => 4,
    }) + if c.known_good {
        0int
    } else {
        1
    }
}

fn rank_of(c: &Candidate) -> (r: u8)
    ensures
        r == rank(*c),
{
    let base: u8 = match c.class {
        AddrClass::LanDirect => 0,
        AddrClass::Overlay => 2,
        AddrClass::Public => 4,
    };
    if c.known_good {
        base
    } else {
        base + 1
    }
}

/// The addresses of one rank, in the order in which they were learned.
pub open spec fn of_rank(list: Seq<Candidate>, k: int) -> Seq<Candidate>
    decreases list.len(),
{
    if list.len() == 0 {
        list
    } else if rank(list.last()) == k {
        of_rank(list.drop_last(), k).push(list.last())
    } else {
        of_rank(list.drop_last(), k)
    }
}

/// The addresses of all ranks below `k`, best first.
pub open spec fn ordered(list: Seq<Candidate>, k: int) -> Seq<Candidate>
    decreases k,
{
    if k <= 0 {
        Seq::empty()
    } else {
        ordered(list, k - 1) + of_rank(list, k - 1)
    }
}

/// The order in which the addresses of a device are tried.
pub open spec fn try_order(list: Seq<Candidate>) -> Seq<Candidate> {
    ordered(list, 6)
}

fn sort_candidates(list: &Vec<Candidate>) -> (r: Vec<Candidate>)
    ensures
        r@ == try_order(list@),
{
    let mut r: Vec<Candidate> = Vec::new();
    let mut k: u8 = 0;
    while k < 6
        invariant
            k <= 6,
            r@ == ordered(list@, k as int),
        decreases 6 - k,
    {
        let mut i: usize = 0;
        let ghost before = r@;
        assert(list@.take(0) =~= Seq::<Candidate>::empty());
        assert(before + of_rank(list@.take(0), k as int) =~= before);
        while i < list.len()
            invariant
                i <= list.len(),
                r@ == before + of_rank(list@.take(i as int), k as int),
            decreases list.len() - i,
        {
            proof {
                assert(list@.take(i + 1).drop_last() =~= list@.take(i as int));
                assert(list@.take(i + 1).last() == list@[i as int]);
            }
            if rank_of(&list[i]) == k {
                r.push(list[i]);
                assert(r@ =~= before + of_rank(list@.take(i as int), k as int).push(list@[i as int]));
            }
            i += 1;
        }
        assert(list@.take(list@.len() as int) =~= list@);
        k += 1;
    }
    r
}

/// The addresses of one device.
pub struct Entry {
    pub device: DeviceId,
    pub addrs: Vec<Candidate>,
}

/// The addresses of all devices.
pub struct AddrBook {
    entries: Vec<Entry>,
    local: LocalNetworks,
}

/// The first place of a device, or the number of devices.
pub open spec fn entry_at(entries: Seq<Entry>, device: Seq<char>) -> nat
    decreases entries.len(),
{
    if entries.len() == 0 || entries[0].device@ == device {
        0
    } else {
        1 + entry_at(entries.drop_first(), device)
    }
}

/// No device is listed twice.
pub open spec fn entries_distinct(entries: Seq<Entry>) -> bool {
    forall|i: int, j: int|
        0 <= i < j < entries.len() ==> (#[trigger] entries[i]).device@ != (
        #[trigger] entries[j]).device@
}

proof fn lemma_entry_at(entries: Seq<Entry>, device: Seq<char>, n: int)
    requires
        0 <= n <= entries.len(),
        forall|i: int| 0 <= i < n ==> (#[trigger] entries[i]).device@ != device,
        n == entries.len() || entries[n].device@ == device,
    ensures
        entry_at(entries, device) == n,
    decreases n,
{
    if n > 0 {
        assert(entries[0].device@ != device);
        let t = entries.drop_first();
        assert forall|i: int| 0 <= i < n - 1 implies (#[trigger] t[i]).device@ != device by {
            assert(entries[i + 1].device@ != device);
        }
        lemma_entry_at(t, device, n - 1);
    }
}

proof fn lemma_entry_at_first(entries: Seq<Entry>, device: Seq<char>)
    ensures
        entry_at(entries, device) <= entries.len(),
        forall|i: int|
            0 <= i < entry_at(entries, device) ==> (#[trigger] entries[i]).device@ != device,
        entry_at(entries, device) < entries.len() ==> entries[entry_at(
            entries,
            device,
        ) as int].device@ == device,
    decreases entries.len(),
{
    if entries.len() > 0 && entries[0].device@ != device {
        let t = entries.drop_first();
        lemma_entry_at_first(t, device);
        assert forall|i: int| 0 <= i < entry_at(entries, device) implies (
        #[trigger] entries[i]).device@ != device by {
            if i > 0 {
                assert(t[i - 1].device@ != device);
            }
        }
    }
}

/// Where a device is listed does not change when another one's addresses do.
proof fn lemma_entry_at_stable(a: Seq<Entry>, b: Seq<Entry>, device: Seq<char>)
    requires
        a.len() <= b.len(),
        forall|i: int| 0 <= i < a.len() ==> (#[trigger] a[i]).device@ == b[i].device@,
        forall|i: int| a.len() <= i < b.len() ==> (#[trigger] b[i]).device@ != device,
    ensures
        entry_at(a, device) < a.len() ==> entry_at(b, device) == entry_at(a, device),
        entry_at(a, device) == a.len() ==> entry_at(b, device) == b.len(),
{
    lemma_entry_at_first(a, device);
    lemma_entry_at_first(b, device);
    let n = entry_at(a, device) as int;
    assert forall|i: int| 0 <= i < n implies (#[trigger] b[i]).device@ != device by {
        assert(a[i].device@ != device);
    }
    if n < a.len() {
        assert(a[n].device@ == b[n].device@);
        lemma_entry_at(b, device, n);
    } else {
        assert forall|i: int| 0 <= i < b.len() implies (#[trigger] b[i]).device@ != device by {
            if i < a.len() {
                assert(a[i].device@ != device);
            }
        }
        lemma_entry_at(b, device, b.len() as int);
    }
}

impl AddrBook {
    pub closed spec fn spec_entries(&self) -> Seq<Entry> {
        self.entries@
    }

    /// This machine's own networks.
    pub closed spec fn spec_local(&self) -> LocalNetworks {
        self.local
    }

    pub open spec fn wf(&self) -> bool {
        entries_distinct(self.spec_entries())
    }

    /// The addresses of a device, in the order in which they were learned.
    pub open spec fn known(&self, device: Seq<char>) -> Seq<Candidate> {
        let i = entry_at(self.spec_entries(), device);
        if i < self.spec_entries().len() {
            self.spec_entries()[i as int].addrs@
        } else {
            Seq::empty()
        }
    }

    /// An empty book on a machine with these networks.
    pub fn new(local: LocalNetworks) -> (r: Self)
        ensures
            r.wf(),
            r.spec_local() == local,
            forall|d: Seq<char>| #[trigger] r.known(d) == Seq::<Candidate>::empty(),
    {
        AddrBook { entries: Vec::new(), local }
    }

    /// This machine's networks changed.
    pub fn refresh_local_networks(&mut self, local: LocalNetworks)
        requires
            old(self).wf(),
        ensures
            final(self).wf(),
            final(self).spec_local() == local,
            forall|d: Seq<char>| #[trigger] final(self).known(d) == old(self).known(d),
    {
        self.local = local;
    }

    fn position(&self, device: &DeviceId) -> (r: usize)
        ensures
            r == entry_at(self.spec_entries(), device@),
            r <= self.spec_entries().len(),
    {
        let mut i: usize = 0;
        while i < self.entries.len()
            invariant
                i <= self.entries.len(),
                forall|k: int| 0 <= k < i ==> (#[trigger] self.entries@[k]).device@ != device@,
            decreases self.entries.len() - i,
        {
            if self.entries[i].device.is(device) {
                proof {
                    lemma_entry_at(self.entries@, device@, i as int);
                }
                return i;
            }
            i += 1;
        }
        proof {
            lemma_entry_at(self.entries@, device@, i as int);
        }
        i
    }

    /// Replaces the addresses of a device.
    fn put(&mut self, device: &DeviceId, addrs: Vec<Candidate>)
        requires
            old(self).wf(),
        ensures
            final(self).wf(),
            final(self).spec_local() == old(self).spec_local(),
            final(self).known(device@) == addrs@,
            forall|d: Seq<char>|
                d != device@ ==> #[trigger] final(self).known(d) == old(self).known(d),
    {
        let i = self.position(device);
        let ghost before = self.entries@;
        proof {
            lemma_entry_at_first(before, device@);
        }
        let entry = Entry { device: device.dup(), addrs };
        if i < self.entries.len() {
            self.entries.set(i, entry);
        } else {
            self.entries.push(entry);
        }
        let ghost after = self.entries@;
        proof {
            assert forall|a: int, b: int| 0 <= a < b < after.len() implies (
            #[trigger] after[a]).device@ != (#[trigger] after[b]).device@ by {
                if b < before.len() {
                    assert(before[a].device@ != before[b].device@);
                } else {
                    assert(before[a].device@ != device@);
                }
            }
            assert forall|k: int| 0 <= k < i implies (#[trigger] after[k]).device@ != device@ by {
                assert(before[k].device@ != device@);
            }
            lemma_entry_at(after, device@, i as int);
            assert forall|d: Seq<char>| d != device@ implies #[trigger] self.known(d) == old(
                self,
            ).known(d) by {
                lemma_entry_at_first(before, d);
                lemma_entry_at_stable(before, after, d);
            }
        }
    }

    /// Remembers addresses of a device. Those that lead nowhere are left out.
    pub fn add_addrs(&mut self, device: &DeviceId, addrs: &Vec<Endpoint>, source: AddrSource)
        requires
            old(self).wf(),
        ensures
            final(self).wf(),
            final(self).spec_local() == old(self).spec_local(),
            final(self).known(device@) == with_addrs(
                old(self).known(device@),
                addrs@,
                source,
                old(self).spec_local(),
            ),
            forall|d: Seq<char>|
                d != device@ ==> #[trigger] final(self).known(d) == old(self).known(d),
    {
        let i = self.position(device);
        let mut list: Vec<Candidate> = Vec::new();
        if i < self.entries.len() {
            let mut k: usize = 0;
            while k < self.entries[i].addrs.len()
                invariant
                    i < self.entries@.len(),
                    k <= self.entries@[i as int].addrs@.len(),
                    list@ == self.entries@[i as int].addrs@.take(k as int),
                decreases self.entries@[i as int].addrs@.len() - k,
            {
                list.push(self.entries[i].addrs[k]);
                k += 1;
            }
            assert(self.entries@[i as int].addrs@.take(k as int)
                =~= self.entries@[i as int].addrs@);
        }
        let ghost start = list@;
        assert(start == self.known(device@));
        let mut j: usize = 0;
        assert(addrs@.take(0) =~= Seq::<Endpoint>::empty());
        while j < addrs.len()
            invariant
                j <= addrs.len(),
                *self == *old(self),
                list@ == with_addrs(start, addrs@.take(j as int), source, self.spec_local()),
            decreases addrs.len() - j,
        {
            let addr = addrs[j];
            proof {
                assert(addrs@.take(j + 1).drop_last() =~= addrs@.take(j as int));
                assert(addrs@.take(j + 1).last() == addr);
            }
            match classify(addr.ip, &self.local) {
                Some(class) => {
                    let p = position_of(&list, addr);
                    if p < list.len() {
                        let known_good = list[p].known_good;
                        list.set(p, Candidate { addr, class, source, known_good });
                    } else {
                        list.push(Candidate { addr, class, source, known_good: false });
                    }
                },
                None => {},
            }
            j += 1;
        }
        assert(addrs@.take(addrs@.len() as int) =~= addrs@);
        self.put(device, list);
    }

    /// The addresses of a device in the order in which to try them.
    pub fn connect_order(&self, device: &DeviceId) -> (r: Vec<Candidate>)
        ensures
            r@ == try_order(self.known(device@)),
            forall|i: int, j: int|
                0 <= i < j < r@.len() ==> goes_before(#[trigger] r@[i], #[trigger] r@[j]),
            forall|c: Candidate| #[trigger] r@.contains(c) == self.known(device@).contains(c),
            r@.len() == self.known(device@).len(),
    {
        proof {
            better_paths_come_first(self.known(device@));
            better_paths_come_first(Seq::<Candidate>::empty());
        }
        let i = self.position(device);
        if i < self.entries.len() {
            sort_candidates(&self.entries[i].addrs)
        } else {
            sort_candidates(&Vec::new())
        }
    }

    /// An address of a device worked.
    pub fn mark_good(&mut self, device: &DeviceId, addr: &Endpoint)
        requires
            old(self).wf(),
        ensures
            final(self).wf(),
            final(self).spec_local() == old(self).spec_local(),
            final(self).known(device@) == marked(old(self).known(device@), *addr),
            forall|d: Seq<char>|
                d != device@ ==> #[trigger] final(self).known(d) == old(self).known(d),
    {
        let i = self.position(device);
        if i >= self.entries.len() {
            return;
        }
        let p = position_of(&self.entries[i].addrs, *addr);
        if p >= self.entries[i].addrs.len() {
            return;
        }
        let mut list: Vec<Candidate> = Vec::new();
        let mut k: usize = 0;
        while k < self.entries[i].addrs.len()
            invariant
                i < self.entries@.len(),
                k <= self.entries@[i as int].addrs@.len(),
                list@ == self.entries@[i as int].addrs@.take(k as int),
            decreases self.entries@[i as int].addrs@.len() - k,
        {
            list.push(self.entries[i].addrs[k]);
            k += 1;
        }
        assert(self.entries@[i as int].addrs@.take(k as int) =~= self.entries@[i as int].addrs@);
        let c = list[p];
        list.set(
            p,
            Candidate { addr: c.addr, class: c.class, source: c.source, known_good: true },
        );
        self.put(device, list);
    }

    /// Forgets a device.
    pub fn forget(&mut self, device: &DeviceId)
        requires
            old(self).wf(),
        ensures
            final(self).wf(),
            final(self).spec_local() == old(self).spec_local(),
            final(self).known(device@) == Seq::<Candidate>::empty(),
            forall|d: Seq<char>|
                d != device@ ==> #[trigger] final(self).known(d) == old(self).known(d),
    {
        let i = self.position(device);
        if i >= self.entries.len() {
            return;
        }
        let ghost before = self.entries@;
        proof {
            lemma_entry_at_first(before, device@);
        }
        self.entries.remove(i);
        let ghost after = self.entries@;
        proof {
            assert forall|a: int, b: int| 0 <= a < b < after.len() implies (
            #[trigger] after[a]).device@ != (#[trigger] after[b]).device@ by {
                let a2 = if a < i {
                    a
                } else {
                    a + 1
                };
                let b2 = if b < i {
                    b
                } else {
                    b + 1
                };
                assert(before[a2].device@ != before[b2].device@);
            }
            assert forall|k: int| 0 <= k < after.len() implies (#[trigger] after[k]).device@
                != device@ by {
                if k < i {
                    assert(before[k].device@ != device@);
                } else {
                    assert(before[i as int].device@ != before[k + 1].device@);
                }
            }
            lemma_entry_at(after, device@, after.len() as int);
            assert forall|d: Seq<char>| d != device@ implies #[trigger] self.known(d) == old(
                self,
            ).known(d) by {
                lemma_entry_at_first(before, d);
                let n = entry_at(before, d) as int;
                if n < before.len() {
                    let m = if n < i {
                        n
                    } else {
                        n - 1
                    };
                    assert forall|k: int| 0 <= k < m implies (#[trigger] after[k]).device@ != d by {
                        if k < i {
                            assert(before[k].device@ != d);
                        } else {
                            assert(before[k + 1].device@ != d);
                        }
                    }
                    assert(after[m] == before[n]);
                    lemma_entry_at(after, d, m);
                } else {
                    assert forall|k: int| 0 <= k < after.len() implies (
                    #[trigger] after[k]).device@ != d by {
                        if k < i {
                            assert(before[k].device@ != d);
                        } else {
                            assert(before[k + 1].device@ != d);
                        }
                    }
                    lemma_entry_at(after, d, after.len() as int);
                }
            }
        }
    }

    /// How many addresses of a device are known.
    pub fn count(&self, device: &DeviceId) -> (r: usize)
        ensures
            r == self.known(device@).len(),
    {
        let i = self.position(device);
        if i < self.entries.len() {
            self.entries[i].addrs.len()
        } else {
            0
        }
    }

    /// All devices, each with its addresses in the order in which to try them.
    pub fn snapshot(&self) -> (r: Vec<Entry>)
        ensures
            r@.len() == self.spec_entries().len(),
            forall|i: int|
                0 <= i < r@.len() ==> (#[trigger] r@[i]).device == self.spec_entries()[i].device
                    && r@[i].addrs@ == try_order(self.spec_entries()[i].addrs@),
    {
        let mut r: Vec<Entry> = Vec::new();
        let mut i: usize = 0;
        while i < self.entries.len()
            invariant
                i <= self.entries.len(),
                r@.len() == i,
                forall|k: int|
                    0 <= k < i ==> (#[trigger] r@[k]).device == self.entries@[k].device
                        && r@[k].addrs@ == try_order(self.entries@[k].addrs@),
            decreases self.entries.len() - i,
        {
            r.push(
                Entry {
                    device: self.entries[i].device.dup(),
                    addrs: sort_candidates(&self.entries[i].addrs),
                },
            );
            i += 1;
        }
        r
    }
}

/// The addresses of a device after one of them worked.
pub open spec fn marked(list: Seq<Candidate>, addr: Endpoint) -> Seq<Candidate> {
    let i = addr_at(list, addr);
    if i < list.len() {
        list.update(i as int, Candidate { known_good: true, ..list[i as int] })
    } else {
        list
    }
}

/// What the book knows after the stored pairings were put in.
pub open spec fn seeded(
    list: Seq<Candidate>,
    records: Seq<PairingRecord>,
    device: Seq<char>,
    local: LocalNetworks,
) -> Seq<Candidate>
    decreases records.len(),
{
    if records.len() == 0 {
        list
    } else {
        let before = seeded(list, records.drop_last(), device, local);
        if records.last().device@ == device {
            with_addrs(before, records.last().addrs@, AddrSource::Pairing, local)
        } else {
            before
        }
    }
}

/// Puts the addresses of stored pairings into the book.
pub fn seed_addrbook_from_pairings(book: &mut AddrBook, records: &Vec<PairingRecord>)
    requires
        old(book).wf(),
    ensures
        final(book).wf(),
        final(book).spec_local() == old(book).spec_local(),
        forall|d: Seq<char>| #[trigger]
            final(book).known(d) == seeded(
                old(book).known(d),
                records@,
                d,
                old(book).spec_local(),
            ),
{
    let mut i: usize = 0;
    assert(records@.take(0) =~= Seq::<PairingRecord>::empty());
    while i < records.len()
        invariant
            i <= records.len(),
            book.wf(),
            book.spec_local() == old(book).spec_local(),
            forall|d: Seq<char>| #[trigger]
                book.known(d) == seeded(
                    old(book).known(d),
                    records@.take(i as int),
                    d,
                    old(book).spec_local(),
                ),
        decreases records.len() - i,
    {
        let ghost before = *book;
        let ghost d0 = records@[i as int].device@;
        proof {
            assert(records@.take(i + 1).drop_last() =~= records@.take(i as int));
            assert(records@.take(i + 1).last() == records@[i as int]);
        }
        if records[i].addrs.len() > 0 {
            book.add_addrs(&records[i].device, &records[i].addrs, AddrSource::Pairing);
        }
        assert forall|d: Seq<char>| #[trigger] book.known(d) == seeded(
            old(book).known(d),
            records@.take(i + 1),
            d,
            old(book).spec_local(),
        ) by {
            assert(before.known(d) == seeded(
                old(book).known(d),
                records@.take(i as int),
                d,
                old(book).spec_local(),
            ));
        }
        i += 1;
    }
    assert(records@.take(records@.len() as int) =~= records@);
}

proof fn lemma_of_rank(list: Seq<Candidate>, k: int)
    ensures
        forall|i: int|
            0 <= i < of_rank(list, k).len() ==> rank(#[trigger] of_rank(list, k)[i]) == k,
        forall|c: Candidate| #[trigger]
            of_rank(list, k).contains(c) == (list.contains(c) && rank(c) == k),
    decreases list.len(),
{
    if list.len() > 0 {
        let t = list.drop_last();
        let l = list.last();
        lemma_of_rank(t, k);
        let r = of_rank(list, k);
        let u = of_rank(t, k);
        assert forall|i: int| 0 <= i < r.len() implies rank(#[trigger] r[i]) == k by {
            if i < u.len() {
                assert(rank(u[i]) == k);
            }
        }
        assert forall|c: Candidate| #[trigger] r.contains(c) == (list.contains(c) && rank(c) == k) by {
            assert(list.contains(c) == (t.contains(c) || c == l)) by {
                if t.contains(c) {
                    let i = choose|i: int| 0 <= i < t.len() && t[i] == c;
                    assert(list[i] == c);
                }
                if c == l {
                    assert(list[list.len() - 1] == c);
                }
                if list.contains(c) && c != l {
                    let i = choose|i: int| 0 <= i < list.len() && list[i] == c;
                    assert(t[i] == c);
                }
            }
            if rank(l) == k {
                assert(r.contains(c) == (u.contains(c) || c == l)) by {
                    if u.contains(c) {
                        let i = choose|i: int| 0 <= i < u.len() && u[i] == c;
                        assert(r[i] == c);
                    }
                    if c == l {
                        assert(r[r.len() - 1] == c);
                    }
                    if r.contains(c) && c != l {
                        let i = choose|i: int| 0 <= i < r.len() && r[i] == c;
                        assert(u[i] == c);
                    }
                }
            }
        }
    } else {
        assert forall|c: Candidate| #[trigger] of_rank(list, k).contains(c) == (list.contains(c)
            && rank(c) == k) by {
        }
    }
}

proof fn lemma_ordered(list: Seq<Candidate>, k: int)
    requires
        0 <= k,
    ensures
        forall|i: int, j: int|
            0 <= i <= j < ordered(list, k).len() ==> rank(#[trigger] ordered(list, k)[i]) <= rank(
                #[trigger] ordered(list, k)[j],
            ),
        forall|c: Candidate| #[trigger]
            ordered(list, k).contains(c) == (list.contains(c) && rank(c) < k),
    decreases k,
{
    if k == 0 {
        assert forall|c: Candidate| #[trigger] ordered(list, k).contains(c) == (list.contains(c)
            && rank(c) < k) by {
        }
    } else {
        lemma_ordered(list, k - 1);
        lemma_of_rank(list, k - 1);
        let a = ordered(list, k - 1);
        let b = of_rank(list, k - 1);
        let r = ordered(list, k);
        assert forall|i: int, j: int| 0 <= i <= j < r.len() implies rank(#[trigger] r[i]) <= rank(
            #[trigger] r[j],
        ) by {
            if j < a.len() {
                assert(rank(a[i]) <= rank(a[j]));
            } else {
                assert(rank(b[j - a.len()]) == k - 1);
                if i < a.len() {
                    assert(a.contains(a[i]));
                } else {
                    assert(rank(b[i - a.len()]) == k - 1);
                }
            }
        }
        assert forall|c: Candidate| #[trigger] r.contains(c) == (list.contains(c) && rank(c) < k) by {
            assert(r.contains(c) == (a.contains(c) || b.contains(c))) by {
                if a.contains(c) {
                    let i = choose|i: int| 0 <= i < a.len() && a[i] == c;
                    assert(r[i] == c);
                }
                if b.contains(c) {
                    let i = choose|i: int| 0 <= i < b.len() && b[i] == c;
                    assert(r[a.len() + i] == c);
                }
                if r.contains(c) {
                    let i = choose|i: int| 0 <= i < r.len() && r[i] == c;
                    if i < a.len() {
                        assert(a[i] == c);
                    } else {
                        assert(b[i - a.len()] == c);
                    }
                }
            }
            assert(a.contains(c) == (list.contains(c) && rank(c) < k - 1));
            assert(b.contains(c) == (list.contains(c) && rank(c) == k - 1));
        }
    }
}

proof fn lemma_count(list: Seq<Candidate>, k: int)
    requires
        0 <= k,
    ensures
        ordered(list, k).len() == of_ranks_below(list, k),
    decreases k,
{
    if k > 0 {
        lemma_count(list, k - 1);
        lemma_count_rank(list, k - 1);
    } else {
        lemma_count_none(list);
    }
}

/// How many addresses have a rank below `k`.
spec fn of_ranks_below(list: Seq<Candidate>, k: int) -> nat
    decreases list.len(),
{
    if list.len() == 0 {
        0
    } else {
        of_ranks_below(list.drop_last(), k) + if 0 <= rank(list.last()) < k {
            1nat
        } else {
            0nat
        }
    }
}

proof fn lemma_count_rank(list: Seq<Candidate>, k: int)
    requires
        0 <= k,
    ensures
        of_ranks_below(list, k + 1) == of_ranks_below(list, k) + of_rank(list, k).len(),
    decreases list.len(),
{
    if list.len() > 0 {
        lemma_count_rank(list.drop_last(), k);
    }
}

proof fn lemma_all_ranked(list: Seq<Candidate>)
    ensures
        of_ranks_below(list, 6) == list.len(),
    decreases list.len(),
{
    if list.len() > 0 {
        lemma_all_ranked(list.drop_last());
    }
}

proof fn lemma_count_none(list: Seq<Candidate>)
    ensures
        of_ranks_below(list, 0) == 0,
    decreases list.len(),
{
    if list.len() > 0 {
        lemma_count_none(list.drop_last());
    }
}

/// Direct paths are tried before overlay paths and those before public ones, whether they
/// ever worked or not; within each class those that worked before come first; and no
/// address is lost or made up.
pub proof fn better_paths_come_first(list: Seq<Candidate>)
    ensures
        forall|i: int, j: int|
            0 <= i <= j < try_order(list).len() ==> rank(#[trigger] try_order(list)[i]) <= rank(
                #[trigger] try_order(list)[j],
            ),
        forall|i: int, j: int|
            0 <= i < j < try_order(list).len() ==> goes_before(
                #[trigger] try_order(list)[i],
                #[trigger] try_order(list)[j],
            ),
        forall|i: int, j: int|
            0 <= i < j < try_order(list).len() ==> {
                let (a, b) = (#[trigger] try_order(list)[i], #[trigger] try_order(list)[j]);
                &&& b.class == AddrClass::LanDirect ==> a.class == AddrClass::LanDirect
                &&& b.class == AddrClass::Overlay ==> a.class != AddrClass::Public
                &&& a.class == b.class && b.known_good ==> a.known_good
            },
        forall|c: Candidate| #[trigger] try_order(list).contains(c) == list.contains(c),
        try_order(list).len() == list.len(),
{
    lemma_ordered(list, 6);
    assert forall|c: Candidate| #[trigger] try_order(list).contains(c) == list.contains(c) by {
        assert(ordered(list, 6).contains(c) == (list.contains(c) && rank(c) < 6));
    }
    assert forall|i: int, j: int| 0 <= i < j < try_order(list).len() implies goes_before(
        #[trigger] try_order(list)[i],
        #[trigger] try_order(list)[j],
    ) by {
        assert(rank(try_order(list)[i]) <= rank(try_order(list)[j]));
    }
    lemma_count(list, 6);
    lemma_all_ranked(list);
}

/// An address in one of this machine's own networks is a direct path, unless it is one that
/// leads nowhere; an address of a private or an overlay network elsewhere is an overlay
/// path; and every other one goes over the public net.
pub proof fn paths_are_told_apart(a: u32, net: u32, mask: u32, i: int, local: LocalNetworks)
    ensures
        // 0.0.0.0, 169.254.0.0/16 and 224.0.0.0/4
        (a == 0 || 0xa9fe_0000 <= a <= 0xa9fe_ffff || 0xe000_0000 <= a <= 0xefff_ffff) <==> class_of(
            Ip::V4(a),
            local,
        ) is None,
        // 127.0.0.0/8
        0x7f00_0000 <= a <= 0x7fff_ffff ==> class_of(Ip::V4(a), local) == Some(
            AddrClass::LanDirect,
        ),
        0 <= i < local.v4@.len() && local.v4@[i] == (net, mask) && (a & mask) == (net & mask)
            && class_of(Ip::V4(a), local) is Some ==> class_of(Ip::V4(a), local) == Some(
            AddrClass::LanDirect,
        ),
        // 10.0.0.0/8, 172.16.0.0/12, 192.168.0.0/16 and 100.64.0.0/10
        local.v4@.len() == 0 && (0x0a00_0000 <= a <= 0x0aff_ffff || 0xac10_0000 <= a <= 0xac1f_ffff
            || 0xc0a8_0000 <= a <= 0xc0a8_ffff || 0x6440_0000 <= a <= 0x647f_ffff) ==> class_of(
            Ip::V4(a),
            local,
        ) == Some(AddrClass::Overlay),
        class_of(Ip::V4(a), local) == Some(AddrClass::Overlay) ==> (0x0a00_0000 <= a <= 0x0aff_ffff
            || 0xac10_0000 <= a <= 0xac1f_ffff || 0xc0a8_0000 <= a <= 0xc0a8_ffff || 0x6440_0000
            <= a <= 0x647f_ffff) && (0 <= i < local.v4@.len() && local.v4@[i] == (net, mask) ==> (a
            & mask) != (net & mask)),
        class_of(Ip::V4(a), local) == Some(AddrClass::LanDirect) ==> (0x7f00_0000 <= a
            <= 0x7fff_ffff) || exists|k: int|
            0 <= k < local.v4@.len() && (a & (#[trigger] local.v4@[k]).1) == (local.v4@[k].0
                & local.v4@[k].1),
{
    if 0 <= i < local.v4@.len() && local.v4@[i] == (net, mask) && (a & mask) == (net & mask) {
        assert((a & local.v4@[i].1) == (local.v4@[i].0 & local.v4@[i].1));
        assert(local.has_v4(a));
    }
}

/// The same of IPv6: an address in one of this machine's own networks is a direct path, a
/// unique local one elsewhere an overlay path, and every other one public; link-local and
/// multicast addresses and the empty one lead nowhere.
pub proof fn long_paths_are_told_apart(a: u128, net: u128, mask: u128, i: int, local: LocalNetworks)
    ensures
        class_of(Ip::V6(a), local) is None <==> (a == 0 || a / 0x40_0000_0000_0000_0000_0000_0000_0000 == 0x3fa
            || a / 0x100_0000_0000_0000_0000_0000_0000_0000 == 0xff),
        a == 1 ==> class_of(Ip::V6(a), local) == Some(AddrClass::LanDirect),
        0 <= i < local.v6@.len() && local.v6@[i] == (net, mask) && (a & mask) == (net & mask)
            && class_of(Ip::V6(a), local) is Some ==> class_of(Ip::V6(a), local) == Some(
            AddrClass::LanDirect,
        ),
        local.v6@.len() == 0 && a / 0x200_0000_0000_0000_0000_0000_0000_0000 == 0x7e ==> class_of(
            Ip::V6(a),
            local,
        ) == Some(AddrClass::Overlay),
        class_of(Ip::V6(a), local) == Some(AddrClass::Overlay) ==> a
            / 0x200_0000_0000_0000_0000_0000_0000_0000 == 0x7e,
        class_of(Ip::V6(a), local) == Some(AddrClass::LanDirect) ==> a == 1 || exists|k: int|
            0 <= k < local.v6@.len() && (a & (#[trigger] local.v6@[k]).1) == (local.v6@[k].0
                & local.v6@[k].1),
{
    if 0 <= i < local.v6@.len() && local.v6@[i] == (net, mask) && (a & mask) == (net & mask) {
        assert((a & local.v6@[i].1) == (local.v6@[i].0 & local.v6@[i].1));
        assert(local.has_v6(a));
    }
}

/// No address is listed twice.
pub open spec fn listed_once(list: Seq<Candidate>) -> bool {
    forall|i: int, j: int|
        0 <= i < j < list.len() ==> (#[trigger] list[i]).addr != (#[trigger] list[j]).addr
}

proof fn lemma_addr_before(list: Seq<Candidate>, addr: Endpoint)
    ensures
        forall|i: int| 0 <= i < addr_at(list, addr) && i < list.len() ==> (#[trigger] list[i]).addr != addr,
    decreases list.len(),
{
    if list.len() > 0 && list[0].addr != addr {
        let t = list.drop_first();
        lemma_addr_before(t, addr);
        assert forall|i: int| 0 <= i < addr_at(list, addr) && i < list.len() implies (
        #[trigger] list[i]).addr != addr by {
            if i > 0 {
                assert(t[i - 1].addr != addr);
            }
        }
    }
}

/// Learning one address puts it into the list with its class and where it was heard of,
/// keeps whether it worked before, leaves all others alone, and lists nothing twice.
pub proof fn a_learned_address_is_listed(
    list: Seq<Candidate>,
    addr: Endpoint,
    class: AddrClass,
    source: AddrSource,
    c: Candidate,
)
    requires
        listed_once(list),
    ensures
        listed_once(with_candidate(list, addr, class, source)),
        c.addr != addr ==> with_candidate(list, addr, class, source).contains(c) == list.contains(c),
        c.addr == addr ==> with_candidate(list, addr, class, source).contains(c) == (c.class
            == class && c.source == source && (c.known_good <==> exists|i: int|
            0 <= i < list.len() && (#[trigger] list[i]).addr == addr && list[i].known_good)),
{
    lemma_addr_at_first(list, addr);
    lemma_addr_before(list, addr);
    let n = addr_at(list, addr) as int;
    let r = with_candidate(list, addr, class, source);
    assert forall|i: int, j: int| 0 <= i < j < r.len() implies (#[trigger] r[i]).addr != (
    #[trigger] r[j]).addr by {
        if j < list.len() {
            assert(list[i].addr != list[j].addr);
        } else {
            assert(list[i].addr != addr);
        }
    }
    if list.contains(c) && c.addr != addr {
        let i = choose|i: int| 0 <= i < list.len() && list[i] == c;
        assert(r[i] == c);
    }
    if r.contains(c) {
        let i = choose|i: int| 0 <= i < r.len() && r[i] == c;
        if c.addr != addr {
            assert(list[i] == c);
        } else {
            assert(i == n) by {
                if i != n {
                    assert(list[i].addr == addr);
                    if n < list.len() {
                        assert(list[n].addr == addr);
                    }
                }
            }
        }
    }
    assert(r[n].addr == addr);
    if exists|i: int| 0 <= i < list.len() && (#[trigger] list[i]).addr == addr && list[i].known_good {
        let i = choose|i: int|
            0 <= i < list.len() && (#[trigger] list[i]).addr == addr && list[i].known_good;
        assert(i == n) by {
            if i != n && n < list.len() {
                assert(list[n].addr == list[i].addr);
            }
        }
        assert(r[n].known_good);
    } else if n < list.len() {
        assert(list[n].addr == addr);
        assert(!r[n].known_good);
    }
    if c.addr == addr && c.class == class && c.source == source && c.known_good == r[n].known_good {
        assert(r[n] == c);
    }
}

/// Addresses that are learned keep a list free of doubles, and are listed with the class
/// that they have from here and with where they were heard of last.
pub proof fn learned_addresses_are_listed(
    list: Seq<Candidate>,
    addrs: Seq<Endpoint>,
    source: AddrSource,
    local: LocalNetworks,
    addr: Endpoint,
)
    requires
        listed_once(list),
    ensures
        ({
            let after = with_addrs(list, addrs, source, local);
            &&& listed_once(after)
            &&& forall|c: Candidate|
                c.addr == addr && (!addrs.contains(addr) || class_of(addr.ip, local) is None)
                    ==> #[trigger] after.contains(c) == list.contains(c)
            &&& addrs.contains(addr) && class_of(addr.ip, local) is Some ==> {
                &&& has_addr(after, addr)
                &&& forall|c: Candidate| #[trigger]
                    after.contains(c) && c.addr == addr ==> c.class == class_of(
                        addr.ip,
                        local,
                    )->0 && c.source == source
            }
        }),
    decreases addrs.len(),
{
    if addrs.len() > 0 {
        let rest = addrs.drop_last();
        let last = addrs.last();
        let before = with_addrs(list, rest, source, local);
        let after = with_addrs(list, addrs, source, local);
        learned_addresses_are_listed(list, rest, source, local, addr);
        lemma_with_addrs(list, addrs, source, local, addr);
        assert(addrs.contains(addr) == (rest.contains(addr) || addr == last)) by {
            if rest.contains(addr) {
                let i = choose|i: int| 0 <= i < rest.len() && rest[i] == addr;
                assert(addrs[i] == addr);
            }
            if addr == last {
                assert(addrs[addrs.len() - 1] == addr);
            }
            if addrs.contains(addr) && addr != last {
                let i = choose|i: int| 0 <= i < addrs.len() && addrs[i] == addr;
                assert(rest[i] == addr);
            }
        }
        if let Some(class) = class_of(last.ip, local) {
            assert forall|c: Candidate| #[trigger] after.contains(c) implies c.addr != last
                && before.contains(c) || c.addr == last && c.class == class && c.source
                == source by {
                a_learned_address_is_listed(before, last, class, source, c);
            }
            assert forall|c: Candidate| c.addr != last implies #[trigger] after.contains(c)
                == before.contains(c) by {
                a_learned_address_is_listed(before, last, class, source, c);
            }
            a_learned_address_is_listed(
                before,
                last,
                class,
                source,
                Candidate { addr: last, class, source, known_good: true },
            );
        }
    }
}

/// An address that worked is marked, and nothing else changes.
pub proof fn a_good_address_is_marked(list: Seq<Candidate>, addr: Endpoint, i: int)
    requires
        listed_once(list),
        0 <= i < list.len(),
    ensures
        marked(list, addr).len() == list.len(),
        marked(list, addr)[i].addr == list[i].addr,
        marked(list, addr)[i].class == list[i].class,
        marked(list, addr)[i].source == list[i].source,
        marked(list, addr)[i].known_good == (list[i].known_good || list[i].addr == addr),
{
    lemma_addr_at_first(list, addr);
    lemma_addr_before(list, addr);
    let n = addr_at(list, addr) as int;
    if n < list.len() && i != n {
        assert(list[n].addr != list[i].addr);
    }
}

/// Every usable address of every stored pairing is in the book from the start.
pub proof fn stored_pairings_can_be_looked_for(
    list: Seq<Candidate>,
    records: Seq<PairingRecord>,
    local: LocalNetworks,
    i: int,
    k: int,
)
    requires
        0 <= i < records.len(),
        0 <= k < records[i].addrs@.len(),
        class_of(records[i].addrs@[k].ip, local) is Some,
    ensures
        has_addr(seeded(list, records, records[i].device@, local), records[i].addrs@[k]),
    decreases records.len(),
{
    let rest = records.drop_last();
    let device = records[i].device@;
    let before = seeded(list, rest, device, local);
    let last = records.last();
    if i < rest.len() {
        assert(rest[i] == records[i]);
        stored_pairings_can_be_looked_for(list, rest, local, i, k);
        if last.device@ == device {
            lemma_with_addrs(before, last.addrs@, AddrSource::Pairing, local, records[i].addrs@[k]);
        }
    } else {
        assert(last == records[i]);
        lemma_with_addrs(before, last.addrs@, AddrSource::Pairing, local, last.addrs@[k]);
    }
}

/// A device without a stored pairing gains nothing from the pairings of others.
pub proof fn pairings_of_others_change_nothing(
    list: Seq<Candidate>,
    records: Seq<PairingRecord>,
    device: Seq<char>,
    local: LocalNetworks,
)
    requires
        forall|i: int| 0 <= i < records.len() ==> (#[trigger] records[i]).device@ != device,
    ensures
        seeded(list, records, device, local) == list,
    decreases records.len(),
{
    if records.len() > 0 {
        let rest = records.drop_last();
        assert forall|i: int| 0 <= i < rest.len() implies (#[trigger] rest[i]).device@ != device by {
            assert(records[i].device@ != device);
        }
        pairings_of_others_change_nothing(list, rest, device, local);
        assert(records[records.len() - 1].device@ != device);
    }
}

} // verus!
