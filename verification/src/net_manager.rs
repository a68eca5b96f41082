//! Connections: who keeps which one, and when to dial again.
//!
//! Both devices of a pair dial. Of the connections that come about, both keep the one
//! that the device with the smaller id dialled, and they can tell which one that is
//! without asking each other.

use vstd::prelude::*;

use crate::config::Settings;
use crate::known_peers::{key_at, KnownPeers};
use crate::text::chars_of;
use crate::types::{DeviceId, Endpoint, SyncMessage};

verus! {

/// How long an attempt to connect may take.
pub const DIAL_TIMEOUT_MS: u64 = 3_000;

/// The time between rounds of dialling to begin with.
pub const DIAL_RETRY_INTERVAL_MS: u64 = 3_000;

/// The time between rounds of dialling at most.
pub const DIAL_RETRY_MAX_MS: u64 = 15_000;

/// How many rounds pass between two looks at this machine's own networks.
pub const REFRESH_NETWORKS_EVERY: u32 = 10;

/// How long a connection in the other direction waits before it takes its place.
pub const NONCANONICAL_YIELD_MS: u64 = 500;

/// A connection that lasts no longer than this was refused by the other side.
pub const REFUSED_WITHIN_MS: u64 = 2_000;

/// The devices connected now, each at most once.
pub struct ConnRegistry {
    devices: Vec<DeviceId>,
}

/// Whether a device is listed.
pub open spec fn registered(devices: Seq<DeviceId>, device: Seq<char>) -> bool {
    exists|i: int| 0 <= i < devices.len() && (#[trigger] devices[i])@ == device
}

/// No device is listed twice.
pub open spec fn registered_once(devices: Seq<DeviceId>) -> bool {
    forall|i: int, j: int|
        0 <= i < j < devices.len() ==> (#[trigger] devices[i])@ != (#[trigger] devices[j])@
}

impl ConnRegistry {
    pub closed spec fn view(&self) -> Seq<DeviceId> {
        self.devices@
    }

    pub open spec fn wf(&self) -> bool {
        registered_once(self@)
    }

    /// Nobody is connected.
    pub fn new() -> (r: Self)
        ensures
            r.wf(),
            r@.len() == 0,
    {
        ConnRegistry { devices: Vec::new() }
    }

    fn position(&self, device: &DeviceId) -> (r: Option<usize>)
        ensures
            match r {
                Some(i) => i < self@.len() && self@[i as int]@ == device@,
                None => !registered(self@, device@),
            },
    {
        let mut i: usize = 0;
        while i < self.devices.len()
            invariant
                i <= self.devices.len(),
                forall|k: int| 0 <= k < i ==> (#[trigger] self.devices@[k])@ != device@,
            decreases self.devices.len() - i,
        {
            if self.devices[i].is(device) {
                return Some(i);
            }
            i += 1;
        }
        None
    }

    /// Takes a device's place; refused where it is taken.
    pub fn try_insert(&mut self, device: &DeviceId) -> (r: bool)
        requires
            old(self).wf(),
        ensures
            final(self).wf(),
            r == !registered(old(self)@, device@),
            final(self)@ == if r {
                old(self)@.push(*device)
            } else {
                old(self)@
            },
    {
        match self.position(device) {
            Some(i) => {
                assert(self@[i as int]@ == device@);
                false
            },
            None => {
                let ghost before = self@;
                self.devices.push(device.dup());
                assert forall|i: int, j: int| 0 <= i < j < self@.len() implies (
                #[trigger] self@[i])@ != (#[trigger] self@[j])@ by {
                    if j == before.len() {
                        assert(before[i]@ != device@);
                    } else {
                        assert(before[i]@ != before[j]@);
                    }
                }
                true
            },
        }
    }

    /// Gives up a device's place.
    pub fn remove(&mut self, device: &DeviceId)
        requires
            old(self).wf(),
        ensures
            final(self).wf(),
            !registered(final(self)@, device@),
            forall|d: Seq<char>|
                d != device@ ==> #[trigger] registered(final(self)@, d) == registered(
                    old(self)@,
                    d,
                ),
            final(self)@.len() == old(self)@.len() - if registered(old(self)@, device@) {
                1int
            } else {
                0
            },
    {
        match self.position(device) {
            Some(i) => {
                let ghost before = self@;
                self.devices.remove(i);
                let ghost after = self@;
                assert forall|a: int, b: int| 0 <= a < b < after.len() implies (
                #[trigger] after[a])@ != (#[trigger] after[b])@ by {
                    let a2 = if a < i {
                        a
                    } else {
                        a + 1
                    };
                    let b2 = if b < i {
                        b
                    } else {
                        b + 1
                    };
                    assert(before[a2]@ != before[b2]@);
                }
                assert(before[i as int]@ == device@);
                assert forall|k: int| 0 <= k < after.len() implies (#[trigger] after[k])@
                    != device@ by {
                    if k < i {
                        assert(before[k]@ != before[i as int]@);
                    } else {
                        assert(before[i as int]@ != before[k + 1]@);
                    }
                }
                assert forall|d: Seq<char>| d != device@ implies #[trigger] registered(after, d)
                    == registered(before, d) by {
                    if registered(before, d) {
                        let k = choose|k: int|
                            0 <= k < before.len() && (#[trigger] before[k])@ == d;
                        if k < i {
                            assert(after[k]@ == d);
                        } else {
                            assert(after[k - 1]@ == d);
                        }
                    }
                    if registered(after, d) {
                        let k = choose|k: int| 0 <= k < after.len() && (#[trigger] after[k])@ == d;
                        if k < i {
                            assert(before[k]@ == d);
                        } else {
                            assert(before[k + 1]@ == d);
                        }
                    }
                }
            },
            None => {},
        }
    }

    /// Whether a device is connected.
    pub fn contains(&self, device: &DeviceId) -> (r: bool)
        ensures
            r == registered(self@, device@),
    {
        match self.position(device) {
            Some(i) => {
                assert(self@[i as int]@ == device@);
                true
            },
            None => false,
        }
    }

    /// How many devices are connected.
    pub fn len(&self) -> (r: usize)
        ensures
            r == self@.len(),
    {
        self.devices.len()
    }
}

/// How fast files may be sent, in bytes per second; zero is no limit.
pub fn upload_limit_of(s: &Settings) -> (r: Option<u64>)
    ensures
        r == Some(s.upload_limit_bytes_per_sec),
{
    Some(s.upload_limit_bytes_per_sec)
}

/// The time until the next round of dialling. It doubles while nothing can be reached,
/// up to a limit; any sign that the next round may do better starts it over.
pub open spec fn backoff(
    current: nat,
    any_connected: bool,
    awaiting_addrs: bool,
    table_changed: bool,
) -> nat {
    if any_connected || awaiting_addrs || table_changed {
        3_000
    } else if 2 * current < 15_000 {
        2 * current
    } else {
        15_000
    }
}

/// The time until the next round of dialling.
pub fn next_backoff(
    current: u64,
    any_connected: bool,
    awaiting_addrs: bool,
    table_changed: bool,
) -> (r: u64)
    requires
        2 * current <= u64::MAX,
    ensures
        r == backoff(current as nat, any_connected, awaiting_addrs, table_changed),
{
    if any_connected || awaiting_addrs || table_changed {
        DIAL_RETRY_INTERVAL_MS
    } else if current * 2 < DIAL_RETRY_MAX_MS {
        current * 2
    } else {
        DIAL_RETRY_MAX_MS
    }
}

/// The time after `n` rounds in vain.
pub open spec fn backoff_after(n: nat) -> nat
    decreases n,
{
    if n == 0 {
        3_000
    } else {
        backoff(backoff_after((n - 1) as nat), false, false, false)
    }
}

/// The time between rounds never shrinks while nothing can be reached, stays within its
/// limits, and reaches the upper one.
pub proof fn backoff_grows_to_its_limit(n: nat)
    ensures
        backoff_after(n) <= backoff_after(n + 1),
        3_000 <= backoff_after(n) <= 15_000,
        n >= 3 ==> backoff_after(n) == 15_000,
    decreases n,
{
    if n > 0 {
        backoff_grows_to_its_limit((n - 1) as nat);
    }
    if n >= 3 {
        reveal_with_fuel(backoff_after, 4);
        if n > 3 {
            backoff_grows_to_its_limit((n - 1) as nat);
        }
    }
}

/// Any sign of hope starts the time over.
pub proof fn hope_resets_the_backoff(
    current: nat,
    any_connected: bool,
    awaiting_addrs: bool,
    table_changed: bool,
)
    requires
        any_connected || awaiting_addrs || table_changed,
    ensures
        backoff(current, any_connected, awaiting_addrs, table_changed) == 3_000,
{
}

/// What a round of dialling does about one device.
#[derive(Debug, Clone, Copy, PartialEq, Eq, Structural)]
pub enum DialStep {
    /// It is connected already.
    Skip,
    /// No address of it is known yet.
    AwaitAddrs,
    Dial,
}

/// What a round of dialling does about one device.
pub fn dial_step(connected: bool, addr_count: usize) -> (r: DialStep)
    ensures
        r == if connected {
            DialStep::Skip
        } else if addr_count == 0 {
            DialStep::AwaitAddrs
        } else {
            DialStep::Dial
        },
{
    if connected {
        DialStep::Skip
    } else if addr_count == 0 {
        DialStep::AwaitAddrs
    } else {
        DialStep::Dial
    }
}

/// A round of dialling, as far as it got.
#[derive(Debug, Clone, Copy, PartialEq, Eq, Structural)]
pub struct DialRound {
    /// The version of the device table when the round began.
    pub version: u64,
    /// How many devices were connected then.
    pub connected: usize,
    pub any_connected: bool,
    pub awaiting_addrs: bool,
}

impl DialRound {
    /// A round that begins.
    pub fn begin(version: u64, connected: usize) -> (r: DialRound)
        ensures
            r == (DialRound { version, connected, any_connected: false, awaiting_addrs: false }),
    {
        DialRound { version, connected, any_connected: false, awaiting_addrs: false }
    }

    /// Takes note of what became of one device.
    pub fn note(&mut self, step: DialStep, dialled: bool)
        ensures
            *final(self) == match step {
                DialStep::Skip => *old(self),
                DialStep::AwaitAddrs => DialRound { awaiting_addrs: true, ..*old(self) },
                DialStep::Dial => DialRound {
                    any_connected: old(self).any_connected || dialled,
                    ..*old(self)
                },
            },
    {
        match step {
            DialStep::Skip => {},
            DialStep::AwaitAddrs => {
                self.awaiting_addrs = true;
            },
            DialStep::Dial => {
                if dialled {
                    self.any_connected = true;
                }
            },
        }
    }

    /// The time until the next round. A connection that came in counts as much as one
    /// that was dialled.
    pub fn end(&self, current: u64, version: u64, connected: usize) -> (r: u64)
        requires
            2 * current <= u64::MAX,
        ensures
            r == backoff(
                current as nat,
                self.any_connected || connected > self.connected,
                self.awaiting_addrs,
                version != self.version,
            ),
    {
        next_backoff(
            current,
            self.any_connected || connected > self.connected,
            self.awaiting_addrs,
            version != self.version,
        )
    }
}

/// Whether this round looks at this machine's own networks again.
pub fn refresh_due(round: u32) -> (r: bool)
    ensures
        r == (round % 10 == 0),
{
    round % REFRESH_NETWORKS_EVERY == 0
}

/// Whether `a` comes before `b` in the order of their characters.
pub open spec fn before(a: Seq<char>, b: Seq<char>) -> bool
    decreases a.len(),
{
    if b.len() == 0 {
        false
    } else if a.len() == 0 {
        true
    } else if a[0] != b[0] {
        a[0] < b[0]
    } else {
        before(a.drop_first(), b.drop_first())
    }
}

fn comes_before(a: &str, b: &str) -> (r: bool)
    ensures
        r == before(a@, b@),
{
    let x = chars_of(a);
    let y = chars_of(b);
    let mut i: usize = 0;
    assert(x@.skip(0) =~= x@ && y@.skip(0) =~= y@);
    while i < x.len() && i < y.len()
        invariant
            i <= x.len(),
            i <= y.len(),
            x@ == a@,
            y@ == b@,
            before(x@, y@) == before(x@.skip(i as int), y@.skip(i as int)),
        decreases x.len() - i,
    {
        proof {
            assert(x@.skip(i as int)[0] == x@[i as int]);
            assert(y@.skip(i as int)[0] == y@[i as int]);
            assert(x@.skip(i as int).drop_first() =~= x@.skip(i + 1));
            assert(y@.skip(i as int).drop_first() =~= y@.skip(i + 1));
        }
        if x[i] != y[i] {
            return x[i] < y[i];
        }
        i += 1;
    }
    i >= x.len() && i < y.len()
}

/// Whether a connection is the one to keep: the one that the device with the smaller id
/// dialled. `outbound` says that this device dialled it.
pub open spec fn canonical(local: Seq<char>, peer: Seq<char>, outbound: bool) -> bool {
    if outbound {
        before(local, peer)
    } else {
        before(peer, local)
    }
}

/// Whether a connection is the one to keep.
pub fn is_canonical(local: &DeviceId, peer: &DeviceId, outbound: bool) -> (r: bool)
    ensures
        r == canonical(local@, peer@, outbound),
{
    if outbound {
        comes_before(local.text.as_str(), peer.text.as_str())
    } else {
        comes_before(peer.text.as_str(), local.text.as_str())
    }
}

/// Of two different texts exactly one comes before the other.
proof fn lemma_order_total(a: Seq<char>, b: Seq<char>)
    requires
        a != b,
    ensures
        before(a, b) != before(b, a),
    decreases a.len(),
{
    if a.len() == 0 || b.len() == 0 {
        if a.len() == 0 && b.len() == 0 {
            assert(a =~= b);
        }
    } else if a[0] == b[0] {
        let (x, y) = (a.drop_first(), b.drop_first());
        if x == y {
            assert(a =~= seq![a[0]] + x);
            assert(b =~= seq![b[0]] + y);
        }
        lemma_order_total(x, y);
    }
}

/// Both ends of a connection agree on whether to keep it, and of the two connections
/// between two devices exactly one is kept.
pub proof fn both_ends_agree(a: Seq<char>, b: Seq<char>)
    ensures
        canonical(a, b, true) == canonical(b, a, false),
        canonical(b, a, true) == canonical(a, b, false),
        a != b ==> canonical(a, b, true) != canonical(b, a, true),
{
    if a != b {
        lemma_order_total(a, b);
    }
}

/// Whether a connection is let in.
#[derive(Debug, Clone, Copy, PartialEq, Eq, Structural)]
pub enum Admission {
    /// The other side is not paired.
    Refused,
    /// The other side is the device at this place of the table; its place is to be
    /// taken after this many milliseconds.
    Peer { index: usize, wait_ms: u64 },
}

/// Whether a connection is let in, given the key that the other side proved to hold.
/// One in the other direction than the one to keep waits a moment, so that the one to
/// keep comes first on both sides.
pub fn let_in(known: &KnownPeers, local: &DeviceId, key: &[u8], outbound: bool) -> (r: Admission)
    ensures
        ({
            let i = key_at(known@, key@);
            match r {
                Admission::Refused => i == known@.len(),
                Admission::Peer { index, wait_ms } => {
                    &&& i < known@.len()
                    &&& index == i
                    &&& wait_ms == if canonical(local@, known@[i as int].device@, outbound) {
                        0u64
                    } else {
                        500u64
                    }
                },
            }
        }),
{
    match known.position_of_key(key) {
        None => Admission::Refused,
        Some(index) => {
            let peer = &known.snapshot()[index];
            let wait_ms: u64 = if is_canonical(local, &peer.device, outbound) {
                0
            } else {
                NONCANONICAL_YIELD_MS
            };
            Admission::Peer { index, wait_ms }
        },
    }
}

/// Whether a connection ended so soon that the other side most likely does not know
/// this device.
pub fn looks_refused(lasted_ms: u64) -> (r: bool)
    ensures
        r == (lasted_ms < 2_000),
{
    lasted_ms < REFUSED_WITHIN_MS
}

/// The announcement of this device's addresses; none where it has no address.
pub fn announce_addresses(addrs: Vec<Endpoint>) -> (r: Option<SyncMessage>)
    ensures
        r == if addrs@.len() > 0 {
            Some(SyncMessage::Addresses { addrs })
        } else {
            None
        },
{
    if addrs.len() == 0 {
        None
    } else {
        Some(SyncMessage::Addresses { addrs })
    }
}

/// Every round in vain doubles the time until the limit is reached, and the limit stays.
pub proof fn rounds_in_vain_double_the_backoff(current: nat)
    ensures
        2 * current <= 15_000 ==> backoff(current, false, false, false) == 2 * current,
        current >= 7_500 ==> backoff(current, false, false, false) == 15_000,
        backoff_after(0) == 3_000,
        backoff_after(1) == 6_000,
{
    reveal_with_fuel(backoff_after, 2);
}

/// Ids are in the order of their characters: the first place at which two of them differ
/// decides, and of two that do not differ so far the shorter one comes first. The device
/// whose id comes first is the one that dials the connection to keep.
pub proof fn the_first_difference_decides(a: Seq<char>, b: Seq<char>, i: int)
    requires
        0 <= i <= a.len(),
        i <= b.len(),
        forall|k: int| 0 <= k < i ==> a[k] == b[k],
    ensures
        i < a.len() && i < b.len() && a[i] < b[i] ==> before(a, b) && !before(b, a),
        i == a.len() && i < b.len() ==> before(a, b) && !before(b, a),
        !before(a, a),
        i < a.len() && i < b.len() && a[i] < b[i] ==> canonical(a, b, true) && !canonical(
            a,
            b,
            false,
        ),
    decreases a.len(),
{
    if a.len() > 0 {
        let x = a.drop_first();
        if i > 0 {
            let y = b.drop_first();
            assert(a[0] == b[0]);
            assert forall|k: int| 0 <= k < i - 1 implies x[k] == y[k] by {
                assert(a[k + 1] == b[k + 1]);
            }
            the_first_difference_decides(x, y, i - 1);
        } else {
            the_first_difference_decides(x, x, 0);
        }
    }
}

} // verus!
