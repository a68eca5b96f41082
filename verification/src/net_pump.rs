//! One connection's send and receive rounds, and what devices tell each other about
//! third ones.
//!
//! A round sends everything the hub has queued, then a few file chunks, then waits a
//! moment for a message. How long it waits also sets the pace: hardly at all while a
//! file is on its way, as long as the rate limit asks for, or a while when idle.

use vstd::prelude::*;

use crate::addrbook::{class_of, has_addr, lemma_with_addrs, with_addrs, AddrBook, AddrSource, Candidate, LocalNetworks};
use crate::config::{clear_pairings, record_at, remove_pairing, upsert_pairing};
use crate::filetransfer::{OutgoingFiles, OutgoingStream};
use crate::known_peers::{bumped, device_count, distinct, has_device, key_at, lemma_bumped, lemma_device_at, lemma_key_at, lemma_next, lemma_without_device, without_device, KnownPeers};
use crate::types::{DeviceId, Endpoint, KnownPeer, PairingRecord, PeerIntro, SyncMessage};

verus! {

/// How long a round waits for a message when idle, in milliseconds.
pub const IDLE_READ_TIMEOUT_MS: u64 = 20;

/// How long a round waits for a message while a file is on its way.
pub const ACTIVE_READ_TIMEOUT_MS: u64 = 1;

/// How often this device's addresses are announced.
pub const ADDR_ANNOUNCE_INTERVAL_MS: u64 = 60_000;

/// How many chunks of a file a round sends at most.
pub const CHUNKS_PER_ROUND: u32 = 4;

/// The first protocol that knows introductions.
pub const INTRODUCTIONS_SINCE: u16 = 2;

/// What a connection remembers between rounds. Times are milliseconds.
#[derive(Debug, Clone, Copy, PartialEq, Eq, Structural)]
pub struct PumpState {
    pub current_timeout: u64,
    pub last_announce: u64,
    /// The other device's protocol; unknown until it said hello.
    pub peer_protocol: Option<u16>,
    /// The version of the device table that was introduced last.
    pub introduced_version: Option<u64>,
    /// The version of the settings in effect.
    pub applied_settings: u64,
}

/// What becomes of a received message.
#[derive(Debug, Clone, Copy, PartialEq, Eq, Structural)]
pub enum Routing {
    /// A file is asked for.
    Serve { generation: u64, file_id: u64, offset: u64 },
    /// The other device's protocol was noted.
    Noted,
    /// Introductions are learned.
    Learn,
    /// A device left the group; `close` where the connection ends with it.
    Remove { close: bool },
    /// The hub decides.
    ToHub,
}

impl PumpState {
    /// A connection that was just set up; this device's addresses were announced `now`.
    pub fn start(now: u64, settings_version: u64) -> (r: Self)
        ensures
            r == (PumpState {
                current_timeout: IDLE_READ_TIMEOUT_MS,
                last_announce: now,
                peer_protocol: None,
                introduced_version: None,
                applied_settings: settings_version,
            }),
    {
        PumpState {
            current_timeout: IDLE_READ_TIMEOUT_MS,
            last_announce: now,
            peer_protocol: None,
            introduced_version: None,
            applied_settings: settings_version,
        }
    }

    /// Whether the rate limiter has to be set up anew because the settings changed.
    pub fn settings_changed(&mut self, version: u64) -> (r: bool)
        ensures
            r == (version != old(self).applied_settings),
            *final(self) == (PumpState { applied_settings: version, ..*old(self) }),
    {
        let r = version != self.applied_settings;
        self.applied_settings = version;
        r
    }

    /// The read timeout to set, if it differs from the one in effect.
    ///
    /// `throttled` says that the rate limit left something unsent, `wait` how long the
    /// limiter asks to wait then.
    pub fn retime(&mut self, throttled: bool, wait: u64, streaming: bool) -> (r: Option<u64>)
        ensures
            ({
                let desired = desired_timeout(throttled, wait, streaming);
                &&& r == if desired != old(self).current_timeout {
                    Some(desired)
                } else {
                    None
                }
                &&& *final(self) == (PumpState { current_timeout: desired, ..*old(self) })
            }),
    {
        let desired: u64 = if throttled {
            if wait > ACTIVE_READ_TIMEOUT_MS {
                wait
            } else {
                ACTIVE_READ_TIMEOUT_MS
            }
        } else if streaming {
            ACTIVE_READ_TIMEOUT_MS
        } else {
            IDLE_READ_TIMEOUT_MS
        };
        if desired != self.current_timeout {
            self.current_timeout = desired;
            Some(desired)
        } else {
            None
        }
    }

    /// Whether this device's addresses are to be announced again.
    pub fn announce_due(&mut self, now: u64) -> (r: bool)
        ensures
            r == (now >= old(self).last_announce + 60_000),
            *final(self) == if r {
                PumpState { last_announce: now, ..*old(self) }
            } else {
                *old(self)
            },
    {
        if now >= self.last_announce && now - self.last_announce >= ADDR_ANNOUNCE_INTERVAL_MS {
            self.last_announce = now;
            true
        } else {
            false
        }
    }

    /// Whether the known devices are to be introduced: once the other device said
    /// hello, and again whenever the table of devices changes.
    pub fn introduction_due(&mut self, peers_version: u64) -> (r: bool)
        ensures
            r == (old(self).peer_protocol is Some && old(self).introduced_version != Some(
                peers_version,
            )),
            *final(self) == if r {
                PumpState { introduced_version: Some(peers_version), ..*old(self) }
            } else {
                *old(self)
            },
    {
        let seen = match self.introduced_version {
            Some(v) => v == peers_version,
            None => false,
        };
        if self.peer_protocol.is_some() && !seen {
            self.introduced_version = Some(peers_version);
            true
        } else {
            false
        }
    }

    /// What becomes of a received message. File requests are answered on the connection
    /// itself, so that contents never pile up in a queue.
    pub fn receive(&mut self, msg: &SyncMessage, local: &DeviceId, peer: &DeviceId) -> (r: Routing)
        ensures
            match *msg {
                SyncMessage::FileNeed { generation, file_id, offset } => r == (Routing::Serve {
                    generation,
                    file_id,
                    offset,
                }),
                SyncMessage::Hello { .. } => r == Routing::Noted,
                SyncMessage::Peers { .. } => r == Routing::Learn,
                SyncMessage::Removed { device } => r == (Routing::Remove {
                    close: device@ == local@ || device@ == peer@,
                }),
                _ => r == Routing::ToHub,
            },
            *final(self) == match *msg {
                SyncMessage::Hello { protocol, .. } => PumpState {
                    peer_protocol: Some(protocol),
                    ..*old(self)
                },
                _ => *old(self),
            },
    {
        match msg {
            SyncMessage::FileNeed { generation, file_id, offset } => Routing::Serve {
                generation: *generation,
                file_id: *file_id,
                offset: *offset,
            },
            SyncMessage::Hello { protocol, device, device_name } => {
                self.peer_protocol = Some(*protocol);
                Routing::Noted
            },
            SyncMessage::Peers { peers } => Routing::Learn,
            SyncMessage::Removed { device } => Routing::Remove {
                close: device.is(local) || device.is(peer),
            },
            _ => Routing::ToHub,
        }
    }
}

/// How long a round waits for a message.
pub open spec fn desired_timeout(throttled: bool, wait: u64, streaming: bool) -> u64 {
    if throttled {
        if wait > 1 {
            wait
        } else {
            1
        }
    } else if streaming {
        1
    } else {
        20
    }
}

/// Whether a transfer ends because the clipboard moved on. A file that was asked for by
/// hand is sent to its end.
pub fn superseded<P>(stream: &OutgoingStream, outgoing: &OutgoingFiles<P>) -> (r: bool)
    ensures
        r == (stream.spec_abort() && outgoing.now() != stream.spec_generation()),
{
    stream.abort_on_supersede() && !outgoing.is_current(stream.generation())
}

/// How an attempt to send the next chunk went.
#[derive(Debug, Clone, Copy, PartialEq, Eq, Structural)]
pub enum ChunkStep {
    /// The rate limit allows nothing now.
    NoBudget,
    /// A message was sent; `last` where it was the one that ends the file.
    Sent { last: bool },
    /// There was nothing left to send, or the file could not be read.
    Ended,
}

/// The chunks of one round.
#[derive(Debug, Clone, Copy, PartialEq, Eq, Structural)]
pub struct ChunkRound {
    /// How many messages may still be sent.
    pub left: u32,
    /// Whether the file is over.
    pub finished: bool,
    /// Whether the rate limit left something unsent.
    pub throttled: bool,
}

impl ChunkRound {
    /// A round in which nothing was sent yet.
    pub fn new() -> (r: Self)
        ensures
            r == (ChunkRound { left: CHUNKS_PER_ROUND, finished: false, throttled: false }),
    {
        ChunkRound { left: CHUNKS_PER_ROUND, finished: false, throttled: false }
    }

    /// Whether the round goes on.
    pub open spec fn open(&self) -> bool {
        self.left > 0 && !self.finished && !self.throttled
    }

    /// The round after an attempt.
    pub open spec fn after(self, step: ChunkStep) -> ChunkRound {
        match step {
            ChunkStep::NoBudget => ChunkRound { throttled: true, ..self },
            ChunkStep::Sent { last } => ChunkRound {
                left: (self.left - 1) as u32,
                finished: last,
                ..self
            },
            ChunkStep::Ended => ChunkRound { finished: true, ..self },
        }
    }

    /// Takes note of an attempt; the result says whether to make another one.
    pub fn step(&mut self, step: ChunkStep) -> (r: bool)
        requires
            old(self).open(),
        ensures
            r == final(self).open(),
            *final(self) == old(self).after(step),
    {
        match step {
            ChunkStep::NoBudget => {
                self.throttled = true;
            },
            ChunkStep::Sent { last } => {
                self.left = self.left - 1;
                self.finished = last;
            },
            ChunkStep::Ended => {
                self.finished = true;
            },
        }
        self.left > 0 && !self.finished && !self.throttled
    }
}

/// The state of a round after a series of attempts.
pub open spec fn after_steps(r: ChunkRound, steps: Seq<ChunkStep>) -> ChunkRound
    decreases steps.len(),
{
    if steps.len() == 0 || !r.open() {
        r
    } else {
        let next = r.after(steps[0]);
        after_steps(next, steps.drop_first())
    }
}

/// A round is over after four messages at the latest, so that queued messages are never
/// held up for longer.
pub proof fn rounds_are_short(r: ChunkRound, steps: Seq<ChunkStep>)
    requires
        steps.len() >= r.left,
    ensures
        !after_steps(r, steps).open(),
    decreases steps.len(),
{
    if steps.len() > 0 && r.open() {
        let next = r.after(steps[0]);
        if next.open() {
            rounds_are_short(next, steps.drop_first());
        } else {
            assert(after_steps(next, steps.drop_first()) == next);
        }
    }
}

/// What there is to send of a file when the hub's queue is empty.
#[derive(Debug, Clone, Copy, PartialEq, Eq, Structural)]
pub enum Streaming {
    /// No file is on its way.
    Idle,
    /// A file is on its way.
    Sending,
    /// A file was on its way, but the clipboard moved on.
    Superseded,
}

/// What came of a step of the pump.
#[derive(Debug, Clone, Copy, PartialEq, Eq, Structural)]
pub enum PumpEvent {
    /// The hub had queued a message, and it was sent.
    Queued,
    /// The hub's queue was found empty.
    QueueEmpty(Streaming),
    /// The hub is gone.
    HubGone,
    /// How an attempt to send the next chunk went.
    Chunk(ChunkStep),
    /// The wait for a message is over; `close` where the connection ends.
    Heard { close: bool },
}

/// What the pump does next.
#[derive(Debug, Clone, Copy, PartialEq, Eq, Structural)]
pub enum PumpStep {
    /// Look into the hub's queue, and send the message that is there.
    TakeQueued,
    /// Try to send the next chunk.
    SendChunk(ChunkRound),
    /// Wait for a message. Before that, the file is dropped where `abort` holds, which the
    /// other side is told, or `finished`; `throttled` where the rate limit left something
    /// unsent.
    Listen { abort: bool, finished: bool, throttled: bool },
    /// End the connection.
    Close,
}

impl PumpStep {
    /// Whether an event can come of this step.
    pub open spec fn yields(self, event: PumpEvent) -> bool {
        match self {
            PumpStep::TakeQueued => event is Queued || event is QueueEmpty || event is HubGone,
            PumpStep::SendChunk(round) => event is Chunk && round.open(),
            PumpStep::Listen { .. } => event is Heard,
            PumpStep::Close => false,
        }
    }

    /// What follows this step. The queue is looked into again and again until it is empty,
    /// and only then is a file's turn; after a few chunks the pump listens, and looks into
    /// the queue anew.
    pub open spec fn followed_by(self, event: PumpEvent) -> PumpStep {
        match (self, event) {
            (_, PumpEvent::Queued) => PumpStep::TakeQueued,
            (_, PumpEvent::HubGone) => PumpStep::Close,
            (_, PumpEvent::QueueEmpty(Streaming::Sending)) => PumpStep::SendChunk(
                ChunkRound { left: CHUNKS_PER_ROUND, finished: false, throttled: false },
            ),
            (_, PumpEvent::QueueEmpty(what)) => PumpStep::Listen {
                abort: what == Streaming::Superseded,
                finished: false,
                throttled: false,
            },
            (PumpStep::SendChunk(round), PumpEvent::Chunk(step)) => {
                let r = round.after(step);
                if r.open() {
                    PumpStep::SendChunk(r)
                } else {
                    PumpStep::Listen { abort: false, finished: r.finished, throttled: r.throttled }
                }
            },
            (_, PumpEvent::Heard { close: false }) => PumpStep::TakeQueued,
            _ => PumpStep::Close,
        }
    }

    /// What follows this step.
    pub fn next(self, event: PumpEvent) -> (r: PumpStep)
        requires
            self.yields(event),
        ensures
            r == self.followed_by(event),
            r matches PumpStep::SendChunk(round) ==> round.open(),
    {
        match event {
            PumpEvent::Queued => PumpStep::TakeQueued,
            PumpEvent::HubGone => PumpStep::Close,
            PumpEvent::QueueEmpty(what) => match what {
                Streaming::Sending => PumpStep::SendChunk(ChunkRound::new()),
                Streaming::Superseded => PumpStep::Listen {
                    abort: true,
                    finished: false,
                    throttled: false,
                },
                Streaming::Idle => PumpStep::Listen {
                    abort: false,
                    finished: false,
                    throttled: false,
                },
            },
            PumpEvent::Chunk(step) => match self {
                PumpStep::SendChunk(round) => {
                    let mut r = round;
                    if r.step(step) {
                        PumpStep::SendChunk(r)
                    } else {
                        PumpStep::Listen {
                            abort: false,
                            finished: r.finished,
                            throttled: r.throttled,
                        }
                    }
                },
                _ => PumpStep::Close,
            },
            PumpEvent::Heard { close } => if close {
                PumpStep::Close
            } else {
                PumpStep::TakeQueued
            },
        }
    }
}

/// The step that a connection has reached after a row of events.
pub open spec fn reached(events: Seq<PumpEvent>) -> PumpStep
    decreases events.len(),
{
    if events.len() == 0 {
        PumpStep::TakeQueued
    } else {
        reached(events.drop_last()).followed_by(events.last())
    }
}

/// A row of events as they can come, one of each step.
pub open spec fn can_happen(events: Seq<PumpEvent>) -> bool {
    forall|i: int|
        0 <= i < events.len() ==> reached(#[trigger] events.take(i)).yields(events[i])
}

/// Files never hold up anything else: wherever a chunk is about to be sent, the hub's queue
/// was found empty in the same round, and since then nothing happened but fewer than four
/// chunks. As long as the queue holds a message, that message is sent and no chunk.
pub proof fn queued_messages_go_before_chunks(events: Seq<PumpEvent>)
    requires
        can_happen(events),
    ensures
        reached(events) matches PumpStep::SendChunk(round) ==> {
            let j = events.len() - 1 - (4 - round.left);
            &&& 0 <= j < events.len()
            &&& 0 < round.left <= 4
            &&& events[j] == PumpEvent::QueueEmpty(Streaming::Sending)
            &&& forall|k: int|
                j < k < events.len() ==> #[trigger] events[k] == PumpEvent::Chunk(
                    ChunkStep::Sent { last: false },
                )
        },
        events.len() > 0 && events.last() is Queued ==> reached(events) is TakeQueued,
        events.len() > 0 && events.last() is Heard ==> !(reached(events) is SendChunk),
    decreases events.len(),
{
    if events.len() > 0 {
        let before = events.drop_last();
        let n = before.len() as int;
        assert(events.take(n) =~= before);
        assert forall|i: int| 0 <= i < before.len() implies reached(
            #[trigger] before.take(i),
        ).yields(before[i]) by {
            assert(before.take(i) =~= events.take(i));
        }
        queued_messages_go_before_chunks(before);
        assert(reached(before).yields(events[n]));
        if reached(events) is SendChunk && events.last() is Chunk {
            let round = reached(before)->SendChunk_0;
            let j = before.len() - 1 - (4 - round.left);
            assert(events[j] == before[j]);
            assert forall|k: int| j < k < events.len() implies #[trigger] events[k]
                == PumpEvent::Chunk(ChunkStep::Sent { last: false }) by {
                if k < n {
                    assert(before[k] == PumpEvent::Chunk(ChunkStep::Sent { last: false }));
                }
            }
        }
    }
}

/// What identifies a device: its id, name and key.
pub struct PeerView {
    pub device: Seq<char>,
    pub name: Seq<char>,
    pub key: Seq<u8>,
}

/// A stored pairing, by value.
pub struct RecordView {
    pub device: Seq<char>,
    pub name: Seq<char>,
    pub key: Seq<u8>,
    pub addrs: Seq<Endpoint>,
    pub introduced_by: Option<Seq<char>>,
}

pub open spec fn peer_view(p: KnownPeer) -> PeerView {
    PeerView { device: p.device@, name: p.name@, key: p.static_public_key@ }
}

pub open spec fn peer_views(v: Seq<KnownPeer>) -> Seq<PeerView> {
    v.map_values(|p: KnownPeer| peer_view(p))
}

pub open spec fn record_view(r: PairingRecord) -> RecordView {
    RecordView {
        device: r.device@,
        name: r.name@,
        key: r.static_public_key@,
        addrs: r.addrs@,
        introduced_by: match r.introduced_by {
            Some(s) => Some(s@),
            None => None,
        },
    }
}

pub open spec fn record_views(v: Seq<PairingRecord>) -> Seq<RecordView> {
    v.map_values(|r: PairingRecord| record_view(r))
}

/// An introduction carries this device.
pub open spec fn intro_matches(i: PeerIntro, p: KnownPeer, addrs: Vec<Endpoint>) -> bool {
    &&& i.device == p.device
    &&& i.name == p.name
    &&& i.static_public_key@ == p.static_public_key@
    &&& i.addrs@ == addrs@
}

fn copy_bytes(b: &Vec<u8>) -> (r: Vec<u8>)
    ensures
        r@ == b@,
{
    let mut r: Vec<u8> = Vec::new();
    let mut i: usize = 0;
    while i < b.len()
        invariant
            i <= b.len(),
            r@ == b@.take(i as int),
        decreases b.len() - i,
    {
        r.push(b[i]);
        i += 1;
    }
    assert(b@.take(b@.len() as int) =~= b@);
    r
}

fn copy_addrs(b: &Vec<Endpoint>) -> (r: Vec<Endpoint>)
    ensures
        r@ == b@,
{
    let mut r: Vec<Endpoint> = Vec::new();
    let mut i: usize = 0;
    while i < b.len()
        invariant
            i <= b.len(),
            r@ == b@.take(i as int),
        decreases b.len() - i,
    {
        r.push(b[i]);
        i += 1;
    }
    assert(b@.take(b@.len() as int) =~= b@);
    r
}

/// The places in `known` of the devices that are introduced to `peer`: all others.
pub open spec fn introduced(known: Seq<KnownPeer>, peer: Seq<char>) -> Seq<int>
    decreases known.len(),
{
    if known.len() == 0 {
        Seq::empty()
    } else {
        let before = introduced(known.drop_last(), peer);
        if known.last().device@ == peer {
            before
        } else {
            before.push(known.len() - 1)
        }
    }
}

/// `peers` carries the devices at the places `who` of the table, in that order.
pub open spec fn introduces(
    peers: Seq<PeerIntro>,
    known: Seq<KnownPeer>,
    addrs: Seq<Vec<Endpoint>>,
    who: Seq<int>,
) -> bool {
    &&& peers.len() == who.len()
    &&& forall|k: int|
        #![trigger who[k]]
        #![trigger peers[k]]
        0 <= k < who.len() ==> 0 <= who[k] < known.len() && intro_matches(
            peers[k],
            known[who[k]],
            addrs[who[k]],
        )
}

/// The message that introduces the known devices to `peer`; none where there is nobody
/// to introduce, or where the other device would not understand it.
///
/// `addrs` holds, for each known device, where it can be reached.
pub fn introduce_peers(
    known: &Vec<KnownPeer>,
    addrs: &Vec<Vec<Endpoint>>,
    peer: &DeviceId,
    peer_protocol: Option<u16>,
) -> (r: Option<SyncMessage>)
    requires
        known@.len() == addrs@.len(),
    ensures
        ({
            let who = introduced(known@, peer@);
            if (peer_protocol matches Some(v) && v >= 2) && who.len() > 0 {
                r matches Some(SyncMessage::Peers { peers }) && introduces(
                    peers@,
                    known@,
                    addrs@,
                    who,
                )
            } else {
                r is None
            }
        }),
{
    let speaks = match peer_protocol {
        Some(v) => v >= INTRODUCTIONS_SINCE,
        None => false,
    };
    if !speaks {
        return None;
    }
    let mut peers: Vec<PeerIntro> = Vec::new();
    let mut i: usize = 0;
    proof {
        assert(known@.take(0) =~= Seq::<KnownPeer>::empty());
    }
    while i < known.len()
        invariant
            i <= known.len(),
            known@.len() == addrs@.len(),
            introduces(peers@, known@, addrs@, introduced(known@.take(i as int), peer@)),
        decreases known.len() - i,
    {
        let ghost before = introduced(known@.take(i as int), peer@);
        let ghost old_peers = peers@;
        proof {
            assert(known@.take(i + 1).drop_last() =~= known@.take(i as int));
            assert(known@.take(i + 1).last() == known@[i as int]);
        }
        if !known[i].device.is(peer) {
            peers.push(
                PeerIntro {
                    device: known[i].device.dup(),
                    name: known[i].name.clone(),
                    static_public_key: copy_bytes(&known[i].static_public_key),
                    addrs: copy_addrs(&addrs[i]),
                },
            );
            proof {
                let after = before.push(i as int);
                assert(introduced(known@.take(i + 1), peer@) == after);
                assert forall|k: int|
                    #![trigger after[k]]
                    0 <= k < after.len() implies 0 <= after[k] < known@.len() && intro_matches(
                    peers@[k],
                    known@[after[k]],
                    addrs@[after[k]],
                ) by {
                    if k < old_peers.len() {
                        assert(intro_matches(old_peers[k], known@[before[k]], addrs@[before[k]]));
                    }
                }
            }
        }
        i += 1;
    }
    assert(known@.take(known@.len() as int) =~= known@);
    if peers.len() == 0 {
        None
    } else {
        Some(SyncMessage::Peers { peers })
    }
}

/// What introductions do to the table of devices: unknown devices are added, known ones
/// stay as they are, and this device itself is never added.
pub open spec fn learned(
    known: Seq<PeerView>,
    local: Seq<char>,
    intros: Seq<PeerIntro>,
) -> Seq<PeerView>
    decreases intros.len(),
{
    if intros.len() == 0 {
        known
    } else {
        let before = learned(known, local, intros.drop_last());
        let i = intros.last();
        if i.device@ == local || (exists|k: int|
            0 <= k < before.len() && (#[trigger] before[k]).device == i.device@) {
            before
        } else {
            before.push(PeerView { device: i.device@, name: i.name@, key: i.static_public_key@ })
        }
    }
}

/// The first place of a device among stored pairings, or their number.
pub open spec fn view_at(list: Seq<RecordView>, device: Seq<char>) -> nat
    decreases list.len(),
{
    if list.len() == 0 || list[0].device == device {
        0
    } else {
        1 + view_at(list.drop_first(), device)
    }
}

/// The stored pairings after one was added or updated.
pub open spec fn with_record(list: Seq<RecordView>, r: RecordView) -> Seq<RecordView> {
    if view_at(list, r.device) < list.len() {
        list.update(view_at(list, r.device) as int, r)
    } else {
        list.push(r)
    }
}

/// What introductions do to the stored pairings: every device added to the table is
/// stored too, with who vouched for it.
pub open spec fn stored(
    known: Seq<PeerView>,
    list: Seq<RecordView>,
    local: Seq<char>,
    from: Seq<char>,
    intros: Seq<PeerIntro>,
) -> Seq<RecordView>
    decreases intros.len(),
{
    if intros.len() == 0 {
        list
    } else {
        let before = stored(known, list, local, from, intros.drop_last());
        let n = learned(known, local, intros.drop_last()).len();
        let i = intros.last();
        if learned(known, local, intros).len() > n {
            with_record(
                before,
                RecordView {
                    device: i.device@,
                    name: i.name@,
                    key: i.static_public_key@,
                    addrs: i.addrs@,
                    introduced_by: Some(from),
                },
            )
        } else {
            before
        }
    }
}

/// What introductions do to the addresses of one device: those that come with it are
/// remembered, whether it was known or not, unless it is this device.
pub open spec fn booked(
    list: Seq<Candidate>,
    device: Seq<char>,
    local: Seq<char>,
    intros: Seq<PeerIntro>,
    networks: LocalNetworks,
) -> Seq<Candidate>
    decreases intros.len(),
{
    if intros.len() == 0 {
        list
    } else {
        let before = booked(list, device, local, intros.drop_last(), networks);
        let i = intros.last();
        if i.device@ == device && device != local {
            with_addrs(before, i.addrs@, AddrSource::Peer, networks)
        } else {
            before
        }
    }
}

proof fn lemma_record_views(list: Seq<PairingRecord>, device: Seq<char>)
    ensures
        record_at(list, device) == view_at(record_views(list), device),
    decreases list.len(),
{
    if list.len() > 0 && list[0].device@ != device {
        lemma_record_views(list.drop_first(), device);
        assert(record_views(list).drop_first() =~= record_views(list.drop_first()));
    }
}

/// Takes over what a paired device says about others. A device's addresses are in the
/// address book before the device itself is in the table, for whoever sees it there looks
/// for its addresses at once.
pub fn learn_peers(
    known: &mut KnownPeers,
    list: &mut Vec<PairingRecord>,
    book: &mut AddrBook,
    local: &DeviceId,
    from: &String,
    peers: Vec<PeerIntro>,
)
    requires
        old(book).wf(),
    ensures
        final(book).wf(),
        final(book).spec_local() == old(book).spec_local(),
        forall|d: Seq<char>| #[trigger]
            final(book).known(d) == booked(
                old(book).known(d),
                d,
                local@,
                peers@,
                old(book).spec_local(),
            ),
        peer_views(final(known)@) == learned(peer_views(old(known)@), local@, peers@),
        record_views(final(list)@) == stored(
            peer_views(old(known)@),
            record_views(old(list)@),
            local@,
            from@,
            peers@,
        ),
        final(known).spec_version() == bumped(
            old(known).spec_version(),
            (final(known)@.len() - old(known)@.len()) as nat,
        ),
        final(known)@.len() >= old(known)@.len(),
{
    let ghost known0 = peer_views(known@);
    let ghost list0 = record_views(list@);
    let ghost networks = book.spec_local();
    let mut i: usize = 0;
    proof {
        assert(peers@.take(0) =~= Seq::<PeerIntro>::empty());
        lemma_bumped(known.spec_version(), 0);
    }
    while i < peers.len()
        invariant
            i <= peers.len(),
            book.wf(),
            book.spec_local() == networks,
            networks == old(book).spec_local(),
            forall|d: Seq<char>| #[trigger]
                book.known(d) == booked(
                    old(book).known(d),
                    d,
                    local@,
                    peers@.take(i as int),
                    networks,
                ),
            peer_views(known@) == learned(known0, local@, peers@.take(i as int)),
            record_views(list@) == stored(known0, list0, local@, from@, peers@.take(i as int)),
            known@.len() >= old(known)@.len(),
            known.spec_version() == bumped(
                old(known).spec_version(),
                (known@.len() - old(known)@.len()) as nat,
            ),
        decreases peers.len() - i,
    {
        let p = &peers[i];
        let ghost before = learned(known0, local@, peers@.take(i as int));
        let ghost known1 = known@;
        let ghost list1 = list@;
        proof {
            assert(peers@.take(i + 1).drop_last() =~= peers@.take(i as int));
            assert(peers@.take(i + 1).last() == *p);
            assert(has_device(known@, p.device@) == (exists|k: int|
                0 <= k < before.len() && (#[trigger] before[k]).device == p.device@)) by {
                if has_device(known@, p.device@) {
                    let k = choose|k: int|
                        0 <= k < known@.len() && (#[trigger] known@[k]).device@ == p.device@;
                    assert(before[k].device == p.device@);
                }
                if exists|k: int| 0 <= k < before.len() && (#[trigger] before[k]).device
                    == p.device@ {
                    let k = choose|k: int|
                        0 <= k < before.len() && (#[trigger] before[k]).device == p.device@;
                    assert(known@[k].device@ == p.device@);
                }
            }
        }
        if !p.device.is(local) {
            let is_new = !known.contains(&p.device);
            if p.addrs.len() > 0 {
                book.add_addrs(&p.device, &p.addrs, AddrSource::Peer);
            }
            if is_new {
                known.upsert(
                    KnownPeer {
                        device: p.device.dup(),
                        name: p.name.clone(),
                        static_public_key: copy_bytes(&p.static_public_key),
                    },
                );
                proof {
                    lemma_device_at(known1, p.device@);
                    lemma_bumped(
                        old(known).spec_version(),
                        (known1.len() - old(known)@.len()) as nat,
                    );
                    assert(peer_views(known@) =~= before.push(
                        PeerView {
                            device: p.device@,
                            name: p.name@,
                            key: p.static_public_key@,
                        },
                    ));
                    lemma_record_views(list1, p.device@);
                }
                let record = PairingRecord {
                    device: p.device.dup(),
                    name: p.name.clone(),
                    static_public_key: copy_bytes(&p.static_public_key),
                    addrs: copy_addrs(&p.addrs),
                    introduced_by: Some(from.clone()),
                };
                let ghost rv = record_view(record);
                upsert_pairing(list, record);
                assert(record_views(list@) =~= with_record(record_views(list1), rv));
            }
        }
        i += 1;
    }
    assert(peers@.take(peers@.len() as int) =~= peers@);
}

/// Every address that came with an introduction and that leads anywhere is in the book
/// afterwards, so that a device that was just learned of can be looked for at once.
pub proof fn introduced_devices_can_be_looked_for(
    list: Seq<Candidate>,
    local: Seq<char>,
    intros: Seq<PeerIntro>,
    networks: LocalNetworks,
    i: int,
    k: int,
)
    requires
        0 <= i < intros.len(),
        intros[i].device@ != local,
        0 <= k < intros[i].addrs@.len(),
        class_of(intros[i].addrs@[k].ip, networks) is Some,
    ensures
        has_addr(
            booked(list, intros[i].device@, local, intros, networks),
            intros[i].addrs@[k],
        ),
    decreases intros.len(),
{
    let rest = intros.drop_last();
    let device = intros[i].device@;
    let before = booked(list, device, local, rest, networks);
    let last = intros.last();
    if i < rest.len() {
        assert(rest[i] == intros[i]);
        introduced_devices_can_be_looked_for(list, local, rest, networks, i, k);
        if last.device@ == device {
            lemma_with_addrs(before, last.addrs@, AddrSource::Peer, networks, intros[i].addrs@[k]);
        }
    } else {
        assert(last == intros[i]);
        lemma_with_addrs(before, last.addrs@, AddrSource::Peer, networks, last.addrs@[k]);
    }
}

/// Introductions never alter what is known: every device keeps its place, its name and
/// its key, so that nobody can replace the key of a paired device, and this device is
/// not added to its own table.
pub proof fn introductions_only_add(known: Seq<PeerView>, local: Seq<char>, intros: Seq<PeerIntro>)
    ensures
        learned(known, local, intros).len() >= known.len(),
        forall|i: int|
            0 <= i < known.len() ==> #[trigger] learned(known, local, intros)[i] == known[i],
        forall|i: int|
            known.len() <= i < learned(known, local, intros).len() ==> (#[trigger] learned(
                known,
                local,
                intros,
            )[i]).device != local,
    decreases intros.len(),
{
    if intros.len() > 0 {
        introductions_only_add(known, local, intros.drop_last());
        let before = learned(known, local, intros.drop_last());
        let after = learned(known, local, intros);
        assert forall|i: int| 0 <= i < known.len() implies #[trigger] after[i] == known[i] by {
            assert(before[i] == known[i]);
        }
        assert forall|i: int| known.len() <= i < after.len() implies (
        #[trigger] after[i]).device != local by {
            if i < before.len() {
                assert(before[i].device != local);
            }
        }
    }
}

/// Introductions of devices that are all known already change nothing, not even the
/// table's version: two devices that know the same others fall silent.
pub proof fn known_introductions_change_nothing(
    known: Seq<PeerView>,
    local: Seq<char>,
    intros: Seq<PeerIntro>,
    version: u64,
)
    requires
        forall|i: int|
            0 <= i < intros.len() ==> ((#[trigger] intros[i]).device@ == local || exists|k: int|
                0 <= k < known.len() && (#[trigger] known[k]).device == intros[i].device@),
    ensures
        learned(known, local, intros) == known,
        bumped(version, (learned(known, local, intros).len() - known.len()) as nat) == version,
    decreases intros.len(),
{
    if intros.len() > 0 {
        let t = intros.drop_last();
        assert forall|i: int| 0 <= i < t.len() implies ((#[trigger] t[i]).device@ == local
            || exists|k: int| 0 <= k < known.len() && (#[trigger] known[k]).device
            == t[i].device@) by {
            assert(intros[i] == t[i]);
        }
        known_introductions_change_nothing(known, local, t, version);
        assert(intros[intros.len() - 1] == intros.last());
    }
    lemma_bumped(version, 0);
}

/// What is left to do after a device left the group.
#[derive(Debug)]
pub struct Departure {
    /// The devices whose connections end.
    pub forgotten: Vec<DeviceId>,
    /// Whether the stored pairings changed.
    pub save: bool,
}

/// The ids in a table.
pub open spec fn ids(known: Seq<KnownPeer>) -> Seq<DeviceId> {
    known.map_values(|p: KnownPeer| p.device)
}

/// A device was removed from the group. Where it is this one, all pairings end; else
/// the device alone is forgotten, if it was known.
pub fn apply_removal(
    known: &mut KnownPeers,
    list: &mut Vec<PairingRecord>,
    book: &mut AddrBook,
    local: &DeviceId,
    device: &DeviceId,
) -> (r: Departure)
    requires
        old(book).wf(),
    ensures
        final(book).wf(),
        final(book).spec_local() == old(book).spec_local(),
        forall|d: Seq<char>| #[trigger]
            final(book).known(d) == if has_device(old(known)@, d) && (device@ == local@ || device@
                == d) {
                Seq::<Candidate>::empty()
            } else {
                old(book).known(d)
            },
        distinct(old(known)@) ==> distinct(final(known)@),
        if device@ == local@ {
            &&& final(known)@.len() == 0
            &&& final(known).spec_version() == bumped(
                old(known).spec_version(),
                device_count(old(known)@),
            )
            &&& final(list)@.len() == 0
            &&& r.forgotten@ == ids(old(known)@)
            &&& r.save
        } else if has_device(old(known)@, device@) {
            &&& final(known)@ == without_device(old(known)@, device@)
            &&& final(known).spec_version() == old(known).spec_version().wrapping_add(1)
            &&& r.forgotten@ == seq![*device]
            &&& r.save
            &&& ({
                let i = record_at(old(list)@, device@);
                final(list)@ == if i < old(list)@.len() {
                    old(list)@.remove(i as int)
                } else {
                    old(list)@
                }
            })
        } else {
            &&& final(known)@ == old(known)@
            &&& final(known).spec_version() == old(known).spec_version()
            &&& final(list)@ == old(list)@
            &&& r.forgotten@.len() == 0
            &&& !r.save
        },
{
    if device.is(local) {
        let forgotten = forget_all(known, book);
        clear_pairings(list);
        return Departure { forgotten, save: true };
    }
    proof {
        lemma_without_device(known@, device@);
    }
    let mut forgotten: Vec<DeviceId> = Vec::new();
    if known.remove(device) {
        book.forget(device);
        forgotten.push(device.dup());
        let name = remove_pairing(list, device);
        assert(forgotten@ =~= seq![*device]);
        Departure { forgotten, save: true }
    } else {
        Departure { forgotten, save: false }
    }
}

/// Empties the table of devices, one device at a time, and forgets their addresses.
pub fn forget_all(known: &mut KnownPeers, book: &mut AddrBook) -> (r: Vec<DeviceId>)
    requires
        old(book).wf(),
    ensures
        final(book).wf(),
        final(book).spec_local() == old(book).spec_local(),
        forall|d: Seq<char>| #[trigger]
            final(book).known(d) == if has_device(old(known)@, d) {
                Seq::<Candidate>::empty()
            } else {
                old(book).known(d)
            },
        final(known)@.len() == 0,
        final(known).spec_version() == bumped(
            old(known).spec_version(),
            device_count(old(known)@),
        ),
        r@ == ids(old(known)@),
{
    let mut forgotten: Vec<DeviceId> = Vec::new();
    let mut i: usize = 0;
    let n = known.len();
    while i < n
        invariant
            i <= n,
            n == known@.len(),
            *known == *old(known),
            forgotten@.len() == i,
            forall|k: int| 0 <= k < i ==> #[trigger] forgotten@[k] == known@[k].device,
        decreases n - i,
    {
        forgotten.push(known.snapshot()[i].device.dup());
        i += 1;
    }
    assert(forgotten@ =~= ids(known@));
    let ghost all = known@;
    let mut k: usize = 0;
    proof {
        lemma_bumped(known.spec_version(), 0);
    }
    while k < n
        invariant
            k <= n,
            n == all.len(),
            all == old(known)@,
            forgotten@ == ids(all),
            known.spec_version() == bumped(
                old(known).spec_version(),
                device_count(all.take(k as int)),
            ),
            forall|d: Seq<char>| #[trigger]
                has_device(known@, d) == (has_device(all, d) && !has_device(all.take(k as int), d)),
            book.wf(),
            book.spec_local() == old(book).spec_local(),
            forall|d: Seq<char>| #[trigger]
                book.known(d) == if has_device(all.take(k as int), d) {
                    Seq::<Candidate>::empty()
                } else {
                    old(book).known(d)
                },
        decreases n - k,
    {
        let ghost before = known@;
        let ghost gone = all[k as int].device@;
        let ghost book_before = *book;
        known.remove(&forgotten[k]);
        book.forget(&forgotten[k]);
        proof {
            let (was, now) = (all.take(k as int), all.take(k + 1));
            lemma_without_device(before, gone);
            assert(has_device(all, gone)) by {
                assert(all[k as int].device@ == gone);
            }
            assert forall|d: Seq<char>| #[trigger]
                has_device(known@, d) == (has_device(all, d) && !has_device(now, d)) by {
                lemma_next(all, k as int, d);
                assert(has_device(before, d) == (has_device(all, d) && !has_device(was, d)));
            }
            assert forall|d: Seq<char>| #[trigger]
                book.known(d) == if has_device(now, d) {
                    Seq::<Candidate>::empty()
                } else {
                    old(book).known(d)
                } by {
                lemma_next(all, k as int, d);
                if d != gone {
                    assert(book.known(d) == book_before.known(d));
                }
            }
            lemma_next(all, k as int, gone);
            lemma_bumped(old(known).spec_version(), device_count(was));
        }
        k += 1;
    }
    proof {
        assert(all.take(all.len() as int) =~= all);
        if known@.len() > 0 {
            let d = known@[0].device@;
            assert(has_device(known@, d));
        }
    }
    forgotten
}

/// `i` is the first introduction of a device that is neither this one nor known.
pub open spec fn first_of_a_stranger(
    known: Seq<KnownPeer>,
    local: Seq<char>,
    intros: Seq<PeerIntro>,
    i: int,
) -> bool {
    &&& 0 <= i < intros.len()
    &&& intros[i].device@ != local
    &&& forall|k: int| 0 <= k < known.len() ==> (#[trigger] known[k]).device@ != intros[i].device@
    &&& forall|j: int| 0 <= j < i ==> (#[trigger] intros[j]).device@ != intros[i].device@
}

proof fn lemma_learned(known: Seq<PeerView>, local: Seq<char>, intros: Seq<PeerIntro>, i: int)
    requires
        0 <= i < intros.len(),
        intros[i].device@ != local,
        forall|k: int| 0 <= k < known.len() ==> (#[trigger] known[k]).device != intros[i].device@,
        forall|j: int| 0 <= j < i ==> (#[trigger] intros[j]).device@ != intros[i].device@,
    ensures
        exists|k: int|
            0 <= k < learned(known, local, intros).len() && (#[trigger] learned(
                known,
                local,
                intros,
            )[k]) == (PeerView {
                device: intros[i].device@,
                name: intros[i].name@,
                key: intros[i].static_public_key@,
            }),
    decreases intros.len(),
{
    let rest = intros.drop_last();
    let before = learned(known, local, rest);
    let after = learned(known, local, intros);
    let it = PeerView {
        device: intros[i].device@,
        name: intros[i].name@,
        key: intros[i].static_public_key@,
    };
    if i < rest.len() {
        assert(rest[i] == intros[i]);
        assert forall|j: int| 0 <= j < i implies (#[trigger] rest[j]).device@ != rest[i].device@ by {
            assert(intros[j].device@ != intros[i].device@);
        }
        lemma_learned(known, local, rest, i);
        let k = choose|k: int| 0 <= k < before.len() && #[trigger] before[k] == it;
        assert(after[k] == it);
    } else {
        assert forall|k: int| 0 <= k < before.len() implies (#[trigger] before[k]).device
            != it.device by {
            lemma_learned_from(known, local, rest, k);
            if k >= known.len() {
                let j = choose|j: int|
                    0 <= j < rest.len() && (#[trigger] rest[j]).device@ == before[k].device;
                assert(intros[j].device@ != intros[i].device@);
            } else {
                assert(known[k].device != it.device);
            }
        }
        assert(after[before.len() as int] == it);
    }
}

/// Every entry was known before or comes from an introduction.
proof fn lemma_learned_from(known: Seq<PeerView>, local: Seq<char>, intros: Seq<PeerIntro>, k: int)
    requires
        0 <= k < learned(known, local, intros).len(),
    ensures
        k < known.len() ==> learned(known, local, intros)[k] == known[k],
        k >= known.len() ==> exists|j: int|
            0 <= j < intros.len() && (#[trigger] intros[j]).device@ == learned(
                known,
                local,
                intros,
            )[k].device && intros[j].name@ == learned(known, local, intros)[k].name
                && intros[j].static_public_key@ == learned(known, local, intros)[k].key
                && intros[j].device@ != local,
    decreases intros.len(),
{
    if intros.len() > 0 {
        let rest = intros.drop_last();
        let before = learned(known, local, rest);
        introductions_only_add(known, local, rest);
        if k < before.len() {
            lemma_learned_from(known, local, rest, k);
            if k >= known.len() {
                let j = choose|j: int|
                    0 <= j < rest.len() && (#[trigger] rest[j]).device@ == before[k].device
                        && rest[j].name@ == before[k].name && rest[j].static_public_key@
                        == before[k].key && rest[j].device@ != local;
                assert(intros[j] == rest[j]);
            }
        } else {
            assert(intros[intros.len() - 1] == intros.last());
        }
    }
}

/// A device that is introduced is trusted from then on: each stranger is in the table
/// afterwards, with the name and the key of its first introduction, so that its connections
/// are recognised by that key. Nobody else is added, and whoever was known is as before.
pub proof fn introduced_devices_are_trusted(
    before: Seq<KnownPeer>,
    after: Seq<KnownPeer>,
    local: Seq<char>,
    intros: Seq<PeerIntro>,
    i: int,
    n: int,
)
    requires
        peer_views(after) == learned(peer_views(before), local, intros),
    ensures
        first_of_a_stranger(before, local, intros, i) ==> exists|k: int|
            0 <= k < after.len() && (#[trigger] after[k]).device@ == intros[i].device@
                && after[k].name@ == intros[i].name@ && after[k].static_public_key@
                == intros[i].static_public_key@,
        first_of_a_stranger(before, local, intros, i) ==> key_at(
            after,
            intros[i].static_public_key@,
        ) < after.len(),
        after.len() >= before.len(),
        0 <= n < before.len() ==> after[n].device@ == before[n].device@ && after[n].name@
            == before[n].name@ && after[n].static_public_key@ == before[n].static_public_key@,
        before.len() <= n < after.len() ==> after[n].device@ != local && exists|j: int|
            0 <= j < intros.len() && (#[trigger] intros[j]).device@ == after[n].device@
                && intros[j].name@ == after[n].name@ && intros[j].static_public_key@
                == after[n].static_public_key@,
{
    let (old_views, new_views) = (peer_views(before), peer_views(after));
    introductions_only_add(old_views, local, intros);
    if first_of_a_stranger(before, local, intros, i) {
        assert forall|k: int| 0 <= k < old_views.len() implies (#[trigger] old_views[k]).device
            != intros[i].device@ by {
            assert(before[k].device@ != intros[i].device@);
        }
        lemma_learned(old_views, local, intros, i);
        let k = choose|k: int|
            0 <= k < new_views.len() && (#[trigger] new_views[k]) == (PeerView {
                device: intros[i].device@,
                name: intros[i].name@,
                key: intros[i].static_public_key@,
            });
        assert(after[k].device@ == new_views[k].device);
        lemma_key_at(after, intros[i].static_public_key@);
        assert(after[k].static_public_key@ == intros[i].static_public_key@);
    }
    if 0 <= n < before.len() {
        assert(new_views[n] == old_views[n]);
    }
    if before.len() <= n < after.len() {
        lemma_learned_from(old_views, local, intros, n);
        assert(new_views[n].device == after[n].device@);
    }
}

/// Whoever was introduced is remembered beyond the present run: a stranger's first
/// introduction is stored, with its name, its key, its addresses and who vouched for it.
pub proof fn introduced_devices_are_stored(
    known: Seq<KnownPeer>,
    before: Seq<PairingRecord>,
    after: Seq<PairingRecord>,
    local: Seq<char>,
    from: Seq<char>,
    intros: Seq<PeerIntro>,
    i: int,
)
    requires
        record_views(after) == stored(
            peer_views(known),
            record_views(before),
            local,
            from,
            intros,
        ),
        first_of_a_stranger(known, local, intros, i),
    ensures
        exists|k: int|
            0 <= k < after.len() && (#[trigger] after[k]).device@ == intros[i].device@
                && after[k].name@ == intros[i].name@ && after[k].static_public_key@
                == intros[i].static_public_key@ && after[k].addrs@ == intros[i].addrs@
                && after[k].introduced_by is Some && after[k].introduced_by->0@ == from,
{
    let views = peer_views(known);
    assert forall|k: int| 0 <= k < views.len() implies (#[trigger] views[k]).device
        != intros[i].device@ by {
        assert(known[k].device@ != intros[i].device@);
    }
    lemma_stored(views, record_views(before), local, from, intros, i);
    let it = RecordView {
        device: intros[i].device@,
        name: intros[i].name@,
        key: intros[i].static_public_key@,
        addrs: intros[i].addrs@,
        introduced_by: Some(from),
    };
    let k = choose|k: int| 0 <= k < record_views(after).len() && #[trigger] record_views(after)[k] == it;
    assert(after[k].device@ == record_views(after)[k].device);
}

proof fn lemma_view_at(list: Seq<RecordView>, device: Seq<char>)
    ensures
        view_at(list, device) <= list.len(),
        view_at(list, device) < list.len() ==> list[view_at(list, device) as int].device == device,
    decreases list.len(),
{
    if list.len() > 0 && list[0].device != device {
        lemma_view_at(list.drop_first(), device);
    }
}

proof fn lemma_stored(
    known: Seq<PeerView>,
    list: Seq<RecordView>,
    local: Seq<char>,
    from: Seq<char>,
    intros: Seq<PeerIntro>,
    i: int,
)
    requires
        0 <= i < intros.len(),
        intros[i].device@ != local,
        forall|k: int| 0 <= k < known.len() ==> (#[trigger] known[k]).device != intros[i].device@,
        forall|j: int| 0 <= j < i ==> (#[trigger] intros[j]).device@ != intros[i].device@,
    ensures
        exists|k: int|
            0 <= k < stored(known, list, local, from, intros).len() && (#[trigger] stored(
                known,
                list,
                local,
                from,
                intros,
            )[k]) == (RecordView {
                device: intros[i].device@,
                name: intros[i].name@,
                key: intros[i].static_public_key@,
                addrs: intros[i].addrs@,
                introduced_by: Some(from),
            }),
    decreases intros.len(),
{
    let rest = intros.drop_last();
    let last = intros.last();
    let table = learned(known, local, rest);
    let before = stored(known, list, local, from, rest);
    let after = stored(known, list, local, from, intros);
    let it = RecordView {
        device: intros[i].device@,
        name: intros[i].name@,
        key: intros[i].static_public_key@,
        addrs: intros[i].addrs@,
        introduced_by: Some(from),
    };
    lemma_view_at(before, last.device@);
    if i < rest.len() {
        assert(rest[i] == intros[i]);
        assert forall|j: int| 0 <= j < i implies (#[trigger] rest[j]).device@ != rest[i].device@ by {
            assert(intros[j].device@ != intros[i].device@);
        }
        lemma_stored(known, list, local, from, rest, i);
        lemma_learned(known, local, rest, i);
        let k = choose|k: int| 0 <= k < before.len() && #[trigger] before[k] == it;
        let t = choose|t: int|
            0 <= t < table.len() && (#[trigger] table[t]) == (PeerView {
                device: intros[i].device@,
                name: intros[i].name@,
                key: intros[i].static_public_key@,
            });
        assert(table[t].device == it.device);
        if learned(known, local, intros).len() > table.len() {
            assert(last.device@ != it.device);
        }
        assert(after[k] == it);
    } else {
        assert(last == intros[i]);
        assert forall|k: int| 0 <= k < table.len() implies (#[trigger] table[k]).device
            != it.device by {
            lemma_learned_from(known, local, rest, k);
            if k >= known.len() {
                let j = choose|j: int|
                    0 <= j < rest.len() && (#[trigger] rest[j]).device@ == table[k].device;
                assert(intros[j].device@ != intros[i].device@);
            } else {
                assert(known[k].device != it.device);
            }
        }
        assert(learned(known, local, intros).len() > table.len());
        let n = view_at(before, it.device) as int;
        assert(after[n] == it);
    }
}

/// A device introduces all the others that it knows, each with its name, its key and where
/// it can be reached, and never the device to itself.
pub proof fn everyone_else_is_introduced(
    peers: Seq<PeerIntro>,
    known: Seq<KnownPeer>,
    addrs: Seq<Vec<Endpoint>>,
    peer: Seq<char>,
)
    requires
        known.len() == addrs.len(),
        introduces(peers, known, addrs, introduced(known, peer)),
    ensures
        forall|i: int|
            0 <= i < known.len() && (#[trigger] known[i]).device@ != peer ==> exists|k: int|
                0 <= k < peers.len() && introduction_of(#[trigger] peers[k], known[i], addrs[i]),
        forall|k: int|
            0 <= k < peers.len() ==> (#[trigger] peers[k]).device@ != peer && exists|i: int|
                0 <= i < known.len() && introduction_of(peers[k], #[trigger] known[i], addrs[i]),
        peers.len() <= known.len(),
{
    lemma_introduced(known, peer);
    let who = introduced(known, peer);
    assert forall|i: int| 0 <= i < known.len() && (#[trigger] known[i]).device@ != peer implies exists|
        k: int,
    |
        0 <= k < peers.len() && introduction_of(#[trigger] peers[k], known[i], addrs[i]) by {
        let k = choose|k: int| 0 <= k < who.len() && #[trigger] who[k] == i;
        assert(introduction_of(peers[k], known[i], addrs[i]));
    }
    assert forall|k: int| 0 <= k < peers.len() implies (#[trigger] peers[k]).device@ != peer
        && exists|i: int|
        0 <= i < known.len() && introduction_of(peers[k], #[trigger] known[i], addrs[i]) by {
        let i = who[k];
        assert(known[i].device@ != peer);
        assert(introduction_of(peers[k], known[i], addrs[i]));
    }
}

/// An introduction tells of this device: who it is, what it is called, its key, and where it
/// can be reached.
pub open spec fn introduction_of(intro: PeerIntro, p: KnownPeer, addrs: Vec<Endpoint>) -> bool {
    &&& intro.device@ == p.device@
    &&& intro.name@ == p.name@
    &&& intro.static_public_key@ == p.static_public_key@
    &&& intro.addrs@ == addrs@
}

proof fn lemma_introduced(known: Seq<KnownPeer>, peer: Seq<char>)
    ensures
        introduced(known, peer).len() <= known.len(),
        forall|k: int|
            0 <= k < introduced(known, peer).len() ==> 0 <= (#[trigger] introduced(known, peer)[k])
                < known.len() && known[introduced(known, peer)[k]].device@ != peer,
        forall|i: int|
            0 <= i < known.len() && (#[trigger] known[i]).device@ != peer ==> exists|k: int|
                0 <= k < introduced(known, peer).len() && #[trigger] introduced(known, peer)[k] == i,
    decreases known.len(),
{
    if known.len() > 0 {
        let rest = known.drop_last();
        lemma_introduced(rest, peer);
        let (w, v) = (introduced(known, peer), introduced(rest, peer));
        assert forall|k: int| 0 <= k < w.len() implies 0 <= (#[trigger] w[k]) < known.len()
            && known[w[k]].device@ != peer by {
            if k < v.len() {
                assert(rest[v[k]] == known[v[k]]);
            }
        }
        assert forall|i: int| 0 <= i < known.len() && (#[trigger] known[i]).device@ != peer implies exists|
            k: int,
        |
            0 <= k < w.len() && #[trigger] w[k] == i by {
            if i < rest.len() {
                assert(rest[i].device@ != peer);
                let k = choose|k: int| 0 <= k < v.len() && #[trigger] v[k] == i;
                assert(w[k] == i);
            } else {
                assert(w[w.len() - 1] == i);
            }
        }
    }
}

/// Files do get their turn, and connections do end: an empty queue leads to the next chunk
/// of a file that is on its way, a superseded file is dropped and the other side told, and
/// the connection is closed where the hub is gone or the other side ends it.
pub proof fn every_event_has_its_consequence(step: PumpStep, round: ChunkRound)
    ensures
        PumpStep::TakeQueued.followed_by(PumpEvent::QueueEmpty(Streaming::Sending)) is SendChunk,
        PumpStep::TakeQueued.followed_by(PumpEvent::QueueEmpty(Streaming::Superseded))
            matches PumpStep::Listen { abort, finished, throttled } && abort,
        PumpStep::TakeQueued.followed_by(PumpEvent::QueueEmpty(Streaming::Idle))
            matches PumpStep::Listen { abort, finished, throttled } && !abort && !finished,
        PumpStep::TakeQueued.followed_by(PumpEvent::HubGone) is Close,
        step.followed_by(PumpEvent::Heard { close: true }) is Close,
        step.followed_by(PumpEvent::Heard { close: false }) is TakeQueued,
        // A file that is over is dropped, and one that the rate limit holds back is kept.
        round.open() ==> (PumpStep::SendChunk(round).followed_by(
            PumpEvent::Chunk(ChunkStep::Sent { last: true }),
        ) matches PumpStep::Listen { abort, finished, throttled } && finished && !abort),
        round.open() ==> (PumpStep::SendChunk(round).followed_by(PumpEvent::Chunk(ChunkStep::Ended))
            matches PumpStep::Listen { abort, finished, throttled } && finished && !abort),
        round.open() ==> (PumpStep::SendChunk(round).followed_by(
            PumpEvent::Chunk(ChunkStep::NoBudget),
        ) matches PumpStep::Listen { abort, finished, throttled } && throttled && !finished
            && !abort),
        round.open() && round.left > 1 ==> PumpStep::SendChunk(round).followed_by(
            PumpEvent::Chunk(ChunkStep::Sent { last: false }),
        ) is SendChunk,
{
}

/// A throttled connection waits as long as the limiter asks for and never not at all; one
/// that sends a file waits less than an idle one.
pub proof fn waiting_follows_the_load(wait: u64)
    ensures
        desired_timeout(true, wait, true) >= 1,
        desired_timeout(true, wait, true) >= wait,
        wait >= 1 ==> desired_timeout(true, wait, true) == wait,
        desired_timeout(true, wait, true) == desired_timeout(true, wait, false),
        1 <= desired_timeout(false, wait, true) < desired_timeout(false, wait, false),
{
}

/// Everyone who is forgotten is told of: the list names each device of the table, in its
/// order.
pub proof fn everyone_forgotten_is_named(known: Seq<KnownPeer>, i: int)
    requires
        0 <= i < known.len(),
    ensures
        ids(known).len() == known.len(),
        ids(known)[i] == known[i].device,
{
}

/// Nobody is looked for anew without having been introduced, and this device never is.
pub proof fn only_the_introduced_are_looked_for(
    list: Seq<Candidate>,
    device: Seq<char>,
    local: Seq<char>,
    intros: Seq<PeerIntro>,
    networks: LocalNetworks,
)
    requires
        device == local || forall|i: int|
            0 <= i < intros.len() ==> (#[trigger] intros[i]).device@ != device,
    ensures
        booked(list, device, local, intros, networks) == list,
    decreases intros.len(),
{
    if intros.len() > 0 {
        let rest = intros.drop_last();
        if device != local {
            assert(intros[intros.len() - 1].device@ != device);
            assert forall|i: int| 0 <= i < rest.len() implies (#[trigger] rest[i]).device@
                != device by {
                assert(intros[i].device@ != device);
            }
        }
        only_the_introduced_are_looked_for(list, device, local, rest, networks);
    }
}

} // verus!
