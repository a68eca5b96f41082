use clipsync::addrbook::{AddrBook, AddrSource, LocalNetworks};
use clipsync::filetransfer::{OutgoingFiles, OutgoingStream};
use clipsync::known_peers::KnownPeers;
use clipsync::net_pump::{apply_removal, introduce_peers, learn_peers, superseded, ChunkRound, ChunkStep, PumpEvent, PumpState, PumpStep, Routing, Streaming};
use clipsync::types::{DeviceId, Endpoint, Ip, KnownPeer, PairingRecord, PeerIntro, SyncMessage};

fn dev(s: &str) -> DeviceId {
    DeviceId::new(s)
}

fn peer(id: &str) -> KnownPeer {
    KnownPeer { device: dev(id), name: id.to_string(), static_public_key: vec![id.len() as u8; 32] }
}

fn record(id: &str) -> PairingRecord {
    PairingRecord { device: dev(id), name: id.to_string(), static_public_key: vec![], addrs: vec![], introduced_by: None }
}

fn e(last: u8) -> Endpoint {
    Endpoint { ip: Ip::V4(u32::from_be_bytes([10, 0, 0, last])), port: 1 }
}

fn book() -> AddrBook {
    AddrBook::new(LocalNetworks { v4: vec![], v6: vec![] })
}

#[test]
fn devices_introduce_each_other() {
    let known = vec![peer("a"), peer("bb"), peer("ccc")];
    let addrs = vec![vec![], vec![e(2)], vec![]];
    match introduce_peers(&known, &addrs, &dev("a"), Some(2)) {
        Some(SyncMessage::Peers { peers }) => {
            let ids: Vec<&str> = peers.iter().map(|p| p.device.text.as_str()).collect();
            assert_eq!(ids, vec!["bb", "ccc"]);
            assert_eq!(peers[0].addrs, vec![e(2)]);
        }
        other => panic!("{other:?}"),
    }
    assert!(introduce_peers(&known, &addrs, &dev("a"), Some(1)).is_none());
    assert!(introduce_peers(&known, &addrs, &dev("a"), None).is_none());
    assert!(introduce_peers(&known[..1].to_vec(), &addrs[..1].to_vec(), &dev("a"), Some(2)).is_none());
}

#[test]
fn introductions_add_strangers_only() {
    let mut known = KnownPeers::new(vec![peer("a")]);
    let mut list = vec![record("a")];
    let intro = |id: &str| PeerIntro { device: dev(id), name: id.to_string(), static_public_key: vec![9; 32], addrs: vec![e(3)] };
    let version = known.version();
    let mut book = book();
    learn_peers(&mut known, &mut list, &mut book, &dev("me"), &"a".to_string(), vec![intro("bb"), intro("me"), intro("a")]);
    assert_eq!(known.len(), 2);
    assert!(!known.contains(&dev("me")));
    assert_eq!(known.snapshot()[0].static_public_key, vec![1; 32]);
    assert_eq!(list.len(), 2);
    assert_eq!(list[1].introduced_by.as_deref(), Some("a"));
    assert_eq!(book.connect_order(&dev("bb"))[0].addr, e(3));
    assert_eq!(book.connect_order(&dev("bb"))[0].source, AddrSource::Peer);
    assert_eq!((book.count(&dev("a")), book.count(&dev("me"))), (1, 0));
    assert_eq!(known.version(), version + 1);
    learn_peers(&mut known, &mut list, &mut book, &dev("me"), &"a".to_string(), vec![intro("bb"), intro("me"), intro("a")]);
    assert_eq!((known.len(), known.version()), (2, version + 1));
}

#[test]
fn removals_concern_the_whole_group() {
    let mut known = KnownPeers::new(vec![peer("a"), peer("bb")]);
    let mut list = vec![record("a"), record("bb")];
    let mut book = book();
    for id in ["a", "bb", "x"] {
        book.add_addrs(&dev(id), &vec![e(4)], AddrSource::Beacon);
    }
    let counts = |b: &AddrBook| (b.count(&dev("a")), b.count(&dev("bb")), b.count(&dev("x")));
    let d = apply_removal(&mut known, &mut list, &mut book, &dev("me"), &dev("x"));
    assert!(!d.save && d.forgotten.is_empty());
    assert_eq!(known.version(), 0);
    let d = apply_removal(&mut known, &mut list, &mut book, &dev("me"), &dev("a"));
    assert!(d.save && d.forgotten == vec![dev("a")]);
    assert_eq!((known.len(), list.len(), known.version()), (1, 1, 1));
    assert_eq!(counts(&book), (0, 1, 1));
    let d = apply_removal(&mut known, &mut list, &mut book, &dev("me"), &dev("me"));
    assert!(d.save && d.forgotten == vec![dev("bb")]);
    assert_eq!((known.len(), list.len(), known.version()), (0, 0, 2));
    assert_eq!(counts(&book), (0, 0, 1));
}

#[test]
fn messages_go_where_they_belong() {
    let mut p = PumpState::start(0, 0);
    let (me, peer) = (dev("me"), dev("a"));
    let need = SyncMessage::FileNeed { generation: 1, file_id: 2, offset: 3 };
    assert_eq!(p.receive(&need, &me, &peer), Routing::Serve { generation: 1, file_id: 2, offset: 3 });
    assert!(!p.introduction_due(5));
    let hello = SyncMessage::Hello { protocol: 2, device: dev("a"), device_name: "a".to_string() };
    assert_eq!(p.receive(&hello, &me, &peer), Routing::Noted);
    assert!(p.introduction_due(5) && !p.introduction_due(5) && p.introduction_due(6));
    assert_eq!(p.receive(&SyncMessage::Removed { device: dev("me") }, &me, &peer), Routing::Remove { close: true });
    assert_eq!(p.receive(&SyncMessage::Removed { device: dev("x") }, &me, &peer), Routing::Remove { close: false });
    assert_eq!(p.receive(&SyncMessage::Peers { peers: vec![] }, &me, &peer), Routing::Learn);
    assert_eq!(p.receive(&SyncMessage::Ping, &me, &peer), Routing::ToHub);
}

#[test]
fn timers_and_timeouts() {
    let mut p = PumpState::start(0, 0);
    assert!(!p.announce_due(59_999));
    assert!(p.announce_due(60_000));
    assert!(!p.announce_due(60_001));
    assert_eq!(p.retime(false, 0, false), None);
    assert_eq!(p.retime(false, 0, true), Some(1));
    assert_eq!(p.retime(true, 35, true), Some(35));
    assert_eq!(p.retime(false, 0, false), Some(20));
    assert!(p.settings_changed(1) && !p.settings_changed(1));
}

#[test]
fn a_new_copy_supersedes_the_transfer_of_the_old_one() {
    let mut out: OutgoingFiles<&str> = OutgoingFiles::new();
    out.register(1, vec![(1, "x")]);
    let auto = OutgoingStream::start(1, 1, None, 10, 0, false, false, true);
    let manual = OutgoingStream::start(1, 1, None, 10, 0, false, false, false);
    assert!(!superseded(&auto, &out));
    out.advance(2);
    assert!(superseded(&auto, &out));
    assert!(!superseded(&manual, &out));
}

#[test]
fn a_round_sends_a_few_chunks() {
    let mut r = ChunkRound::new();
    let mut sent = 1;
    while r.step(ChunkStep::Sent { last: false }) {
        sent += 1;
    }
    assert_eq!(sent, 4);
    let mut r = ChunkRound::new();
    assert!(!r.step(ChunkStep::NoBudget));
    assert!(r.throttled);
    let mut r = ChunkRound::new();
    assert!(!r.step(ChunkStep::Sent { last: true }));
    assert!(r.finished);
    let mut r = ChunkRound::new();
    assert!(!r.step(ChunkStep::Ended));
}

#[test]
fn queued_messages_go_before_chunks() {
    let mut queue = vec!["one", "two"];
    let mut sent: Vec<&str> = Vec::new();
    let mut step = PumpStep::TakeQueued;
    for turn in 0..20 {
        let event = match step {
            PumpStep::TakeQueued if queue.is_empty() => PumpEvent::QueueEmpty(Streaming::Sending),
            PumpStep::TakeQueued => {
                sent.push(queue.remove(0));
                PumpEvent::Queued
            }
            PumpStep::SendChunk(_) => {
                sent.push("chunk");
                if turn == 4 {
                    queue.push("three");
                }
                PumpEvent::Chunk(ChunkStep::Sent { last: false })
            }
            PumpStep::Listen { abort, finished, throttled } => {
                assert!(!abort && !finished && !throttled);
                PumpEvent::Heard { close: false }
            }
            PumpStep::Close => panic!("closed"),
        };
        step = step.next(event);
    }
    assert_eq!(sent[..8], ["one", "two", "chunk", "chunk", "chunk", "chunk", "three", "chunk"]);
}

#[test]
fn rounds_end_as_they_should() {
    let take = PumpStep::TakeQueued;
    assert_eq!(take.next(PumpEvent::HubGone), PumpStep::Close);
    let listen = |abort, finished, throttled| PumpStep::Listen { abort, finished, throttled };
    assert_eq!(take.next(PumpEvent::QueueEmpty(Streaming::Idle)), listen(false, false, false));
    assert_eq!(take.next(PumpEvent::QueueEmpty(Streaming::Superseded)), listen(true, false, false));
    let chunk = take.next(PumpEvent::QueueEmpty(Streaming::Sending));
    assert_eq!(chunk.next(PumpEvent::Chunk(ChunkStep::NoBudget)), listen(false, false, true));
    assert_eq!(chunk.next(PumpEvent::Chunk(ChunkStep::Ended)), listen(false, true, false));
    assert_eq!(chunk.next(PumpEvent::Chunk(ChunkStep::Sent { last: true })), listen(false, true, false));
    assert_eq!(listen(false, false, false).next(PumpEvent::Heard { close: true }), PumpStep::Close);
}
