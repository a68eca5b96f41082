use clipsync::addrbook::{AddrBook, AddrSource, LocalNetworks};
use clipsync::known_peers::KnownPeers;
use clipsync::types::{DeviceId, Endpoint, Ip, KnownPeer, PairingRecord};
use clipsync::wiring::{beacon_heard, is_our_received_files, manual_addrs, seed_manual_addrs, PathParts};

fn parts(p: &str) -> Vec<String> {
    p.split('/').map(|s| s.to_string()).collect()
}

#[test]
fn received_files_detection_requires_all_paths_inside() {
    let recv = parts("/tmp/ClipSync/recv");
    let mk = |paths: Vec<&str>| -> Vec<PathParts> { paths.into_iter().map(|p| PathParts { parts: parts(p) }).collect() };

    assert!(is_our_received_files(&mk(vec!["/tmp/ClipSync/recv/0001/a.txt"]), &recv));
    assert!(!is_our_received_files(&mk(vec!["/tmp/ClipSync/recv/0001/a.txt", "/Users/me/b.txt"]), &recv));
    assert!(!is_our_received_files(&mk(vec![]), &recv));
    assert!(!is_our_received_files(&mk(vec!["/tmp/ClipSync/recv2/a.txt"]), &recv));
}

#[test]
fn manual_addresses_are_split_at_commas() {
    assert_eq!(manual_addrs(" 10.0.0.1:1 ,[::1]:2,"), vec!["10.0.0.1:1", "[::1]:2", ""]);
    assert!(manual_addrs("   ").is_empty());
}

fn e(last: u8) -> Endpoint {
    Endpoint { ip: Ip::V4(u32::from_be_bytes([10, 0, 0, last])), port: 1 }
}

#[test]
fn manual_addresses_are_tried_for_every_device() {
    let mut book = AddrBook::new(LocalNetworks { v4: vec![], v6: vec![] });
    let records: Vec<PairingRecord> = ["a", "b"]
        .iter()
        .map(|id| PairingRecord {
            device: DeviceId::new(id),
            name: id.to_string(),
            static_public_key: vec![],
            addrs: vec![],
            introduced_by: None,
        })
        .collect();
    seed_manual_addrs(&mut book, &records, &vec![e(1), e(2)]);
    for id in ["a", "b"] {
        let order = book.connect_order(&DeviceId::new(id));
        assert_eq!(order.len(), 2);
        assert_eq!(order[0].source, AddrSource::Manual);
    }
    assert_eq!(book.count(&DeviceId::new("c")), 0);
}

#[test]
fn only_paired_devices_are_listened_to() {
    let mut book = AddrBook::new(LocalNetworks { v4: vec![], v6: vec![] });
    let known = KnownPeers::new(vec![KnownPeer {
        device: DeviceId::new("a"),
        name: "a".to_string(),
        static_public_key: vec![],
    }]);
    beacon_heard(&mut book, &known, &DeviceId::new("a"), e(1), &vec![e(2)]);
    beacon_heard(&mut book, &known, &DeviceId::new("x"), e(1), &vec![e(2)]);
    let order = book.connect_order(&DeviceId::new("a"));
    assert_eq!((order.len(), order[0].addr), (2, e(1)));
    assert_eq!(book.count(&DeviceId::new("x")), 0);
}
