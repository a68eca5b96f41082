use clipsync::addrbook::{classify, seed_addrbook_from_pairings, AddrBook, AddrClass, AddrSource, LocalNetworks};
use clipsync::types::{DeviceId, Endpoint, Ip, PairingRecord};

fn v4(a: u8, b: u8, c: u8, d: u8, port: u16) -> Endpoint {
    Endpoint { ip: Ip::V4(u32::from_be_bytes([a, b, c, d])), port }
}

/// The IPv6 address that starts with these two groups and ends in 1.
fn v6(first: u128, second: u128) -> Ip {
    Ip::V6((first << 112) | (second << 96) | 1)
}

fn book() -> AddrBook {
    AddrBook::new(LocalNetworks { v4: vec![], v6: vec![] })
}

fn dev() -> DeviceId {
    DeviceId::new("peer")
}

#[test]
fn adds_and_orders_addresses() {
    let mut book = book();
    let d = dev();
    book.add_addrs(&d, &vec![v4(203, 0, 113, 9, 47684)], AddrSource::Manual);
    book.add_addrs(&d, &vec![v4(100, 64, 0, 5, 47684)], AddrSource::Pairing);
    book.add_addrs(&d, &vec![v4(127, 0, 0, 1, 47684)], AddrSource::Beacon);

    let order = book.connect_order(&d);
    assert_eq!(order.len(), 3);
    assert_eq!(order[0].addr, v4(127, 0, 0, 1, 47684));
    assert_eq!(order[2].addr, v4(203, 0, 113, 9, 47684));
}

#[test]
fn unusable_addresses_are_ignored() {
    let mut book = book();
    let d = dev();
    book.add_addrs(&d, &vec![v4(169, 254, 9, 9, 47684)], AddrSource::Beacon);
    assert_eq!(book.count(&d), 0);
}

#[test]
fn duplicate_addresses_are_merged() {
    let mut book = book();
    let d = dev();
    let a = v4(10, 1, 2, 3, 47684);
    book.add_addrs(&d, &vec![a], AddrSource::Pairing);
    book.add_addrs(&d, &vec![a], AddrSource::Beacon);
    assert_eq!(book.count(&d), 1);
}

#[test]
fn mark_good_promotes_within_class() {
    let mut book = book();
    let d = dev();
    let first = v4(10, 0, 0, 1, 1);
    let second = v4(10, 0, 0, 2, 1);
    book.add_addrs(&d, &vec![first, second], AddrSource::Peer);
    book.mark_good(&d, &second);

    assert_eq!(book.connect_order(&d)[0].addr, second);
}

#[test]
fn unknown_device_has_empty_order() {
    let book = book();
    assert!(book.connect_order(&dev()).is_empty());
}

#[test]
fn own_subnet_is_preferred_to_an_overlay_network() {
    let local = LocalNetworks {
        v4: vec![(u32::from_be_bytes([192, 168, 1, 7]), 0xffff_ff00)],
        v6: vec![],
    };
    assert_eq!(classify(v4(192, 168, 1, 20, 0).ip, &local), Some(AddrClass::LanDirect));
    assert_eq!(classify(v4(192, 168, 2, 20, 0).ip, &local), Some(AddrClass::Overlay));
    assert_eq!(classify(v4(8, 8, 8, 8, 0).ip, &local), Some(AddrClass::Public));
    assert_eq!(classify(v4(0, 0, 0, 0, 0).ip, &local), None);
    assert_eq!(classify(v6(0xfe80, 0), &local), None);
    assert_eq!(classify(v6(0xfd7a, 0), &local), Some(AddrClass::Overlay));
    assert_eq!(classify(v6(0x2001, 0xdb8), &local), Some(AddrClass::Public));

    let mut book = AddrBook::new(local);
    let d = dev();
    book.add_addrs(&d, &vec![v4(100, 64, 0, 5, 1), v4(192, 168, 1, 20, 1)], AddrSource::Peer);
    let order = book.connect_order(&d);
    assert_eq!(order[0].addr, v4(192, 168, 1, 20, 1));
    assert_eq!(order[1].addr, v4(100, 64, 0, 5, 1));
}

#[test]
fn forgotten_device_has_no_addresses_left() {
    let mut book = book();
    let other = DeviceId::new("other");
    book.add_addrs(&dev(), &vec![v4(10, 0, 0, 1, 1)], AddrSource::Peer);
    book.add_addrs(&other, &vec![v4(10, 0, 0, 2, 1)], AddrSource::Peer);
    book.forget(&dev());
    assert_eq!(book.count(&dev()), 0);
    assert_eq!(book.count(&other), 1);
    assert_eq!(book.snapshot().len(), 1);
}

#[test]
fn stored_pairings_fill_the_book() {
    let mut book = book();
    let record = PairingRecord {
        device: dev(),
        name: "desk".to_string(),
        static_public_key: vec![1; 32],
        addrs: vec![v4(10, 0, 0, 9, 47684), v4(127, 0, 0, 1, 47684)],
        introduced_by: None,
    };
    seed_addrbook_from_pairings(&mut book, &vec![record]);
    let order = book.connect_order(&dev());
    assert_eq!(order.len(), 2);
    assert_eq!(order[0].addr, v4(127, 0, 0, 1, 47684));
    assert_eq!(order[0].source, AddrSource::Pairing);
}

#[test]
fn new_networks_count_for_addresses_that_come_later() {
    let mut book = book();
    let far = v4(192, 168, 7, 20, 47684);
    book.add_addrs(&dev(), &vec![far], AddrSource::Beacon);
    assert_eq!(book.connect_order(&dev())[0].class, AddrClass::Overlay);
    let mine = LocalNetworks { v4: vec![(u32::from_be_bytes([192, 168, 7, 1]), 0xffff_ff00)], v6: vec![] };
    book.refresh_local_networks(mine);
    assert_eq!(book.connect_order(&dev())[0].class, AddrClass::Overlay);
    let other = DeviceId::new("other");
    book.add_addrs(&other, &vec![far], AddrSource::Beacon);
    assert_eq!(book.connect_order(&other)[0].class, AddrClass::LanDirect);
}
