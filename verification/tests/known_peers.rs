use std::cell::RefCell;
use std::rc::Rc;

use clipsync::known_peers::KnownPeers;
use clipsync::tray_status::TrayStatus;
use clipsync::types::{DeviceId, KnownPeer};

fn peer(id: &str, key: u8) -> KnownPeer {
    KnownPeer {
        device: DeviceId::new(id),
        name: id.to_string(),
        static_public_key: vec![key; 32],
    }
}

#[test]
fn counter_tracks_every_mutation() {
    let mut known = KnownPeers::new(vec![peer("a", 1)]);
    let status = TrayStatus::tracking();
    assert_eq!(status.snapshot(&known).paired, 1);

    known.upsert(peer("b", 2));
    assert_eq!(status.snapshot(&known).paired, 2);

    known.upsert(peer("b", 2));
    assert_eq!(status.snapshot(&known).paired, 2);

    known.remove(&peer("b", 2).device);
    assert_eq!(status.snapshot(&known).paired, 1);

    known.remove(&peer("ghost", 9).device);
    assert_eq!(status.snapshot(&known).paired, 1);
    assert_eq!(known.len(), 1);
}

#[test]
fn newly_paired_device_is_visible_immediately() {
    let known = Rc::new(RefCell::new(KnownPeers::new(vec![peer("a", 1)])));
    let shared = known.clone();

    let b = peer("b", 2);
    known.borrow_mut().upsert(b.clone());

    let shared = shared.borrow();
    assert_eq!(shared.len(), 2);
    assert!(shared.contains(&b.device));
    assert_eq!(
        shared.find_by_static_key(&b.static_public_key).map(|p| p.name.clone()),
        Some("b".to_string())
    );
}

#[test]
fn upsert_replaces_instead_of_duplicating() {
    let mut known = KnownPeers::new(vec![peer("a", 1)]);
    let mut renamed = peer("a", 9);
    renamed.name = "改了名的 A".to_string();
    known.upsert(renamed);

    assert_eq!(known.len(), 1);
    let got = known.snapshot().last().unwrap();
    assert_eq!(got.name, "改了名的 A");
    assert_eq!(got.static_public_key, vec![9; 32]);
}

#[test]
fn removed_device_is_invisible_to_dialer_and_auth() {
    let a = peer("a", 1);
    let b = peer("b", 2);
    let mut known = KnownPeers::new(vec![a.clone(), b.clone()]);

    assert!(known.remove(&b.device));
    assert_eq!(known.len(), 1);
    assert!(!known.contains(&b.device));
    assert!(known.find_by_static_key(&b.static_public_key).is_none());
    assert!(known.contains(&a.device));
}

#[test]
fn removing_absent_device_reports_false() {
    let mut known = KnownPeers::new(vec![peer("a", 1)]);
    let ghost = peer("ghost", 9);
    assert!(!known.remove(&ghost.device));
    assert_eq!(known.len(), 1);
}

#[test]
fn unknown_static_key_is_not_found() {
    let known = KnownPeers::new(vec![peer("a", 1)]);
    assert!(known.find_by_static_key(&[7u8; 32]).is_none());
}

#[test]
fn introduced_device_becomes_connectable() {
    let mut b_side = KnownPeers::new(vec![peer("a", 1)]);
    let c = peer("c", 3);
    assert!(!b_side.contains(&c.device));
    assert!(b_side.find_by_static_key(&c.static_public_key).is_none());

    b_side.upsert(c.clone());
    assert!(b_side.contains(&c.device));
    assert_eq!(
        b_side.find_by_static_key(&c.static_public_key).map(|p| p.name.clone()),
        Some("c".to_string())
    );
}

#[test]
fn repeated_introduction_is_idempotent() {
    let mut known = KnownPeers::new(vec![peer("a", 1), peer("c", 3)]);
    known.upsert(peer("c", 3));
    known.upsert(peer("c", 3));
    assert_eq!(known.len(), 2);
}

#[test]
fn version_changes_on_every_mutation() {
    let mut known = KnownPeers::new(vec![peer("a", 1)]);
    let v0 = known.version();
    known.upsert(peer("b", 2));
    let v1 = known.version();
    assert_ne!(v1, v0);
    known.upsert(peer("b", 9));
    let v2 = known.version();
    assert_ne!(v2, v1);
    assert!(known.remove(&peer("b", 9).device));
    assert_ne!(known.version(), v2);
}

#[test]
fn version_stays_put_when_nothing_removed() {
    let mut known = KnownPeers::new(vec![peer("a", 1)]);
    let v = known.version();
    assert!(!known.remove(&peer("ghost", 9).device));
    assert_eq!(known.version(), v);
}

#[test]
fn waiting_thread_wakes_the_moment_a_device_is_added() {
    let mut known = KnownPeers::new(vec![]);
    let version = known.version();
    assert!(known.wait_for_change(version, 50, 60_000));
    known.upsert(peer("b", 2));
    assert!(!known.wait_for_change(version, 50, 60_000));
}

#[test]
fn waiting_returns_at_once_when_the_change_already_happened() {
    let mut known = KnownPeers::new(vec![]);
    let stale = known.version();
    known.upsert(peer("b", 2));
    assert!(!known.wait_for_change(stale, 0, 60_000));
}

#[test]
fn waiting_ends_with_its_time() {
    let mut known = KnownPeers::new(vec![peer("a", 1)]);
    let version = known.version();
    assert!(!known.remove(&DeviceId::new("b")));
    assert!(known.wait_for_change(version, 59_999, 60_000));
    assert!(!known.wait_for_change(version, 60_000, 60_000));
}
