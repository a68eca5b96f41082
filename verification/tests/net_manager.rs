use clipsync::config::Settings;
use clipsync::known_peers::KnownPeers;
use clipsync::net_manager::{announce_addresses, dial_step, is_canonical, let_in, looks_refused, next_backoff, refresh_due, upload_limit_of, Admission, ConnRegistry, DialRound, DialStep, DIAL_RETRY_INTERVAL_MS, DIAL_RETRY_MAX_MS, DIAL_TIMEOUT_MS, NONCANONICAL_YIELD_MS};
use clipsync::types::{DeviceId, Endpoint, Ip, KnownPeer, SyncMessage};

#[test]
fn backoff_cap_is_short_enough_to_not_be_noticed() {
    assert!(DIAL_RETRY_MAX_MS <= 20_000);
    assert!(DIAL_RETRY_MAX_MS >= DIAL_TIMEOUT_MS * 2);
}

fn backed_off() -> u64 {
    let mut d = DIAL_RETRY_INTERVAL_MS;
    for _ in 0..8 {
        d = next_backoff(d, false, false, false);
    }
    d
}

#[test]
fn an_inbound_connection_also_resets_the_backoff() {
    let d = backed_off();
    assert!(d > DIAL_RETRY_INTERVAL_MS);
    assert_eq!(next_backoff(d, true, false, false), DIAL_RETRY_INTERVAL_MS);
}

#[test]
fn backoff_grows_then_caps() {
    let mut d = DIAL_RETRY_INTERVAL_MS;
    let mut seen = vec![d];
    for _ in 0..10 {
        d = next_backoff(d, false, false, false);
        seen.push(d);
    }
    assert!(seen.windows(2).all(|w| w[1] >= w[0]), "{seen:?}");
    assert_eq!(d, DIAL_RETRY_MAX_MS);
}

#[test]
fn backoff_resets_after_success() {
    let d = backed_off();
    assert!(d > DIAL_RETRY_INTERVAL_MS);
    assert_eq!(next_backoff(d, true, false, false), DIAL_RETRY_INTERVAL_MS);
}

#[test]
fn backoff_does_not_grow_while_waiting_for_addresses() {
    let d = backed_off();
    assert!(d > DIAL_RETRY_INTERVAL_MS);
    assert_eq!(next_backoff(d, false, true, false), DIAL_RETRY_INTERVAL_MS);
}

#[test]
fn backoff_resets_when_the_device_table_changes() {
    assert_eq!(next_backoff(backed_off(), false, false, true), DIAL_RETRY_INTERVAL_MS);
}

#[test]
fn both_ends_of_a_socket_agree_on_which_connection_wins() {
    let ids = [
        "86616331d59758e7",
        "d299082d41a4645a",
        "d9041402e76da45d",
        "0000000000000001",
        "ffffffffffffffff",
        "d299082d41a4645b",
    ];
    for a in ids {
        for b in ids {
            if a == b {
                continue;
            }
            let (a, b) = (DeviceId::new(a), DeviceId::new(b));
            let at_dialer = is_canonical(&a, &b, true);
            let at_listener = is_canonical(&b, &a, false);
            assert_eq!(at_dialer, at_listener);
            let other = is_canonical(&b, &a, true);
            assert_eq!(other, is_canonical(&a, &b, false));
            assert_ne!(at_dialer, other);
        }
    }
}

#[test]
fn the_canonical_connection_is_the_one_dialed_by_the_smaller_id() {
    let small = DeviceId::new("86616331d59758e7");
    let big = DeviceId::new("d9041402e76da45d");

    assert!(is_canonical(&small, &big, true));
    assert!(is_canonical(&big, &small, false));
    assert!(!is_canonical(&big, &small, true));
    assert!(!is_canonical(&small, &big, false));
}

#[test]
fn the_yield_window_leaves_room_for_a_round_trip() {
    assert!(NONCANONICAL_YIELD_MS >= 300);
    assert!(NONCANONICAL_YIELD_MS < DIAL_RETRY_INTERVAL_MS);
}

#[test]
fn strangers_are_refused_and_the_other_direction_waits() {
    let known = KnownPeers::new(vec![KnownPeer {
        device: DeviceId::new("b"),
        name: "b".to_string(),
        static_public_key: vec![2; 32],
    }]);
    let local = DeviceId::new("a");
    assert_eq!(let_in(&known, &local, &[9; 32], true), Admission::Refused);
    assert_eq!(let_in(&known, &local, &[2; 32], true), Admission::Peer { index: 0, wait_ms: 0 });
    assert_eq!(let_in(&known, &local, &[2; 32], false), Admission::Peer { index: 0, wait_ms: 500 });
}

#[test]
fn one_connection_per_device() {
    let mut reg = ConnRegistry::new();
    let d = DeviceId::new("d");
    assert!(reg.try_insert(&d));
    assert!(!reg.try_insert(&d));
    assert_eq!(reg.len(), 1);
    reg.remove(&d);
    assert!(!reg.contains(&d));
    assert!(reg.try_insert(&d));
}

#[test]
fn a_round_of_dialling_takes_note_of_everything() {
    assert_eq!(dial_step(true, 0), DialStep::Skip);
    assert_eq!(dial_step(false, 0), DialStep::AwaitAddrs);
    assert_eq!(dial_step(false, 2), DialStep::Dial);

    let mut round = DialRound::begin(1, 0);
    round.note(DialStep::Dial, false);
    assert_eq!(round.end(6_000, 1, 0), 12_000);
    assert_eq!(round.end(6_000, 1, 1), DIAL_RETRY_INTERVAL_MS);
    assert_eq!(round.end(6_000, 2, 0), DIAL_RETRY_INTERVAL_MS);
    round.note(DialStep::AwaitAddrs, false);
    assert_eq!(round.end(6_000, 1, 0), DIAL_RETRY_INTERVAL_MS);
}

#[test]
fn small_rules_of_a_connection() {
    assert!(refresh_due(0) && refresh_due(10) && !refresh_due(3));
    assert!(looks_refused(1_999) && !looks_refused(2_000));
    assert_eq!(announce_addresses(vec![]), None);
    let e = Endpoint { ip: Ip::V4(1), port: 2 };
    assert_eq!(announce_addresses(vec![e]), Some(SyncMessage::Addresses { addrs: vec![e] }));
}

#[test]
fn upload_limit_is_handed_on_as_set() {
    let mut s = Settings::default();
    s.upload_limit_bytes_per_sec = 0;
    assert_eq!(upload_limit_of(&s), Some(0));
    s.upload_limit_bytes_per_sec = 5 << 20;
    assert_eq!(upload_limit_of(&s), Some(5 << 20));
}
