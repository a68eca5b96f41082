use clipsync::host_probe::{find_hosts, is_reachable_peer, overlay_neighborhood, overlay_tool_candidates, scrape_ipv4, speaks_pairing, subnet_candidates};
use clipsync::ipv4::{dotted_of, parse};
use clipsync::types::{Endpoint, Ip};

fn ip(s: &str) -> u32 {
    let cs: Vec<char> = s.chars().collect();
    parse(&cs).unwrap()
}

fn v4(e: &Endpoint) -> u32 {
    match e.ip {
        Ip::V4(a) => a,
        Ip::V6(_) => panic!("only IPv4 is listed"),
    }
}

#[test]
fn scrapes_overlay_addresses_without_parsing_json() {
    let sample = "\
100.88.88.22    wangs-macbook        user@ macOS   -
100.88.88.11    mac-mini             user@ macOS   active; direct 192.168.3.7:41641
100.115.98.83   ip-172-31-44-214     user@ linux   offline
# Health check: client version 1.62.0 is out of date
";
    let ips = scrape_ipv4(sample);

    assert!(ips.contains(&ip("100.88.88.22")));
    assert!(ips.contains(&ip("100.88.88.11")));
    assert!(ips.contains(&ip("100.115.98.83")));
    assert!(ips.contains(&ip("192.168.3.7")));
    assert!(!ips.iter().any(|a| dotted_of(*a) == "1.62.0"));
}

#[test]
fn skips_addresses_that_cannot_be_a_peer() {
    assert!(!is_reachable_peer(ip("127.0.0.1")));
    assert!(!is_reachable_peer(ip("169.254.1.1")));
    assert!(!is_reachable_peer(ip("0.0.0.0")));
    assert!(!is_reachable_peer(ip("8.8.8.8")));

    assert!(is_reachable_peer(ip("192.168.3.7")));
    assert!(is_reachable_peer(ip("10.147.17.5")));
    assert!(is_reachable_peer(ip("100.88.88.11")));
}

#[test]
fn subnet_enumeration_excludes_network_broadcast_and_self() {
    let me = ip("192.168.3.3");
    let mask = ip("255.255.255.248");
    let hosts: Vec<u32> = subnet_candidates(&vec![(me, mask)], 47_685).iter().map(v4).collect();

    assert_eq!(hosts.len(), 5);
    assert!(!hosts.contains(&ip("192.168.3.0")));
    assert!(!hosts.contains(&ip("192.168.3.7")));
    assert!(!hosts.contains(&me));
}

#[test]
fn a_silent_listener_is_not_a_pairing_host() {
    assert!(!speaks_pairing(b""));
}

#[test]
fn a_service_speaking_another_protocol_is_not_a_pairing_host() {
    assert!(!speaks_pairing(&b"HTTP/1.1 200 OK\r\n"[..4]));
}

#[test]
fn probing_finds_a_listening_host_and_hands_back_the_connection() {
    let mut first = 2u32.to_be_bytes().to_vec();
    first.extend_from_slice(b"hi");
    assert!(speaks_pairing(&first[..4]));
    assert!(!speaks_pairing(&first[..3]));
    assert!(!speaks_pairing(&[0, 0, 0, 0]));
}

#[test]
fn overlay_neighborhood_covers_the_slash_24_around_own_address() {
    let own = vec![(ip("100.88.88.22"), ip("255.255.255.255")), (ip("192.168.3.3"), ip("255.255.255.0"))];
    let cands = overlay_neighborhood(&own, 47_685);
    for a in &cands {
        let a = v4(a);
        assert!(a != ip("100.88.88.22"));
        assert_ne!(a & 0xff, 0);
        assert_ne!(a & 0xff, 255);
        assert!(is_reachable_peer(a));
    }
    assert_eq!(cands.len(), 253);
    assert!(cands.iter().all(|e| e.port == 47_685));
    assert!(overlay_neighborhood(&own[1..].to_vec(), 47_685).is_empty());
}

#[test]
fn tools_are_listed_once_sorted_and_without_the_own_address() {
    let outputs = vec!["100.64.0.9 b\n100.64.0.2 a".to_string(), "100.64.0.9 100.64.0.1".to_string()];
    let got = overlay_tool_candidates(&outputs, &vec![ip("100.64.0.1")], 1);
    let ips: Vec<u32> = got.iter().map(v4).collect();
    assert_eq!(ips, vec![ip("100.64.0.2"), ip("100.64.0.9")]);
}

#[test]
fn search_tries_each_address_once_in_order() {
    let e = |s: &str| Endpoint { ip: Ip::V4(ip(s)), port: 1 };
    let got = find_hosts(
        &vec![e("100.64.0.2")],
        &vec![e("100.64.0.3"), e("100.64.0.2")],
        &vec![e("10.0.0.1"), e("100.64.0.3")],
    );
    assert_eq!(got, vec![e("100.64.0.2"), e("100.64.0.3"), e("10.0.0.1")]);
}

#[test]
fn addresses_are_read_and_written_the_usual_way() {
    assert_eq!(dotted_of(ip("192.168.0.1")), "192.168.0.1");
    for bad in ["1.2.3", "1.2.3.4.5", "256.1.1.1", "01.2.3.4", "1..2.3", "", "a.b.c.d"] {
        let cs: Vec<char> = bad.chars().collect();
        assert!(parse(&cs).is_none(), "{bad}");
    }
}
