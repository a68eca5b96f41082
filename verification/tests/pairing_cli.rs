use clipsync::language::Lang;
use clipsync::pairing_cli::{accept_until, addr_block, code_dialog_body, connect_hosts, discover_host, fmt_host, host_banner, join_on, learned_lines, listened, local_ipv4_lines, manual_hint, parse_pairing_input, probed, retry_line, searched, AcceptStep, Accepted, Cancelled, ConnectStep, FoundAddr, FoundHost, Handshake, HostError, HostSession, HostStep, HostText, PairingCode, Tries, HOST_SESSION_TIMEOUT};
use clipsync::types::Ip;
use clipsync::wallclock::hms_after;

fn v4(a: u8, b: u8, c: u8, d: u8) -> Ip {
    Ip::V4(u32::from_be_bytes([a, b, c, d]))
}

fn own() -> Vec<Ip> {
    vec![v4(8, 8, 8, 8), v4(100, 88, 88, 22), Ip::V6(1), v4(198, 18, 0, 1), v4(192, 168, 3, 3), v4(198, 19, 5, 5), v4(10, 0, 0, 2)]
}

#[test]
fn accept_until_releases_port_after_deadline() {
    assert_eq!(accept_until(Accepted::NoneYet, 299, 300, false), AcceptStep::Wait);
    assert_eq!(accept_until(Accepted::NoneYet, 300, 300, false), AcceptStep::GiveUp);
}

#[test]
fn accept_until_returns_connection_in_blocking_mode() {
    assert_eq!(accept_until(Accepted::Connection, 0, 5_000, false), AcceptStep::Serve);
    assert_eq!(accept_until(Accepted::Failed, 0, 5_000, false), AcceptStep::Fail);
}

#[test]
fn a_session_that_is_over_serves_nobody() {
    for found in [Accepted::Connection, Accepted::NoneYet, Accepted::Failed] {
        assert_eq!(accept_until(found, 5_000, 5_000, false), AcceptStep::GiveUp);
        assert_eq!(accept_until(found, 0, 5_000, true), AcceptStep::GiveUp);
    }
    assert_eq!(accept_until(Accepted::Connection, 4_999, 5_000, false), AcceptStep::Serve);
}

#[test]
fn accept_until_gives_up_promptly_when_cancelled() {
    assert_eq!(accept_until(Accepted::NoneYet, 0, 600_000, false), AcceptStep::Wait);
    assert_eq!(accept_until(Accepted::NoneYet, 300, 600_000, true), AcceptStep::GiveUp);
}

#[test]
fn parses_bare_code() {
    let (code, host) = parse_pairing_input("1234").unwrap();
    assert_eq!(code.as_str(), "1234");
    assert!(host.is_none());
}

#[test]
fn parses_code_with_address() {
    let (code, host) = parse_pairing_input("1234@100.88.88.22").unwrap();
    assert_eq!(code.as_str(), "1234");
    assert_eq!(host.as_deref(), Some("100.88.88.22"));
}

#[test]
fn parses_ipv6_address() {
    let (code, host) = parse_pairing_input("1234@[fd7a:115c:a1e0::e201:c839]").unwrap();
    assert_eq!(code.as_str(), "1234");
    assert_eq!(host.as_deref(), Some("[fd7a:115c:a1e0::e201:c839]"));
}

#[test]
fn tolerates_messy_input() {
    assert_eq!(parse_pairing_input("  1234  ").unwrap().0.as_str(), "1234");
    assert_eq!(parse_pairing_input("12-34").unwrap().0.as_str(), "1234");
    let (c, h) = parse_pairing_input(" 1234@10.0.0.5 ").unwrap();
    assert_eq!((c.as_str(), h.as_deref()), ("1234", Some("10.0.0.5")));
}

#[test]
fn rejects_malformed_input() {
    assert!(parse_pairing_input("").is_none());
    assert!(parse_pairing_input("1234567").is_none());
    assert!(parse_pairing_input("1234@").is_none());
    assert!(parse_pairing_input("12A4").is_none());
    assert!(parse_pairing_input("12A4@10.0.0.5").is_none());
}

#[test]
fn manual_code_with_address_round_trips() {
    let code = PairingCode::parse("0427").unwrap();
    for host in ["192.168.1.5", "[fd7a:115c:a1e0::1]", "100.88.88.22"] {
        let s = format!("{}@{host}", code.as_str());
        let (back, parsed) = parse_pairing_input(&s).unwrap_or_else(|| panic!("{s}"));
        assert_eq!(back.as_str(), code.as_str());
        assert_eq!(parsed.as_deref(), Some(host));
    }
}

#[test]
fn dialog_body_tells_the_user_everything_and_mentions_no_clipboard() {
    let code = PairingCode::parse("0427").unwrap();
    for clock in [Some(78_270), None] {
        let body = code_dialog_body(code.as_str(), &own(), clock, HOST_SESSION_TIMEOUT, Lang::Zh);
        assert!(body.contains(code.as_str()));
        assert!(body.contains("输入配对码"));
        assert!(body.contains("配对成功即失效"));
        match hms_after(clock, HOST_SESSION_TIMEOUT) {
            Some(at) => assert!(body.contains(&format!("有效至 {at}")), "{body}"),
            None => assert!(body.contains("分钟内有效")),
        }
        assert!(!body.contains("剪贴板"));
        assert!(!body.contains("复制"));
    }
}

#[test]
fn dialog_body_is_worded_exactly() {
    assert_eq!(
        code_dialog_body("1234", &vec![], None, 180, Lang::Zh),
        "配对码  1234\n\n在对方设备上选「输入配对码…」，输入这四位。\n3 分钟内有效，配对成功即失效。"
    );
    assert_eq!(
        code_dialog_body("1234", &vec![v4(10, 0, 0, 2)], Some(0), 180, Lang::English),
        "Pairing code  1234\n\nOn the other machine choose \"Enter pairing code…\" and type these four digits.\nThis code is valid until 00:03:00 and stops working once pairing succeeds.\n\nIf it asks for an address, pick the one on its subnet:\n    10.0.0.2（局域网）"
    );
}

#[test]
fn address_block_lists_every_ipv4_lan_first() {
    let lines = local_ipv4_lines(&own());
    for l in &lines {
        assert!(l.contains("（局域网）") || l.contains("（覆盖网）") || l.contains("（公网）"), "{l}");
        assert!(!l.contains(':'), "{l}");
    }
    assert!(!lines.iter().any(|l| l.starts_with("198.18.") || l.starts_with("198.19.")), "{lines:?}");
    let first_non_lan = lines.iter().position(|l| !l.contains("（局域网）"));
    if let Some(i) = first_non_lan {
        assert!(lines[i..].iter().all(|l| !l.contains("（局域网）")), "{lines:?}");
    }
    assert_eq!(lines, vec!["192.168.3.3（局域网）", "10.0.0.2（局域网）", "100.88.88.22（覆盖网）", "8.8.8.8（公网）"]);
    assert_eq!(addr_block(&vec![v4(10, 0, 0, 2), v4(8, 8, 8, 8)]).unwrap(), "    10.0.0.2（局域网）\n    8.8.8.8（公网）");
    assert!(addr_block(&vec![Ip::V6(1)]).is_none());
}

#[test]
fn cancelled_is_recognisable_through_anyhow() {
    let mut session = HostSession::start(0);
    assert_eq!(session.gave_up(true), HostError::Cancelled(Cancelled));
    assert!(matches!(session.gave_up(true), HostError::Cancelled(_)));
    let other = session.gave_up(false);
    assert!(!matches!(other, HostError::Cancelled(_)));
    assert_eq!(session.exchanged(Handshake::Broken), HostStep::Ignore);
}

#[test]
fn five_wrong_codes_end_a_session_and_hang_ups_never_do() {
    let mut s = HostSession::start(1_000);
    assert_eq!(s.deadline, 181_000);
    for _ in 0..100 {
        assert_eq!(s.exchanged(Handshake::Broken), HostStep::Ignore);
    }
    for left in [4, 3, 2, 1] {
        assert_eq!(s.exchanged(Handshake::WrongCode), HostStep::Retry(left));
    }
    let end = s.exchanged(Handshake::WrongCode);
    assert_eq!(end, HostStep::End(HostError::TooManyGuesses(5)));
    assert_eq!(
        HostError::TooManyGuesses(5).message(),
        "配对码连错 5 次，已结束本次配对以防猜测；请重新发起（会生成新的配对码）"
    );
    assert_eq!(HostError::TimedOut.message(), "配对已超时（180 秒内无人连入），请重新发起配对");
    assert_eq!(HostError::Cancelled(Cancelled).message(), "已取消当前配对会话");
    assert_eq!(HostSession::start(0).exchanged(Handshake::Paired), HostStep::Paired);
    assert_eq!(retry_line(4), "  仍在等待（配对码不变，还可重试 4 次）…");
}

#[test]
fn hosts_print_how_to_join() {
    let hosts = vec![HostText::V4(u32::from_be_bytes([10, 0, 0, 2])), HostText::V6("fd7a::1".to_string())];
    assert_eq!(fmt_host(&hosts[1]), "[fd7a::1]");
    assert_eq!(manual_hint("1234", &vec![], Lang::Zh).len(), 0);
    assert_eq!(
        host_banner("1234", true, &hosts, Lang::English),
        vec![
            "",
            "  Pairing code: 1234",
            "",
            "  On the other machine run (same LAN, no IP needed):",
            "      clipsync pair 1234",
            "",
            "  If they are not on the same LAN, run this on the other machine:",
            "      clipsync pair 10.0.0.2 1234",
            "      clipsync pair [fd7a::1] 1234",
            "",
            "  正在等待对方连接（180 秒内有效）…",
        ]
    );
    assert_eq!(host_banner("1234", false, &vec![], Lang::Zh).len(), 4);
    assert_eq!(learned_lines(&vec![], Lang::Zh).len(), 0);
    assert_eq!(
        learned_lines(&vec!["10.0.0.2:1".to_string()], Lang::Zh),
        vec!["  已记录对方 1 个可达地址：", "      10.0.0.2:1"]
    );
}

fn heard(name: &str, ips: &[&str]) -> FoundHost {
    FoundHost {
        device_name: name.to_string(),
        addrs: ips.iter().map(|i| FoundAddr { ip: i.to_string(), port: 47_685 }).collect(),
    }
}

#[test]
fn exactly_one_announced_host_is_taken() {
    assert_eq!(discover_host(vec![heard("a", &["10.0.0.2", "100.64.0.2"])]).unwrap().len(), 2);
    assert!(discover_host(vec![]).unwrap_err().contains("未在局域网中找到等待配对的设备"));
    assert_eq!(
        discover_host(vec![heard("a", &["10.0.0.2"]), heard("b", &[]), heard("c", &["10.0.0.3"])]).unwrap_err(),
        "局域网中有多台设备在等待配对，请指定其一：\n      clipsync pair <配对码>@10.0.0.2   # a\n      clipsync pair <配对码>@10.0.0.3   # c\n"
    );
}

#[test]
fn the_way_to_the_host_goes_from_near_to_far() {
    assert!(matches!(connect_hosts(Some("10.0.0.2")), ConnectStep::Dial(a) if a == "10.0.0.2:47685"));
    assert!(matches!(connect_hosts(None), ConnectStep::Listen));
    assert!(matches!(listened(Ok(vec![])), ConnectStep::Probe(_)));
    assert!(matches!(listened(Err("none".to_string())), ConnectStep::Search));
    assert!(matches!(probed(1), ConnectStep::Pair));
    assert!(matches!(probed(0), ConnectStep::Search));
    assert!(matches!(searched(2), ConnectStep::Pair));
    assert!(matches!(searched(0), ConnectStep::Fail(m) if m.contains("180 秒内有效") && m.contains("clipsync pair <配对码>@<对方IP>")));
}

#[test]
fn the_last_failure_is_reported() {
    assert_eq!(Tries::new().give_up(), "没有可用的连接");
    let mut t = Tries::new();
    t.failed("one".to_string());
    t.failed("two".to_string());
    assert_eq!(t.give_up(), "two");
    assert_eq!(join_on("12 34").unwrap().as_str(), "1234");
    assert_eq!(join_on("abc").unwrap_err(), "配对码格式非法: abc");
}
