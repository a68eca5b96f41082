use clipsync::addrbook::{AddrBook, LocalNetworks};
use clipsync::known_peers::KnownPeers;
use clipsync::language::Lang;
use clipsync::pairing_cli::{Cancelled, HostError};
use clipsync::pairing_join::{ask_address_body, ask_what_next, finish_join, not_found_body, JoinFlow, JoinStep, NotFound};
use clipsync::pairing_session::PairingHostSlot;
use clipsync::pairing_ui::{ask_leave_group, ask_remove_peer, host_ended, leave_message, new_code_label, new_code_requested, removal_message, request_code, AfterHost, CodeRequest, HostEnd, HubNote, LeaveQuestion, PairingDeps};
use clipsync::tray_status::TrayStatus;
use clipsync::types::{DeviceId, Endpoint, Ip, PairingRecord};

fn deps() -> PairingDeps {
    PairingDeps {
        known: KnownPeers::new(vec![]),
        addrbook: AddrBook::new(LocalNetworks { v4: vec![], v6: vec![] }),
        local_device: DeviceId::new("me"),
    }
}

fn record(id: &str, by: Option<&str>) -> PairingRecord {
    PairingRecord {
        device: DeviceId::new(id),
        name: format!("name of {id}"),
        static_public_key: vec![id.len() as u8; 32],
        addrs: vec![Endpoint { ip: Ip::V4(u32::from_be_bytes([10, 0, 0, 1])), port: 1 }],
        introduced_by: by.map(|s| s.to_string()),
    }
}

#[test]
fn a_fresh_pairing_is_put_to_use_at_once() {
    let mut d = deps();
    d.register(record("aa", None));
    assert!(d.known.contains(&DeviceId::new("aa")));
    assert_eq!(d.addrbook.count(&DeviceId::new("aa")), 1);
    let mut bare = record("bb", None);
    bare.addrs.clear();
    d.register(bare);
    assert_eq!(d.known.len(), 2);
    assert_eq!(d.addrbook.count(&DeviceId::new("bb")), 0);
}

#[test]
fn the_tray_shows_who_is_there_and_who_vouched() {
    let mut d = deps();
    let records = vec![record("aa", None), record("bb", Some("desk"))];
    d.register(record("aa", None));
    d.register(record("bb", None));
    let mut status = TrayStatus::new();
    status.set_connected_ids(vec!["bb".to_string()]);
    let rows = d.peers_for_tray(&status, &records);
    assert_eq!(rows.len(), 2);
    assert_eq!((rows[0].device.as_str(), rows[0].online, rows[0].introduced_by.as_deref()), ("aa", false, None));
    assert_eq!((rows[1].name.as_str(), rows[1].online, rows[1].introduced_by.as_deref()), ("name of bb", true, Some("desk")));
}

#[test]
fn a_removed_device_is_announced_and_then_forgotten() {
    let mut d = deps();
    let mut records = vec![record("aa", None), record("bb", None)];
    d.register(record("aa", None));
    d.register(record("bb", None));
    let done = d.remove_peer(&mut records, "aa").unwrap();
    assert_eq!(done.name, "name of aa");
    assert!(matches!(&done.notes[..], [HubNote::AnnounceRemoval(a), HubNote::Unpaired(b)] if a.text == "aa" && b.text == "aa"));
    assert_eq!(records.len(), 1);
    assert!(!d.known.contains(&DeviceId::new("aa")) && d.known.contains(&DeviceId::new("bb")));
    assert_eq!(d.addrbook.count(&DeviceId::new("aa")), 0);
    let version = d.known.version();
    assert!(d.remove_peer(&mut records, "aa").is_none());
    assert_eq!((version, d.known.version()), (3, 3));
}

#[test]
fn leaving_the_group_forgets_everyone() {
    let mut d = deps();
    let mut records = vec![record("aa", None), record("bb", None)];
    d.register(record("aa", None));
    d.register(record("bb", None));
    let (n, notes) = d.leave_group(&mut records);
    assert_eq!(n, 2);
    assert!(records.is_empty());
    assert_eq!((d.known.len(), d.known.version()), (0, 4));
    assert!(matches!(&notes[..], [HubNote::AnnounceRemoval(a), HubNote::Unpaired(b), HubNote::Unpaired(c)] if a.text == "me" && b.text == "aa" && c.text == "bb"));
    assert_eq!(d.addrbook.snapshot().len(), 0);
}

#[test]
fn windows_say_what_will_happen() {
    let mut d = deps();
    d.register(record("aa", None));
    assert!(ask_remove_peer(&d.known, "aa").starts_with("确定把「name of aa」移出设备组吗？"));
    assert!(ask_remove_peer(&d.known, "zz").starts_with("确定把「zz」移出设备组吗？"));
    assert_eq!(removal_message(&Ok(Some("x".to_string()))).unwrap(), "已把「x」移出设备组。");
    assert!(removal_message(&Ok(None)).is_none());
    assert_eq!(removal_message(&Err("disk".to_string())).unwrap(), "移出失败：disk");
    assert!(matches!(ask_leave_group(0), LeaveQuestion::Alone(m) if m == "本机尚未配对任何设备。"));
    assert!(matches!(ask_leave_group(2), LeaveQuestion::Confirm(m) if m.contains("清空全部 2 台配对")));
    assert_eq!(leave_message(&Ok(())), "已退出设备组。");
    assert_eq!(leave_message(&Err("disk".to_string())), "退出失败：disk");
    assert_eq!(new_code_label(Lang::Zh), "换个配对码");
    assert_eq!(new_code_label(Lang::English), "New code");
}

#[test]
fn one_session_at_a_time() {
    let mut slot = PairingHostSlot::default();
    assert!(matches!(request_code(&mut slot, 0), CodeRequest::Host));
    assert!(slot.active.as_ref().is_some_and(|s| s.code.is_empty() && !s.cancelled && s.deadline.is_none()));
    assert!(matches!(request_code(&mut slot, 0), CodeRequest::Starting(_)));
    slot.begin("1234", 180_000);
    assert!(matches!(request_code(&mut slot, 80_000), CodeRequest::ShowAgain(c, left) if c == "1234" && left == 100_000));

    assert!(new_code_requested(&mut slot, Some("9999")).unwrap().contains("已经失效了"));
    assert!(new_code_requested(&mut slot, None).is_none());
    assert!(slot.is_cancelled());
    assert!(matches!(host_ended(&mut slot, HostEnd::Ended(HostError::Cancelled(Cancelled))), AfterHost::Again));
    assert!(slot.active.is_none());
    assert!(matches!(host_ended(&mut slot, HostEnd::Paired("x".to_string())), AfterHost::Tell(m) if m == "已与「x」配对，现在可以互相同步了。"));
    assert!(matches!(host_ended(&mut slot, HostEnd::Ended(HostError::TimedOut)), AfterHost::Complain(m) if m.contains("超时")));
    assert!(matches!(host_ended(&mut slot, HostEnd::Failed("port".to_string())), AfterHost::Complain(m) if m == "port"));
}

#[test]
fn joining_goes_step_by_step() {
    let mut f = JoinFlow::new();
    assert!(matches!(f.code_typed(None), JoinStep::End));
    assert!(matches!(f.code_typed(Some("x".to_string())), JoinStep::Complain(m) if m == "「x」不是有效的配对码。\n\n应为 4 位数字。"));
    assert!(matches!(f.code_typed(Some("12 34".to_string())), JoinStep::Connect(None)));
    assert_eq!(f.code, "1234");
    assert!(matches!(f.connected(Err("nobody".to_string())), JoinStep::AskNext));
    assert!(matches!(f.next_chosen(ask_what_next(Some(0))), JoinStep::AskCode));
    assert!(matches!(f.next_chosen(ask_what_next(Some(1))), JoinStep::AskAddress));
    assert!(matches!(f.next_chosen(ask_what_next(None)), JoinStep::End));
    assert_eq!(ask_what_next(Some(1)), Some(NotFound::EnterAddress));
    assert!(matches!(f.address_typed(Some(" 10.0.0.2 ".to_string())), JoinStep::Connect(Some(h)) if h == "10.0.0.2"));
    assert!(matches!(f.connected(Err("refused".to_string())), JoinStep::Complain(m) if m == "refused"));
    assert!(matches!(f.connected(Ok(())), JoinStep::Pair));
    assert!(matches!(f.code_typed(Some("5678@10.0.0.9".to_string())), JoinStep::Connect(Some(h)) if h == "10.0.0.9"));
    assert!(matches!(f.connected(Err("nobody".to_string())), JoinStep::AskNext));
    assert!(matches!(f.address_typed(None), JoinStep::End));
}

#[test]
fn joining_is_explained() {
    assert_eq!(not_found_body(), "没找到正在等待配对的设备。\n\n配对码 3 分钟内有效，多半是过期了。");
    assert_eq!(ask_address_body(&vec![]), "请输入对方的 IP（对方窗口里有）：");
    let own = vec![Ip::V4(u32::from_be_bytes([10, 0, 0, 2]))];
    assert_eq!(
        ask_address_body(&own),
        "请输入对方的 IP（对方窗口里有）：\n\n本机地址，供对照挑同网段的：\n    10.0.0.2（局域网）"
    );
    assert_eq!(finish_join(&Ok("x".to_string())), "已与「x」配对。");
    assert_eq!(finish_join(&Err("no".to_string())), "no");
}
