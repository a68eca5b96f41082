use clipsync::language::Lang;
use clipsync::tray_menu::{auto_fetch_label, fetch_label, human_bytes, human_parts, language_label, pairing_label, peer_label, port_label, rate_label, rebuild_peer_menu, PeerRow, SizeUnit, TrayPeer, LEAVE_GROUP_ID};

const ZH: Lang = Lang::Zh;
const EN: Lang = Lang::English;

#[test]
fn human_bytes_picks_the_right_unit() {
    assert_eq!(human_bytes(512), "512 B");
    assert_eq!(human_bytes(100 * 1024 * 1024), "100 MiB");
    assert_eq!(human_bytes(2 * 1024 * 1024 * 1024), "2 GiB");
    assert!(!human_bytes(1 << 20).contains('.'));
    assert_eq!(human_bytes(1536 * 1024 * 1024), "1.5 GiB");
}

#[test]
fn labels_carry_the_current_value() {
    assert_eq!(auto_fetch_label(100 * 1024 * 1024, ZH), "自动取回：100 MiB…");
    assert_eq!(auto_fetch_label(usize::MAX, ZH), "自动取回：不限…");
    assert_eq!(rate_label(0, ZH), "发送限速：不限…");
    assert_eq!(rate_label(10 * 1024 * 1024, ZH), "发送限速：10 MiB/s…");
    assert_eq!(port_label(47684, ZH), "同步端口：47684…");
}

#[test]
fn fetch_label_says_what_and_how_big() {
    assert_eq!(fetch_label("报告.zip", 1, 4_500_000_000, ZH), "取回 报告.zip（4.2 GiB）");
    assert_eq!(fetch_label("报告.zip", 3, 4_500_000_000, ZH), "取回 报告.zip 等 3 个（4.2 GiB）");
    let long = fetch_label("IMG_20260807_143052_HDR_Portrait_Final.heic", 1, 1 << 20, ZH);
    assert!(long.contains('…'), "{long}");
    assert!(long.chars().count() < 30, "{long}");
}

#[test]
fn labels_are_translated() {
    let cases: Vec<(String, &str)> = vec![
        (auto_fetch_label(100 << 20, EN), "Auto-fetch: 100 MiB…"),
        (auto_fetch_label(usize::MAX, EN), "Auto-fetch: unlimited…"),
        (rate_label(0, EN), "Upload limit: unlimited…"),
        (rate_label(10 << 20, EN), "Upload limit: 10 MiB/s…"),
        (port_label(47684, EN), "Sync port: 47684…"),
        (pairing_label(None, EN), "Show pairing code…"),
        (pairing_label(Some(("1234", 167)), EN), "Code 1234 · 2:47 left"),
        (fetch_label("report.zip", 1, 4_500_000_000, EN), "Fetch report.zip (4.2 GiB)"),
        (fetch_label("report.zip", 3, 4_500_000_000, EN), "Fetch report.zip and 2 more (4.2 GiB)"),
    ];
    for (got, want) in cases {
        assert_eq!(got, want);
    }
}

#[test]
fn pairing_label_switches_between_entry_and_countdown() {
    assert_eq!(pairing_label(None, ZH), "显示配对码…");
    assert_eq!(pairing_label(Some(("1234", 167)), ZH), "配对码 1234 · 剩 2:47");
    assert_eq!(pairing_label(Some(("0042", 7)), ZH), "配对码 0042 · 剩 0:07");
    assert_eq!(pairing_label(Some(("1234", 180)), ZH), "配对码 1234 · 剩 3:00");
}

#[test]
fn sizes_are_rounded_half_to_even() {
    assert_eq!(human_parts(1023), ("1023".to_string(), SizeUnit::B));
    assert_eq!(human_parts(1024), ("1".to_string(), SizeUnit::KiB));
    assert_eq!(human_bytes(1024 + 51), "1 KiB");
    assert_eq!(human_bytes(1024 + 52), "1.1 KiB");
    assert_eq!(human_bytes(1024 * 5 / 4), "1.2 KiB");
    assert_eq!(human_bytes(1024 * 7 / 4), "1.8 KiB");
    assert_eq!(human_bytes(u64::MAX), "17179869184 GiB");
}

#[test]
fn devices_show_how_they_are() {
    let p = |online: bool, by: Option<&str>| TrayPeer {
        device: "aa".to_string(),
        name: "desk".to_string(),
        online,
        introduced_by: by.map(|s| s.to_string()),
    };
    assert_eq!(peer_label(&p(true, None), ZH), "● desk");
    assert_eq!(peer_label(&p(false, Some("mac")), ZH), "○ desk（经 mac）");
    assert_eq!(peer_label(&p(false, Some("mac")), EN), "○ desk (via mac)");

    let rows = rebuild_peer_menu(&vec![p(true, None)], ZH);
    assert_eq!(rows.len(), 3);
    assert!(matches!(&rows[0], PeerRow::Item { id, .. } if id == "aa"));
    assert!(matches!(&rows[1], PeerRow::Separator));
    assert!(matches!(&rows[2], PeerRow::Item { label, id } if label == "退出设备组…" && id == LEAVE_GROUP_ID));
    let rows = rebuild_peer_menu(&vec![], EN);
    assert!(matches!(&rows[..], [PeerRow::Hint(s)] if s == "(no paired devices)"));
    assert_eq!(language_label(ZH), "语言：中文…");
}
