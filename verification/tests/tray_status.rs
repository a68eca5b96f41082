use clipsync::known_peers::KnownPeers;
use clipsync::language::Lang;
use clipsync::tray_status::{transfer_is_recent, PendingFetchInfo, TransferProgress, TrayStatus, TRANSFER_LINGER_MS};
use clipsync::tray_text::{bytes_pair, ellipsize_middle, fit_chars, percent_of, NAME_HEAD, NAME_TAIL};
use clipsync::types::{DeviceId, KnownPeer};

const ZH: Lang = Lang::Zh;
const SECOND: u64 = 1_000_000_000;

/// A table of so many devices.
fn table(n: u8) -> KnownPeers {
    KnownPeers::new((0..n).map(peer).collect())
}

fn peer(i: u8) -> KnownPeer {
    KnownPeer { device: DeviceId::new(&i.to_string()), name: format!("device {i}"), static_public_key: vec![i; 32] }
}

fn prog(name: &str, done: u64, total: u64) -> TransferProgress {
    TransferProgress { sending: false, name: name.into(), done, total }
}

fn ids(v: &[&str]) -> Vec<String> {
    v.iter().map(|s| s.to_string()).collect()
}

#[test]
fn paired_count_follows_the_device_table() {
    let mut known = table(1);
    let mut s = TrayStatus::tracking();
    s.set_connected_ids(ids(&["a"]));
    assert!(s.summary(&known, 0, ZH).contains("已连接 1 / 1"), "{}", s.summary(&known, 0, ZH));

    known.upsert(peer(7));
    s.set_connected_ids(ids(&["a", "b"]));
    assert!(s.summary(&known, 0, ZH).contains("已连接 2 / 2"), "{}", s.summary(&known, 0, ZH));
    assert_eq!((s.snapshot(&known).connected, s.snapshot(&known).paired), (2, 2));

    known.remove(&peer(7).device);
    s.set_connected_ids(ids(&["a"]));
    assert!(s.summary(&known, 0, ZH).contains("已连接 1 / 1"), "{}", s.summary(&known, 0, ZH));
    assert_eq!((s.snapshot(&known).connected, s.snapshot(&known).paired), (1, 1));
}

#[test]
fn a_fresh_status_shows_the_table_it_is_read_beside() {
    let s = TrayStatus::tracking();
    assert_eq!((s.snapshot(&table(3)).connected, s.snapshot(&table(3)).paired), (0, 3));
    assert!(s.pending().is_none() && !s.is_paused() && !s.is_hub_dead() && !s.is_transferring(SECOND));
    assert_eq!(TrayStatus::default().snapshot(&table(0)).paired, 0);
}

#[test]
fn summary_reports_progress_while_transferring() {
    let mut s = TrayStatus::new();
    s.set_connected_ids(ids(&["a"]));
    assert!(s.summary(&table(2), SECOND, ZH).contains("已连接"));

    s.note_transfer(prog("video.mp4", 42, 100), SECOND, ZH);
    let sum = s.summary(&table(2), SECOND, ZH);
    assert!(sum.contains("接收"), "{sum}");
    assert!(sum.contains("video.mp4"), "{sum}");
    assert!(sum.contains("42%"), "{sum}");
}

#[test]
fn transfer_recency_boundaries() {
    let w = TRANSFER_LINGER_MS;
    assert!(!transfer_is_recent(0, 0));
    assert!(!transfer_is_recent(9_999, 0));
    assert!(transfer_is_recent(100, 100));
    assert!(transfer_is_recent(100 + w - 1, 100));
    assert!(!transfer_is_recent(100 + w, 100));
    assert!(transfer_is_recent(50, 100));
}

#[test]
fn progress_expires_without_anyone_clearing_it() {
    let mut s = TrayStatus::new();
    s.note_transfer(prog("big.zip", 1, 100), SECOND, ZH);
    assert!(s.summary(&table(1), SECOND, ZH).contains("big.zip"));

    let sum = s.summary(&table(1), SECOND + (TRANSFER_LINGER_MS + 50) * 1_000_000, ZH);
    assert!(!sum.contains("big.zip"), "{sum}");
    assert!(sum.contains("未连接") || sum.contains("已连接") || sum.contains("尚未配对"));
}

#[test]
fn switching_files_reanchors_the_rate() {
    let mut s = TrayStatus::new();
    s.note_transfer(prog("a.bin", 0, 1000), SECOND, ZH);
    s.note_transfer(prog("a.bin", 900, 1000), SECOND, ZH);
    s.note_transfer(prog("b.bin", 0, 1000), SECOND, ZH);
    let st = s.progress.as_ref().unwrap();
    assert_eq!(st.since_bytes, 0);
    assert_eq!(st.p.name, "b.bin");
}

#[test]
fn rate_is_withheld_until_it_is_meaningful() {
    let mut s = TrayStatus::new();
    s.note_transfer(prog("x.bin", 500, 1000), SECOND, ZH);
    let sum = s.summary(&table(1), SECOND, ZH);
    assert!(sum.contains("50%"));
    assert!(!sum.contains("/s"), "{sum}");
}

#[test]
fn rate_is_shown_once_it_is_meaningful() {
    let mut s = TrayStatus::new();
    s.note_transfer(prog("x.bin", 0, 100 << 20), SECOND, ZH);
    s.note_transfer(prog("x.bin", 10 << 20, 100 << 20), 2 * SECOND, ZH);
    let sum = s.summary(&table(1), 2 * SECOND, ZH);
    assert!(sum.contains("10 MiB/s"), "{sum}");
}

#[test]
fn byte_pairs_drop_the_repeated_unit() {
    assert_eq!(bytes_pair(4 << 30, 9 << 30), "4 / 9 GiB");
    let mixed = bytes_pair(151 << 20, 17 << 30);
    assert!(mixed.contains("MiB") && mixed.contains("GiB"), "{mixed}");
}

#[test]
fn short_names_pass_through() {
    assert_eq!(ellipsize_middle("a.txt"), "a.txt");
    assert_eq!(ellipsize_middle("报告.pdf"), "报告.pdf");
    assert_eq!(ellipsize_middle("abcdeXfghij"), "abcdeXfghij");
}

#[test]
fn long_names_keep_five_at_each_end() {
    let out = ellipsize_middle("2026年度第三季度产品发布会现场录像完整版第三部分.mp4");
    assert_eq!(out, "2026年…分.mp4");
    assert_eq!(out.chars().count(), 11);

    let iso = ellipsize_middle("Ubuntu-24.04.1-desktop-amd64-live-server-installer.iso");
    assert_eq!(iso, "Ubunt…r.iso");
}

#[test]
fn name_length_is_fixed_regardless_of_context() {
    let long = "IMG_20260807_143052_HDR_Portrait_Enhanced_Final_v3.heic";
    let a = ellipsize_middle(long);
    let b = ellipsize_middle(long);
    assert_eq!(a, b);
    assert_eq!(a.chars().count(), NAME_HEAD + 1 + NAME_TAIL);
}

#[test]
fn tooltip_never_exceeds_the_windows_limit() {
    let cases: [(&str, u64, u64); 4] = [
        ("sha256-1194192cf2b8e4a09d7c3f5061e2a78863006a.tar.zst", 159_000_000, 18_500_000_000),
        ("这是一个特别特别特别特别长的中文文件名用来测试截断.mkv", 1, 100),
        ("a.txt", 50, 100),
        (&"x".repeat(300), 1, 2),
    ];
    for (name, done, total) in cases {
        let mut s = TrayStatus::new();
        s.set_connected_ids(ids(&["a", "b"]));
        s.note_transfer(prog(name, done, total), SECOND, ZH);
        let now = SECOND + 600_000_000;
        s.note_transfer(prog(name, done + 12_345_678, total), now, ZH);

        let tip = s.tooltip(&table(3), now, ZH);
        let n = tip.chars().count();
        assert!(n <= 63, "{n}: {tip}");
        assert!(tip.contains('%'), "{tip}");

        let lines: Vec<&str> = tip.split('\n').collect();
        assert_eq!(lines.len(), 2, "{tip:?}");
        assert!(lines[0].contains('%'), "{tip:?}");
        assert!(lines[1].contains('/'), "{tip:?}");
        for l in &lines {
            assert!(l.chars().count() <= 40, "{l}");
        }
    }
}

#[test]
fn idle_tooltip_also_fits() {
    let mut s = TrayStatus::new();
    assert!(s.tooltip(&table(9), 0, ZH).chars().count() <= 63);
    s.set_connected_ids((0..9).map(|i| i.to_string()).collect());
    assert!(s.tooltip(&table(9), 0, ZH).chars().count() <= 63);
}

#[test]
fn menu_summary_keeps_the_absolute_bytes() {
    let mut s = TrayStatus::new();
    s.note_transfer(prog("video.mkv", 0, 17_300_000_000), SECOND, ZH);
    let now = SECOND + 600_000_000;
    s.note_transfer(prog("video.mkv", 151_800_000, 17_300_000_000), now, ZH);
    let sum = s.summary(&table(1), now, ZH);
    assert!(sum.contains("GiB") || sum.contains("MiB"), "{sum}");
    let tip = s.tooltip(&table(1), now, ZH);
    assert!(tip.contains(" / "), "{tip}");
}

fn pending(name: &str, count: usize, total: u64) -> Option<PendingFetchInfo> {
    Some(PendingFetchInfo { from: "a".into(), first_name: name.into(), count, total })
}

#[test]
fn idle_tooltip_mentions_pending_files() {
    let mut s = TrayStatus::new();
    s.set_connected_ids(ids(&["a", "b"]));
    assert!(!s.tooltip(&table(2), 0, ZH).contains("待取"));

    s.set_pending(pending("备份.dmg", 3, 4_500_000_000));
    let tip = s.tooltip(&table(2), 0, ZH);
    assert!(tip.contains("3 项待取回"), "{tip}");
    assert!(tip.contains("GiB"), "{tip}");
    assert!(tip.chars().count() <= 63, "{tip}");
}

#[test]
fn transfer_tooltip_stays_two_lines_even_with_pending() {
    let mut s = TrayStatus::new();
    s.set_pending(pending("另一个大文件.zip", 1, 9_000_000_000));
    s.note_transfer(prog("正在传的.mp4", 42, 100), SECOND, ZH);
    let tip = s.tooltip(&table(1), SECOND, ZH);
    assert_eq!(tip.split('\n').count(), 2, "{tip:?}");
    assert!(!tip.contains("待取"), "{tip}");
    assert!(tip.chars().count() <= 63);
}

#[test]
fn the_status_line_is_translated() {
    let mut status = TrayStatus::new();
    status.set_connected_ids(ids(&["a"]));
    assert_eq!(status.summary(&table(2), 0, Lang::Zh), "ClipSync — 已连接 1 / 2 台");
    assert_eq!(status.summary(&table(2), 0, Lang::English), "ClipSync — 1 / 2 connected");
    status.set_paused(true);
    assert_eq!(status.summary(&table(2), 0, Lang::English), "ClipSync — paused");
}

#[test]
fn progress_is_logged_now_and_then() {
    let mut s = TrayStatus::new();
    assert!(s.note_transfer(prog("x", 0, 100), SECOND, ZH).is_none());
    assert!(s.note_transfer(prog("x", 10, 100), 5 * SECOND, ZH).is_none());
    assert!(s.note_transfer(prog("x", 20, 100), 11 * SECOND, ZH).unwrap().contains("20%"));
    s.clear_transfer();
    assert!(s.progress.is_none());
}

#[test]
fn texts_are_cut_to_fit() {
    assert_eq!(fit_chars("abcdef", 6), "abcdef");
    assert_eq!(fit_chars("abcdefg", 6).chars().count(), 6);
    assert_eq!(percent_of(1, 3), 33);
    assert_eq!(percent_of(5, 0), 0);
    assert_eq!(percent_of(500, 100), 500);
}

#[test]
fn connected_devices_are_counted_once() {
    let mut s = TrayStatus::new();
    s.set_connected_ids(ids(&["a", "b", "a"]));
    assert_eq!(s.snapshot(&table(2)).connected, 2);
    assert_eq!(s.connected_devices().len(), 2);
}
