use std::cell::RefCell;
use std::rc::Rc;

use clipsync::known_peers::KnownPeers;
use clipsync::language::Lang;
use clipsync::tray::{advanced_rows, menu_rows, Clickable, Entry, FetchRow, IconState, MenuRow, Moment, PendingFetchInfo, TransferProgress, TrayAction, TrayLoop, TraySettings, TrayStatus, FETCH_SLOT};
use clipsync::tray_menu::LEAVE_GROUP_ID;
use clipsync::types::{DeviceId, KnownPeer};

const ZH: Lang = Lang::Zh;

/// A table of so many devices.
fn table(n: u8) -> KnownPeers {
    KnownPeers::new((0..n).map(peer).collect())
}

fn peer(i: u8) -> KnownPeer {
    KnownPeer { device: DeviceId::new(&i.to_string()), name: format!("device {i}"), static_public_key: vec![i; 32] }
}

#[test]
fn summary_reflects_state() {
    let s = TrayStatus::new();
    assert!(s.summary(&table(0), 0, ZH).contains("尚未配对"));

    let mut s = TrayStatus::new();
    assert!(s.summary(&table(2), 0, ZH).contains("未连接"));

    s.set_connected_ids(vec!["dev-a".to_string()]);
    assert!(s.summary(&table(2), 0, ZH).contains("已连接 1 / 2"));

    s.set_paused(true);
    assert!(s.summary(&table(2), 0, ZH).contains("已暂停"));
}

#[test]
fn dead_hub_overrides_healthy_looking_state() {
    let mut s = TrayStatus::new();
    s.set_connected_ids(vec!["dev-a".to_string()]);
    assert_eq!(IconState::of(&s), IconState::Connected);

    s.set_hub_dead();
    assert_eq!(IconState::of(&s), IconState::Broken);
    assert!(s.summary(&table(2), 0, ZH).contains("同步已停止"), "{}", s.summary(&table(2), 0, ZH));
}

#[test]
fn broken_takes_precedence_over_paused() {
    let mut s = TrayStatus::new();
    s.set_paused(true);
    s.set_hub_dead();
    assert_eq!(IconState::of(&s), IconState::Broken);
}

#[test]
fn pause_state_is_shared_across_clones() {
    let s = Rc::new(RefCell::new(TrayStatus::new()));
    let clone = s.clone();
    s.borrow_mut().set_paused(true);
    assert!(clone.borrow().is_paused());
}

#[test]
fn transfer_pulse_expires_on_its_own() {
    let mut s = TrayStatus::new();
    let now = 5_000_000_000;
    assert!(!s.is_transferring(now));

    s.note_transfer(
        TransferProgress { sending: true, name: "big.zip".into(), done: 1, total: 100 },
        now,
        ZH,
    );
    assert!(s.is_transferring(now));
    assert!(!s.is_transferring(now + 1_500_000_000));
}

fn moment() -> Moment {
    Moment {
        now: 1_000_000_000,
        elapsed_ms: 0,
        live: None,
        settings_version: 0,
        settings: TraySettings {
            sync_images: true,
            sync_files: false,
            compress: true,
            auto_fetch_bytes: 100 << 20,
            upload_limit: 0,
            listen_port: 47684,
            verbose_log: false,
        },
        hub_alive: true,
        lang: ZH,
    }
}

#[test]
fn idle_turns_draw_nothing() {
    let mut status = TrayStatus::new();
    let known = table(1);
    let m = moment();
    let mut l = TrayLoop::start(&status, &known, &m);
    for _ in 0..3 {
        let r = l.turn(&mut status, &known, &m);
        assert!(matches!(r.fetch, FetchRow::Keep));
        assert!(r.pairing.is_none() && r.settings.is_none() && r.status.is_none());
        assert!(!r.peers && r.icon.is_none());
    }
}

#[test]
fn each_change_is_drawn_once() {
    let mut status = TrayStatus::new();
    let mut known = table(2);
    let mut m = moment();
    let mut l = TrayLoop::start(&status, &known, &m);

    status.set_pending(Some(PendingFetchInfo {
        from: "a".into(),
        first_name: "备份.dmg".into(),
        count: 1,
        total: 1 << 30,
    }));
    let r = l.turn(&mut status, &known, &m);
    assert!(matches!(r.fetch, FetchRow::Insert(s) if s == "取回 备份.dmg（1 GiB）"));
    assert!(r.icon.unwrap().badge);
    assert_eq!(r.status.unwrap().1, "ClipSync — 未连接（已配对 2 台）\n1 项待取回（1 GiB）");
    status.set_pending(None);
    let r = l.turn(&mut status, &known, &m);
    assert!(matches!(r.fetch, FetchRow::Remove));
    assert!(!r.icon.unwrap().badge);
    assert_eq!(r.status.unwrap().1, "ClipSync — 未连接（已配对 2 台）");

    m.live = Some(("1234".to_string(), 167));
    assert_eq!(l.turn(&mut status, &known, &m).pairing, Some(("配对码 1234 · 剩 2:47".to_string(), true)));
    m.live = None;
    assert_eq!(l.turn(&mut status, &known, &m).pairing, Some(("显示配对码…".to_string(), false)));

    m.settings_version = 1;
    let v = l.turn(&mut status, &known, &m).settings.unwrap();
    assert!(v.images && !v.files && v.compress && !v.verbose);
    assert_eq!(v.auto_fetch, "自动取回：100 MiB…");
    assert_eq!(v.rate, "发送限速：不限…");
    assert_eq!(v.port, "同步端口：47684…");

    status.set_connected_ids(vec!["a".to_string(), "b".to_string()]);
    let r = l.turn(&mut status, &known, &m);
    assert!(r.peers);
    assert_eq!(r.icon.unwrap().state, IconState::Connected);
    assert_eq!(r.status.unwrap().0, "ClipSync — 已连接 2 / 2 台");
    status.set_connected_ids(vec!["b".to_string(), "a".to_string()]);
    assert!(!l.turn(&mut status, &known, &m).peers);

    known.upsert(peer(7));
    let r = l.turn(&mut status, &known, &m);
    assert!(r.peers);
    assert_eq!(r.status.unwrap().0, "ClipSync — 已连接 2 / 3 台");

    m.hub_alive = false;
    let r = l.turn(&mut status, &known, &m);
    assert!(status.is_hub_dead());
    assert_eq!(r.icon.unwrap().state, IconState::Broken);
}

#[test]
fn icon_pulses_while_a_file_is_on_its_way() {
    let mut status = TrayStatus::new();
    let known = table(1);
    let mut m = moment();
    let mut l = TrayLoop::start(&status, &known, &m);
    status.note_transfer(
        TransferProgress { sending: true, name: "x".into(), done: 1, total: 2 },
        m.now,
        ZH,
    );
    assert!(l.turn(&mut status, &known, &m).icon.is_none());
    m.elapsed_ms = 450;
    assert!(l.turn(&mut status, &known, &m).icon.unwrap().dimmed);
}

#[test]
fn clicks_mean_what_they_stand_on() {
    let lines = Clickable {
        entries: vec![("1".to_string(), Entry::Pause), ("2".to_string(), Entry::Quit), ("3".to_string(), Entry::Language)],
        peers: vec![("4".to_string(), "aabb".to_string()), ("5".to_string(), LEAVE_GROUP_ID.to_string())],
    };
    assert_eq!(lines.clicked("1"), Some(TrayAction::TogglePause));
    assert_eq!(lines.clicked("2"), Some(TrayAction::Quit));
    assert_eq!(lines.clicked("3"), Some(TrayAction::PromptLanguage));
    assert_eq!(lines.clicked("4"), Some(TrayAction::RemovePeer("aabb".to_string())));
    assert_eq!(lines.clicked("5"), Some(TrayAction::LeaveGroup));
    assert_eq!(lines.clicked("6"), None);
}

#[test]
fn menu_has_a_fetch_line_only_when_something_waits() {
    let usual = menu_rows(false);
    assert!(!usual.contains(&MenuRow::Entry(Entry::Fetch)));
    let mut with = menu_rows(true);
    assert_eq!(with[FETCH_SLOT], MenuRow::Entry(Entry::Fetch));
    with.remove(FETCH_SLOT);
    assert_eq!(with, usual);
    assert_eq!(usual.last(), Some(&MenuRow::Entry(Entry::Quit)));
    assert_eq!(advanced_rows().len(), 8);
}

#[test]
fn every_entry_has_its_action() {
    let pairs = [
        (Entry::Autostart, TrayAction::ToggleAutostart),
        (Entry::Pair, TrayAction::ShowPairingCode),
        (Entry::Fetch, TrayAction::FetchPending),
        (Entry::NewCode, TrayAction::NewPairingCode),
        (Entry::Join, TrayAction::EnterPairingCode),
        (Entry::Images, TrayAction::ToggleImages),
        (Entry::Files, TrayAction::ToggleFiles),
        (Entry::Compress, TrayAction::ToggleCompress),
        (Entry::AutoFetch, TrayAction::PromptAutoFetch),
        (Entry::Rate, TrayAction::PromptUploadLimit),
        (Entry::Port, TrayAction::PromptListenPort),
        (Entry::VerboseLog, TrayAction::ToggleVerboseLog),
        (Entry::LogDir, TrayAction::OpenLogDir),
    ];
    for (e, a) in pairs {
        assert_eq!(e.action(), a);
    }
}
