use clipsync::config::{Settings, SettingsHandle};
use clipsync::language::Lang;
use clipsync::tray::TrayAction;
use clipsync::tray_bridge::{ask_auto_fetch, ask_language, ask_listen_port, ask_upload_limit, auto_fetch_presets, log_dir_message, on_action, parse_auto_fetch, prompt_auto_fetch, prompt_language, prompt_listen_port, prompt_upload_limit, rate_presets, tray_settings, verbose_switched, Outcome, TrayTask};
use clipsync::tray_status::TrayStatus;

#[test]
fn presets_match_their_labels() {
    let sizes = auto_fetch_presets();
    let by_label = |label: &str| -> usize {
        sizes.iter().find(|(l, _)| *l == label).unwrap_or_else(|| panic!("{label}")).1
    };
    assert_eq!(by_label("10 MiB"), 10 * 1024 * 1024);
    assert_eq!(by_label("100 MiB（默认）"), 100 * 1024 * 1024);
    assert_eq!(by_label("500 MiB"), 500 * 1024 * 1024);
    assert_eq!(by_label("1 GiB"), 1024 * 1024 * 1024);
    assert_eq!(by_label("2 GiB"), 2 * 1024 * 1024 * 1024);
    assert_eq!(by_label("不限"), usize::MAX);

    let rates = rate_presets();
    let rate = |label: &str| -> u64 {
        rates.iter().find(|(l, _)| *l == label).unwrap_or_else(|| panic!("{label}")).1
    };
    assert_eq!(rate("不限（默认）"), 0);
    assert_eq!(rate("10 MB/s"), 10_000_000);
    assert_eq!(rate("50 MB/s"), 50_000_000);
    assert_eq!(rate("100 MB/s"), 100_000_000);
}

#[test]
fn presets_are_ordered() {
    let sizes: Vec<usize> = auto_fetch_presets().iter().map(|(_, v)| *v).collect();
    assert!(sizes.windows(2).all(|w| w[0] < w[1]), "{sizes:?}");

    let rates: Vec<u64> = rate_presets()[1..].iter().map(|(_, v)| *v).collect();
    assert!(rates.windows(2).all(|w| w[0] < w[1]), "{rates:?}");
}

fn handle() -> SettingsHandle {
    SettingsHandle::new(Settings::default())
}

#[test]
fn toggles_take_effect_at_once() {
    let mut status = TrayStatus::new();
    let mut h = handle();
    assert!(matches!(on_action(TrayAction::TogglePause, &mut status, &mut h, false), TrayTask::Done));
    assert!(status.is_paused());
    assert_eq!(h.version(), 0);

    assert!(matches!(on_action(TrayAction::ToggleImages, &mut status, &mut h, false), TrayTask::Save(s) if !s.allow_image));
    assert!(!h.snapshot().allow_image);
    assert!(matches!(on_action(TrayAction::ToggleFiles, &mut status, &mut h, false), TrayTask::Save(s) if !s.allow_files));
    assert!(matches!(on_action(TrayAction::ToggleCompress, &mut status, &mut h, false), TrayTask::Save(s) if !s.compress_transfers));
    assert_eq!(h.version(), 3);
    assert!(matches!(on_action(TrayAction::ToggleImages, &mut status, &mut h, false), TrayTask::Save(s) if s.allow_image));
}

#[test]
fn other_actions_are_handed_on() {
    let mut status = TrayStatus::new();
    let mut h = handle();
    let mut task = |a: TrayAction| on_action(a, &mut status, &mut h, true);
    assert!(matches!(task(TrayAction::ToggleAutostart), TrayTask::SetAutostart(false)));
    assert!(matches!(task(TrayAction::ShowPairingCode), TrayTask::HostPairing));
    assert!(matches!(task(TrayAction::EnterPairingCode), TrayTask::JoinPairing));
    assert!(matches!(task(TrayAction::NewPairingCode), TrayTask::NewCode));
    assert!(matches!(task(TrayAction::FetchPending), TrayTask::FetchPending));
    assert!(matches!(task(TrayAction::PromptAutoFetch), TrayTask::AskAutoFetch));
    assert!(matches!(task(TrayAction::PromptUploadLimit), TrayTask::AskUploadLimit));
    assert!(matches!(task(TrayAction::PromptListenPort), TrayTask::AskListenPort));
    assert!(matches!(task(TrayAction::PromptLanguage), TrayTask::AskLanguage));
    assert!(matches!(task(TrayAction::ToggleVerboseLog), TrayTask::SwitchLog(true)));
    assert!(matches!(task(TrayAction::OpenLogDir), TrayTask::OpenLogDir));
    assert!(matches!(task(TrayAction::RemovePeer("x".to_string())), TrayTask::RemovePeer(d) if d == "x"));
    assert!(matches!(task(TrayAction::LeaveGroup), TrayTask::LeaveGroup));
    assert!(matches!(task(TrayAction::Quit), TrayTask::Stop));
}

#[test]
fn a_failed_switch_changes_no_setting() {
    let mut h = handle();
    assert!(verbose_switched(&mut h, true, false).is_none());
    assert_eq!(h.version(), 0);
    assert!(verbose_switched(&mut h, true, true).unwrap().verbose_log);
    assert!(tray_settings(&h.snapshot()).verbose_log);
    assert_eq!(log_dir_message("/logs", "no viewer"), "日志位于：\n/logs\n\n（自动打开失败：no viewer）");
}

#[test]
fn automatic_fetching_is_picked_or_typed() {
    let mut h = handle();
    let q = ask_auto_fetch(&h.snapshot());
    assert_eq!(q.title, "自动取回上限");
    assert_eq!(q.body, "当前：100 MiB");
    assert_eq!(q.items.len(), 9);
    assert_eq!(q.items[8], "自定义…");

    assert!(matches!(prompt_auto_fetch(&mut h, None, None), Outcome::Nothing));
    assert!(matches!(prompt_auto_fetch(&mut h, Some(0), None), Outcome::Saved(s) if s.auto_fetch_bytes == 10 << 20));
    assert!(matches!(prompt_auto_fetch(&mut h, Some(8), Some("0".to_string())), Outcome::Saved(s) if s.auto_fetch_bytes == usize::MAX));
    assert_eq!(ask_auto_fetch(&h.snapshot()).body, "当前：不限");
    assert!(matches!(prompt_auto_fetch(&mut h, Some(8), None), Outcome::Nothing));
    assert!(matches!(prompt_auto_fetch(&mut h, Some(8), Some("12XY".to_string())), Outcome::Complain(m) if m.contains("可用")));
    assert_eq!(h.version(), 2);
    assert_eq!(parse_auto_fetch("500MB").unwrap(), 500_000_000);
    assert!(parse_auto_fetch("x").is_err());
}

#[test]
fn the_upload_limit_is_picked_or_typed() {
    let mut h = handle();
    let q = ask_upload_limit(&h.snapshot());
    assert_eq!((q.title.as_str(), q.body.as_str()), ("发送限速", "当前：不限"));
    assert!(matches!(prompt_upload_limit(&mut h, Some(7), Some("20mbps".to_string())), Outcome::Saved(s) if s.upload_limit_bytes_per_sec == 20_000_000));
    assert_eq!(ask_upload_limit(&h.snapshot()).body, "当前：19.1 MiB/s");
    assert!(matches!(prompt_upload_limit(&mut h, Some(3), None), Outcome::Saved(s) if s.upload_limit_bytes_per_sec == 10_000_000));
    assert!(matches!(prompt_upload_limit(&mut h, None, None), Outcome::Nothing));
    assert!(matches!(prompt_upload_limit(&mut h, Some(7), Some("fast".to_string())), Outcome::Complain(_)));
}

#[test]
fn ports_below_1024_and_nonsense_are_turned_down() {
    let mut h = handle();
    assert_eq!(ask_listen_port(47684), "当前：47684\n\n填 1024–65535；重启后生效");
    let mut typed = |s: &str| match prompt_listen_port(&mut h, Some(s.to_string())) {
        Outcome::Saved(s) => s.listen_port.to_string(),
        Outcome::Complain(m) => m,
        Outcome::Nothing => panic!("something was typed"),
    };
    assert_eq!(typed(" 50000 "), "50000");
    assert_eq!(typed("+01024"), "1024");
    assert_eq!(typed("65535"), "65535");
    assert_eq!(typed("80"), "80 属于系统保留范围，请填 1024–65535");
    assert_eq!(typed("65536"), "「65536」不是有效端口");
    for bad in ["", "+", "-1", "1e4", "４７６８４"] {
        assert_eq!(typed(bad), format!("「{bad}」不是有效端口"));
    }
    assert!(matches!(prompt_listen_port(&mut h, None), Outcome::Nothing));
}

#[test]
fn languages_go_by_their_own_names() {
    let mut h = handle();
    let q = ask_language(&h.snapshot(), Lang::English);
    assert_eq!(q.items, vec!["Follow system ✓", "中文", "English"]);
    assert_eq!(q.title, "Language");
    let (s, now) = prompt_language(&mut h, Some(2), Some(Lang::Zh)).unwrap();
    assert_eq!((s.language.as_str(), now), ("en", Lang::English));
    let (s, now) = prompt_language(&mut h, Some(0), None).unwrap();
    assert_eq!((s.language.as_str(), now), ("auto", Lang::Zh));
    assert!(prompt_language(&mut h, None, None).is_none());
}
