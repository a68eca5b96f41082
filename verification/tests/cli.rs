use clipsync::cli::{addr_line, command, describe_addr, designated_requirement, ends_with_update, is_denied, list_lines, runs_from, why_no_files, Command, Listed, NoFiles, RunsFrom};
use clipsync::language::Lang;
use clipsync::types::Ip;

fn args(words: &[&str]) -> Vec<String> {
    words.iter().map(|s| s.to_string()).collect()
}

fn asked(words: &[&str]) -> Command {
    command(&args(words))
}

#[test]
fn words_are_understood() {
    assert!(matches!(asked(&[]), Command::Sync));
    assert!(matches!(asked(&["pair"]), Command::PairUsage));
    assert!(matches!(asked(&["pair", "--host"]), Command::PairHost));
    assert!(matches!(asked(&["pair", "-h"]), Command::PairHost));
    assert!(matches!(asked(&["pair", "1234"]), Command::PairJoin { code, host: None } if code == "1234"));
    assert!(matches!(asked(&["pair", "1234@10.0.0.2"]), Command::PairJoin { code, host: Some(h) } if code == "1234" && h == "10.0.0.2"));
    assert!(matches!(asked(&["pair", "10.0.0.2", "12-34"]), Command::PairJoin { code, host: Some(h) } if code == "12-34" && h == "10.0.0.2"));
    assert!(matches!(asked(&["pair", "10.0.0.2"]), Command::PairJoin { code, host: Some(_) } if code.is_empty()));
    assert!(matches!(asked(&["list"]), Command::List));
    assert!(matches!(asked(&["clipdiag"]), Command::ClipDiag));
    assert!(matches!(asked(&["addrs"]), Command::Addrs));
    assert!(matches!(asked(&["autostart"]), Command::AutostartStatus));
    assert!(matches!(asked(&["autostart", "on"]), Command::AutostartOn));
    assert!(matches!(asked(&["autostart", "off"]), Command::AutostartOff));
    assert!(matches!(asked(&["autostart", "maybe"]), Command::AutostartStatus));
    assert!(matches!(asked(&["fly"]), Command::Unknown(w) if w == "fly"));
}

#[test]
fn addresses_are_described_plainly() {
    let v4 = |a, b| Ip::V4(u32::from_be_bytes([a, b, 0, 1]));
    assert_eq!(describe_addr(v4(100, 64), Lang::Zh), "覆盖网段 (100.64/10 CGNAT，Tailscale 等常用)");
    assert_eq!(describe_addr(v4(192, 168), Lang::English), "LAN / private range");
    assert_eq!(describe_addr(v4(8, 8), Lang::Zh), "公网地址");
    assert_eq!(describe_addr(Ip::V6(0xfd7a << 112), Lang::English), "overlay network (IPv6 ULA)");
    assert_eq!(describe_addr(Ip::V6(0x2001 << 112), Lang::Zh), "公网 IPv6");
    let line = addr_line("10.0.0.1:47684", v4(10, 0), Lang::English);
    assert_eq!(line, format!("  {:<42} {}", "10.0.0.1:47684", "LAN / private range"));
}

#[test]
fn paired_devices_are_listed() {
    assert_eq!(list_lines(&vec![], Lang::English), vec!["No paired devices yet. Run `clipsync pair --host` to start."]);
    let d = Listed { name: "desk".to_string(), device: "aa".to_string(), addrs: vec!["10.0.0.1:1".to_string()] };
    let e = Listed { name: "mac".to_string(), device: "bb".to_string(), addrs: vec![] };
    assert_eq!(
        list_lines(&vec![d, e], Lang::Zh),
        vec!["已配对设备（2）：", "  - desk (aa)", "      10.0.0.1:1", "  - mac (bb)"]
    );
}

#[test]
fn a_clipboard_without_files_is_explained() {
    assert_eq!(why_no_files(&args(&["public.text", "com.apple.pasteboard.promised-file-url"])), NoFiles::Promised);
    assert_eq!(why_no_files(&vec![]), NoFiles::Empty);
    assert_eq!(why_no_files(&args(&["public.text"])), NoFiles::OtherContent);
    assert_eq!(NoFiles::Promised.lines(Lang::Zh).len(), 3);
    assert_eq!(NoFiles::Empty.lines(Lang::English), vec!["  The clipboard is empty. Copy a file first, then run this again."]);
    assert_eq!(NoFiles::OtherContent.lines(Lang::Zh).len(), 2);
}

#[test]
fn the_program_knows_where_it_runs_from() {
    assert_eq!(runs_from("/Applications/ClipSync.app/Contents/MacOS/clipsync"), RunsFrom::Bundle);
    assert_eq!(runs_from("/private/var/x/AppTranslocation/1/d/ClipSync.app/Contents/MacOS/clipsync"), RunsFrom::Translocated);
    assert_eq!(runs_from("/usr/local/bin/clipsync"), RunsFrom::Elsewhere);
}

#[test]
fn signing_requirements_are_found() {
    let out = "Executable=/x\n# designated => cdhash H\"00\"\nmore\n";
    let req = designated_requirement(out).unwrap();
    assert_eq!(req, "designated => cdhash H\"00\"");
    assert!(ends_with_update(&req));
    let req = designated_requirement("  designated => identifier \"com.clipsync\"\r\n").unwrap();
    assert_eq!(req, "designated => identifier \"com.clipsync\"");
    assert!(!ends_with_update(&req));
    assert!(designated_requirement("nothing\nhere").is_none());
    assert!(designated_requirement("").is_none());
}

#[test]
fn either_denial_counts() {
    assert!(is_denied(Some(true), None));
    assert!(is_denied(None, Some(true)));
    assert!(!is_denied(Some(false), Some(false)));
    assert!(!is_denied(None, None));
}
