use clipsync::config::{clear_pairings, load_or_init_identity, load_or_init_settings, load_pairings, parse_byte_size, parse_rate, quarantine, remove_pairing, upsert_pairing, IdentityStep, Settings, SettingsHandle, Stored, StoredSettings};
use clipsync::types::{DeviceId, PairingRecord};

#[test]
fn config_parses_plain_bytes_and_binary_units() {
    assert_eq!(parse_byte_size("1024").unwrap(), 1024);
    assert_eq!(parse_byte_size("1KiB").unwrap(), 1024);
    assert_eq!(parse_byte_size("1MiB").unwrap(), 1024 * 1024);
    assert_eq!(parse_byte_size("2GiB").unwrap(), 2 * 1024 * 1024 * 1024);
    assert_eq!(parse_byte_size("500m").unwrap(), 500 * 1024 * 1024);
}

#[test]
fn config_parses_decimal_units_by_thousand() {
    assert_eq!(parse_byte_size("1KB").unwrap(), 1_000);
    assert_eq!(parse_byte_size("500MB").unwrap(), 500_000_000);
    assert_eq!(parse_byte_size("1GB").unwrap(), 1_000_000_000);
}

#[test]
fn config_tolerates_messy_user_input() {
    assert_eq!(parse_byte_size(" 500 mb ").unwrap(), 500_000_000);
    assert_eq!(parse_byte_size("1.5GiB").unwrap(), 1_610_612_736);
    assert_eq!(parse_byte_size("100MiB").unwrap(), parse_byte_size("100mib").unwrap());
}

#[test]
fn config_rejects_nonsense_with_actionable_message() {
    for bad in ["", "abc", "12XY", "-5MB"] {
        let err = parse_byte_size(bad).unwrap_err().message();
        assert!(
            err.contains("请输入") || err.contains("可用") || err.contains("正数"),
            "{err}"
        );
    }
}

#[test]
fn config_rate_accepts_speed_suffixes_and_unlimited() {
    assert_eq!(parse_rate("10MB/s").unwrap(), 10_000_000);
    assert_eq!(parse_rate("20mbps").unwrap(), 20_000_000);
    assert_eq!(parse_rate("5M").unwrap(), 5 * 1024 * 1024);
    for none in ["0", "不限速", "unlimited"] {
        assert_eq!(parse_rate(none).unwrap(), 0, "{none}");
    }
}

/// A settings file's text, read as the program reads it: what is no JSON object is
/// damaged, and what is left out is `None`.
fn stored(text: &str) -> Stored<StoredSettings> {
    let value: serde_json::Value = match serde_json::from_str(text) {
        Ok(v) => v,
        Err(_) => return Stored::Damaged,
    };
    let n = |k: &str| value.get(k).and_then(|v| v.as_u64());
    let b = |k: &str| value.get(k).and_then(|v| v.as_bool());
    Stored::Intact(StoredSettings {
        auto_fetch_bytes: n("auto_fetch_bytes").map(|v| v as usize),
        max_bytes: n("max_bytes").map(|v| v as usize),
        allow_image: b("allow_image"),
        allow_files: b("allow_files"),
        listen_port: n("listen_port").map(|v| v as u16),
        file_cache_bytes: n("file_cache_bytes"),
        upload_limit_bytes_per_sec: n("upload_limit_bytes_per_sec"),
        compress_transfers: b("compress_transfers"),
        verbose_log: b("verbose_log"),
        language: value.get("language").and_then(|v| v.as_str()).map(|s| s.to_string()),
    })
}

/// What a save of `s` leaves in the file.
fn written(s: &Settings) -> String {
    format!(
        "{{\"auto_fetch_bytes\":{},\"allow_image\":{},\"allow_files\":{},\"listen_port\":{},\"file_cache_bytes\":{},\"upload_limit_bytes_per_sec\":{},\"compress_transfers\":{},\"verbose_log\":{},\"language\":\"{}\"}}",
        s.auto_fetch_bytes,
        s.allow_image,
        s.allow_files,
        s.listen_port,
        s.file_cache_bytes,
        s.upload_limit_bytes_per_sec,
        s.compress_transfers,
        s.verbose_log,
        s.language
    )
}

#[test]
fn config_corrupt_settings_falls_back_instead_of_failing() {
    let loaded = load_or_init_settings(stored("{ 这不是合法 JSON ,,, "));
    assert_eq!(loaded.value.auto_fetch_bytes, Settings::default().auto_fetch_bytes);
    assert!(loaded.quarantine);
    assert_eq!(quarantine("settings.json"), "settings.json.bad");
    assert!(loaded.save);
    let again = load_or_init_settings(stored(&written(&loaded.value)));
    assert!(!again.quarantine);
}

#[test]
fn config_tests_corrupt_settings_falls_back_instead_of_failing() {
    let loaded = load_or_init_settings(stored("{ 这不是合法 JSON ,,, "));
    assert_eq!(loaded.value.auto_fetch_bytes, Settings::default().auto_fetch_bytes);
    assert!(loaded.quarantine && loaded.save);
    assert_eq!(quarantine("settings.json"), "settings.json.bad");
    assert!(!load_or_init_settings(stored(&written(&loaded.value))).quarantine);
}

#[test]
fn config_corrupt_pairings_falls_back_to_empty() {
    assert!(serde_json::from_str::<serde_json::Value>("[[[ 坏掉了").is_err());
    let loaded = load_pairings(Stored::Damaged);
    assert!(loaded.value.is_empty());
    assert!(loaded.quarantine);
    assert_eq!(quarantine("pairings.json"), "pairings.json.bad");
}

#[test]
fn config_tests_corrupt_pairings_falls_back_to_empty() {
    let loaded = load_pairings(Stored::Damaged);
    assert!(loaded.value.is_empty());
    assert!(loaded.quarantine);
    assert!(!load_pairings(Stored::Missing).quarantine);
}

#[test]
fn config_corrupt_identity_fails_loudly() {
    match load_or_init_identity::<u8>(Stored::Damaged, "identity.json") {
        IdentityStep::Fail(msg) => {
            assert!(msg.contains("重新配对") || msg.contains("加密身份"), "{msg}");
        }
        _ => panic!("a damaged identity must not be replaced"),
    }
}

#[test]
fn config_tests_corrupt_identity_fails_loudly() {
    match load_or_init_identity::<u8>(Stored::Damaged, "/config/identity.json") {
        IdentityStep::Fail(msg) => {
            assert!(msg.contains("重新配对") || msg.contains("加密身份"), "{msg}");
            assert!(msg.contains("/config/identity.json"), "{msg}");
        }
        _ => panic!("a damaged identity must not be replaced"),
    }
    assert!(matches!(
        load_or_init_identity::<u8>(Stored::Missing, "identity.json"),
        IdentityStep::Generate
    ));
    assert!(matches!(
        load_or_init_identity(Stored::Intact(7u8), "identity.json"),
        IdentityStep::Use(7)
    ));
}

fn record(seed: u8, name: &str) -> PairingRecord {
    PairingRecord {
        device: DeviceId::new(&format!("{seed:02x}")),
        name: name.to_string(),
        static_public_key: vec![seed; 32],
        addrs: vec![],
        introduced_by: None,
    }
}

#[test]
fn config_remove_pairing_persists() {
    let a = record(1, "笔记本");
    let b = record(2, "台式机");
    let mut list = Vec::new();
    upsert_pairing(&mut list, a.clone());
    upsert_pairing(&mut list, b.clone());
    assert_eq!(list.len(), 2);

    let removed = remove_pairing(&mut list, &b.device);
    assert_eq!(removed.as_deref(), Some("台式机"));
    assert_eq!(list.len(), 1);
    assert_eq!(list[0].device, a.device);
    assert!(remove_pairing(&mut list, &b.device).is_none());
}

#[test]
fn config_tests_remove_pairing_persists() {
    let a = record(1, "笔记本");
    let b = record(2, "台式机");
    let mut list = Vec::new();
    upsert_pairing(&mut list, a.clone());
    upsert_pairing(&mut list, b.clone());
    assert_eq!(list.len(), 2);
    assert_eq!(remove_pairing(&mut list, &b.device).as_deref(), Some("台式机"));
    let left = load_pairings(Stored::Intact(list));
    assert_eq!(left.value.len(), 1);
    assert_eq!(left.value[0].device, a.device);
    let mut list = left.value;
    assert!(remove_pairing(&mut list, &b.device).is_none());
}

#[test]
fn pairing_again_replaces_the_record() {
    let mut list = vec![record(1, "old")];
    upsert_pairing(&mut list, record(1, "new"));
    assert_eq!(list.len(), 1);
    assert_eq!(list[0].name, "new");
}

#[test]
fn config_settings_roundtrip_custom_values() {
    let mut s = Settings::default();
    s.auto_fetch_bytes = parse_byte_size("777MB").unwrap() as usize;
    s.upload_limit_bytes_per_sec = parse_rate("33MB/s").unwrap();
    let back = load_or_init_settings(stored(&written(&s))).value;
    assert_eq!(back.auto_fetch_bytes, 777_000_000);
    assert_eq!(back.upload_limit_bytes_per_sec, 33_000_000);
}

#[test]
fn config_tests_settings_roundtrip_custom_values() {
    let s = Settings {
        auto_fetch_bytes: parse_byte_size("777MB").unwrap() as usize,
        upload_limit_bytes_per_sec: parse_rate("33MB/s").unwrap(),
        ..Default::default()
    };
    let back = load_or_init_settings(stored(&written(&s))).value;
    assert_eq!(back.auto_fetch_bytes, 777_000_000);
    assert_eq!(back.upload_limit_bytes_per_sec, 33_000_000);
}

#[test]
fn leaving_the_group_clears_every_pairing() {
    let mut list = Vec::new();
    for i in 0..3u8 {
        upsert_pairing(&mut list, record(i, &format!("设备{i}")));
    }
    assert_eq!(list.len(), 3);
    clear_pairings(&mut list);
    assert!(list.is_empty());
}

#[test]
fn old_records_without_source_still_load() {
    let text = r#"[{"device":"aabbccddeeff0011","name":"旧记录","static_public_key":[1,2,3]}]"#;
    let value: serde_json::Value = serde_json::from_str(text).unwrap();
    let records: Vec<PairingRecord> = value
        .as_array()
        .unwrap()
        .iter()
        .map(|r| PairingRecord {
            device: DeviceId::new(r["device"].as_str().unwrap()),
            name: r["name"].as_str().unwrap().to_string(),
            static_public_key: r["static_public_key"]
                .as_array()
                .unwrap()
                .iter()
                .map(|b| b.as_u64().unwrap() as u8)
                .collect(),
            addrs: vec![],
            introduced_by: r.get("introduced_by").and_then(|v| v.as_str()).map(|s| s.to_string()),
        })
        .collect();
    let list = load_pairings(Stored::Intact(records)).value;
    assert_eq!(list.len(), 1);
    assert_eq!(list[0].name, "旧记录");
    assert!(list[0].introduced_by.is_none());
}

#[test]
fn every_update_bumps_the_version() {
    let mut h = SettingsHandle::new(Settings::default());
    let v0 = h.version();

    h.update(|s| Settings { auto_fetch_bytes: 100 << 20, ..s });
    let v1 = h.version();
    assert_ne!(v1, v0);
    assert_eq!(h.snapshot().auto_fetch_bytes, 100 << 20);

    h.update(|s| Settings { upload_limit_bytes_per_sec: 5_000_000, ..s });
    assert_ne!(h.version(), v1);
}

#[test]
fn the_version_counts_the_updates() {
    let mut h = SettingsHandle::new(Settings::default());
    for n in 0..5 {
        assert_eq!(h.version(), n);
        h.snapshot();
        if n % 2 == 0 {
            h.update(|s| s);
        } else {
            h.set(Settings::default());
        }
    }
    assert_eq!(h.version(), 5);
}

#[test]
fn the_old_max_bytes_key_still_loads() {
    let s = load_or_init_settings(stored(
        r#"{"max_bytes":524288000,"allow_image":true,"allow_files":true,"listen_port":47684}"#,
    ))
    .value;
    assert_eq!(s.auto_fetch_bytes, 524_288_000);
}

#[test]
fn a_partial_config_fills_in_defaults() {
    let loaded = load_or_init_settings(stored(r#"{"language":"en"}"#));
    let s = &loaded.value;
    let d = Settings::default();

    assert_eq!(s.language, "en");
    assert_eq!(s.auto_fetch_bytes, d.auto_fetch_bytes);
    assert_eq!(s.allow_image, d.allow_image);
    assert_eq!(s.allow_files, d.allow_files);
    assert_eq!(s.listen_port, d.listen_port);
    assert_eq!(s.file_cache_bytes, d.file_cache_bytes);
    assert_eq!(s.compress_transfers, d.compress_transfers);
    assert!(!loaded.quarantine);
}

#[test]
fn an_empty_config_object_is_valid() {
    let loaded = load_or_init_settings(stored("{}"));
    assert_eq!(loaded.value.listen_port, Settings::default().listen_port);
    assert!(!loaded.quarantine);
}

#[test]
fn defaults_are_the_documented_ones() {
    let d = Settings::default();
    assert_eq!(d.listen_port, 47684);
    assert_eq!(d.auto_fetch_bytes, 100 * 1024 * 1024);
    assert!(d.allow_image && d.allow_files && d.compress_transfers && !d.verbose_log);
    assert_eq!(d.file_cache_bytes, 1024 * 1024 * 1024);
    assert_eq!(d.upload_limit_bytes_per_sec, 0);
    assert_eq!(d.language, "auto");
    assert!(d.to_limits().allow_image);
}
