use clipsync::size_parse::{parse_byte_size, parse_rate};

#[test]
fn size_parse_parses_plain_bytes_and_binary_units() {
    assert_eq!(parse_byte_size("1024").unwrap(), 1024);
    assert_eq!(parse_byte_size("1KiB").unwrap(), 1024);
    assert_eq!(parse_byte_size("1MiB").unwrap(), 1024 * 1024);
    assert_eq!(parse_byte_size("2GiB").unwrap(), 2 * 1024 * 1024 * 1024);
    assert_eq!(parse_byte_size("500m").unwrap(), 500 * 1024 * 1024);
}

#[test]
fn size_parse_parses_decimal_units_by_thousand() {
    assert_eq!(parse_byte_size("1KB").unwrap(), 1_000);
    assert_eq!(parse_byte_size("500MB").unwrap(), 500_000_000);
    assert_eq!(parse_byte_size("1GB").unwrap(), 1_000_000_000);
}

#[test]
fn size_parse_tolerates_messy_user_input() {
    assert_eq!(parse_byte_size(" 500 mb ").unwrap(), 500_000_000);
    assert_eq!(parse_byte_size("1.5GiB").unwrap(), 1_610_612_736);
    assert_eq!(parse_byte_size("100MiB").unwrap(), parse_byte_size("100mib").unwrap());
}

#[test]
fn size_parse_rejects_nonsense_with_actionable_message() {
    for bad in ["", "abc", "12XY", "-5MB"] {
        let err = parse_byte_size(bad).unwrap_err().message();
        assert!(
            err.contains("请输入") || err.contains("可用") || err.contains("正数"),
            "{err}"
        );
    }
}

#[test]
fn size_parse_rate_accepts_speed_suffixes_and_unlimited() {
    assert_eq!(parse_rate("10MB/s").unwrap(), 10_000_000);
    assert_eq!(parse_rate("20mbps").unwrap(), 20_000_000);
    assert_eq!(parse_rate("5M").unwrap(), 5 * 1024 * 1024);
    for none in ["0", "不限速", "unlimited"] {
        assert_eq!(parse_rate(none).unwrap(), 0, "{none}");
    }
}

#[test]
fn every_complaint_says_what_was_wrong() {
    let msg = |s: &str| parse_byte_size(s).unwrap_err().message();
    assert_eq!(msg("  "), "请输入一个大小，例如 500MB 或 2GiB");
    assert_eq!(msg("1.2.3MB"), "看不懂的数字「1.2.3」，请输入如 500MB 或 2GiB");
    assert_eq!(msg("12XY"), "看不懂的单位「xy」，可用 B/KB/MB/GB 或 KiB/MiB/GiB");
    assert_eq!(msg("99999999999999GiB"), "这个大小太大了，请输入更小的值");
    assert_eq!(msg(&"9".repeat(400)), "大小必须是正数");
}

#[test]
fn sizes_are_computed_like_doubles() {
    assert_eq!(parse_byte_size("0.1KiB").unwrap(), (0.1f64 * 1024.0) as u64);
    assert_eq!(parse_byte_size("1.1GB").unwrap(), (1.1f64 * 1e9) as u64);
    assert_eq!(parse_byte_size("0.3333333333333333333333GiB").unwrap(), (0.333_333_333_333_333_33f64 * 1_073_741_824.0) as u64);
    assert_eq!(parse_byte_size("9007199254740993").unwrap(), 9007199254740993f64 as u64);
    assert_eq!(parse_byte_size("1_000_000").unwrap(), 1_000_000);
}

#[test]
fn per_second_is_no_part_of_the_number() {
    for x in ["10MB", "1.5 GiB", " 200m ", "104857600", "0", "0b", "3_000_", "5."] {
        let bytes = parse_byte_size(x).unwrap();
        assert_eq!(parse_rate(x).unwrap(), bytes, "{x}");
        for end in ["/s", "ps", "每秒", "/秒"] {
            assert_eq!(parse_rate(&format!("{x}{end}")).unwrap(), bytes, "{x}{end}");
        }
    }
}
