use clipsync::wallclock::{fmt_hms, hms_after};

const DAY: i64 = 86_400;

#[test]
fn formats_with_leading_zeros() {
    assert_eq!(fmt_hms(0), "00:00:00");
    assert_eq!(fmt_hms(9 * 3600 + 5 * 60 + 3), "09:05:03");
    assert_eq!(fmt_hms(23 * 3600 + 59 * 60 + 59), "23:59:59");
}

#[test]
fn wraps_past_midnight() {
    assert_eq!(fmt_hms(DAY), "00:00:00");
    assert_eq!(fmt_hms(DAY + 61), "00:01:01");
    assert_eq!(fmt_hms(-1), "23:59:59");
}

#[test]
fn system_clock_gives_a_sane_local_time() {
    let s = hms_after(Some(86_000), 0).unwrap();
    let parts: Vec<i64> = s.split(':').map(|p| p.parse().unwrap()).collect();
    assert_eq!(parts.len(), 3, "{s}");
    assert!((0..24).contains(&parts[0]), "{s}");
    assert!((0..60).contains(&parts[1]), "{s}");
    assert!((0..60).contains(&parts[2]), "{s}");
    let later = hms_after(Some(86_000), 180).unwrap();
    assert_ne!(later, s);
    assert_eq!(hms_after(None, 180), None);
    assert_eq!(hms_after(None, u64::MAX), None);
}
