use clipsync::logging::{build_filter, LogSize, Rolled, MAX_LOG_BYTES};

#[test]
fn normal_mode_excludes_debug_from_own_crates() {
    let repr = build_filter(None, false);
    assert!(repr.contains("clipsync=info"), "{repr}");
    assert!(!repr.contains("clipsync=debug"), "{repr}");
    let verbose = build_filter(None, true);
    assert!(verbose.contains("clipsync=debug"), "{verbose}");
}

#[test]
fn dependencies_stay_quiet_even_in_verbose_mode() {
    let repr = build_filter(None, true);
    assert!(repr.contains("warn"), "{repr}");
    assert_eq!(repr, "warn,clipsync=debug,clipsync_core=debug,clipsync_clip=debug,clipsync_net=debug");
}

#[test]
fn the_environment_comes_first() {
    assert_eq!(build_filter(Some("trace".to_string()), false), "trace");
}

/// Writes until more than `total` bytes went to the log; how often it was put aside, the
/// largest size that the file had, and the size that it has in the end.
fn write(chunk: u64, total: u64) -> (u32, u64, u64) {
    let mut size = LogSize { written: 0 };
    let (mut rolls, mut most, mut sum) = (0, 0, 0);
    while sum <= total {
        if size.is_full() {
            size.rolled(Rolled::Fresh);
            rolls += 1;
        }
        size.wrote(chunk);
        most = most.max(size.written);
        sum += chunk;
    }
    (rolls, most, size.written)
}

#[test]
fn rolls_over_when_exceeding_limit() {
    let (rolls, _, now) = write(64 * 1024, MAX_LOG_BYTES + 128 * 1024);
    assert_eq!(rolls, 1);
    assert!(now < MAX_LOG_BYTES, "{now}");
    assert_eq!(now, 3 * 64 * 1024);
}

#[test]
fn keeps_only_one_old_generation() {
    let (rolls, most, _) = write(256 * 1024, (MAX_LOG_BYTES + 512 * 1024) * 2 - 1);
    assert_eq!(rolls, 2);
    assert!(most <= MAX_LOG_BYTES + 256 * 1024);
}

#[test]
fn appends_across_reopen() {
    let mut size = LogSize { written: 10 };
    assert!(!size.is_full());
    size.wrote(11);
    assert_eq!(size.written, 21);
}

#[test]
fn a_log_that_cannot_be_put_aside_goes_on() {
    let mut size = LogSize { written: MAX_LOG_BYTES };
    assert!(size.is_full());
    size.rolled(Rolled::Kept);
    assert_eq!(size.written, MAX_LOG_BYTES);
    size.rolled(Rolled::Renamed);
    assert!(size.is_full());
    size.rolled(Rolled::Fresh);
    assert_eq!(size.written, 0);
}
