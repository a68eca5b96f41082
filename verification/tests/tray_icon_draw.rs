use clipsync::tray_icon_draw::{draw_clipboard, is_dimmed, IconState, Rect, BADGE_BLUE, BADGE_GREEN, BADGE_RED, ICON_SIZE, PULSE_ALPHA};
use clipsync::tray_status::TrayStatus;

const BADGE: [u8; 3] = [BADGE_RED, BADGE_GREEN, BADGE_BLUE];

#[test]
fn icon_state_priority() {
    let mut s = TrayStatus::new();
    assert_eq!(IconState::of(&s), IconState::Disconnected);

    s.set_connected_ids(vec!["dev-a".to_string()]);
    assert_eq!(IconState::of(&s), IconState::Connected);

    s.set_paused(true);
    assert_eq!(IconState::of(&s), IconState::Paused);
}

#[test]
fn icon_pixels_have_expected_size_and_content() {
    let px = draw_clipboard(IconState::Connected, false, false);
    assert_eq!(px.len(), (ICON_SIZE * ICON_SIZE * 4) as usize);
    assert!(px.chunks(4).any(|p| p[3] == 255));
    assert!(px.chunks(4).any(|p| p[3] == 0));
}

#[test]
fn different_states_produce_different_icons() {
    let a = draw_clipboard(IconState::Connected, false, false);
    let b = draw_clipboard(IconState::Disconnected, false, false);
    let c = draw_clipboard(IconState::Paused, false, false);
    assert_ne!(a, b);
    assert_ne!(b, c);
    assert_ne!(a, c);
}

#[test]
fn broken_icon_is_visually_distinct() {
    let broken = draw_clipboard(IconState::Broken, false, false);
    for other in [IconState::Connected, IconState::Disconnected, IconState::Paused] {
        assert_ne!(broken, draw_clipboard(other, false, false), "{other:?}");
    }
}

#[test]
fn badge_marks_pending_without_touching_the_state_color() {
    let plain = draw_clipboard(IconState::Connected, false, false);
    let badged = draw_clipboard(IconState::Connected, false, true);
    assert_ne!(plain, badged);

    let badge_px: Vec<&[u8]> = badged
        .chunks(4)
        .zip(plain.chunks(4))
        .filter(|(b, p)| b != p)
        .map(|(b, _)| b)
        .collect();
    assert!(!badge_px.is_empty());
    for p in &badge_px {
        assert_eq!(&p[..3], &BADGE);
        assert_eq!(p[3], 255);
    }

    let dim_badged = draw_clipboard(IconState::Connected, true, true);
    let solid = dim_badged.chunks(4).filter(|p| p[..3] == BADGE).count();
    assert_eq!(solid, badge_px.len());
}

#[test]
fn pulse_dims_without_changing_color() {
    let bright = draw_clipboard(IconState::Connected, false, false);
    let dim = draw_clipboard(IconState::Connected, true, false);
    assert_ne!(bright, dim);

    for (b, d) in bright.chunks(4).zip(dim.chunks(4)) {
        assert_eq!(&b[..3], &d[..3]);
        if b[3] == 0 {
            assert_eq!(d[3], 0);
        } else {
            assert!(d[3] < b[3]);
            assert!(d[3] > 0);
            assert_eq!(d[3], PULSE_ALPHA);
        }
    }
}

#[test]
fn single_pixels_are_where_they_belong() {
    let px = draw_clipboard(IconState::Disconnected, false, true);
    let at = |x: usize, y: usize| [0, 1, 2, 3].map(|c| px[4 * (32 * y + x) + c]);
    assert_eq!(at(0, 0), [0, 0, 0, 0]);
    assert_eq!(at(16, 20), [0x8A, 0x8A, 0x8A, 255]);
    assert_eq!(at(16, 5), [0x62, 0x62, 0x62, 255]);
    assert_eq!(at(26, 6), [0x2E, 0x8B, 0xE6, 255]);
    assert_eq!(at(6, 7), [0, 0, 0, 0]);
}

#[test]
fn corners_are_round() {
    let r = Rect { x0: 0, y0: 0, x1: 10, y1: 10 };
    assert!(!r.contains_rounded(0, 0, 3));
    assert!(r.contains_rounded(3, 0, 3));
    assert!(r.contains_rounded(1, 1, 3));
    assert!(!r.contains_rounded(9, 9, 3));
    assert!(!r.contains_rounded(10, 5, 3));
    assert!(r.contains_rounded(0, 0, 0));
    let large = Rect { x0: -5_000, y0: -5_000, x1: 5_000, y1: 5_000 };
    assert!(!large.contains_rounded(-5_000, -5_000, 1_000));
    assert!(large.contains_rounded(-4_000, -5_000, 1_000));
    assert!(!large.contains_rounded(i32::MAX, i32::MIN, i32::MAX));
}

#[test]
fn pulse_has_two_halves() {
    assert!(!is_dimmed(true, 0));
    assert!(!is_dimmed(true, 449));
    assert!(is_dimmed(true, 450));
    assert!(!is_dimmed(true, 900));
    assert!(!is_dimmed(false, 450));
}
