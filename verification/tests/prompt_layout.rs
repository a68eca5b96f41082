use clipsync::prompt_layout::{
    centered, command, height_or_guess, prompt_layout, text_width, Command, Place,
};

#[test]
fn parts_at_the_base_scale() {
    let p = prompt_layout(96, 40);
    assert_eq!(text_width(96), 368);
    assert_eq!(p.label, Place { x: 16, y: 16, w: 368, h: 40 });
    assert_eq!(p.edit, Place { x: 16, y: 66, w: 368, h: 26 });
    assert_eq!(p.ok, Place { x: 206, y: 106, w: 84, h: 28 });
    assert_eq!(p.cancel, Place { x: 300, y: 106, w: 84, h: 28 });
    assert_eq!((p.width, p.height), (400, 150));
}

#[test]
fn short_questions_keep_a_line() {
    assert_eq!(prompt_layout(96, 3).label.h, 20);
    assert_eq!(prompt_layout(96, 0), prompt_layout(0, 20));
}

#[test]
fn nothing_is_covered_at_any_usual_scale() {
    for dpi in [72, 96, 120, 125, 144, 168, 192, 250, 288] {
        for text in [0, 17, 40, 333] {
            let p = prompt_layout(dpi, text);
            assert!(p.label.h >= text);
            assert!(p.label.y + p.label.h <= p.edit.y);
            assert!(p.edit.y + p.edit.h <= p.ok.y);
            assert_eq!(p.ok.y, p.cancel.y);
            assert!(p.ok.x + p.ok.w <= p.cancel.x);
            assert!(p.cancel.x + p.cancel.w <= p.width);
            assert!(p.ok.y + p.ok.h <= p.height);
        }
    }
}

#[test]
fn scaled_sizes_round_down() {
    let p = prompt_layout(144, 0);
    assert_eq!((p.edit.h, p.ok.w, p.width), (39, 126, 600));
    assert_eq!(prompt_layout(100, 0).edit.h, 27);
}

#[test]
fn windows_stand_in_the_middle() {
    assert_eq!(centered(1920, 400), 760);
    assert_eq!(centered(1921, 400), 760);
    assert_eq!(centered(300, 401), -50);
}

#[test]
fn unmeasured_text_is_guessed() {
    assert_eq!(height_or_guess(Some(52), 368), 52);
    assert_eq!(height_or_guess(None, 368), 46);
}

#[test]
fn commands_are_told_apart_by_their_low_bits() {
    assert_eq!(command(1), Command::Accept);
    assert_eq!(command(2), Command::Dismiss);
    assert_eq!(command(100), Command::Other);
    assert_eq!(command(65536 * 3 + 1), Command::Accept);
    assert_eq!(command(65536), Command::Other);
}
