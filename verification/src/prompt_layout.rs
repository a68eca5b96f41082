//! Where the parts of an input window go, at whatever scale the screen has.
//!
//! Sizes are given for 96 dots per inch. The height of the question is measured with the
//! real font, so that a long question pushes the rest down instead of being covered.

use vstd::prelude::*;

verus! {

pub const BASE_WIDTH: i32 = 400;

pub const MARGIN: i32 = 16;

pub const EDIT_HEIGHT: i32 = 26;

pub const BUTTON_WIDTH: i32 = 84;

pub const BUTTON_HEIGHT: i32 = 28;

pub const GAP: i32 = 10;

/// The least height of the question.
pub const LABEL_HEIGHT: i32 = 20;

/// The scale at which sizes are given; no screen counts as coarser.
pub const BASE_DPI: u32 = 96;

/// The dots per inch that count.
pub open spec fn real_dpi(dpi: u32) -> u32 {
    if dpi < 96 {
        96
    } else {
        dpi
    }
}

/// A size at a screen's scale.
pub open spec fn scaled(v: int, dpi: u32) -> int {
    v * real_dpi(dpi) / 96
}

/// A part of the window: its upper left corner, its width and its height.
#[derive(Debug, Clone, Copy, PartialEq, Eq, Structural)]
pub struct Place {
    pub x: i32,
    pub y: i32,
    pub w: i32,
    pub h: i32,
}

/// The parts of the window, and the size of its inside.
#[derive(Debug, Clone, Copy, PartialEq, Eq, Structural)]
pub struct PromptLayout {
    pub label: Place,
    pub edit: Place,
    pub ok: Place,
    pub cancel: Place,
    pub width: i32,
    pub height: i32,
}

/// Sizes stay within what can be counted: the screen is not absurdly fine, and the
/// question not absurdly long.
pub open spec fn sensible(dpi: u32, text_height: i32) -> bool {
    400 * dpi <= i32::MAX && text_height <= 2_140_000_000
}

/// Where the parts go for a question of this height: the question on top, the input
/// below it, and the buttons below that, at the right.
pub open spec fn layout(dpi: u32, text_height: i32) -> PromptLayout {
    let text_w = scaled(368, dpi);
    let label_h = if text_height < scaled(20, dpi) {
        scaled(20, dpi)
    } else {
        text_height as int
    };
    let edit_y = scaled(16, dpi) + label_h + scaled(10, dpi);
    let button_y = edit_y + scaled(26, dpi) + scaled(14, dpi);
    PromptLayout {
        label: Place {
            x: scaled(16, dpi) as i32,
            y: scaled(16, dpi) as i32,
            w: text_w as i32,
            h: label_h as i32,
        },
        edit: Place {
            x: scaled(16, dpi) as i32,
            y: edit_y as i32,
            w: text_w as i32,
            h: scaled(26, dpi) as i32,
        },
        ok: Place {
            x: (scaled(16, dpi) + text_w - scaled(178, dpi)) as i32,
            y: button_y as i32,
            w: scaled(84, dpi) as i32,
            h: scaled(28, dpi) as i32,
        },
        cancel: Place {
            x: (scaled(16, dpi) + text_w - scaled(84, dpi)) as i32,
            y: button_y as i32,
            w: scaled(84, dpi) as i32,
            h: scaled(28, dpi) as i32,
        },
        width: scaled(400, dpi) as i32,
        height: (button_y + scaled(44, dpi)) as i32,
    }
}

proof fn lemma_scaled(v: int, dpi: u32)
    requires
        0 <= v <= 400,
        400 * dpi <= i32::MAX,
    ensures
        v <= scaled(v, dpi),
        0 <= v * real_dpi(dpi) <= i32::MAX,
        scaled(v, dpi) * 96 <= v * real_dpi(dpi) < scaled(v, dpi) * 96 + 96,
{
    let d = real_dpi(dpi) as int;
    assert(96 * v <= v * d <= 400 * d) by (nonlinear_arith)
        requires
            0 <= v <= 400,
            d >= 96,
    ;
}

fn scale(v: i32, dpi: u32) -> (r: i32)
    requires
        0 <= v <= 400,
        400 * dpi <= i32::MAX,
    ensures
        r == scaled(v as int, dpi),
        0 <= r,
{
    let d: i32 = if dpi < BASE_DPI {
        96
    } else {
        dpi as i32
    };
    proof {
        lemma_scaled(v as int, dpi);
        assert(d == real_dpi(dpi));
    }
    v * d / 96
}

proof fn lemma_sizes(dpi: u32)
    requires
        400 * dpi <= i32::MAX,
    ensures
        scaled(16, dpi) <= 900_000,
        scaled(10, dpi) <= 600_000,
        scaled(26, dpi) <= 1_500_000,
        scaled(14, dpi) <= 800_000,
        scaled(44, dpi) <= 2_500_000,
        scaled(20, dpi) <= 1_200_000,
        scaled(16, dpi) + scaled(368, dpi) <= scaled(400, dpi) <= 22_400_000,
        scaled(178, dpi) <= scaled(368, dpi),
        scaled(84, dpi) <= scaled(368, dpi),
        scaled(84, dpi) + scaled(84, dpi) <= scaled(178, dpi),
{
}

/// The width that the question is measured for.
pub fn text_width(dpi: u32) -> (r: i32)
    requires
        400 * dpi <= i32::MAX,
    ensures
        r == scaled(368, dpi),
{
    scale(BASE_WIDTH - MARGIN * 2, dpi)
}

/// Where the parts go for a question whose text is so high.
pub fn prompt_layout(dpi: u32, text_height: i32) -> (r: PromptLayout)
    requires
        sensible(dpi, text_height),
    ensures
        r == layout(dpi, text_height),
{
    proof {
        lemma_sizes(dpi);
    }
    let text_w: i32 = text_width(dpi);
    let least: i32 = scale(LABEL_HEIGHT, dpi);
    let label_h: i32 = if text_height < least {
        least
    } else {
        text_height
    };
    let margin: i32 = scale(MARGIN, dpi);
    let edit_h: i32 = scale(EDIT_HEIGHT, dpi);
    let edit_y: i32 = margin + label_h + scale(GAP, dpi);
    let button_y: i32 = edit_y + edit_h + scale(GAP + 4, dpi);
    let button_w: i32 = scale(BUTTON_WIDTH, dpi);
    let button_h: i32 = scale(BUTTON_HEIGHT, dpi);
    PromptLayout {
        label: Place { x: margin, y: margin, w: text_w, h: label_h },
        edit: Place { x: margin, y: edit_y, w: text_w, h: edit_h },
        ok: Place {
            x: margin + text_w - scale(BUTTON_WIDTH * 2 + GAP, dpi),
            y: button_y,
            w: button_w,
            h: button_h,
        },
        cancel: Place { x: margin + text_w - button_w, y: button_y, w: button_w, h: button_h },
        width: scale(BASE_WIDTH, dpi),
        height: button_y + scale(BUTTON_HEIGHT + MARGIN, dpi),
    }
}

/// Where a window of this size starts so that it stands in the middle of the screen.
pub fn centered(screen: i32, size: i32) -> (r: i32)
    requires
        i32::MIN <= screen - size <= i32::MAX,
    ensures
        screen >= size ==> 0 <= r && (2 * r == screen - size || 2 * r == screen - size - 1),
        screen < size ==> r <= 0 && (2 * r == screen - size || 2 * r == screen - size + 1),
{
    let rest: i32 = screen - size;
    if rest >= 0 {
        rest / 2
    } else {
        -half(rest)
    }
}

/// Half of what is missing, rounded down.
fn half(rest: i32) -> (r: i32)
    requires
        rest < 0,
    ensures
        0 <= r,
        -2 * r == rest || -2 * r == rest + 1,
{
    let missing: i64 = 0 - rest as i64;
    (missing / 2) as i32
}

/// The height of the question as measured, or a guess from its width where the screen
/// could not be asked.
pub fn height_or_guess(measured: Option<i32>, width: i32) -> (r: i32)
    requires
        0 <= width,
    ensures
        r == match measured {
            Some(h) => h as int,
            None => width as int / 8,
        },
{
    match measured {
        Some(h) => h,
        None => width / 8,
    }
}

/// What a command that reaches the window asks for.
#[derive(Debug, Clone, Copy, PartialEq, Eq, Structural)]
pub enum Command {
    /// Take what was typed, and close.
    Accept,
    /// Close, and take nothing.
    Dismiss,
    /// Nothing that concerns the window.
    Other,
}

/// A command's meaning: the control that sent it stands in the low sixteen bits.
pub fn command(word: usize) -> (r: Command)
    ensures
        r == if word % 65536 == 1 {
            Command::Accept
        } else if word % 65536 == 2 {
            Command::Dismiss
        } else {
            Command::Other
        },
{
    let id: usize = word % 65536;
    if id == 1 {
        Command::Accept
    } else if id == 2 {
        Command::Dismiss
    } else {
        Command::Other
    }
}

/// One part lies above another.
pub open spec fn above(a: Place, b: Place) -> bool {
    a.y + a.h <= b.y
}

/// A part lies within a window of this size.
pub open spec fn within(a: Place, width: int, height: int) -> bool {
    0 <= a.x && 0 <= a.y && a.x + a.w <= width && a.y + a.h <= height
}

/// At every scale, and however long the question is, nothing covers anything else: the
/// question lies above the input, the input above the buttons, the buttons beside each
/// other, and all of it inside the window.
pub proof fn nothing_is_covered(dpi: u32, text_height: i32)
    requires
        sensible(dpi, text_height),
    ensures
        ({
            let p = layout(dpi, text_height);
            &&& above(p.label, p.edit)
            &&& above(p.edit, p.ok) && above(p.edit, p.cancel)
            &&& p.ok.x + p.ok.w <= p.cancel.x
            &&& within(p.label, p.width as int, p.height as int)
            &&& within(p.edit, p.width as int, p.height as int)
            &&& within(p.ok, p.width as int, p.height as int)
            &&& within(p.cancel, p.width as int, p.height as int)
            &&& text_height <= p.label.h
        }),
{
    lemma_sizes(dpi);
    lemma_scaled(28, dpi);
    lemma_scaled(84, dpi);
    lemma_scaled(368, dpi);
}

/// Sizes are as given on a screen of 96 dots per inch, or of fewer, twice that on one of
/// twice as many, and never fall as screens get finer.
pub proof fn sizes_grow_with_the_screen(v: int, dpi: u32, finer: u32)
    requires
        0 <= v,
        dpi <= finer,
    ensures
        dpi <= 96 ==> scaled(v, dpi) == v,
        scaled(v, 192) == 2 * v,
        scaled(v, dpi) <= scaled(v, finer),
{
    let (a, b) = (real_dpi(dpi) as int, real_dpi(finer) as int);
    assert(v * a <= v * b) by (nonlinear_arith)
        requires
            0 <= v,
            a <= b,
    ;
    assert(v * 192 / 96 == 2 * v) by (nonlinear_arith);
    assert(v * 96 / 96 == v) by (nonlinear_arith);
    vstd::arithmetic::div_mod::lemma_div_is_ordered(v * a, v * b, 96);
}

/// The question and the input have the same edges, the buttons have the same size and stand
/// in one row, and the right one ends where the input ends.
pub proof fn parts_are_lined_up(dpi: u32, text_height: i32)
    requires
        sensible(dpi, text_height),
    ensures
        ({
            let p = layout(dpi, text_height);
            &&& p.label.x == p.edit.x && p.label.w == p.edit.w
            &&& p.ok.w == p.cancel.w && p.ok.h == p.cancel.h && p.ok.y == p.cancel.y
            &&& p.cancel.x + p.cancel.w == p.edit.x + p.edit.w
        }),
{
    lemma_sizes(dpi);
    lemma_scaled(84, dpi);
    lemma_scaled(368, dpi);
}

} // verus!
