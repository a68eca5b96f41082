//! The tray icon, drawn pixel by pixel: a clipboard whose colour tells the state, paler
//! while a file is on its way, with a blue dot while something waits to be fetched.

use vstd::prelude::*;

use crate::tray_status::TrayStatus;

verus! {

/// What the icon tells.
#[derive(Debug, Clone, Copy, PartialEq, Eq, Structural)]
pub enum IconState {
    /// At least one device is connected.
    Connected,
    Disconnected,
    /// The user paused synchronisation.
    Paused,
    /// Synchronisation stopped working.
    Broken,
}

/// What the icon tells of a state: what is broken first, then what the user did.
pub open spec fn icon_of(status: TrayStatus) -> IconState {
    if status.hub_dead {
        IconState::Broken
    } else if status.paused {
        IconState::Paused
    } else if status.connected@.len() > 0 {
        IconState::Connected
    } else {
        IconState::Disconnected
    }
}

impl IconState {
    /// What the icon tells of a state.
    pub fn of(status: &TrayStatus) -> (r: Self)
        ensures
            r == icon_of(*status),
    {
        if status.is_hub_dead() {
            IconState::Broken
        } else if status.is_paused() {
            IconState::Paused
        } else if status.connected_devices().len() > 0 {
            IconState::Connected
        } else {
            IconState::Disconnected
        }
    }

    /// The main colour: green, grey, amber or red.
    pub open spec fn rgb(self) -> (u8, u8, u8) {
        match self {
            IconState::Connected => (0x35, 0xB5, 0x6A),
            IconState::Disconnected => (0x8A, 0x8A, 0x8A),
            IconState::Paused => (0xE0, 0xA0, 0x30),
            IconState::Broken => (0xD0, 0x3A, 0x3A),
        }
    }

    /// The main colour.
    pub fn color(self) -> (r: (u8, u8, u8))
        ensures
            r == self.rgb(),
    {
        match self {
            IconState::Connected => (0x35, 0xB5, 0x6A),
            IconState::Disconnected => (0x8A, 0x8A, 0x8A),
            IconState::Paused => (0xE0, 0xA0, 0x30),
            IconState::Broken => (0xD0, 0x3A, 0x3A),
        }
    }
}

/// The icon's width and height.
pub const ICON_SIZE: u32 = 32;

/// How opaque the icon is in the paler half of a pulse.
pub const PULSE_ALPHA: u8 = 130;

/// The colour of the dot.
pub const BADGE_RED: u8 = 0x2E;

pub const BADGE_GREEN: u8 = 0x8B;

pub const BADGE_BLUE: u8 = 0xE6;

/// A rectangle: from `x0`, `y0` up to, but not including, `x1`, `y1`.
#[derive(Debug, Clone, Copy, PartialEq, Eq, Structural)]
pub struct Rect {
    pub x0: i32,
    pub y0: i32,
    pub x1: i32,
    pub y1: i32,
}

/// How far `v` lies outside `lo..=hi`.
pub open spec fn beyond(v: int, lo: int, hi: int) -> int {
    if v < lo {
        lo - v
    } else if v > hi {
        v - hi
    } else {
        0
    }
}

/// Whether `v` lies on the outer side of a corner's centre `c`, where `first` is the centre
/// of the corner on the left, or at the top.
pub open spec fn past(v: int, c: int, first: int) -> bool {
    (v < c && c == first) || (v > c && c != first)
}

impl Rect {
    /// Whether a point lies in the rectangle.
    pub open spec fn holds(self, x: int, y: int) -> bool {
        self.x0 <= x < self.x1 && self.y0 <= y < self.y1
    }

    /// Whether a point lies in the corner with this centre.
    pub open spec fn in_corner(self, x: int, y: int, radius: int, cx: int, cy: int) -> bool {
        past(x, cx, self.x0 + radius) && past(y, cy, self.y0 + radius)
    }

    /// Whether the corner with this centre cuts a point off: it lies there, and farther than
    /// the radius from the centre.
    pub open spec fn cut(self, x: int, y: int, radius: int, cx: int, cy: int) -> bool {
        self.in_corner(x, y, radius, cx, cy) && (x - cx) * (x - cx) + (y - cy) * (y - cy) > radius
            * radius
    }

    /// Whether a point lies in the rectangle with its corners rounded.
    pub open spec fn covers(self, x: int, y: int, radius: int) -> bool {
        let (left, top) = (self.x0 + radius, self.y0 + radius);
        let (right, bottom) = (self.x1 - 1 - radius, self.y1 - 1 - radius);
        &&& self.holds(x, y)
        &&& !self.cut(x, y, radius, left, top)
        &&& !self.cut(x, y, radius, right, top)
        &&& !self.cut(x, y, radius, left, bottom)
        &&& !self.cut(x, y, radius, right, bottom)
    }

    /// Where a point lies in a corner, the squares that are compared there can be counted.
    pub open spec fn countable(self, x: int, y: int, radius: int, cx: int, cy: int) -> bool {
        self.in_corner(x, y, radius, cx, cy) ==> (x - cx) * (x - cx) + (y - cy) * (y - cy)
            <= i32::MAX && radius * radius <= i32::MAX
    }

    /// Everything that has to be computed for a point can be: nothing outside the rectangle,
    /// the corners' centres inside, and the corners one by one until one of them cuts the
    /// point off.
    pub open spec fn drawable(self, x: int, y: int, radius: int) -> bool {
        let (left, top) = (self.x0 + radius, self.y0 + radius);
        let (right, bottom) = (self.x1 - 1 - radius, self.y1 - 1 - radius);
        self.holds(x, y) ==> {
            &&& i32::MIN <= left <= i32::MAX && i32::MIN <= right <= i32::MAX
            &&& i32::MIN <= top <= i32::MAX && i32::MIN <= bottom <= i32::MAX
            &&& self.countable(x, y, radius, left, top)
            &&& self.cut(x, y, radius, left, top) || {
                &&& self.countable(x, y, radius, right, top)
                &&& self.cut(x, y, radius, right, top) || {
                    &&& self.countable(x, y, radius, left, bottom)
                    &&& self.cut(x, y, radius, left, bottom) || self.countable(
                        x,
                        y,
                        radius,
                        right,
                        bottom,
                    )
                }
            }
        }
    }

    fn cuts(&self, x: i32, y: i32, radius: i32, cx: i32, cy: i32) -> (r: bool)
        requires
            self.countable(x as int, y as int, radius as int, cx as int, cy as int),
            i32::MIN <= self.x0 + radius <= i32::MAX,
            i32::MIN <= self.y0 + radius <= i32::MAX,
        ensures
            r == self.cut(x as int, y as int, radius as int, cx as int, cy as int),
    {
        let past_x = (x < cx && cx == self.x0 + radius) || (x > cx && cx != self.x0 + radius);
        let past_y = (y < cy && cy == self.y0 + radius) || (y > cy && cy != self.y0 + radius);
        if !past_x || !past_y {
            return false;
        }
        proof {
            let (a, b, c) = (x - cx, y - cy, radius as int);
            assert(a * a >= 0 && b * b >= 0 && c * c >= 0) by (nonlinear_arith);
            assert(-65536 < a < 65536) by (nonlinear_arith)
                requires
                    a * a <= 0x7fff_ffff,
            ;
            assert(-65536 < b < 65536) by (nonlinear_arith)
                requires
                    b * b <= 0x7fff_ffff,
            ;
        }
        let dx: i32 = x - cx;
        let dy: i32 = y - cy;
        dx * dx + dy * dy > radius * radius
    }

    /// Whether a point lies in the rectangle with its corners rounded.
    pub fn contains_rounded(&self, x: i32, y: i32, radius: i32) -> (r: bool)
        requires
            self.drawable(x as int, y as int, radius as int),
        ensures
            r == self.covers(x as int, y as int, radius as int),
    {
        if x < self.x0 || x >= self.x1 || y < self.y0 || y >= self.y1 {
            return false;
        }
        let left: i32 = self.x0 + radius;
        let top: i32 = self.y0 + radius;
        let right: i32 = (self.x1 - 1) - radius;
        let bottom: i32 = (self.y1 - 1) - radius;
        !self.cuts(x, y, radius, left, top) && !self.cuts(x, y, radius, right, top) && !self.cuts(
            x,
            y,
            radius,
            left,
            bottom,
        ) && !self.cuts(x, y, radius, right, bottom)
    }
}

proof fn lemma_small_countable(rect: Rect, x: int, y: int, radius: int, cx: int, cy: int)
    requires
        0 <= x <= 32 && 0 <= y <= 32,
        -64 <= cx <= 64 && -64 <= cy <= 64,
        0 <= radius <= 3,
    ensures
        rect.countable(x, y, radius, cx, cy),
{
    let (a, b) = (x - cx, y - cy);
    assert(a * a <= 9216 && b * b <= 9216) by (nonlinear_arith)
        requires
            -96 <= a <= 96,
            -96 <= b <= 96,
    ;
    assert(radius * radius <= 9) by (nonlinear_arith)
        requires
            0 <= radius <= 3,
    ;
}

proof fn lemma_small(rect: Rect, x: int, y: int, radius: int)
    requires
        0 <= x <= 32 && 0 <= y <= 32,
        0 <= rect.x0 <= 32 && 0 <= rect.y0 <= 32,
        0 <= rect.x1 <= 32 && 0 <= rect.y1 <= 32,
        0 <= radius <= 3,
    ensures
        rect.drawable(x, y, radius),
{
    let (left, top) = (rect.x0 + radius, rect.y0 + radius);
    let (right, bottom) = (rect.x1 - 1 - radius, rect.y1 - 1 - radius);
    lemma_small_countable(rect, x, y, radius, left, top);
    lemma_small_countable(rect, x, y, radius, right, top);
    lemma_small_countable(rect, x, y, radius, left, bottom);
    lemma_small_countable(rect, x, y, radius, right, bottom);
}

/// The corners are round: of a rectangle with room for them, exactly those points are covered
/// that lie no farther than the radius from the rectangle that is left when each side moves
/// in by it.
pub proof fn corners_are_round(rect: Rect, x: int, y: int, radius: int)
    requires
        0 <= radius,
        rect.x0 + radius < rect.x1 - 1 - radius,
        rect.y0 + radius < rect.y1 - 1 - radius,
        rect.holds(x, y),
    ensures
        ({
            let dx = beyond(x, rect.x0 + radius, rect.x1 - 1 - radius);
            let dy = beyond(y, rect.y0 + radius, rect.y1 - 1 - radius);
            rect.covers(x, y, radius) == (dx * dx + dy * dy <= radius * radius)
        }),
{
    let dx = beyond(x, rect.x0 + radius, rect.x1 - 1 - radius);
    let dy = beyond(y, rect.y0 + radius, rect.y1 - 1 - radius);
    assert(0 <= dx <= radius && 0 <= dy <= radius);
    assert(dx * dx <= radius * radius && dy * dy <= radius * radius) by (nonlinear_arith)
        requires
            0 <= dx <= radius,
            0 <= dy <= radius,
    ;
    let (left, top) = (rect.x0 + radius, rect.y0 + radius);
    let (right, bottom) = (rect.x1 - 1 - radius, rect.y1 - 1 - radius);
    assert((x - left) * (x - left) == (left - x) * (left - x)) by (nonlinear_arith);
    assert((y - top) * (y - top) == (top - y) * (top - y)) by (nonlinear_arith);
}

/// The board.
pub open spec fn board() -> Rect {
    Rect { x0: 6, y0: 7, x1: 26, y1: 28 }
}

/// The clip at its top.
pub open spec fn clip() -> Rect {
    Rect { x0: 11, y0: 3, x1: 21, y1: 9 }
}

/// Whether a pixel belongs to the dot in the upper right corner.
pub open spec fn in_badge(x: int, y: int) -> bool {
    (x - 26) * (x - 26) + (y - 6) * (y - 6) <= 18
}

/// `v` darkened.
pub open spec fn darker(v: u8) -> u8 {
    if v >= 40 {
        (v - 40) as u8
    } else {
        0
    }
}

/// The colour and opacity of a pixel. The dot lies on top, the clip on the board, and
/// everything else is transparent.
pub open spec fn pixel(state: IconState, dimmed: bool, badge: bool, x: int, y: int) -> (
    u8,
    u8,
    u8,
    u8,
) {
    let (r, g, b) = state.rgb();
    let alpha: u8 = if dimmed {
        130
    } else {
        255
    };
    if badge && in_badge(x, y) {
        (0x2E, 0x8B, 0xE6, 255)
    } else if clip().covers(x, y, 2) {
        (darker(r), darker(g), darker(b), alpha)
    } else if board().covers(x, y, 3) {
        (r, g, b, alpha)
    } else {
        (0, 0, 0, 0)
    }
}

/// The four bytes of pixel `i` in a row-by-row image.
pub open spec fn pixel_at(px: Seq<u8>, i: int) -> (u8, u8, u8, u8) {
    (px[4 * i], px[4 * i + 1], px[4 * i + 2], px[4 * i + 3])
}

/// Draws the icon: 32 rows of 32 pixels, each of four bytes.
pub fn draw_clipboard(state: IconState, dimmed: bool, badge: bool) -> (r: Vec<u8>)
    ensures
        r@.len() == 32 * 32 * 4,
        forall|i: int|
            0 <= i < 32 * 32 ==> #[trigger] pixel_at(r@, i) == pixel(
                state,
                dimmed,
                badge,
                i % 32,
                i / 32,
            ),
{
    let (r, g, b) = state.color();
    let alpha: u8 = if dimmed {
        PULSE_ALPHA
    } else {
        255
    };
    let body = Rect { x0: 6, y0: 7, x1: 26, y1: 28 };
    let top = Rect { x0: 11, y0: 3, x1: 21, y1: 9 };
    let mut px: Vec<u8> = Vec::new();
    let mut i: i32 = 0;
    while i < 1024
        invariant
            0 <= i <= 1024,
            (r, g, b) == state.rgb(),
            alpha == if dimmed {
                130u8
            } else {
                255u8
            },
            body == board(),
            top == clip(),
            px@.len() == 4 * i,
            forall|k: int|
                0 <= k < i ==> #[trigger] pixel_at(px@, k) == pixel(
                    state,
                    dimmed,
                    badge,
                    k % 32,
                    k / 32,
                ),
        decreases 1024 - i,
    {
        let ghost before = px@;
        let x: i32 = i % 32;
        let y: i32 = i / 32;
        let dx: i32 = x - 26;
        let dy: i32 = y - 6;
        proof {
            lemma_small(top, x as int, y as int, 2);
            lemma_small(body, x as int, y as int, 3);
            assert(0 <= dx * dx <= 676) by (nonlinear_arith)
                requires
                    -26 <= dx <= 6,
            ;
            assert(0 <= dy * dy <= 676) by (nonlinear_arith)
                requires
                    -6 <= dy <= 26,
            ;
        }
        let p: (u8, u8, u8, u8) = if badge && dx * dx + dy * dy <= 18 {
            (BADGE_RED, BADGE_GREEN, BADGE_BLUE, 255)
        } else if top.contains_rounded(x, y, 2) {
            (r.saturating_sub(40), g.saturating_sub(40), b.saturating_sub(40), alpha)
        } else if body.contains_rounded(x, y, 3) {
            (r, g, b, alpha)
        } else {
            (0, 0, 0, 0)
        };
        assert(p == pixel(state, dimmed, badge, x as int, y as int));
        px.push(p.0);
        px.push(p.1);
        px.push(p.2);
        px.push(p.3);
        assert forall|k: int| 0 <= k < i + 1 implies #[trigger] pixel_at(px@, k) == pixel(
            state,
            dimmed,
            badge,
            k % 32,
            k / 32,
        ) by {
            if k < i {
                assert(pixel_at(px@, k) == pixel_at(before, k));
            }
        }
        i += 1;
    }
    px
}

/// Which half of a pulse it is: while a file is on its way the icon is paler in every
/// other half period of 450 milliseconds.
pub fn is_dimmed(transferring: bool, elapsed_ms: u64) -> (r: bool)
    ensures
        r == (transferring && (elapsed_ms / 450) % 2 == 1),
{
    transferring && (elapsed_ms / 450) % 2 == 1
}

/// A pulse changes the opacity alone: colours stay, what is transparent stays so, and
/// what is drawn never vanishes.
pub proof fn pulse_keeps_the_colour(state: IconState, x: int, y: int)
    ensures
        ({
            let bright = pixel(state, false, false, x, y);
            let pale = pixel(state, true, false, x, y);
            &&& bright.0 == pale.0 && bright.1 == pale.1 && bright.2 == pale.2
            &&& bright.3 == 0 ==> pale.3 == 0
            &&& bright.3 > 0 ==> 0 < pale.3 < bright.3
        }),
{
}

/// The dot is the same in every state and in both halves of a pulse, and leaves the
/// rest of the icon alone.
pub proof fn badge_is_independent(state: IconState, dimmed: bool, x: int, y: int)
    ensures
        in_badge(x, y) ==> pixel(state, dimmed, true, x, y) == (0x2Eu8, 0x8Bu8, 0xE6u8, 255u8),
        !in_badge(x, y) ==> pixel(state, dimmed, true, x, y) == pixel(state, dimmed, false, x, y),
{
}

/// Different states never look the same.
pub proof fn states_look_different(a: IconState, b: IconState, dimmed: bool, badge: bool)
    requires
        a != b,
    ensures
        pixel(a, dimmed, badge, 16, 20) != pixel(b, dimmed, badge, 16, 20),
{
    assert(board().covers(16, 20, 3)) by {
        assert(beyond(16, 9, 22) == 0 && beyond(20, 10, 24) == 0);
        assert(0int * 0 + 0int * 0 <= 3int * 3);
    }
    assert(!clip().covers(16, 20, 2));
    assert(!in_badge(16, 20)) by {
        assert((16int - 26) * (16int - 26) + (20int - 6) * (20int - 6) == 296);
    }
}

/// Each colour has its meaning: red where synchronisation broke down, whatever else holds;
/// amber where it is paused; green where a device is connected; grey otherwise.
pub proof fn the_icon_tells_the_state(status: TrayStatus)
    ensures
        icon_of(status) == IconState::Broken <==> status.hub_dead,
        icon_of(status) == IconState::Paused <==> !status.hub_dead && status.paused,
        icon_of(status) == IconState::Connected <==> !status.hub_dead && !status.paused
            && status.connected@.len() > 0,
{
}

/// Without the dot, nothing is drawn outside the board and its clip, and the middle of the
/// board is always filled.
pub proof fn the_icon_keeps_to_its_outline(state: IconState, dimmed: bool, x: int, y: int)
    ensures
        pixel(state, dimmed, false, x, y).3 > 0 ==> (6 <= x < 26 && 7 <= y < 28) || (11 <= x < 21
            && 3 <= y < 9),
        (6 <= x < 26 && 10 <= y <= 24) || (9 <= x <= 22 && 7 <= y < 28) || (11 <= x < 21 && 5 <= y
            <= 6) || (13 <= x <= 18 && 3 <= y < 9) ==> pixel(state, dimmed, false, x, y).3 > 0,
        9 <= x <= 22 && 10 <= y <= 24 ==> pixel(state, dimmed, false, x, y).3 == if dimmed {
            130u8
        } else {
            255u8
        },
        9 <= x <= 22 && 10 <= y <= 24 ==> pixel(state, dimmed, false, x, y).0 == state.rgb().0
            && pixel(state, dimmed, false, x, y).1 == state.rgb().1 && pixel(
            state,
            dimmed,
            false,
            x,
            y,
        ).2 == state.rgb().2,
{
    if 9 <= x <= 22 && 10 <= y <= 24 {
        assert(board().holds(x, y));
        assert(board().covers(x, y, 3));
        assert(!clip().holds(x, y));
    }
}

} // verus!
