//! Popup placement: where the history window opens relative to the cursor,
//! clamped to the screen. The cursor and screen geometry come from a
//! platform probe; this build has no probe, so none is reported and the
//! caller leaves the window where it is.

use vstd::prelude::*;

verus! {

/// The popup window's width in pixels.
pub const WINDOW_WIDTH: i32 = 340;

/// The popup window's height in pixels.
pub const WINDOW_HEIGHT: i32 = 420;

/// Cursor position and screen size from the platform probe, as
/// `(cursor_x, cursor_y, screen_width, screen_height)`. No probe is
/// available on this platform, so nothing is reported.
pub fn get_cursor_and_screen_info() -> (r: Option<(i32, i32, i32, i32)>)
    ensures
        r is None,
{
    None
}

/// Where the popup opens for a cursor at `(cx, cy)` on a `sw` by `sh`
/// screen: centred under the cursor, kept 10 pixels off the left and right
/// edges, flipped above the cursor when it would cover the taskbar strip at
/// the bottom, and kept 10 pixels off the top.
pub open spec fn spec_window_position(cx: int, cy: int, sw: int, sh: int) -> (int, int) {
    let x0 = cx - WINDOW_WIDTH / 2;
    let x1 = if x0 < 10 {
        10int
    } else {
        x0
    };
    let x2 = if x1 + WINDOW_WIDTH > sw - 10 {
        sw - WINDOW_WIDTH - 10
    } else {
        x1
    };
    let y0 = cy + 10;
    let y1 = if y0 + WINDOW_HEIGHT > sh - 50 {
        cy - WINDOW_HEIGHT - 10
    } else {
        y0
    };
    let y2 = if y1 < 10 {
        10int
    } else {
        y1
    };
    (x2, y2)
}

/// The popup position for this cursor and screen. The bounds on the inputs
/// only keep the pixel arithmetic inside `i32`.
pub fn window_position(cursor_x: i32, cursor_y: i32, screen_w: i32, screen_h: i32) -> (p: (
    i32,
    i32,
))
    requires
        -1000000 <= cursor_x <= 1000000,
        -1000000 <= cursor_y <= 1000000,
        0 <= screen_w <= 1000000,
        0 <= screen_h <= 1000000,
    ensures
        (p.0 as int, p.1 as int) == spec_window_position(
            cursor_x as int,
            cursor_y as int,
            screen_w as int,
            screen_h as int,
        ),
{
    let mut x = cursor_x - WINDOW_WIDTH / 2;
    if x < 10 {
        x = 10;
    }
    if x + WINDOW_WIDTH > screen_w - 10 {
        x = screen_w - WINDOW_WIDTH - 10;
    }
    let mut y = cursor_y + 10;
    if y + WINDOW_HEIGHT > screen_h - 50 {
        y = cursor_y - WINDOW_HEIGHT - 10;
    }
    if y < 10 {
        y = 10;
    }
    (x, y)
}

} // verus!
