//! Popup placement clamping, and the platform probe's absence here.

use clipstream::window::{get_cursor_and_screen_info, window_position};

#[test]
fn no_probe_on_this_platform() {
    assert_eq!(get_cursor_and_screen_info(), None);
}

#[test]
fn window_centred_under_cursor() {
    // Plenty of room: the window opens centred under the cursor.
    let (x, y) = window_position(960, 500, 1920, 1080);
    assert_eq!(x, 960 - 170);
    assert_eq!(y, 510);
}

#[test]
fn window_clamped_to_left_edge() {
    let (x, _) = window_position(5, 500, 1920, 1080);
    assert_eq!(x, 10);
}

#[test]
fn window_clamped_to_right_edge() {
    let (x, _) = window_position(1915, 500, 1920, 1080);
    assert_eq!(x, 1920 - 340 - 10);
}

#[test]
fn window_flips_above_cursor_near_bottom() {
    let (_, y) = window_position(960, 1000, 1920, 1080);
    assert_eq!(y, 1000 - 420 - 10);
}

#[test]
fn window_clamped_to_top_edge() {
    // Near the bottom of a short screen the flip would leave the screen;
    // the top clamp catches it.
    let (_, y) = window_position(960, 300, 1920, 400);
    assert_eq!(y, 10);
}
