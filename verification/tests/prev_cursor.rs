use std::time::{Duration, Instant};
use wezterm_core::gdi_frame::CursorShape;
use wezterm_core::prev_cursor::{PrevCursorPos, StableCursorPosition};

#[test]
fn same_position_keeps_the_moment_and_a_move_renews_it() {
    let mut p = PrevCursorPos::new();
    let t0 = p.last_cursor_movement();
    let origin = StableCursorPosition { x: 0, y: 0, shape: CursorShape::Default, visible: true };
    p.update(&origin);
    assert_eq!(p.last_cursor_movement(), t0);
    let moved = StableCursorPosition { x: 3, ..origin };
    p.update(&moved);
    assert!(p.last_cursor_movement() >= t0);
    let t1 = p.last_cursor_movement();
    p.update(&moved);
    assert_eq!(p.last_cursor_movement(), t1);
    p.bump();
    assert!(p.last_cursor_movement() >= t1);
}

#[test]
fn explicit_moments_are_recorded() {
    let t0 = Instant::now();
    let t1 = t0 + Duration::from_millis(5);
    let t2 = t0 + Duration::from_millis(9);
    let mut p = PrevCursorPos::new_at(t0);
    assert_eq!(p.last_cursor_movement(), t0);
    let origin = StableCursorPosition { x: 0, y: 0, shape: CursorShape::Default, visible: true };
    p.update_at(&origin, t1);
    assert_eq!(p.last_cursor_movement(), t0);
    p.update_at(&StableCursorPosition { y: 4, ..origin }, t1);
    assert_eq!(p.last_cursor_movement(), t1);
    p.bump_at(t2);
    assert_eq!(p.last_cursor_movement(), t2);
}
