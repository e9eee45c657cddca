use std::time::{Duration, Instant};
use wezterm_core::frame_time::update_next_frame_time;

#[test]
fn keeps_the_earliest_deadline() {
    let now = Instant::now();
    let soon = now + Duration::from_millis(10);
    let later = now + Duration::from_millis(50);

    let mut storage = None;
    update_next_frame_time(&mut storage, None);
    assert_eq!(storage, None);
    update_next_frame_time(&mut storage, Some(later));
    assert_eq!(storage, Some(later));
    update_next_frame_time(&mut storage, Some(soon));
    assert_eq!(storage, Some(soon));
    update_next_frame_time(&mut storage, Some(later));
    assert_eq!(storage, Some(soon));
    update_next_frame_time(&mut storage, None);
    assert_eq!(storage, Some(soon));
    update_next_frame_time(&mut storage, Some(soon));
    assert_eq!(storage, Some(soon));
}
