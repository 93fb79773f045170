use buddhabrot::animation::{frame_range, records_per_frame};
use buddhabrot::config::{BUFELEMS, FRAMES, PPT};

#[test]
fn records_per_frame_splits_whole_records() {
    assert_eq!(records_per_frame(36 * 1000, 450), 2);
    assert_eq!(records_per_frame(36 * 1000 + 35, 10), 100);
    assert_eq!(records_per_frame(35, 1), 0);
}

#[test]
fn frames_tile_the_log() {
    assert_eq!(frame_range(5, 0), (0, 5));
    assert_eq!(frame_range(5, 3), (15, 20));
    assert_eq!(frame_range(0, 7), (0, 0));
}

#[test]
fn derived_settings() {
    assert_eq!(FRAMES, 450);
    assert_eq!(PPT, 142857);
    assert_eq!(BUFELEMS, 3728270);
}
