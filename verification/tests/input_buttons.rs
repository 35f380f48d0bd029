use beams::input::ButtonStateTracker;

#[test]
fn fresh_tracker_reports_nothing() {
    let t = ButtonStateTracker::new();
    assert!(!t.is_pressed(0));
    assert!(!t.was_pressed(0));
    assert!(!t.is_just_pressed(0));
    assert!(!t.is_just_released(0));
}

#[test]
fn press_is_just_pressed_until_tick_end() {
    let mut t = ButtonStateTracker::new();
    t.update(5, true);
    assert!(t.is_pressed(5));
    assert!(!t.was_pressed(5));
    assert!(t.is_just_pressed(5));
    assert!(!t.is_just_released(5));
    t.tick_end();
    assert!(t.is_pressed(5));
    assert!(t.was_pressed(5));
    assert!(!t.is_just_pressed(5));
}

#[test]
fn release_is_just_released_for_one_tick() {
    let mut t = ButtonStateTracker::new();
    t.update(5, true);
    t.tick_end();
    t.update(5, false);
    assert!(!t.is_pressed(5));
    assert!(t.was_pressed(5));
    assert!(t.is_just_released(5));
    t.tick_end();
    assert!(!t.is_just_released(5));
    assert!(!t.was_pressed(5));
}

#[test]
fn keys_are_tracked_independently() {
    let mut t = ButtonStateTracker::new();
    t.update(1, true);
    t.update(2, false);
    assert!(t.is_pressed(1));
    assert!(!t.is_pressed(2));
    assert!(!t.is_pressed(3));
    t.update(1, false);
    t.update(3, true);
    assert!(!t.is_pressed(1));
    assert!(t.is_pressed(3));
}
