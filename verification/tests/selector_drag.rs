use beams::device::{DeviceTy, SelectorState};
use beams::grid::Grid;
use beams::level::{GridCell, Level, Tile};
use beams::selector::{Selector, SelectorMoveState};

fn bordered_level(rows: usize, cols: usize) -> Level {
    let tiles = Grid::new(rows, cols, Tile::Floor);
    let mut level = Level::new_from_tiles(&tiles).unwrap();
    level.build_debug_border();
    level
}

#[test]
fn locked_device_is_never_picked_up() {
    // However the pointer hovers over it, a locked device is excluded
    // from the hit-test entirely.
    let mut level = bordered_level(5, 5);
    level.force_place(2, 1, DeviceTy::Mix, true);
    let mut sel = Selector::new();
    sel.update(&level, 2, 1, true);
    assert!(sel.object.get().is_none());
    assert!(matches!(sel.moving, SelectorMoveState::NotMoving));
    assert_eq!(sel.state, SelectorState::NotSelectable);
    sel.update(&level, 2, 2, true);
    assert!(sel.object.get().is_none());
    assert!(matches!(sel.moving, SelectorMoveState::NotMoving));
}

#[test]
fn hovering_empty_floor_selects_nothing() {
    let level = bordered_level(5, 5);
    let mut sel = Selector::new();
    sel.update(&level, 2, 2, true);
    assert!(sel.object.get().is_none());
    assert_eq!(sel.state, SelectorState::NotSelectable);
}

#[test]
fn hover_highlights_without_a_press() {
    let mut level = bordered_level(5, 5);
    level.force_place(2, 1, DeviceTy::Mix, false);
    let mut sel = Selector::new();
    sel.update(&level, 2, 1, false);
    assert_eq!(sel.object.get().map(|g| g.id), Some(0));
    assert_eq!(sel.state, SelectorState::Vert2);
    assert!(matches!(sel.moving, SelectorMoveState::NotMoving));
    assert_eq!((sel.x, sel.y), (2, 1));
}

#[test]
fn pressing_on_a_footprint_cell_starts_a_mouse_drag() {
    let mut level = bordered_level(5, 5);
    level.force_place(2, 1, DeviceTy::Mix, false);
    let mut sel = Selector::new();
    // Hover over the non-anchor footprint cell: the anchor is selected.
    sel.update(&level, 2, 2, true);
    assert_eq!(sel.object.get().map(|g| g.id), Some(0));
    assert!(matches!(sel.moving, SelectorMoveState::MovingWithMouse));
    assert_eq!((sel.x, sel.y), (2, 1));
    assert_eq!((sel.start_x, sel.start_y), (2, 1));
}

#[test]
fn latched_touch_starts_a_touch_drag() {
    let mut level = bordered_level(5, 5);
    level.force_place(2, 1, DeviceTy::Mix, false);
    let mut sel = Selector::new();
    sel.touch_started = Some(7);
    sel.update(&level, 2, 1, false);
    assert!(matches!(sel.moving, SelectorMoveState::MovingWithTouch(7)));
    assert!(sel.touch_started.is_none());
}

#[test]
fn hit_test_finds_the_covering_device_among_many() {
    let mut level = bordered_level(7, 7);
    level.force_place(1, 1, DeviceTy::Nut, false);
    level.force_place(3, 1, DeviceTy::Mix, false);
    level.force_place(5, 3, DeviceTy::Bolt, false);
    let mut sel = Selector::new();
    sel.update(&level, 3, 2, false);
    assert_eq!(sel.object.get().map(|g| g.id), Some(1));
    assert_eq!((sel.x, sel.y), (3, 1));
    sel.update(&level, 5, 3, false);
    assert_eq!(sel.object.get().map(|g| g.id), Some(2));
    sel.update(&level, 4, 4, false);
    assert!(sel.object.get().is_none());
}

#[test]
fn drag_moves_and_release_commits() {
    let mut level = bordered_level(5, 5);
    level.force_place(2, 1, DeviceTy::Mix, false);
    let mut sel = Selector::new();
    sel.update(&level, 2, 1, true);
    assert!(sel.is_moving());

    // Drag to a free cell: strictly valid, device follows provisionally.
    let out = sel.do_move(&mut level, 3, 2, false, true);
    assert!(out.valid);
    assert!(out.moved);
    assert!(!out.finished);
    assert!(sel.is_moving());
    assert_eq!((level.devices[0].x, level.devices[0].y), (3, 2));

    // Same cell again: nothing moved this tick.
    let out = sel.do_move(&mut level, 3, 2, false, true);
    assert!(!out.moved);

    // Release: the drop commits where it is.
    let out = sel.do_move(&mut level, 3, 2, false, false);
    assert!(out.finished);
    assert!(out.valid);
    assert!(!sel.is_moving());
    assert_eq!((level.devices[0].x, level.devices[0].y), (3, 2));
    assert!(matches!(level.grid.get(3, 2), GridCell::DeviceRoot(_)));
    assert!(matches!(level.grid.get(2, 1), GridCell::Empty));
}

#[test]
fn drag_onto_wall_tints_invalid_and_snaps_back_on_release() {
    let mut level = bordered_level(5, 5);
    level.force_place(2, 1, DeviceTy::Mix, false);
    let mut sel = Selector::new();
    sel.update(&level, 2, 1, true);

    // Dragging onto the border wall is invalid; the device snaps back to
    // its start for the duration of the tick.
    let out = sel.do_move(&mut level, 0, 0, false, true);
    assert!(!out.valid);
    assert!(out.moved);
    assert_eq!((level.devices[0].x, level.devices[0].y), (2, 1));

    // Releasing there commits the snap-back.
    let out = sel.do_move(&mut level, 0, 0, true, true);
    assert!(out.finished);
    assert!(!out.valid);
    assert!(!sel.is_moving());
    assert_eq!((level.devices[0].x, level.devices[0].y), (2, 1));
    assert!(matches!(level.grid.get(2, 1), GridCell::DeviceRoot(_)));
}
