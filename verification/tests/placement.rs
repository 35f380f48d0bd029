use beams::device::{DeviceTy, Gp};
use beams::grid::Grid;
use beams::level::{GridCell, Level, Tile};

fn bordered_level(rows: usize, cols: usize) -> Level {
    let tiles = Grid::new(rows, cols, Tile::Floor);
    let mut level = Level::new_from_tiles(&tiles).unwrap();
    level.build_debug_border();
    level
}

#[test]
fn bounds_queries_classify_cells() {
    let mut level = bordered_level(5, 5);
    assert!(level.is_in_bounds(0, 0));
    assert!(level.is_in_bounds(4, 4));
    assert!(!level.is_in_bounds(5, 0));
    assert!(!level.is_in_bounds(-1, 2));
    assert!(level.is_in_bounds_and_empty(2, 2));
    assert!(!level.is_in_bounds_and_empty(0, 0));
    assert!(level.is_in_bounds_and_laser_travelable(2, 2));
    assert!(!level.is_in_bounds_and_laser_travelable(0, 0));
    level.force_place(2, 2, DeviceTy::Nut, false);
    assert!(!level.is_in_bounds_and_empty(2, 2));
    assert!(!level.is_in_bounds_and_laser_travelable(2, 2));
}

#[test]
fn pseudo_check_accepts_void_cells() {
    let mut tiles = Grid::new(4, 6, Tile::Floor);
    tiles.put(4, 1, Tile::Absent);
    let mut level = Level::new_from_tiles(&tiles).unwrap();
    assert!(!level.is_in_bounds_and_empty(4, 1));
    assert!(level.is_psuedo_in_bounds_and_empty(4, 1));
    assert!(level.is_psuedo_in_bounds_and_empty(1, 1));
    assert!(!level.is_psuedo_in_bounds_and_empty(6, 1));
}

#[test]
fn may_place_at_needs_every_cell_empty() {
    let mut level = bordered_level(5, 5);
    assert!(level.may_place_at(1, 1, &DeviceTy::Mix));
    // The lower cell of the footprint would land on the border wall.
    assert!(!level.may_place_at(1, 3, &DeviceTy::Mix));
    assert!(!level.may_place_at(0, 1, &DeviceTy::Mix));
    level.force_place(2, 1, DeviceTy::Mix, false);
    // Footprints may not overlap.
    assert!(!level.may_place_at(2, 2, &DeviceTy::Nut));
    assert!(level.may_place_at(3, 1, &DeviceTy::Mix));
}

#[test]
fn move_rejected_by_wall_restores_state() {
    let mut level = bordered_level(5, 5);
    level.force_place(2, 1, DeviceTy::Mix, false);
    let cells_before = level.grid.cells.clone();
    let dev = Gp::new(0);
    // The destination footprint lies on border walls.
    let valid = level.move_from(2, 1, dev, 0, 0);
    assert!(!valid);
    assert_eq!(level.grid.cells, cells_before);
    assert_eq!((level.devices[0].x, level.devices[0].y), (2, 1));
}

#[test]
fn move_onto_void_is_provisional() {
    let mut tiles = Grid::new(4, 6, Tile::Floor);
    tiles.put(4, 1, Tile::Absent);
    tiles.put(4, 2, Tile::Absent);
    let mut level = Level::new_from_tiles(&tiles).unwrap();
    level.force_place(1, 1, DeviceTy::Mix, false);
    let dev = Gp::new(0);
    // Both destination cells are void: placed there, but not a valid drop.
    let valid = level.move_from(1, 1, dev, 4, 1);
    assert!(!valid);
    assert_eq!((level.devices[0].x, level.devices[0].y), (4, 1));
    assert!(matches!(level.grid.get(4, 1), GridCell::DeviceRoot(_)));
    assert!(matches!(level.grid.get(4, 2), GridCell::DeviceEtc(_)));
    assert!(matches!(level.grid.get(1, 1), GridCell::Empty));
    assert!(matches!(level.grid.get(1, 2), GridCell::Empty));
}

#[test]
fn move_to_empty_floor_is_valid() {
    let mut level = bordered_level(5, 5);
    level.force_place(2, 1, DeviceTy::Mix, false);
    let dev = Gp::new(0);
    let valid = level.move_from(2, 1, dev, 3, 2);
    assert!(valid);
    assert_eq!((level.devices[0].x, level.devices[0].y), (3, 2));
    assert!(matches!(level.grid.get(3, 2), GridCell::DeviceRoot(_)));
    assert!(matches!(level.grid.get(2, 1), GridCell::Empty));
}

#[test]
fn finish_move_snaps_back_from_void() {
    let mut tiles = Grid::new(4, 6, Tile::Floor);
    tiles.put(4, 1, Tile::Absent);
    tiles.put(4, 2, Tile::Absent);
    let mut level = Level::new_from_tiles(&tiles).unwrap();
    level.force_place(1, 1, DeviceTy::Mix, false);
    let dev = Gp::new(0);
    // Drag onto the void (provisional), then release there: the commit
    // only accepts strict placements, so the device snaps back.
    assert!(!level.move_from(1, 1, dev, 4, 1));
    let valid = level.finish_move_from(1, 1, dev, 4, 1);
    assert!(!valid);
    assert_eq!((level.devices[0].x, level.devices[0].y), (1, 1));
    assert!(matches!(level.grid.get(1, 1), GridCell::DeviceRoot(_)));
    assert!(matches!(level.grid.get(4, 1), GridCell::Void));
}

#[test]
fn chained_moves_clear_both_spots() {
    // During a drag the device may already sit somewhere else than the
    // drag start; each move lifts it from both the claimed start and its
    // actual spot before placing it anew.
    let mut level = bordered_level(6, 6);
    level.force_place(2, 1, DeviceTy::Mix, false);
    let dev = Gp::new(0);
    assert!(level.move_from(2, 1, dev, 3, 2));
    assert_eq!((level.devices[0].x, level.devices[0].y), (3, 2));
    assert!(level.move_from(2, 1, dev, 1, 2));
    assert_eq!((level.devices[0].x, level.devices[0].y), (1, 2));
    assert!(matches!(level.grid.get(1, 2), GridCell::DeviceRoot(_)));
    // Both earlier spots are floor again.
    assert!(matches!(level.grid.get(2, 1), GridCell::Empty));
    assert!(matches!(level.grid.get(3, 2), GridCell::Empty));
    assert!(matches!(level.grid.get(3, 3), GridCell::Empty));
}

#[test]
fn finish_move_commits_on_floor() {
    let mut level = bordered_level(5, 5);
    level.force_place(2, 1, DeviceTy::Mix, false);
    let dev = Gp::new(0);
    let valid = level.finish_move_from(2, 1, dev, 3, 1);
    assert!(valid);
    assert_eq!((level.devices[0].x, level.devices[0].y), (3, 1));
}
