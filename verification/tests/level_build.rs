use beams::color::Color;
use beams::device::{DeviceTy, Gp, GpMaybe, LaserValue, SelectorState};
use beams::error::EngineError;
use beams::grid::Grid;
use beams::level::{GridCell, Level, Tile};

fn floor_tiles(rows: usize, cols: usize) -> Grid<Tile> {
    Grid::new(rows, cols, Tile::Floor)
}

#[test]
fn grid_new_get_put_fill() {
    let mut g: Grid<u32> = Grid::new(3, 4, 7);
    assert_eq!(g.rows, 3);
    assert_eq!(g.cols, 4);
    assert_eq!(g.get(2, 1), 7);
    g.put(2, 1, 42);
    assert_eq!(g.get(2, 1), 42);
    assert_eq!(g.get(1, 2), 7);
    g.fill(9);
    assert_eq!(g.get(2, 1), 9);
    assert_eq!(g.get(0, 0), 9);
}

#[test]
fn new_from_tiles_builds_floor_and_void() {
    let mut tiles = floor_tiles(4, 6);
    tiles.put(5, 0, Tile::Absent);
    let level = Level::new_from_tiles(&tiles).unwrap();
    assert_eq!(level.grid.rows, 4);
    assert_eq!(level.grid.cols, 6);
    assert!(matches!(level.grid.get(0, 0), GridCell::Empty));
    assert!(matches!(level.grid.get(5, 0), GridCell::Void));
    assert!(matches!(level.floor_grid.get(5, 0), GridCell::Void));
    assert!(level.lasers.is_empty());
    assert_eq!(level.nr_goals, 0);
}

#[test]
fn new_from_tiles_computes_bounds() {
    let mut tiles = Grid::new(4, 6, Tile::Absent);
    tiles.put(1, 1, Tile::Floor);
    tiles.put(4, 2, Tile::Scenery);
    let level = Level::new_from_tiles(&tiles).unwrap();
    assert_eq!(level.bounds, (1, 1, 4, 2));
}

#[test]
fn new_from_tiles_empty_layer_is_rejected() {
    let tiles: Grid<Tile> = Grid::new(3, 3, Tile::Absent);
    assert!(Level::new_from_tiles(&tiles).is_none());
}

#[test]
fn build_debug_border_walls_the_ring() {
    let tiles = floor_tiles(5, 5);
    let mut level = Level::new_from_tiles(&tiles).unwrap();
    level.build_debug_border();
    assert!(matches!(level.grid.get(0, 0), GridCell::Wall));
    assert!(matches!(level.grid.get(4, 0), GridCell::Wall));
    assert!(matches!(level.grid.get(0, 4), GridCell::Wall));
    assert!(matches!(level.grid.get(2, 4), GridCell::Wall));
    assert!(matches!(level.grid.get(2, 2), GridCell::Empty));
    // The floor layer stays untouched.
    assert!(matches!(level.floor_grid.get(0, 0), GridCell::Empty));
}

#[test]
fn force_place_writes_footprint_and_counts_goals() {
    let tiles = floor_tiles(5, 5);
    let mut level = Level::new_from_tiles(&tiles).unwrap();
    level.force_place(1, 1, DeviceTy::Mix, false);
    assert!(matches!(level.grid.get(1, 1), GridCell::DeviceRoot(_)));
    assert!(matches!(level.grid.get(1, 2), GridCell::DeviceEtc(_)));
    assert_eq!(level.nr_goals, 0);
    let goal = DeviceTy::Goal(LaserValue::color(Color::from_rgb8(255, 0, 0)));
    level.force_place(3, 1, goal, true);
    assert_eq!(level.nr_goals, 1);
    assert_eq!(level.devices.len(), 2);
    assert!(level.devices[1].locked);
    assert_eq!((level.devices[0].x, level.devices[0].y), (1, 1));
}

#[test]
fn device_catalog_footprints_match_bounds() {
    assert_eq!(DeviceTy::Mix.get_cells(), vec![(0, 0), (0, 1)]);
    assert_eq!(DeviceTy::Mix.get_bounds(), (1, 2));
    assert_eq!(DeviceTy::Swap.get_cells(), vec![(0, 0), (1, 2)]);
    assert_eq!(DeviceTy::Swap.get_bounds(), (2, 3));
    assert_eq!(DeviceTy::Split.get_cells(), vec![(0, 0), (0, 2), (0, 4)]);
    assert_eq!(DeviceTy::Split.get_bounds(), (1, 5));
    assert_eq!(DeviceTy::Hook.get_bounds(), (1, 2));
    let red = LaserValue::color(Color::from_rgb8(255, 0, 0));
    assert_eq!(DeviceTy::Emitter(red).get_cells(), vec![(0, 0)]);
    assert_eq!(DeviceTy::Emitter(red).get_bounds(), (1, 1));
}

#[test]
fn device_catalog_selector_shapes() {
    let red = LaserValue::color(Color::from_rgb8(255, 0, 0));
    assert_eq!(DeviceTy::Mix.get_selector(), SelectorState::Vert2);
    assert_eq!(DeviceTy::Hook.get_selector(), SelectorState::Vert2);
    assert_eq!(DeviceTy::Emitter(red).get_selector(), SelectorState::Vert1);
    assert_eq!(DeviceTy::Goal(red).get_selector(), SelectorState::Vert1);
    assert_eq!(DeviceTy::Swap.get_selector(), SelectorState::Swap);
    assert_eq!(DeviceTy::Collect.get_selector(), SelectorState::V3);
    assert_eq!(DeviceTy::Mix2.get_selector(), SelectorState::OO);
    assert_eq!(DeviceTy::Split.get_selector(), SelectorState::OOO);
}

#[test]
fn gp_handles_compare_by_id() {
    let a = Gp::new(3);
    let b = Gp::new(3);
    let c = Gp::new(4);
    assert!(a.has_same_id(&b));
    assert!(!a.has_same_id(&c));
    let mut d = Gp::new(0);
    d.set(&c);
    assert!(d.has_same_id(&c));
}

#[test]
fn gp_maybe_holds_and_clears() {
    let mut m = GpMaybe::none();
    assert!(m.get().is_none());
    let g = Gp::new(2);
    m.set(Some(&g));
    assert_eq!(m.get().map(|h| h.id), Some(2));
    m.set(None);
    assert!(m.get().is_none());
}

#[test]
fn engine_error_keeps_message() {
    let e = EngineError::new(String::from("missing level"));
    assert_eq!(e.message(), "missing level");
}

#[test]
fn all_goals_fulfilled_without_goals() {
    let tiles = floor_tiles(3, 3);
    let mut level = Level::new_from_tiles(&tiles).unwrap();
    level.build_lasers();
    assert!(level.all_goals_fulfilled());
}
