use beams::color::Color;
use beams::device::{DeviceTy, Laser, LaserValue};
use beams::grid::Grid;
use beams::level::{Level, Tile};
use beams::render::RenderItem;

fn floor_level(rows: usize, cols: usize) -> Level {
    let tiles = Grid::new(rows, cols, Tile::Floor);
    Level::new_from_tiles(&tiles).unwrap()
}

fn emitter(r: u8, g: u8, b: u8) -> DeviceTy {
    DeviceTy::Emitter(LaserValue::color(Color::from_rgb8(r, g, b)))
}

fn goal(r: u8, g: u8, b: u8) -> DeviceTy {
    DeviceTy::Goal(LaserValue::color(Color::from_rgb8(r, g, b)))
}

#[test]
fn bordered_emitter_shoots_to_the_wall() {
    // A 5 by 5 grid walled at the border with one white emitter: exactly
    // one beam, starting at the emitter, running up to the border wall.
    let mut level = floor_level(5, 5);
    level.build_debug_border();
    level.force_place(1, 1, emitter(255, 255, 255), false);
    level.build_lasers();
    assert_eq!(level.lasers.len(), 1);
    let l = level.lasers[0];
    assert_eq!((l.x, l.y), (1, 1));
    // Two travelable cells to the right, plus the minimum length of one.
    assert_eq!(l.length, 3);
    assert_eq!(l.value.color, Color::from_rgb8(255, 255, 255));
    // The beam's value is recorded at the wall cell where it stopped.
    assert_eq!(level.h_laser_ends.get(4, 1), Some(LaserValue::color(Color::from_rgb8(255, 255, 255))));
    assert_eq!(level.h_laser_ends.get(3, 1), None);
    assert_eq!(level.nr_goals_fulfilled, 0);
}

#[test]
fn mix_averages_and_normalizes_its_inputs() {
    // A red emitter feeds the mixer's top cell, a blue one its bottom
    // cell: the mixer emits the normalized average from its bottom cell.
    let mut level = floor_level(5, 8);
    level.force_place(1, 1, emitter(255, 0, 0), false);
    level.force_place(1, 2, emitter(0, 0, 255), false);
    level.force_place(3, 1, DeviceTy::Mix, false);
    level.build_lasers();
    assert_eq!(level.lasers.len(), 3);
    assert_eq!(
        level.lasers[2],
        Laser {
            x: 3,
            y: 2,
            length: 5,
            value: LaserValue::color(Color { r: 46_160, g: 0, b: 46_160 }),
        },
    );
}

#[test]
fn mix_with_one_input_stays_silent() {
    let mut level = floor_level(5, 8);
    level.force_place(1, 1, emitter(255, 0, 0), false);
    level.force_place(3, 1, DeviceTy::Mix, false);
    level.build_lasers();
    // Only the emitter's beam exists; the mixer saw a single input.
    assert_eq!(level.lasers.len(), 1);
    assert_eq!((level.lasers[0].x, level.lasers[0].y), (1, 1));
}

#[test]
fn hook_duplicates_its_input() {
    let mut level = floor_level(4, 6);
    level.force_place(1, 1, emitter(255, 0, 0), false);
    level.force_place(3, 1, DeviceTy::Hook, false);
    level.build_lasers();
    assert_eq!(level.lasers.len(), 3);
    let red = LaserValue::color(Color::from_rgb8(255, 0, 0));
    assert_eq!(level.lasers[1], Laser { x: 3, y: 1, length: 3, value: red });
    assert_eq!(level.lasers[2], Laser { x: 3, y: 2, length: 3, value: red });
}

#[test]
fn goal_accepts_two_steps_of_error() {
    // A goal expecting pure red, fed red with 2/255 of green: fulfilled.
    let mut level = floor_level(3, 6);
    level.force_place(1, 1, emitter(255, 2, 0), false);
    level.force_place(3, 1, goal(255, 0, 0), false);
    level.build_lasers();
    assert_eq!(level.nr_goals, 1);
    assert_eq!(level.nr_goals_fulfilled, 1);
    assert!(level.all_goals_fulfilled());
}

#[test]
fn goal_rejects_three_steps_of_error() {
    // The same goal fed red with 3/255 of green: not fulfilled.
    let mut level = floor_level(3, 6);
    level.force_place(1, 1, emitter(255, 3, 0), false);
    level.force_place(3, 1, goal(255, 0, 0), false);
    level.build_lasers();
    assert_eq!(level.nr_goals, 1);
    assert_eq!(level.nr_goals_fulfilled, 0);
    assert!(!level.all_goals_fulfilled());
}

#[test]
fn goal_never_emits_a_beam() {
    let mut level = floor_level(3, 6);
    level.force_place(1, 1, emitter(255, 0, 0), false);
    level.force_place(3, 1, goal(255, 0, 0), false);
    level.build_lasers();
    assert_eq!(level.lasers.len(), 1);
}

#[test]
fn rebuilding_lasers_is_deterministic() {
    // Two rebuilds over one grid give identical beams, beam ends, and
    // goal counts: no hidden state survives between calls.
    let mut level = floor_level(5, 8);
    level.force_place(1, 1, emitter(255, 0, 0), false);
    level.force_place(1, 2, emitter(0, 0, 255), false);
    level.force_place(3, 1, DeviceTy::Mix, false);
    level.force_place(5, 2, goal(128, 0, 128), false);
    level.build_lasers();
    let lasers_first = level.lasers.clone();
    let ends_first = level.h_laser_ends.cells.clone();
    let fulfilled_first = level.nr_goals_fulfilled;
    level.build_lasers();
    assert_eq!(level.lasers, lasers_first);
    assert_eq!(level.h_laser_ends.cells, ends_first);
    assert_eq!(level.nr_goals_fulfilled, fulfilled_first);
}

#[test]
fn beams_only_travel_rightwards() {
    // An emitter to the right of a goal never feeds it.
    let mut level = floor_level(3, 6);
    level.force_place(3, 1, emitter(255, 0, 0), false);
    level.force_place(1, 1, goal(255, 0, 0), false);
    level.build_lasers();
    assert_eq!(level.lasers.len(), 1);
    assert_eq!(level.nr_goals_fulfilled, 0);
}

#[test]
fn beams_pass_through_the_void() {
    // The middle column has no tile: the beam crosses the void and still
    // reaches the goal behind it.
    let mut tiles = Grid::new(3, 7, Tile::Floor);
    tiles.put(3, 0, Tile::Absent);
    tiles.put(3, 1, Tile::Absent);
    tiles.put(3, 2, Tile::Absent);
    let mut level = Level::new_from_tiles(&tiles).unwrap();
    level.force_place(1, 1, emitter(255, 0, 0), false);
    level.force_place(5, 1, goal(255, 0, 0), false);
    level.build_lasers();
    assert_eq!(level.lasers.len(), 1);
    assert_eq!(level.lasers[0].length, 4);
    assert_eq!(level.nr_goals_fulfilled, 1);
}

#[test]
fn construction_may_overlap_the_void() {
    // Level data may deliberately put a device half over the void; the
    // forced placement accepts it.
    let mut tiles = Grid::new(4, 5, Tile::Floor);
    tiles.put(2, 2, Tile::Absent);
    let mut level = Level::new_from_tiles(&tiles).unwrap();
    level.force_place(2, 1, DeviceTy::Mix, false);
    assert_eq!((level.devices[0].x, level.devices[0].y), (2, 1));
    level.build_lasers();
    assert_eq!(level.lasers.len(), 0);
}

#[test]
fn build_meshes_lists_devices_then_beams() {
    let mut level = floor_level(3, 4);
    level.force_place(1, 1, emitter(255, 0, 0), false);
    level.force_place(2, 1, goal(255, 0, 0), false);
    level.build_lasers();
    let red = Color::from_rgb8(255, 0, 0);
    let items = level.build_meshes();
    assert_eq!(
        items,
        vec![
            RenderItem::DeviceBody { x: 1, y: 1, ty: emitter(255, 0, 0), locked: false },
            RenderItem::GoalLight { x: 2, y: 1, color: red },
            RenderItem::DeviceBody { x: 2, y: 1, ty: goal(255, 0, 0), locked: false },
            RenderItem::LaserBeam { x: 1, y: 1, length: 1, color: red },
        ],
    );
    assert_eq!(level.nr_goals_fulfilled, 1);
}
