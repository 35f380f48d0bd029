//! The drag-and-drop state machine.
//!
//! While nothing is being dragged, the selector hit-tests the grid against
//! the cell under the pointer: the first unlocked device whose footprint
//! covers that cell becomes the highlighted object, and a fresh mouse press
//! or a latched touch starts a drag.  While dragging, every tick moves the
//! device towards the candidate drop cell, with the level deciding between
//! a strictly valid placement, a provisional one over the void, and a snap
//! back; releasing commits through the level's strict placement only.
//!
//! The geometry that turns a pointer position into a hover or drop cell —
//! screen to normalized device coordinates, the ray cast against the ground
//! plane, the view-projection matrix — belongs to the rendering
//! collaborator, which hands this module plain cell coordinates.

use vstd::prelude::*;

use crate::device::{Device, Gp, GpMaybe, SelectorState};
use crate::level::{fp_hits, refs_device, GridCell, Level};

verus! {

/// Whether a drag is in progress, and which input source drives it.
#[derive(Clone, Copy, Debug, PartialEq, Eq, Structural)]
pub enum SelectorMoveState {
    NotMoving,
    MovingWithMouse,
    /// Moving with the given touch id.
    MovingWithTouch(u64),
}

/// What one drag tick did: whether the candidate cell was a strictly
/// valid placement, whether the candidate cell changed since the last
/// tick, and whether the drag ended.
#[derive(Clone, Copy, Debug, PartialEq, Eq, Structural)]
pub struct MoveOutcome {
    pub valid: bool,
    pub moved: bool,
    pub finished: bool,
}

/// The drag selector: the highlighted or dragged device, its current and
/// drag-start cells, and the input source driving the drag.
pub struct Selector {
    /// The drag-handle shape to show, per the selected device's kind.
    pub state: SelectorState,
    /// The selected device, if any.
    pub object: GpMaybe,
    /// The cell the selector currently sits on.
    pub x: i32,
    pub y: i32,
    /// Where the drag started; the device snaps back here.
    pub start_x: i32,
    pub start_y: i32,
    /// Whether and how a drag is in progress.
    pub moving: SelectorMoveState,
    /// A touch start latched by the event handler, consumed by the next
    /// hit-test tick.
    pub touch_started: Option<u64>,
}

/// The device the hit-test at hover cell `(hx, hy)` selects: the unlocked
/// device whose footprint covers the cell, if any.  Footprints never
/// overlap, so the first hit of the scan is the only one.
pub open spec fn hit_at(level: Level, hx: int, hy: int) -> Option<int> {
    if level.grid.in_bounds(hx, hy) {
        match level.grid.at(hx, hy) {
            GridCell::DeviceRoot(g) => if !level.devices[g.id as int].locked {
                Some(g.id as int)
            } else {
                None
            },
            GridCell::DeviceEtc(g) => if !level.devices[g.id as int].locked {
                Some(g.id as int)
            } else {
                None
            },
            _ => None,
        }
    } else {
        None
    }
}

impl Selector {
    /// A selector with nothing highlighted and no drag in progress.
    pub fn new() -> (s: Selector)
        ensures
            s.state is NotSelectable,
            s.object.target is None,
            s.moving is NotMoving,
            s.touch_started is None,
            s.x == 0 && s.y == 0 && s.start_x == 0 && s.start_y == 0,
    {
        Selector {
            state: SelectorState::NotSelectable,
            object: GpMaybe::none(),
            x: 0,
            y: 0,
            start_x: 0,
            start_y: 0,
            moving: SelectorMoveState::NotMoving,
            touch_started: None,
        }
    }

    /// Whether a drag is in progress.
    pub fn is_moving(&self) -> (r: bool)
        ensures
            r == !(self.moving is NotMoving),
    {
        !matches!(self.moving, SelectorMoveState::NotMoving)
    }

    /// The state a drag keeps between ticks: the dragged device exists,
    /// and its drag-start footprint is in bounds and free of every other
    /// device, so the level may always lift it off that spot.
    pub open spec fn drag_inv(self, level: Level) -> bool {
        !(self.moving is NotMoving) ==> match self.object.target {
            Some(g) => {
                &&& g.id < level.devices.len()
                &&& level.fp_in_bounds(
                    self.start_x as int,
                    self.start_y as int,
                    level.devices[g.id as int].ty,
                )
                &&& level.fp_clear_of_others(
                    self.start_x as int,
                    self.start_y as int,
                    level.devices[g.id as int].ty,
                    g.id as int,
                )
            },
            None => false,
        }
    }

    /// One hit-test tick while nothing is being dragged.  `(hover_x,
    /// hover_y)` is the grid cell under the pointer; `mouse_just_pressed`
    /// reports a fresh primary-button press this tick.  The first unlocked
    /// device whose footprint covers the hover cell is highlighted, and a
    /// fresh press or a latched touch picks it up.  A locked device is
    /// never selected, however the pointer lies on it.
    pub fn update(&mut self, level: &Level, hover_x: i32, hover_y: i32, mouse_just_pressed: bool)
        requires
            level.inv(),
            old(self).moving is NotMoving,
        ensures
            final(self).touch_started is None,
            final(self).moving is NotMoving || final(self).moving
                == SelectorMoveState::MovingWithMouse || (old(self).touch_started is Some
                && final(self).moving == SelectorMoveState::MovingWithTouch(
                old(self).touch_started->0,
            )),
            match hit_at(*level, hover_x as int, hover_y as int) {
                Some(id) => {
                    &&& final(self).object.target == Some(Gp { id: id as usize })
                    &&& !level.devices[id].locked
                    &&& final(self).state == level.devices[id].ty.selector_spec()
                    &&& final(self).x == level.devices[id].x
                    &&& final(self).y == level.devices[id].y
                    &&& final(self).start_x == final(self).x
                    &&& final(self).start_y == final(self).y
                    &&& final(self).moving == (if mouse_just_pressed {
                        SelectorMoveState::MovingWithMouse
                    } else if old(self).touch_started is Some {
                        SelectorMoveState::MovingWithTouch(old(self).touch_started->0)
                    } else {
                        SelectorMoveState::NotMoving
                    })
                    &&& final(self).drag_inv(*level)
                },
                None => {
                    &&& final(self).object.target is None
                    &&& final(self).state is NotSelectable
                    &&& final(self).moving is NotMoving
                },
            },
    {
        self.state = SelectorState::NotSelectable;
        // Take whatever touch start the event handler latched since the
        // last tick.
        let touch = self.touch_started;
        self.touch_started = None;
        self.object.set(None);
        let rows = level.grid.rows;
        let cols = level.grid.cols;
        let mut x: usize = 0;
        while x < cols
            invariant
                level.inv(),
                rows == level.grid.rows,
                cols == level.grid.cols,
                x <= cols,
                self.state is NotSelectable,
                self.object.target is None,
                self.touch_started is None,
                self.moving is NotMoving,
                touch == old(self).touch_started,
                forall|x2: int, y2: int|
                    level.grid.in_bounds(x2, y2) && x2 < x ==> !(hit_root(
                        *level,
                        x2,
                        y2,
                        hover_x as int,
                        hover_y as int,
                    )),
            decreases cols - x,
        {
            let mut y: usize = 0;
            while y < rows
                invariant
                    level.inv(),
                    rows == level.grid.rows,
                    cols == level.grid.cols,
                    x < cols,
                    y <= rows,
                    self.state is NotSelectable,
                    self.object.target is None,
                    self.touch_started is None,
                    self.moving is NotMoving,
                    touch == old(self).touch_started,
                    forall|x2: int, y2: int|
                        level.grid.in_bounds(x2, y2) && (x2 < x || (x2 == x && y2 < y)) ==> !(
                        hit_root(*level, x2, y2, hover_x as int, hover_y as int)),
                decreases rows - y,
            {
                let cell = level.grid.get(x, y);
                if let GridCell::DeviceRoot(g) = cell {
                    proof {
                        assert(level.cell_backrefs_ok(x as int, y as int));
                    }
                    let d = level.devices[g.id];
                    // A locked device can never be picked up.
                    if !d.locked {
                        let cells_fp = d.ty.get_cells();
                        let mut k: usize = 0;
                        let mut hit: bool = false;
                        while k < cells_fp.len()
                            invariant
                                cells_fp@ == d.ty.cells_spec(),
                                k <= cells_fp.len(),
                                x < cols,
                                y < rows,
                                cols <= i32::MAX,
                                rows <= i32::MAX,
                                hit ==> fp_hits(
                                    d.ty,
                                    x as int,
                                    y as int,
                                    hover_x as int,
                                    hover_y as int,
                                ),
                                !hit ==> forall|j: int|
                                    0 <= j < k ==> !(x + (#[trigger] d.ty.cells_spec()[j]).0
                                        == hover_x && y + d.ty.cells_spec()[j].1 == hover_y),
                            decreases cells_fp.len() - k,
                        {
                            let c = cells_fp[k];
                            if x as i64 + c.0 as i64 == hover_x as i64 && y as i64 + c.1 as i64
                                == hover_y as i64 {
                                hit = true;
                                proof {
                                    assert(x + (d.ty.cells_spec()[k as int]).0 == hover_x as int
                                        && y + d.ty.cells_spec()[k as int].1 == hover_y as int);
                                }
                            }
                            k = k + 1;
                        }
                        if hit {
                            self.state = d.ty.get_selector();
                            self.object.set(Some(&g));
                            self.x = x as i32;
                            self.y = y as i32;
                            self.start_x = self.x;
                            self.start_y = self.y;
                            if mouse_just_pressed {
                                self.moving = SelectorMoveState::MovingWithMouse;
                            } else if let Some(t) = touch {
                                self.moving = SelectorMoveState::MovingWithTouch(t);
                            }
                            proof {
                                let id = g.id as int;
                                assert(level.device_placed(id));
                                assert(level.devices[id].x == x as int && level.devices[id].y == y
                                    as int);
                                let j = choose|j: int|
                                    0 <= j < d.ty.cells_spec().len() && x + (
                                    #[trigger] d.ty.cells_spec()[j]).0 == hover_x as int && y
                                        + d.ty.cells_spec()[j].1 == hover_y as int;
                                assert(level.grid.in_bounds(
                                    level.devices[id].x + d.ty.cells_spec()[j].0,
                                    level.devices[id].y + d.ty.cells_spec()[j].1,
                                ));
                                assert(refs_device(
                                    level.grid.at(hover_x as int, hover_y as int),
                                    id,
                                ));
                                assert(hit_at(*level, hover_x as int, hover_y as int) == Some(
                                    id,
                                ));
                                assert forall|k2: int|
                                    0 <= k2 < d.ty.cells_spec().len() implies {
                                    let c2 = level.grid.at(
                                        x + (#[trigger] d.ty.cells_spec()[k2]).0,
                                        y + d.ty.cells_spec()[k2].1,
                                    );
                                    !crate::level::is_device_cell(c2) || refs_device(c2, id)
                                } by {
                                    assert(level.grid.at(
                                        level.devices[id].x + d.ty.cells_spec()[k2].0,
                                        level.devices[id].y + d.ty.cells_spec()[k2].1,
                                    ) == crate::level::fp_cell(
                                        x as int,
                                        y as int,
                                        x + d.ty.cells_spec()[k2].0,
                                        y + d.ty.cells_spec()[k2].1,
                                        id,
                                    ));
                                }
                            }
                            return;
                        }
                    }
                }
                y = y + 1;
            }
            x = x + 1;
        }
        proof {
            // The scan covered every cell, so no unlocked device's
            // footprint covers the hover cell: the hover cell itself
            // would be one of that device's cells, whose root the scan
            // visited.
            if hit_at(*level, hover_x as int, hover_y as int) is Some {
                let id = hit_at(*level, hover_x as int, hover_y as int)->0;
                assert(level.cell_backrefs_ok(hover_x as int, hover_y as int));
                let d = level.devices[id];
                assert(level.device_placed(id));
                assert(level.grid.at(d.x as int, d.y as int) == crate::level::fp_cell(
                    d.x as int,
                    d.y as int,
                    d.x as int,
                    d.y as int,
                    id,
                )) by {
                    crate::device::lemma_footprint_shape(d.ty);
                    assert(d.ty.cells_spec()[0] == (0i32, 0i32));
                }
                assert(match level.grid.at(hover_x as int, hover_y as int) {
                    GridCell::DeviceRoot(g) => fp_hits(
                        d.ty,
                        d.x as int,
                        d.y as int,
                        hover_x as int,
                        hover_y as int,
                    ),
                    GridCell::DeviceEtc(g) => fp_hits(
                        d.ty,
                        d.x as int,
                        d.y as int,
                        hover_x as int,
                        hover_y as int,
                    ),
                    _ => true,
                }) by {
                    crate::device::lemma_footprint_shape(d.ty);
                    assert(d.ty.cells_spec()[0] == (0i32, 0i32));
                }
                assert(hit_root(*level, d.x as int, d.y as int, hover_x as int, hover_y as int));
                assert(false);
            }
        }
    }
}

impl Selector {
    /// One drag tick.  `(to_x, to_y)` is the candidate drop cell computed
    /// from the pointer; `finish_now` forces the drag to end (touch ended
    /// or was cancelled), and releasing the mouse button ends it too.
    /// While the drag goes on, the device is moved with the three-tier
    /// fallback (strict, provisional over void, snap back); on release it
    /// is committed with the strict check only.  The outcome reports
    /// whether the candidate cell was a strictly valid placement, whether
    /// it changed since the last tick, and whether the drag ended.
    pub fn do_move(
        &mut self,
        level: &mut Level,
        to_x: i32,
        to_y: i32,
        finish_now: bool,
        mouse_pressed: bool,
    ) -> (out: MoveOutcome)
        requires
            old(level).inv(),
            !(old(self).moving is NotMoving),
            old(self).drag_inv(*old(level)),
        ensures
            final(level).inv(),
            final(self).x == to_x && final(self).y == to_y,
            final(self).start_x == old(self).start_x && final(self).start_y == old(
                self,
            ).start_y,
            final(self).object == old(self).object,
            final(self).state == old(self).state,
            final(self).touch_started == old(self).touch_started,
            out.moved == (old(self).x != to_x || old(self).y != to_y),
            out.finished == (finish_now || !mouse_pressed),
            final(self).moving == (if out.finished {
                SelectorMoveState::NotMoving
            } else {
                old(self).moving
            }),
            ({
                let id = old(self).object.target->0.id as int;
                let sx = old(self).start_x;
                let sy = old(self).start_y;
                let dest = if finish_now || !mouse_pressed {
                    old(level).finish_dest(id, sx, sy, to_x, to_y)
                } else {
                    old(level).move_dest(id, sx, sy, to_x, to_y)
                };
                &&& out.valid == old(level).mid_placeable(
                    id,
                    sx as int,
                    sy as int,
                    to_x as int,
                    to_y as int,
                )
                &&& final(level).devices@ == old(level).devices@.update(
                    id,
                    Device {
                        x: dest.0,
                        y: dest.1,
                        locked: old(level).devices[id].locked,
                        ty: old(level).devices[id].ty,
                    },
                )
                &&& forall|x2: int, y2: int|
                    old(level).grid.in_bounds(x2, y2) ==> #[trigger] final(level).grid.at(x2, y2)
                        == old(level).moved_cell(
                        id,
                        sx as int,
                        sy as int,
                        dest.0 as int,
                        dest.1 as int,
                        x2,
                        y2,
                    )
            }),
            final(level).grid.rows == old(level).grid.rows,
            final(level).grid.cols == old(level).grid.cols,
            final(level).floor_grid == old(level).floor_grid,
            final(level).lasers == old(level).lasers,
            final(level).h_laser_ends == old(level).h_laser_ends,
            final(level).bounds == old(level).bounds,
            final(level).nr_goals == old(level).nr_goals,
            final(level).nr_goals_fulfilled == old(level).nr_goals_fulfilled,
            !out.finished ==> final(self).drag_inv(*final(level)),
    {
        let ghost pre_level = *old(level);
        let dev = self.object.get().unwrap();
        let ghost id = dev.id as int;
        let ghost ty = pre_level.devices[id].ty;
        let last_x = self.x;
        let last_y = self.y;
        self.x = to_x;
        self.y = to_y;
        let finished = finish_now || !mouse_pressed;
        let valid: bool;
        if finished {
            valid = level.finish_move_from(self.start_x, self.start_y, dev, to_x, to_y);
            self.moving = SelectorMoveState::NotMoving;
        } else {
            valid = level.move_from(self.start_x, self.start_y, dev, to_x, to_y);
            proof {
                // The drag-start footprint now holds only floor values or
                // cells of the dragged device itself, so the next tick may
                // lift it off again.
                let sx = self.start_x as int;
                let sy = self.start_y as int;
                let dest = pre_level.move_dest(id, self.start_x, self.start_y, to_x, to_y);
                assert forall|k: int| 0 <= k < ty.cells_spec().len() implies {
                    let c = level.grid.at(
                        sx + (#[trigger] ty.cells_spec()[k]).0,
                        sy + ty.cells_spec()[k].1,
                    );
                    !crate::level::is_device_cell(c) || refs_device(c, id)
                } by {
                    let cx = sx + ty.cells_spec()[k].0;
                    let cy = sy + ty.cells_spec()[k].1;
                    assert(level.grid.at(cx, cy) == pre_level.moved_cell(
                        id,
                        sx,
                        sy,
                        dest.0 as int,
                        dest.1 as int,
                        cx,
                        cy,
                    ));
                    if !fp_hits(ty, dest.0 as int, dest.1 as int, cx, cy) {
                        assert(fp_hits(ty, sx, sy, cx, cy));
                        assert(level.grid.at(cx, cy) == pre_level.floor_grid.at(cx, cy));
                        assert(!crate::level::is_device_cell(pre_level.floor_grid.at(cx, cy)));
                    }
                }
            }
        }
        MoveOutcome { valid, moved: last_x != to_x || last_y != to_y, finished }
    }
}

/// Locked immovability: whatever cell the pointer hovers over, the
/// hit-test never selects a locked device.
pub proof fn lemma_locked_never_hit(level: Level, hx: int, hy: int, id: int)
    requires
        hit_at(level, hx, hy) == Some(id),
    ensures
        !level.devices[id].locked,
{
}

/// Whether the scan finds, at `(x, y)`, the root of an unlocked device
/// whose footprint covers `(hx, hy)`.
pub open spec fn hit_root(level: Level, x: int, y: int, hx: int, hy: int) -> bool {
    match level.grid.at(x, y) {
        GridCell::DeviceRoot(g) => {
            &&& !level.devices[g.id as int].locked
            &&& fp_hits(level.devices[g.id as int].ty, x, y, hx, hy)
        },
        _ => false,
    }
}

} // verus!
