//! The level: a grid of cells plus the arena of devices placed on it.
//!
//! The central invariant ties the two together: every device's footprint is
//! written into the grid as one `DeviceRoot` cell at its anchor and
//! `DeviceEtc` cells at the other offsets, every device cell of the grid
//! points back at the device whose footprint covers it, and the static
//! floor layer holds no device cells at all.  Placement operations preserve
//! this invariant and fall back to a safe prior state on invalid input.

use vstd::prelude::*;

use crate::device::{lemma_footprint_shape, Device, DeviceTy, Gp, Laser, LaserValue};
use crate::grid::Grid;

verus! {

/// One cell of the level grid.
#[derive(Clone, Copy, Debug, PartialEq, Eq, Structural)]
pub enum GridCell {
    /// Outside the playable area: nothing may be placed, lasers pass.
    Void,
    /// Placeable floor; lasers pass.
    Empty,
    /// Not placeable; blocks lasers.
    Wall,
    /// The anchor cell of the device the handle names.
    DeviceRoot(Gp),
    /// A non-anchor footprint cell of the device the handle names.
    DeviceEtc(Gp),
}

impl Default for GridCell {
    /// Cells start out as void.
    fn default() -> (c: GridCell)
        ensures
            c == GridCell::Void,
    {
        GridCell::Void
    }
}

/// Whether a cell belongs to some device's footprint.
pub open spec fn is_device_cell(c: GridCell) -> bool {
    c is DeviceRoot || c is DeviceEtc
}

/// Whether a cell belongs to the footprint of the device with index `id`.
pub open spec fn refs_device(c: GridCell, id: int) -> bool {
    match c {
        GridCell::DeviceRoot(g) => g.id == id,
        GridCell::DeviceEtc(g) => g.id == id,
        _ => false,
    }
}

/// Whether `(x, y)` lies on one of the first `upto` footprint cells of a
/// device of kind `ty` anchored at `(ax, ay)`.
pub open spec fn fp_hits_prefix(ty: DeviceTy, ax: int, ay: int, x: int, y: int, upto: int) -> bool {
    exists|k: int|
        0 <= k < upto && k < ty.cells_spec().len() && ax + (#[trigger] ty.cells_spec()[k]).0 == x
            && ay + ty.cells_spec()[k].1 == y
}

/// Whether `(x, y)` lies on the footprint of a device of kind `ty` anchored
/// at `(ax, ay)`.
pub open spec fn fp_hits(ty: DeviceTy, ax: int, ay: int, x: int, y: int) -> bool {
    fp_hits_prefix(ty, ax, ay, x, y, ty.cells_spec().len() as int)
}

/// The cell a placed device of kind `ty` anchored at `(ax, ay)` puts at
/// `(x, y)`: its root at the anchor, an etc cell elsewhere.
pub open spec fn fp_cell(ax: int, ay: int, x: int, y: int, id: int) -> GridCell {
    if x == ax && y == ay {
        GridCell::DeviceRoot(Gp { id: id as usize })
    } else {
        GridCell::DeviceEtc(Gp { id: id as usize })
    }
}

/// Whether the color a device kind carries is a well-formed fixed-point
/// color.  Kinds without a color are trivially fine.
pub open spec fn device_color_wf(ty: DeviceTy) -> bool {
    match ty {
        DeviceTy::Emitter(v) => v.color.wf(),
        DeviceTy::Goal(v) => v.color.wf(),
        _ => true,
    }
}

/// The number of goal devices in `devices`.
pub open spec fn goal_count(devices: Seq<Device>) -> int
    decreases devices.len(),
{
    if devices.len() == 0 {
        0
    } else {
        goal_count(devices.drop_last()) + if devices.last().ty is Goal {
            1int
        } else {
            0int
        }
    }
}

/// A level: the mutable grid, the static floor layer underneath it, the
/// device arena, and the laser state rebuilt every simulation tick.
pub struct Level {
    /// The playfield: floor cells, walls, and device footprints.
    pub grid: Grid<GridCell>,
    /// What lies under devices; restored when a device moves away.
    pub floor_grid: Grid<GridCell>,
    /// All devices of the level, addressed by `Gp` handles.
    pub devices: Vec<Device>,
    /// The beams of the current tick.
    pub lasers: Vec<Laser>,
    /// Per cell, the value of the beam ending there, if any.
    pub h_laser_ends: Grid<Option<LaserValue>>,
    /// Bounding box `(min_x, min_y, max_x, max_y)` of the level's tiles.
    pub bounds: (u32, u32, u32, u32),
    /// How many goal devices the level has.
    pub nr_goals: usize,
    /// How many of them were fulfilled by the last laser rebuild.
    pub nr_goals_fulfilled: usize,
}

impl Level {
    /// The grids share one shape that fits in `i32` coordinates, and the
    /// floor layer holds no device cells.
    pub open spec fn shape_inv(self) -> bool {
        &&& self.grid.wf()
        &&& self.floor_grid.wf()
        &&& self.h_laser_ends.wf()
        &&& self.floor_grid.rows == self.grid.rows
        &&& self.floor_grid.cols == self.grid.cols
        &&& self.h_laser_ends.rows == self.grid.rows
        &&& self.h_laser_ends.cols == self.grid.cols
        &&& 1 <= self.grid.rows <= i32::MAX
        &&& 1 <= self.grid.cols <= i32::MAX
        &&& forall|x: int, y: int|
            self.grid.in_bounds(x, y) ==> !is_device_cell(#[trigger] self.floor_grid.at(x, y))
    }

    /// The device with index `id` has its whole footprint in bounds and
    /// written into the grid, root at the anchor.
    pub open spec fn device_placed(self, id: int) -> bool {
        let d = self.devices[id];
        forall|k: int|
            0 <= k < d.ty.cells_spec().len() ==> {
                let x = d.x + (#[trigger] d.ty.cells_spec()[k]).0;
                let y = d.y + d.ty.cells_spec()[k].1;
                self.grid.in_bounds(x, y) && self.grid.at(x, y) == fp_cell(
                    d.x as int,
                    d.y as int,
                    x as int,
                    y as int,
                    id,
                )
            }
    }

    /// Every device cell of the grid points back at a device whose placed
    /// footprint covers it.
    pub open spec fn cell_backrefs_ok(self, x: int, y: int) -> bool {
        match self.grid.at(x, y) {
            GridCell::DeviceRoot(g) => {
                &&& g.id < self.devices.len()
                &&& self.devices[g.id as int].x == x
                &&& self.devices[g.id as int].y == y
            },
            GridCell::DeviceEtc(g) => {
                &&& g.id < self.devices.len()
                &&& fp_hits(
                    self.devices[g.id as int].ty,
                    self.devices[g.id as int].x as int,
                    self.devices[g.id as int].y as int,
                    x,
                    y,
                )
                &&& !(self.devices[g.id as int].x == x && self.devices[g.id as int].y == y)
            },
            _ => true,
        }
    }

    /// Every device carries a well-formed color.
    pub open spec fn devices_wf(self) -> bool {
        forall|id: int|
            0 <= id < self.devices.len() ==> device_color_wf(#[trigger] self.devices[id].ty)
    }

    /// The full level invariant, with every device placed.
    pub open spec fn inv(self) -> bool {
        &&& self.shape_inv()
        &&& self.devices_wf()
        &&& self.nr_goals == goal_count(self.devices@)
        &&& forall|id: int| 0 <= id < self.devices.len() ==> self.device_placed(id)
        &&& forall|x: int, y: int|
            self.grid.in_bounds(x, y) ==> self.cell_backrefs_ok(x, y)
    }

    /// Like `inv`, but the device with index `id` is lifted off the grid:
    /// it need not be placed, and no grid cell may reference it.
    pub open spec fn inv_detached(self, id: int) -> bool {
        &&& self.shape_inv()
        &&& self.devices_wf()
        &&& self.nr_goals == goal_count(self.devices@)
        &&& 0 <= id < self.devices.len()
        &&& forall|id2: int|
            0 <= id2 < self.devices.len() && id2 != id ==> self.device_placed(id2)
        &&& forall|x: int, y: int|
            self.grid.in_bounds(x, y) ==> self.cell_backrefs_ok(x, y) && !refs_device(
                #[trigger] self.grid.at(x, y),
                id,
            )
    }

    /// Whether `(x, y)` is an in-bounds `Empty` cell.
    pub open spec fn cell_empty(self, x: int, y: int) -> bool {
        self.grid.in_bounds(x, y) && self.grid.at(x, y) is Empty
    }

    /// Whether `(x, y)` is an in-bounds `Empty` or `Void` cell: open for
    /// lasers, and good enough for a provisional placement.
    pub open spec fn cell_empty_or_void(self, x: int, y: int) -> bool {
        self.grid.in_bounds(x, y) && (self.grid.at(x, y) is Empty || self.grid.at(x, y) is Void)
    }

    /// Whether a device of kind `ty` may be placed with its anchor at
    /// `(x, y)`: every footprint cell in bounds and `Empty`.
    pub open spec fn placeable_at(self, x: int, y: int, ty: DeviceTy) -> bool {
        forall|k: int|
            0 <= k < ty.cells_spec().len() ==> self.cell_empty(
                x + (#[trigger] ty.cells_spec()[k]).0,
                y + ty.cells_spec()[k].1,
            )
    }

    /// The relaxed check used for drag previews: every footprint cell in
    /// bounds and `Empty` or `Void`.
    pub open spec fn pseudo_placeable_at(self, x: int, y: int, ty: DeviceTy) -> bool {
        forall|k: int|
            0 <= k < ty.cells_spec().len() ==> self.cell_empty_or_void(
                x + (#[trigger] ty.cells_spec()[k]).0,
                y + ty.cells_spec()[k].1,
            )
    }

    /// Bounds check on wide coordinates.
    fn in_bounds_wide(&self, x: i64, y: i64) -> (r: bool)
        ensures
            r == self.grid.in_bounds(x as int, y as int),
    {
        if x < 0 || y < 0 {
            return false;
        }
        if x as u64 >= self.grid.cols as u64 {
            return false;
        }
        if y as u64 >= self.grid.rows as u64 {
            return false;
        }
        true
    }

    /// `cell_empty` on wide coordinates.
    fn empty_at_wide(&self, x: i64, y: i64) -> (r: bool)
        requires
            self.grid.wf(),
        ensures
            r == self.cell_empty(x as int, y as int),
    {
        if !self.in_bounds_wide(x, y) {
            return false;
        }
        matches!(self.grid.get(x as usize, y as usize), GridCell::Empty)
    }

    /// `cell_empty_or_void` on wide coordinates.
    fn empty_or_void_at_wide(&self, x: i64, y: i64) -> (r: bool)
        requires
            self.grid.wf(),
        ensures
            r == self.cell_empty_or_void(x as int, y as int),
    {
        if !self.in_bounds_wide(x, y) {
            return false;
        }
        matches!(self.grid.get(x as usize, y as usize), GridCell::Empty | GridCell::Void)
    }

    /// Whether `(x, y)` addresses a cell of the grid.
    pub fn is_in_bounds(&self, x: i32, y: i32) -> (r: bool)
        ensures
            r == self.grid.in_bounds(x as int, y as int),
    {
        self.in_bounds_wide(x as i64, y as i64)
    }

    /// Whether `(x, y)` is an in-bounds `Empty` cell.
    pub fn is_in_bounds_and_empty(&self, x: i32, y: i32) -> (r: bool)
        requires
            self.grid.wf(),
        ensures
            r == self.cell_empty(x as int, y as int),
    {
        self.empty_at_wide(x as i64, y as i64)
    }

    /// Whether `(x, y)` is in bounds and `Empty` or `Void`, the relaxed
    /// check used for drag previews over the void.
    pub fn is_psuedo_in_bounds_and_empty(&self, x: i32, y: i32) -> (r: bool)
        requires
            self.grid.wf(),
        ensures
            r == self.cell_empty_or_void(x as int, y as int),
    {
        self.empty_or_void_at_wide(x as i64, y as i64)
    }

    /// Whether `(x, y)` is in bounds and lets lasers pass: `Empty` or
    /// `Void`, but not walls or device cells.
    pub fn is_in_bounds_and_laser_travelable(&self, x: i32, y: i32) -> (r: bool)
        requires
            self.grid.wf(),
        ensures
            r == self.cell_empty_or_void(x as int, y as int),
    {
        self.empty_or_void_at_wide(x as i64, y as i64)
    }

    /// Whether every footprint cell of a device of kind `ty` anchored at
    /// `(x, y)` is in bounds and `Empty`.
    pub fn may_place_at(&mut self, x: i32, y: i32, ty: &DeviceTy) -> (r: bool)
        requires
            old(self).grid.wf(),
        ensures
            *final(self) == *old(self),
            r == old(self).placeable_at(x as int, y as int, *ty),
    {
        let cells = ty.get_cells();
        let mut k: usize = 0;
        while k < cells.len()
            invariant
                *self == *old(self),
                self.grid.wf(),
                cells@ == ty.cells_spec(),
                k <= cells.len(),
                forall|j: int|
                    0 <= j < k ==> self.cell_empty(
                        x + (#[trigger] ty.cells_spec()[j]).0,
                        y + ty.cells_spec()[j].1,
                    ),
            decreases cells.len() - k,
        {
            let c = cells[k];
            if !self.empty_at_wide(x as i64 + c.0 as i64, y as i64 + c.1 as i64) {
                return false;
            }
            k = k + 1;
        }
        true
    }

    /// Every footprint cell of a device of kind `ty` anchored at `(x, y)`
    /// lies in bounds.
    pub open spec fn fp_in_bounds(self, x: int, y: int, ty: DeviceTy) -> bool {
        forall|k: int|
            0 <= k < ty.cells_spec().len() ==> self.grid.in_bounds(
                x + (#[trigger] ty.cells_spec()[k]).0,
                y + ty.cells_spec()[k].1,
            )
    }

    /// Every footprint cell of a device of kind `ty` anchored at `(x, y)`
    /// holds no device cell, except possibly cells of device `id` itself.
    pub open spec fn fp_clear_of_others(self, x: int, y: int, ty: DeviceTy, id: int) -> bool {
        forall|k: int|
            0 <= k < ty.cells_spec().len() ==> {
                let c = self.grid.at(
                    x + (#[trigger] ty.cells_spec()[k]).0,
                    y + ty.cells_spec()[k].1,
                );
                !is_device_cell(c) || refs_device(c, id)
            }
    }

    /// The relaxed variant of `may_place_at`: footprint cells may also lie
    /// over the void.
    pub fn may_psuedo_place_at(&mut self, x: i32, y: i32, ty: &DeviceTy) -> (r: bool)
        requires
            old(self).grid.wf(),
        ensures
            *final(self) == *old(self),
            r == old(self).pseudo_placeable_at(x as int, y as int, *ty),
    {
        let cells = ty.get_cells();
        let mut k: usize = 0;
        while k < cells.len()
            invariant
                *self == *old(self),
                self.grid.wf(),
                cells@ == ty.cells_spec(),
                k <= cells.len(),
                forall|j: int|
                    0 <= j < k ==> self.cell_empty_or_void(
                        x + (#[trigger] ty.cells_spec()[j]).0,
                        y + ty.cells_spec()[j].1,
                    ),
            decreases cells.len() - k,
        {
            let c = cells[k];
            if !self.empty_or_void_at_wide(x as i64 + c.0 as i64, y as i64 + c.1 as i64) {
                return false;
            }
            k = k + 1;
        }
        true
    }

    /// Restores every footprint cell of device `dev`, as if anchored at
    /// `(x, y)`, to the static floor layer underneath.  Should only be
    /// called when the device is believed to cover that spot.
    fn clear_at(&mut self, x: i32, y: i32, dev: Gp)
        requires
            old(self).shape_inv(),
            dev.id < old(self).devices.len(),
            old(self).fp_in_bounds(x as int, y as int, old(self).devices[dev.id as int].ty),
        ensures
            final(self).shape_inv(),
            final(self).grid.rows == old(self).grid.rows,
            final(self).grid.cols == old(self).grid.cols,
            final(self).floor_grid == old(self).floor_grid,
            final(self).devices == old(self).devices,
            final(self).lasers == old(self).lasers,
            final(self).h_laser_ends == old(self).h_laser_ends,
            final(self).bounds == old(self).bounds,
            final(self).nr_goals == old(self).nr_goals,
            final(self).nr_goals_fulfilled == old(self).nr_goals_fulfilled,
            forall|x2: int, y2: int|
                old(self).grid.in_bounds(x2, y2) ==> #[trigger] final(self).grid.at(x2, y2) == (
                if fp_hits(old(self).devices[dev.id as int].ty, x as int, y as int, x2, y2) {
                    old(self).floor_grid.at(x2, y2)
                } else {
                    old(self).grid.at(x2, y2)
                }),
    {
        let ghost ty = old(self).devices[dev.id as int].ty;
        let d = self.devices[dev.id];
        let cells = d.ty.get_cells();
        let mut k: usize = 0;
        while k < cells.len()
            invariant
                self.shape_inv(),
                self.grid.rows == old(self).grid.rows,
                self.grid.cols == old(self).grid.cols,
                self.floor_grid == old(self).floor_grid,
                self.devices == old(self).devices,
                self.lasers == old(self).lasers,
                self.h_laser_ends == old(self).h_laser_ends,
                self.bounds == old(self).bounds,
                self.nr_goals == old(self).nr_goals,
                self.nr_goals_fulfilled == old(self).nr_goals_fulfilled,
                cells@ == ty.cells_spec(),
                old(self).fp_in_bounds(x as int, y as int, ty),
                k <= cells.len(),
                forall|x2: int, y2: int|
                    old(self).grid.in_bounds(x2, y2) ==> #[trigger] self.grid.at(x2, y2) == (
                    if fp_hits_prefix(ty, x as int, y as int, x2, y2, k as int) {
                        old(self).floor_grid.at(x2, y2)
                    } else {
                        old(self).grid.at(x2, y2)
                    }),
            decreases cells.len() - k,
        {
            let c = cells[k];
            let cx: i64 = x as i64 + c.0 as i64;
            let cy: i64 = y as i64 + c.1 as i64;
            assert(self.grid.in_bounds(cx as int, cy as int));
            let floor_cell = self.floor_grid.get(cx as usize, cy as usize);
            self.grid.put(cx as usize, cy as usize, floor_cell);
            k = k + 1;
            proof {
                assert forall|x2: int, y2: int| old(self).grid.in_bounds(x2, y2)
                    implies #[trigger] self.grid.at(x2, y2) == (
                if fp_hits_prefix(ty, x as int, y as int, x2, y2, k as int) {
                    old(self).floor_grid.at(x2, y2)
                } else {
                    old(self).grid.at(x2, y2)
                }) by {
                    if x2 == cx as int && y2 == cy as int {
                        assert(fp_hits_prefix(ty, x as int, y as int, x2, y2, k as int));
                    }
                }
            }
        }
    }

    /// Writes device `dev`'s footprint into the grid anchored at `(x, y)`
    /// and records that as the device's position, with no validity check
    /// beyond the caller's guarantee that the target cells hold no other
    /// device.
    fn force_place_existing(&mut self, x: i32, y: i32, dev: Gp)
        requires
            old(self).inv_detached(dev.id as int),
            old(self).fp_in_bounds(x as int, y as int, old(self).devices[dev.id as int].ty),
            forall|k: int|
                0 <= k < old(self).devices[dev.id as int].ty.cells_spec().len()
                    ==> !is_device_cell(
                    old(self).grid.at(
                        x + (#[trigger] old(self).devices[dev.id as int].ty.cells_spec()[k]).0,
                        y + old(self).devices[dev.id as int].ty.cells_spec()[k].1,
                    ),
                ),
        ensures
            final(self).inv(),
            final(self).grid.rows == old(self).grid.rows,
            final(self).grid.cols == old(self).grid.cols,
            final(self).floor_grid == old(self).floor_grid,
            final(self).devices@ == old(self).devices@.update(
                dev.id as int,
                Device {
                    x,
                    y,
                    locked: old(self).devices[dev.id as int].locked,
                    ty: old(self).devices[dev.id as int].ty,
                },
            ),
            final(self).lasers == old(self).lasers,
            final(self).h_laser_ends == old(self).h_laser_ends,
            final(self).bounds == old(self).bounds,
            final(self).nr_goals == old(self).nr_goals,
            final(self).nr_goals_fulfilled == old(self).nr_goals_fulfilled,
            forall|x2: int, y2: int|
                old(self).grid.in_bounds(x2, y2) ==> #[trigger] final(self).grid.at(x2, y2) == (
                if fp_hits(old(self).devices[dev.id as int].ty, x as int, y as int, x2, y2) {
                    fp_cell(x as int, y as int, x2, y2, dev.id as int)
                } else {
                    old(self).grid.at(x2, y2)
                }),
    {
        let ghost ty = old(self).devices[dev.id as int].ty;
        let mut d = self.devices[dev.id];
        d.x = x;
        d.y = y;
        self.devices.set(dev.id, d);
        proof {
            lemma_goal_count_update(old(self).devices@, dev.id as int, d);
        }
        let cells = d.ty.get_cells();
        let mut k: usize = 0;
        while k < cells.len()
            invariant
                self.shape_inv(),
                self.grid.rows == old(self).grid.rows,
                self.grid.cols == old(self).grid.cols,
                self.floor_grid == old(self).floor_grid,
                self.devices@ == old(self).devices@.update(dev.id as int, d),
                d == (Device {
                    x,
                    y,
                    locked: old(self).devices[dev.id as int].locked,
                    ty: old(self).devices[dev.id as int].ty,
                }),
                self.lasers == old(self).lasers,
                self.h_laser_ends == old(self).h_laser_ends,
                self.bounds == old(self).bounds,
                self.nr_goals == old(self).nr_goals,
                self.nr_goals_fulfilled == old(self).nr_goals_fulfilled,
                dev.id < old(self).devices.len(),
                cells@ == ty.cells_spec(),
                old(self).fp_in_bounds(x as int, y as int, ty),
                k <= cells.len(),
                forall|x2: int, y2: int|
                    old(self).grid.in_bounds(x2, y2) ==> #[trigger] self.grid.at(x2, y2) == (
                    if fp_hits_prefix(ty, x as int, y as int, x2, y2, k as int) {
                        fp_cell(x as int, y as int, x2, y2, dev.id as int)
                    } else {
                        old(self).grid.at(x2, y2)
                    }),
            decreases cells.len() - k,
        {
            let c = cells[k];
            let cx: i64 = x as i64 + c.0 as i64;
            let cy: i64 = y as i64 + c.1 as i64;
            assert(self.grid.in_bounds(cx as int, cy as int));
            let cell = if c.0 == 0 && c.1 == 0 {
                GridCell::DeviceRoot(dev)
            } else {
                GridCell::DeviceEtc(dev)
            };
            assert(cell == fp_cell(x as int, y as int, cx as int, cy as int, dev.id as int));
            self.grid.put(cx as usize, cy as usize, cell);
            k = k + 1;
            proof {
                assert forall|x2: int, y2: int| old(self).grid.in_bounds(x2, y2)
                    implies #[trigger] self.grid.at(x2, y2) == (
                if fp_hits_prefix(ty, x as int, y as int, x2, y2, k as int) {
                    fp_cell(x as int, y as int, x2, y2, dev.id as int)
                } else {
                    old(self).grid.at(x2, y2)
                }) by {
                    if x2 == cx as int && y2 == cy as int {
                        assert(fp_hits_prefix(ty, x as int, y as int, x2, y2, k as int));
                    }
                }
            }
        }
        proof {
            self.lemma_placement_restores_inv(*old(self), x, y, dev);
        }
    }

    /// After `force_place_existing`'s write loop, the whole level
    /// invariant holds again.
    proof fn lemma_placement_restores_inv(self, pre: Level, x: i32, y: i32, dev: Gp)
        requires
            pre.inv_detached(dev.id as int),
            pre.fp_in_bounds(x as int, y as int, pre.devices[dev.id as int].ty),
            forall|k: int|
                0 <= k < pre.devices[dev.id as int].ty.cells_spec().len() ==> !is_device_cell(
                    pre.grid.at(
                        x + (#[trigger] pre.devices[dev.id as int].ty.cells_spec()[k]).0,
                        y + pre.devices[dev.id as int].ty.cells_spec()[k].1,
                    ),
                ),
            self.shape_inv(),
            self.grid.rows == pre.grid.rows,
            self.grid.cols == pre.grid.cols,
            self.floor_grid == pre.floor_grid,
            self.devices@ == pre.devices@.update(
                dev.id as int,
                Device {
                    x,
                    y,
                    locked: pre.devices[dev.id as int].locked,
                    ty: pre.devices[dev.id as int].ty,
                },
            ),
            self.nr_goals == goal_count(self.devices@),
            forall|x2: int, y2: int|
                pre.grid.in_bounds(x2, y2) ==> #[trigger] self.grid.at(x2, y2) == (
                if fp_hits(pre.devices[dev.id as int].ty, x as int, y as int, x2, y2) {
                    fp_cell(x as int, y as int, x2, y2, dev.id as int)
                } else {
                    pre.grid.at(x2, y2)
                }),
        ensures
            self.inv(),
    {
        let id = dev.id as int;
        let ty = pre.devices[id].ty;
        lemma_footprint_shape(ty);
        // Each device is placed: the moved one by the fresh writes, the
        // others because their cells held device cells of theirs before,
        // which the target footprint was required to avoid.
        assert forall|id2: int| 0 <= id2 < self.devices.len() implies self.device_placed(
            id2,
        ) by {
            let d2 = self.devices[id2];
            assert forall|k: int| 0 <= k < d2.ty.cells_spec().len() implies {
                let cx = d2.x + (#[trigger] d2.ty.cells_spec()[k]).0;
                let cy = d2.y + d2.ty.cells_spec()[k].1;
                self.grid.in_bounds(cx, cy) && self.grid.at(cx, cy) == fp_cell(
                    d2.x as int,
                    d2.y as int,
                    cx as int,
                    cy as int,
                    id2,
                )
            } by {
                let off = d2.ty.cells_spec()[k];
                let cx = d2.x + off.0;
                let cy = d2.y + off.1;
                if id2 == id {
                    assert(fp_hits_prefix(ty, x as int, y as int, cx as int, cy as int,
                        ty.cells_spec().len() as int));
                    if cx == x && cy == y {
                    } else {
                    }
                } else {
                    assert(pre.device_placed(id2));
                    assert(pre.grid.at(cx, cy) == fp_cell(
                        d2.x as int,
                        d2.y as int,
                        cx as int,
                        cy as int,
                        id2,
                    ));
                    if fp_hits(ty, x as int, y as int, cx, cy) {
                        let j = choose|j: int|
                            0 <= j < ty.cells_spec().len() && x + (
                            #[trigger] ty.cells_spec()[j]).0 == cx && y + ty.cells_spec()[j].1
                                == cy;
                        assert(!is_device_cell(pre.grid.at(cx, cy)));
                        assert(false);
                    }
                }
            }
        }
        // Every device cell points back at the device covering it.
        assert forall|x2: int, y2: int| self.grid.in_bounds(x2, y2)
            implies self.cell_backrefs_ok(x2, y2) by {
            if fp_hits(ty, x as int, y as int, x2, y2) {
                let j = choose|j: int|
                    0 <= j < ty.cells_spec().len() && x + (#[trigger] ty.cells_spec()[j]).0 == x2
                        && y + ty.cells_spec()[j].1 == y2;
                if x2 == x as int && y2 == y as int {
                } else {
                    assert(fp_hits(ty, x as int, y as int, x2, y2));
                }
            } else {
                assert(self.grid.at(x2, y2) == pre.grid.at(x2, y2));
                assert(pre.cell_backrefs_ok(x2, y2));
                assert(!refs_device(pre.grid.at(x2, y2), id));
                match pre.grid.at(x2, y2) {
                    GridCell::DeviceRoot(g) => {
                        assert(self.devices[g.id as int] == pre.devices[g.id as int]);
                    },
                    GridCell::DeviceEtc(g) => {
                        assert(self.devices[g.id as int] == pre.devices[g.id as int]);
                    },
                    _ => {},
                }
            }
        }
    }
}

impl Level {
    /// The value of cell `(x, y)` after device `id` has been lifted off
    /// both its claimed spot `(cx, cy)` and its recorded position: lifted
    /// cells show the floor layer, all others are untouched.
    pub open spec fn mid_cell(self, id: int, cx: int, cy: int, x: int, y: int) -> GridCell {
        let d = self.devices[id];
        if fp_hits(d.ty, cx, cy, x, y) || fp_hits(d.ty, d.x as int, d.y as int, x, y) {
            self.floor_grid.at(x, y)
        } else {
            self.grid.at(x, y)
        }
    }

    /// Whether device `id`, once lifted off its claimed spot `(cx, cy)` and
    /// its recorded position, may be strictly placed at `(tx, ty)`.
    pub open spec fn mid_placeable(self, id: int, cx: int, cy: int, tx: int, ty: int) -> bool {
        let d = self.devices[id];
        forall|k: int|
            0 <= k < d.ty.cells_spec().len() ==> {
                let x = tx + (#[trigger] d.ty.cells_spec()[k]).0;
                let y = ty + d.ty.cells_spec()[k].1;
                self.grid.in_bounds(x, y) && self.mid_cell(id, cx, cy, x, y) is Empty
            }
    }

    /// The relaxed counterpart of `mid_placeable`: footprint cells may also
    /// lie over the void.
    pub open spec fn mid_pseudo_placeable(self, id: int, cx: int, cy: int, tx: int, ty: int) -> bool {
        let d = self.devices[id];
        forall|k: int|
            0 <= k < d.ty.cells_spec().len() ==> {
                let x = tx + (#[trigger] d.ty.cells_spec()[k]).0;
                let y = ty + d.ty.cells_spec()[k].1;
                self.grid.in_bounds(x, y) && (self.mid_cell(id, cx, cy, x, y) is Empty
                    || self.mid_cell(id, cx, cy, x, y) is Void)
            }
    }

    /// Where a `move_from` from claimed spot `(cx, cy)` towards
    /// `(to_x, to_y)` puts device `id`: the destination if it is strictly
    /// or provisionally placeable, else back to the claimed spot.
    pub open spec fn move_dest(self, id: int, cx: i32, cy: i32, to_x: i32, to_y: i32) -> (
        i32,
        i32,
    ) {
        if self.mid_placeable(id, cx as int, cy as int, to_x as int, to_y as int)
            || self.mid_pseudo_placeable(id, cx as int, cy as int, to_x as int, to_y as int) {
            (to_x, to_y)
        } else {
            (cx, cy)
        }
    }

    /// Where a `finish_move_from` puts device `id`: the destination only if
    /// strictly placeable, else back to the claimed spot.
    pub open spec fn finish_dest(self, id: int, cx: i32, cy: i32, to_x: i32, to_y: i32) -> (
        i32,
        i32,
    ) {
        if self.mid_placeable(id, cx as int, cy as int, to_x as int, to_y as int) {
            (to_x, to_y)
        } else {
            (cx, cy)
        }
    }

    /// The value of cell `(x, y)` after device `id` has moved from its
    /// claimed spot `(cx, cy)` to anchor `(px, py)`: the new footprint is
    /// written, lifted cells show the floor layer, the rest is untouched.
    pub open spec fn moved_cell(self, id: int, cx: int, cy: int, px: int, py: int, x: int, y: int)
        -> GridCell {
        let d = self.devices[id];
        if fp_hits(d.ty, px, py, x, y) {
            fp_cell(px, py, x, y, id)
        } else if fp_hits(d.ty, cx, cy, x, y) || fp_hits(d.ty, d.x as int, d.y as int, x, y) {
            self.floor_grid.at(x, y)
        } else {
            self.grid.at(x, y)
        }
    }

    /// Lifts device `dev` off its claimed spot `(x, y)` and its recorded
    /// position, leaving a state where no grid cell references it.
    fn clear_for_move(&mut self, x: i32, y: i32, dev: Gp)
        requires
            old(self).inv(),
            dev.id < old(self).devices.len(),
            old(self).fp_in_bounds(x as int, y as int, old(self).devices[dev.id as int].ty),
            old(self).fp_clear_of_others(
                x as int,
                y as int,
                old(self).devices[dev.id as int].ty,
                dev.id as int,
            ),
        ensures
            final(self).inv_detached(dev.id as int),
            final(self).grid.rows == old(self).grid.rows,
            final(self).grid.cols == old(self).grid.cols,
            final(self).floor_grid == old(self).floor_grid,
            final(self).devices == old(self).devices,
            final(self).lasers == old(self).lasers,
            final(self).h_laser_ends == old(self).h_laser_ends,
            final(self).bounds == old(self).bounds,
            final(self).nr_goals == old(self).nr_goals,
            final(self).nr_goals_fulfilled == old(self).nr_goals_fulfilled,
            forall|x2: int, y2: int|
                old(self).grid.in_bounds(x2, y2) ==> #[trigger] final(self).grid.at(x2, y2)
                    == old(self).mid_cell(dev.id as int, x as int, y as int, x2, y2),
    {
        let ghost pre = *old(self);
        let ghost id = dev.id as int;
        let ghost ty = pre.devices[id].ty;
        let d = self.devices[dev.id];
        proof {
            assert(pre.device_placed(id));
            assert forall|k: int| 0 <= k < ty.cells_spec().len() implies pre.grid.in_bounds(
                d.x + (#[trigger] ty.cells_spec()[k]).0,
                d.y + ty.cells_spec()[k].1,
            ) by {
                assert(pre.grid.in_bounds(
                    pre.devices[id].x + (ty.cells_spec()[k]).0,
                    pre.devices[id].y + ty.cells_spec()[k].1,
                ));
            }
        }
        self.clear_at(x, y, dev);
        self.clear_at(d.x, d.y, dev);
        proof {
            // The composed grid matches `mid_cell`.
            assert forall|x2: int, y2: int| pre.grid.in_bounds(x2, y2)
                implies #[trigger] self.grid.at(x2, y2) == pre.mid_cell(
                id,
                x as int,
                y as int,
                x2,
                y2,
            ) by {}
            // No cell references the lifted device any more.
            assert forall|x2: int, y2: int| self.grid.in_bounds(x2, y2)
                implies self.cell_backrefs_ok(x2, y2) && !refs_device(
                #[trigger] self.grid.at(x2, y2),
                id,
            ) by {
                if fp_hits(ty, x as int, y as int, x2, y2) || fp_hits(
                    ty,
                    d.x as int,
                    d.y as int,
                    x2,
                    y2,
                ) {
                    assert(self.grid.at(x2, y2) == pre.floor_grid.at(x2, y2));
                    assert(!is_device_cell(self.floor_grid.at(x2, y2)));
                } else {
                    assert(self.grid.at(x2, y2) == pre.grid.at(x2, y2));
                    assert(pre.cell_backrefs_ok(x2, y2));
                    if refs_device(pre.grid.at(x2, y2), id) {
                        // A cell referencing the device lies on its placed
                        // footprint, which was lifted.
                        match pre.grid.at(x2, y2) {
                            GridCell::DeviceRoot(g) => {
                                assert(pre.cell_backrefs_ok(x2, y2));
                                assert(pre.devices[id].x == x2 && pre.devices[id].y == y2);
                                lemma_footprint_shape(ty);
                                assert(ty.cells_spec()[0] == (0i32, 0i32));
                                assert(fp_hits(ty, d.x as int, d.y as int, x2, y2));
                            },
                            GridCell::DeviceEtc(g) => {
                                assert(pre.cell_backrefs_ok(x2, y2));
                                assert(fp_hits(ty, d.x as int, d.y as int, x2, y2));
                            },
                            _ => {},
                        }
                        assert(false);
                    }
                }
            }
            // Devices other than the lifted one keep their footprints.
            assert forall|id2: int| 0 <= id2 < self.devices.len() && id2 != id
                implies self.device_placed(id2) by {
                let d2 = self.devices[id2];
                assert(pre.device_placed(id2));
                assert forall|k: int| 0 <= k < d2.ty.cells_spec().len() implies {
                    let x3 = d2.x + (#[trigger] d2.ty.cells_spec()[k]).0;
                    let y3 = d2.y + d2.ty.cells_spec()[k].1;
                    self.grid.in_bounds(x3, y3) && self.grid.at(x3, y3) == fp_cell(
                        d2.x as int,
                        d2.y as int,
                        x3 as int,
                        y3 as int,
                        id2,
                    )
                } by {
                    let off = d2.ty.cells_spec()[k];
                    let x3 = d2.x + off.0;
                    let y3 = d2.y + off.1;
                    assert(pre.grid.at(x3, y3) == fp_cell(
                        d2.x as int,
                        d2.y as int,
                        x3 as int,
                        y3 as int,
                        id2,
                    ));
                    assert(is_device_cell(pre.grid.at(x3, y3)) && !refs_device(
                        pre.grid.at(x3, y3),
                        id,
                    ));
                    if fp_hits(ty, x as int, y as int, x3, y3) {
                        let j = choose|j: int|
                            0 <= j < ty.cells_spec().len() && x + (
                            #[trigger] ty.cells_spec()[j]).0 == x3 && y + ty.cells_spec()[j].1
                                == y3;
                        assert(false);
                    }
                    if fp_hits(ty, d.x as int, d.y as int, x3, y3) {
                        let j = choose|j: int|
                            0 <= j < ty.cells_spec().len() && d.x + (
                            #[trigger] ty.cells_spec()[j]).0 == x3 && d.y
                                + ty.cells_spec()[j].1 == y3;
                        assert(pre.grid.at(x3, y3) == fp_cell(
                            d.x as int,
                            d.y as int,
                            x3 as int,
                            y3 as int,
                            id,
                        ));
                        assert(false);
                    }
                }
            }
        }
    }

    /// Moves device `dev` from its claimed spot `(x, y)` towards
    /// `(to_x, to_y)`: first the device is lifted off both the claimed spot
    /// and wherever it currently is, then the move is tried strictly, then
    /// provisionally (over void), and failing both the device snaps back.
    /// Returns whether the move was a strictly valid placement.
    pub fn move_from(&mut self, x: i32, y: i32, dev: Gp, to_x: i32, to_y: i32) -> (r: bool)
        requires
            old(self).inv(),
            dev.id < old(self).devices.len(),
            old(self).fp_in_bounds(x as int, y as int, old(self).devices[dev.id as int].ty),
            old(self).fp_clear_of_others(
                x as int,
                y as int,
                old(self).devices[dev.id as int].ty,
                dev.id as int,
            ),
        ensures
            final(self).inv(),
            r == old(self).mid_placeable(
                dev.id as int,
                x as int,
                y as int,
                to_x as int,
                to_y as int,
            ),
            final(self).devices@ == old(self).devices@.update(
                dev.id as int,
                Device {
                    x: old(self).move_dest(dev.id as int, x, y, to_x, to_y).0,
                    y: old(self).move_dest(dev.id as int, x, y, to_x, to_y).1,
                    locked: old(self).devices[dev.id as int].locked,
                    ty: old(self).devices[dev.id as int].ty,
                },
            ),
            forall|x2: int, y2: int|
                old(self).grid.in_bounds(x2, y2) ==> #[trigger] final(self).grid.at(x2, y2)
                    == old(self).moved_cell(
                    dev.id as int,
                    x as int,
                    y as int,
                    old(self).move_dest(dev.id as int, x, y, to_x, to_y).0 as int,
                    old(self).move_dest(dev.id as int, x, y, to_x, to_y).1 as int,
                    x2,
                    y2,
                ),
            final(self).grid.rows == old(self).grid.rows,
            final(self).grid.cols == old(self).grid.cols,
            final(self).floor_grid == old(self).floor_grid,
            final(self).lasers == old(self).lasers,
            final(self).h_laser_ends == old(self).h_laser_ends,
            final(self).bounds == old(self).bounds,
            final(self).nr_goals == old(self).nr_goals,
            final(self).nr_goals_fulfilled == old(self).nr_goals_fulfilled,
    {
        let ghost pre = *old(self);
        let ghost id = dev.id as int;
        let ghost ty = pre.devices[id].ty;
        let d = self.devices[dev.id];
        self.clear_for_move(x, y, dev);
        let ghost mid = *self;
        if self.may_place_at(to_x, to_y, &d.ty) {
            proof {
                assert(pre.mid_placeable(id, x as int, y as int, to_x as int, to_y as int));
                assert(pre.move_dest(id, x, y, to_x, to_y) == (to_x, to_y));
            }
            self.force_place_existing(to_x, to_y, dev);
            true
        } else if self.may_psuedo_place_at(to_x, to_y, &d.ty) {
            proof {
                assert(!pre.mid_placeable(id, x as int, y as int, to_x as int, to_y as int));
                assert(pre.mid_pseudo_placeable(id, x as int, y as int, to_x as int, to_y as int));
                assert(pre.move_dest(id, x, y, to_x, to_y) == (to_x, to_y));
            }
            self.force_place_existing(to_x, to_y, dev);
            false
        } else {
            proof {
                assert(!pre.mid_placeable(id, x as int, y as int, to_x as int, to_y as int));
                assert(!pre.mid_pseudo_placeable(id, x as int, y as int, to_x as int, to_y
                    as int));
                assert(pre.move_dest(id, x, y, to_x, to_y) == (x, y));
                assert forall|k: int| 0 <= k < ty.cells_spec().len() implies !is_device_cell(
                    mid.grid.at(
                        x + (#[trigger] ty.cells_spec()[k]).0,
                        y + ty.cells_spec()[k].1,
                    ),
                ) by {
                    assert(fp_hits(ty, x as int, y as int, x + ty.cells_spec()[k].0, y
                        + ty.cells_spec()[k].1));
                }
            }
            self.force_place_existing(x, y, dev);
            false
        }
    }

    /// Like `move_from`, but committing: only a strict placement is
    /// accepted, and otherwise the device snaps back to its claimed spot.
    /// Returns whether the placement was strictly valid.
    pub fn finish_move_from(&mut self, x: i32, y: i32, dev: Gp, to_x: i32, to_y: i32) -> (r:
        bool)
        requires
            old(self).inv(),
            dev.id < old(self).devices.len(),
            old(self).fp_in_bounds(x as int, y as int, old(self).devices[dev.id as int].ty),
            old(self).fp_clear_of_others(
                x as int,
                y as int,
                old(self).devices[dev.id as int].ty,
                dev.id as int,
            ),
        ensures
            final(self).inv(),
            final(self).devices@ == old(self).devices@.update(
                dev.id as int,
                Device {
                    x: old(self).finish_dest(dev.id as int, x, y, to_x, to_y).0,
                    y: old(self).finish_dest(dev.id as int, x, y, to_x, to_y).1,
                    locked: old(self).devices[dev.id as int].locked,
                    ty: old(self).devices[dev.id as int].ty,
                },
            ),
            forall|x2: int, y2: int|
                old(self).grid.in_bounds(x2, y2) ==> #[trigger] final(self).grid.at(x2, y2)
                    == old(self).moved_cell(
                    dev.id as int,
                    x as int,
                    y as int,
                    old(self).finish_dest(dev.id as int, x, y, to_x, to_y).0 as int,
                    old(self).finish_dest(dev.id as int, x, y, to_x, to_y).1 as int,
                    x2,
                    y2,
                ),
            final(self).grid.rows == old(self).grid.rows,
            final(self).grid.cols == old(self).grid.cols,
            final(self).floor_grid == old(self).floor_grid,
            final(self).lasers == old(self).lasers,
            final(self).h_laser_ends == old(self).h_laser_ends,
            final(self).bounds == old(self).bounds,
            final(self).nr_goals == old(self).nr_goals,
            final(self).nr_goals_fulfilled == old(self).nr_goals_fulfilled,
            r == old(self).mid_placeable(dev.id as int, x as int, y as int, to_x as int, to_y
                as int),
    {
        let ghost pre = *old(self);
        let ghost id = dev.id as int;
        let ghost ty = pre.devices[id].ty;
        let d = self.devices[dev.id];
        self.clear_for_move(x, y, dev);
        let ghost mid = *self;
        if self.may_place_at(to_x, to_y, &d.ty) {
            proof {
                assert(pre.finish_dest(id, x, y, to_x, to_y) == (to_x, to_y));
            }
            self.force_place_existing(to_x, to_y, dev);
            true
        } else {
            proof {
                assert(pre.finish_dest(id, x, y, to_x, to_y) == (x, y));
                assert forall|k: int| 0 <= k < ty.cells_spec().len() implies !is_device_cell(
                    mid.grid.at(
                        x + (#[trigger] ty.cells_spec()[k]).0,
                        y + ty.cells_spec()[k].1,
                    ),
                ) by {
                    assert(fp_hits(ty, x as int, y as int, x + ty.cells_spec()[k].0, y
                        + ty.cells_spec()[k].1));
                }
            }
            self.force_place_existing(x, y, dev);
            false
        }
    }

    /// Creates a new device of kind `ty` and writes its footprint at
    /// `(x, y)` with no validity check beyond the caller's guarantee that
    /// the target cells hold no device.  Used during level construction,
    /// where placements may deliberately overlap the void.
    pub fn force_place(&mut self, x: i32, y: i32, ty: DeviceTy, locked: bool)
        requires
            old(self).inv(),
            old(self).devices.len() < usize::MAX,
            device_color_wf(ty),
            old(self).fp_in_bounds(x as int, y as int, ty),
            forall|k: int|
                0 <= k < ty.cells_spec().len() ==> !is_device_cell(
                    old(self).grid.at(
                        x + (#[trigger] ty.cells_spec()[k]).0,
                        y + ty.cells_spec()[k].1,
                    ),
                ),
        ensures
            final(self).inv(),
            final(self).devices@ == old(self).devices@.push(Device { x, y, locked, ty }),
            final(self).nr_goals == old(self).nr_goals + if ty is Goal {
                1int
            } else {
                0int
            },
            forall|x2: int, y2: int|
                old(self).grid.in_bounds(x2, y2) ==> #[trigger] final(self).grid.at(x2, y2) == (
                if fp_hits(ty, x as int, y as int, x2, y2) {
                    fp_cell(x as int, y as int, x2, y2, old(self).devices.len() as int)
                } else {
                    old(self).grid.at(x2, y2)
                }),
            final(self).grid.rows == old(self).grid.rows,
            final(self).grid.cols == old(self).grid.cols,
            final(self).floor_grid == old(self).floor_grid,
            final(self).lasers == old(self).lasers,
            final(self).h_laser_ends == old(self).h_laser_ends,
            final(self).bounds == old(self).bounds,
            final(self).nr_goals_fulfilled == old(self).nr_goals_fulfilled,
    {
        let ghost pre = *old(self);
        let id = self.devices.len();
        let d = Device { x, y, locked, ty };
        self.devices.push(d);
        proof {
            assert(self.devices@.drop_last() =~= pre.devices@);
            lemma_goal_count_le_len(pre.devices@);
        }
        if matches!(ty, DeviceTy::Goal(_)) {
            self.nr_goals = self.nr_goals + 1;
        }
        proof {
            assert(self.nr_goals == goal_count(self.devices@));
            assert forall|id2: int| 0 <= id2 < self.devices.len() && id2 != id
                implies self.device_placed(id2) by {
                assert(pre.device_placed(id2));
                assert(self.devices[id2] == pre.devices[id2]);
            }
            assert forall|x2: int, y2: int| self.grid.in_bounds(x2, y2)
                implies self.cell_backrefs_ok(x2, y2) && !refs_device(
                #[trigger] self.grid.at(x2, y2),
                id as int,
            ) by {
                assert(pre.cell_backrefs_ok(x2, y2));
                match pre.grid.at(x2, y2) {
                    GridCell::DeviceRoot(g) => {
                        assert(self.devices[g.id as int] == pre.devices[g.id as int]);
                    },
                    GridCell::DeviceEtc(g) => {
                        assert(self.devices[g.id as int] == pre.devices[g.id as int]);
                    },
                    _ => {},
                }
            }
            assert(self.inv_detached(id as int));
        }
        self.force_place_existing(x, y, Gp { id });
        proof {
            assert(final(self).devices@ =~= pre.devices@.push(Device { x, y, locked, ty }));
        }
    }
}

/// Loads level data for the shell.  The tile and object parsing itself
/// lives with the shell; the level is then built through
/// `Level::new_from_tiles` and `Level::force_place`.
pub struct LevelLoader {}

impl Level {
    /// Whether the last laser rebuild fulfilled every goal.  The win
    /// condition proper is the shell's: all goals fulfilled while no
    /// device is mid-drag.
    pub fn all_goals_fulfilled(&self) -> (r: bool)
        ensures
            r == (self.nr_goals_fulfilled >= self.nr_goals),
    {
        self.nr_goals_fulfilled >= self.nr_goals
    }
}

/// One cell of the tile layer a level is built from: no tile at all,
/// placeable floor, or scenery such as wall art that is drawn but keeps the
/// cell out of play.
#[derive(Clone, Copy, Debug, PartialEq, Eq, Structural)]
pub enum Tile {
    Absent,
    Floor,
    Scenery,
}

/// Whether the tile layer has a tile at `(x, y)`.
pub open spec fn tile_present(tiles: Grid<Tile>, x: int, y: int) -> bool {
    tiles.in_bounds(x, y) && !(tiles.at(x, y) is Absent)
}

/// Whether `(x, y)` lies on the outermost ring of a `cols` by `rows` grid.
pub open spec fn on_border(rows: int, cols: int, x: int, y: int) -> bool {
    x == 0 || y == 0 || x == cols - 1 || y == rows - 1
}

impl Level {
    /// Walls off the outermost ring of the grid.
    pub fn build_debug_border(&mut self)
        requires
            old(self).inv(),
            forall|x: int, y: int|
                old(self).grid.in_bounds(x, y) && on_border(
                    old(self).grid.rows as int,
                    old(self).grid.cols as int,
                    x,
                    y,
                ) ==> !is_device_cell(#[trigger] old(self).grid.at(x, y)),
        ensures
            final(self).inv(),
            final(self).grid.rows == old(self).grid.rows,
            final(self).grid.cols == old(self).grid.cols,
            final(self).floor_grid == old(self).floor_grid,
            final(self).devices == old(self).devices,
            final(self).lasers == old(self).lasers,
            final(self).h_laser_ends == old(self).h_laser_ends,
            final(self).bounds == old(self).bounds,
            final(self).nr_goals == old(self).nr_goals,
            final(self).nr_goals_fulfilled == old(self).nr_goals_fulfilled,
            forall|x: int, y: int|
                old(self).grid.in_bounds(x, y) ==> #[trigger] final(self).grid.at(x, y) == (
                if on_border(old(self).grid.rows as int, old(self).grid.cols as int, x, y) {
                    GridCell::Wall
                } else {
                    old(self).grid.at(x, y)
                }),
    {
        let ghost pre = *old(self);
        let rows = self.grid.rows;
        let cols = self.grid.cols;
        let mut x: usize = 0;
        while x < cols
            invariant
                self.shape_inv(),
                rows == self.grid.rows,
                cols == self.grid.cols,
                self.grid.rows == pre.grid.rows,
                self.grid.cols == pre.grid.cols,
                self.floor_grid == pre.floor_grid,
                self.devices == pre.devices,
                self.lasers == pre.lasers,
                self.h_laser_ends == pre.h_laser_ends,
                self.bounds == pre.bounds,
                self.nr_goals == pre.nr_goals,
                self.nr_goals_fulfilled == pre.nr_goals_fulfilled,
                x <= cols,
                forall|x2: int, y2: int|
                    pre.grid.in_bounds(x2, y2) ==> #[trigger] self.grid.at(x2, y2) == (
                    if on_border(rows as int, cols as int, x2, y2) && x2 < x {
                        GridCell::Wall
                    } else {
                        pre.grid.at(x2, y2)
                    }),
            decreases cols - x,
        {
            let mut y: usize = 0;
            while y < rows
                invariant
                    self.shape_inv(),
                    rows == self.grid.rows,
                    cols == self.grid.cols,
                    self.grid.rows == pre.grid.rows,
                    self.grid.cols == pre.grid.cols,
                    self.floor_grid == pre.floor_grid,
                    self.devices == pre.devices,
                    self.lasers == pre.lasers,
                    self.h_laser_ends == pre.h_laser_ends,
                    self.bounds == pre.bounds,
                    self.nr_goals == pre.nr_goals,
                    self.nr_goals_fulfilled == pre.nr_goals_fulfilled,
                    x < cols,
                    y <= rows,
                    forall|x2: int, y2: int|
                        pre.grid.in_bounds(x2, y2) ==> #[trigger] self.grid.at(x2, y2) == (
                        if on_border(rows as int, cols as int, x2, y2) && (x2 < x || (x2 == x
                            && y2 < y)) {
                            GridCell::Wall
                        } else {
                            pre.grid.at(x2, y2)
                        }),
                decreases rows - y,
            {
                if x == 0 || y == 0 || x == cols - 1 || y == rows - 1 {
                    self.grid.put(x, y, GridCell::Wall);
                }
                y = y + 1;
            }
            x = x + 1;
        }
        proof {
            // Devices keep their footprints: none of their cells lies on
            // the border, which held no device cells.
            assert forall|id: int| 0 <= id < self.devices.len() implies self.device_placed(
                id,
            ) by {
                let d = self.devices[id];
                assert(pre.device_placed(id));
                assert forall|k: int| 0 <= k < d.ty.cells_spec().len() implies {
                    let cx = d.x + (#[trigger] d.ty.cells_spec()[k]).0;
                    let cy = d.y + d.ty.cells_spec()[k].1;
                    self.grid.in_bounds(cx, cy) && self.grid.at(cx, cy) == fp_cell(
                        d.x as int,
                        d.y as int,
                        cx as int,
                        cy as int,
                        id,
                    )
                } by {
                    let off = d.ty.cells_spec()[k];
                    let cx = d.x + off.0;
                    let cy = d.y + off.1;
                    assert(pre.grid.at(cx, cy) == fp_cell(
                        d.x as int,
                        d.y as int,
                        cx as int,
                        cy as int,
                        id,
                    ));
                    assert(!on_border(rows as int, cols as int, cx as int, cy as int));
                }
            }
            assert forall|x2: int, y2: int| self.grid.in_bounds(x2, y2)
                implies self.cell_backrefs_ok(x2, y2) by {
                if !on_border(rows as int, cols as int, x2, y2) {
                    assert(pre.cell_backrefs_ok(x2, y2));
                }
            }
        }
    }
}

/// Scans the tile layer for the bounding box of its tiles, scenery
/// included: `(min_x, min_y, max_x, max_y)`, or `None` when the layer holds
/// no tile at all.
fn scan_bounds(tiles: &Grid<Tile>) -> (r: Option<(u32, u32, u32, u32)>)
    requires
        tiles.wf(),
        tiles.rows <= i32::MAX,
        tiles.cols <= i32::MAX,
    ensures
        match r {
            None => forall|x: int, y: int| !tile_present(*tiles, x, y),
            Some(b) => {
                &&& b.0 <= b.2 < tiles.cols
                &&& b.1 <= b.3 < tiles.rows
                &&& forall|x: int, y: int|
                    tile_present(*tiles, x, y) ==> b.0 <= x <= b.2 && b.1 <= y <= b.3
                &&& exists|y: int| tile_present(*tiles, b.0 as int, y)
                &&& exists|y: int| tile_present(*tiles, b.2 as int, y)
                &&& exists|x: int| tile_present(*tiles, x, b.1 as int)
                &&& exists|x: int| tile_present(*tiles, x, b.3 as int)
            },
        },
{
    let rows = tiles.rows;
    let cols = tiles.cols;
    let mut found: bool = false;
    let mut bx0: usize = 0;
    let mut by0: usize = 0;
    let mut bx1: usize = 0;
    let mut by1: usize = 0;
    let mut x: usize = 0;
    while x < cols
        invariant
            tiles.wf(),
            rows == tiles.rows,
            cols == tiles.cols,
            x <= cols,
            !found ==> forall|x2: int, y2: int|
                x2 < x ==> !tile_present(*tiles, x2, y2),
            found ==> {
                &&& bx0 <= bx1 < cols
                &&& by0 <= by1 < rows
                &&& forall|x2: int, y2: int|
                    tile_present(*tiles, x2, y2) && x2 < x ==> bx0 <= x2 <= bx1 && by0 <= y2
                        <= by1
                &&& exists|y2: int| tile_present(*tiles, bx0 as int, y2)
                &&& exists|y2: int| tile_present(*tiles, bx1 as int, y2)
                &&& exists|x2: int| tile_present(*tiles, x2, by0 as int)
                &&& exists|x2: int| tile_present(*tiles, x2, by1 as int)
            },
        decreases cols - x,
    {
        let mut y: usize = 0;
        while y < rows
            invariant
                tiles.wf(),
                rows == tiles.rows,
                cols == tiles.cols,
                x < cols,
                y <= rows,
                !found ==> forall|x2: int, y2: int|
                    x2 < x || (x2 == x && y2 < y) ==> !tile_present(*tiles, x2, y2),
                found ==> {
                    &&& bx0 <= bx1 < cols
                    &&& by0 <= by1 < rows
                    &&& forall|x2: int, y2: int|
                        tile_present(*tiles, x2, y2) && (x2 < x || (x2 == x && y2 < y)) ==> bx0
                            <= x2 <= bx1 && by0 <= y2 <= by1
                    &&& exists|y2: int| tile_present(*tiles, bx0 as int, y2)
                    &&& exists|y2: int| tile_present(*tiles, bx1 as int, y2)
                    &&& exists|x2: int| tile_present(*tiles, x2, by0 as int)
                    &&& exists|x2: int| tile_present(*tiles, x2, by1 as int)
                },
            decreases rows - y,
        {
            let t = tiles.get(x, y);
            if !matches!(t, Tile::Absent) {
                assert(tile_present(*tiles, x as int, y as int));
                if !found {
                    found = true;
                    bx0 = x;
                    by0 = y;
                    bx1 = x;
                    by1 = y;
                } else {
                    if x < bx0 {
                        bx0 = x;
                    }
                    if x > bx1 {
                        bx1 = x;
                    }
                    if y < by0 {
                        by0 = y;
                    }
                    if y > by1 {
                        by1 = y;
                    }
                }
            }
            y = y + 1;
        }
        x = x + 1;
    }
    if found {
        Some((bx0 as u32, by0 as u32, bx1 as u32, by1 as u32))
    } else {
        assert forall|x2: int, y2: int| !tile_present(*tiles, x2, y2) by {
            if tiles.in_bounds(x2, y2) {
                assert(x2 < cols);
            }
        }
        None
    }
}

impl Level {
    /// Builds a level from a tile layer: floor tiles become placeable
    /// `Empty` cells of both the grid and the floor layer, everything else
    /// stays void, and the level's bounds are the bounding box of all
    /// tiles.  Returns `None` when the layer holds no tile at all.  Devices
    /// are added afterwards with `force_place`.
    pub fn new_from_tiles(tiles: &Grid<Tile>) -> (r: Option<Level>)
        requires
            tiles.wf(),
            tiles.rows <= i32::MAX,
            tiles.cols <= i32::MAX,
        ensures
            match r {
                None => forall|x: int, y: int| !tile_present(*tiles, x, y),
                Some(l) => {
                    &&& l.inv()
                    &&& l.grid.rows == tiles.rows
                    &&& l.grid.cols == tiles.cols
                    &&& l.devices@.len() == 0
                    &&& l.lasers@.len() == 0
                    &&& l.nr_goals == 0
                    &&& l.nr_goals_fulfilled == 0
                    &&& forall|x: int, y: int|
                        l.grid.in_bounds(x, y) ==> #[trigger] l.grid.at(x, y) == (
                        if tiles.at(x, y) is Floor {
                            GridCell::Empty
                        } else {
                            GridCell::Void
                        })
                    &&& forall|x: int, y: int|
                        l.grid.in_bounds(x, y) ==> #[trigger] l.floor_grid.at(x, y) == (
                        if tiles.at(x, y) is Floor {
                            GridCell::Empty
                        } else {
                            GridCell::Void
                        })
                    &&& forall|x: int, y: int|
                        l.grid.in_bounds(x, y) ==> #[trigger] l.h_laser_ends.at(x, y)
                            is None
                    &&& l.bounds.0 <= l.bounds.2 < tiles.cols
                    &&& l.bounds.1 <= l.bounds.3 < tiles.rows
                    &&& forall|x: int, y: int|
                        tile_present(*tiles, x, y) ==> l.bounds.0 <= x <= l.bounds.2
                            && l.bounds.1 <= y <= l.bounds.3
                    &&& exists|y: int| tile_present(*tiles, l.bounds.0 as int, y)
                    &&& exists|y: int| tile_present(*tiles, l.bounds.2 as int, y)
                    &&& exists|x: int| tile_present(*tiles, x, l.bounds.1 as int)
                    &&& exists|x: int| tile_present(*tiles, x, l.bounds.3 as int)
                },
            },
    {
        let bounds = match scan_bounds(tiles) {
            Some(b) => b,
            None => {
                return None;
            },
        };
        let rows = tiles.rows;
        let cols = tiles.cols;
        let mut grid: Grid<GridCell> = Grid::new(rows, cols, GridCell::Void);
        let mut floor_grid: Grid<GridCell> = Grid::new(rows, cols, GridCell::Void);
        let h_laser_ends: Grid<Option<LaserValue>> = Grid::new(rows, cols, None);
        let mut x: usize = 0;
        while x < cols
            invariant
                tiles.wf(),
                rows == tiles.rows,
                cols == tiles.cols,
                1 <= rows <= i32::MAX,
                1 <= cols <= i32::MAX,
                grid.wf(),
                floor_grid.wf(),
                grid.rows == rows && grid.cols == cols,
                floor_grid.rows == rows && floor_grid.cols == cols,
                x <= cols,
                forall|x2: int, y2: int|
                    grid.in_bounds(x2, y2) ==> #[trigger] grid.at(x2, y2) == (
                    if x2 < x && tiles.at(x2, y2) is Floor {
                        GridCell::Empty
                    } else {
                        GridCell::Void
                    }),
                forall|x2: int, y2: int|
                    grid.in_bounds(x2, y2) ==> #[trigger] floor_grid.at(x2, y2) == (
                    if x2 < x && tiles.at(x2, y2) is Floor {
                        GridCell::Empty
                    } else {
                        GridCell::Void
                    }),
            decreases cols - x,
        {
            let mut y: usize = 0;
            while y < rows
                invariant
                    tiles.wf(),
                    rows == tiles.rows,
                    cols == tiles.cols,
                    1 <= rows <= i32::MAX,
                    1 <= cols <= i32::MAX,
                    grid.wf(),
                    floor_grid.wf(),
                    grid.rows == rows && grid.cols == cols,
                    floor_grid.rows == rows && floor_grid.cols == cols,
                    x < cols,
                    y <= rows,
                    forall|x2: int, y2: int|
                        grid.in_bounds(x2, y2) ==> #[trigger] grid.at(x2, y2) == (
                        if (x2 < x || (x2 == x && y2 < y)) && tiles.at(x2, y2) is Floor {
                            GridCell::Empty
                        } else {
                            GridCell::Void
                        }),
                    forall|x2: int, y2: int|
                        grid.in_bounds(x2, y2) ==> #[trigger] floor_grid.at(x2, y2) == (
                        if (x2 < x || (x2 == x && y2 < y)) && tiles.at(x2, y2) is Floor {
                            GridCell::Empty
                        } else {
                            GridCell::Void
                        }),
                decreases rows - y,
            {
                if matches!(tiles.get(x, y), Tile::Floor) {
                    grid.put(x, y, GridCell::Empty);
                    floor_grid.put(x, y, GridCell::Empty);
                }
                y = y + 1;
            }
            x = x + 1;
        }
        let level = Level {
            grid,
            floor_grid,
            devices: Vec::new(),
            lasers: Vec::new(),
            h_laser_ends,
            bounds,
            nr_goals: 0,
            nr_goals_fulfilled: 0,
        };
        Some(level)
    }
}

/// Footprint consistency: in a well-formed level, the grid cells holding
/// device `id` are exactly the cells of its footprint anchored at its
/// recorded position — its root precisely at the anchor — and no other
/// device's footprint overlaps any of them.
pub proof fn lemma_footprint_consistency(l: Level, id: int)
    requires
        l.inv(),
        0 <= id < l.devices@.len(),
    ensures
        forall|x: int, y: int|
            l.grid.in_bounds(x, y) ==> (refs_device(#[trigger] l.grid.at(x, y), id) <==> fp_hits(
                l.devices@[id].ty,
                l.devices@[id].x as int,
                l.devices@[id].y as int,
                x,
                y,
            )),
        forall|x: int, y: int|
            l.grid.in_bounds(x, y) ==> ((#[trigger] l.grid.at(x, y)) == GridCell::DeviceRoot(
                Gp { id: id as usize },
            ) <==> (x == l.devices@[id].x && y == l.devices@[id].y)),
        forall|id2: int, x: int, y: int|
            0 <= id2 < l.devices@.len() && id2 != id && l.grid.in_bounds(x, y) && fp_hits(
                l.devices@[id].ty,
                l.devices@[id].x as int,
                l.devices@[id].y as int,
                x,
                y,
            ) ==> !(#[trigger] fp_hits(
                l.devices@[id2].ty,
                l.devices@[id2].x as int,
                l.devices@[id2].y as int,
                x,
                y,
            )),
{
    let d = l.devices@[id];
    lemma_footprint_shape(d.ty);
    assert(l.device_placed(id));
    assert forall|x: int, y: int| l.grid.in_bounds(x, y) implies (refs_device(
        #[trigger] l.grid.at(x, y),
        id,
    ) <==> fp_hits(d.ty, d.x as int, d.y as int, x, y)) by {
        if fp_hits(d.ty, d.x as int, d.y as int, x, y) {
            let k = choose|k: int|
                0 <= k < d.ty.cells_spec().len() && d.x + (#[trigger] d.ty.cells_spec()[k]).0
                    == x && d.y + d.ty.cells_spec()[k].1 == y;
            assert(l.grid.at(x, y) == fp_cell(d.x as int, d.y as int, x, y, id));
        }
        if refs_device(l.grid.at(x, y), id) {
            assert(l.cell_backrefs_ok(x, y));
            match l.grid.at(x, y) {
                GridCell::DeviceRoot(g) => {
                    assert(g.id as int == id);
                    assert(x == d.x && y == d.y);
                    assert(d.ty.cells_spec()[0] == (0i32, 0i32));
                    assert(d.x + d.ty.cells_spec()[0].0 == x && d.y + d.ty.cells_spec()[0].1
                        == y);
                    assert(fp_hits(d.ty, d.x as int, d.y as int, x, y));
                },
                GridCell::DeviceEtc(g) => {
                    assert(g.id as int == id);
                    assert(l.devices[g.id as int] == d);
                    assert(fp_hits(
                        l.devices[g.id as int].ty,
                        l.devices[g.id as int].x as int,
                        l.devices[g.id as int].y as int,
                        x,
                        y,
                    ));
                    assert(fp_hits(d.ty, d.x as int, d.y as int, x, y));
                },
                _ => {},
            }
            assert(fp_hits(d.ty, d.x as int, d.y as int, x, y));
        }
    }
    assert forall|x: int, y: int| l.grid.in_bounds(x, y) implies ((#[trigger] l.grid.at(x, y))
        == GridCell::DeviceRoot(Gp { id: id as usize }) <==> (x == d.x && y == d.y)) by {
        if x == d.x && y == d.y {
            assert(l.grid.at(x, y) == fp_cell(d.x as int, d.y as int, x, y, id)) by {
                assert(d.ty.cells_spec()[0] == (0i32, 0i32));
            }
        }
        if l.grid.at(x, y) == GridCell::DeviceRoot(Gp { id: id as usize }) {
            assert(l.cell_backrefs_ok(x, y));
        }
    }
    assert forall|id2: int, x: int, y: int|
        0 <= id2 < l.devices@.len() && id2 != id && l.grid.in_bounds(x, y) && fp_hits(
            d.ty,
            d.x as int,
            d.y as int,
            x,
            y,
        ) implies !(#[trigger] fp_hits(
        l.devices@[id2].ty,
        l.devices@[id2].x as int,
        l.devices@[id2].y as int,
        x,
        y,
    )) by {
        let k = choose|k: int|
            0 <= k < d.ty.cells_spec().len() && d.x + (#[trigger] d.ty.cells_spec()[k]).0 == x
                && d.y + d.ty.cells_spec()[k].1 == y;
        assert(l.grid.at(x, y) == fp_cell(d.x as int, d.y as int, x, y, id));
        if fp_hits(l.devices@[id2].ty, l.devices@[id2].x as int, l.devices@[id2].y as int, x, y) {
            let d2 = l.devices@[id2];
            assert(l.device_placed(id2));
            let k2 = choose|k2: int|
                0 <= k2 < d2.ty.cells_spec().len() && d2.x + (
                #[trigger] d2.ty.cells_spec()[k2]).0 == x && d2.y + d2.ty.cells_spec()[k2].1
                    == y;
            assert(l.grid.at(x, y) == fp_cell(d2.x as int, d2.y as int, x, y, id2));
            assert(l.devices.len() == l.devices@.len());
            assert(id as usize as int == id && id2 as usize as int == id2);
            assert(false);
        }
    }
}

/// Move idempotence on rejection: when a device sits at its claimed spot
/// and the destination is neither strictly nor provisionally placeable,
/// `move_from` leaves the level exactly as it was — the same device
/// array, the same grid cells — while returning false (its result being
/// `mid_placeable`).  `pre` is the level before such a call and `post`
/// any level related to it as `move_from`'s contract promises.
pub proof fn lemma_move_rejected_restores(pre: Level, post: Level, id: int, to_x: i32, to_y: i32)
    requires
        pre.inv(),
        0 <= id < pre.devices@.len(),
        !pre.mid_placeable(
            id,
            pre.devices@[id].x as int,
            pre.devices@[id].y as int,
            to_x as int,
            to_y as int,
        ),
        !pre.mid_pseudo_placeable(
            id,
            pre.devices@[id].x as int,
            pre.devices@[id].y as int,
            to_x as int,
            to_y as int,
        ),
        post.grid.wf(),
        post.grid.rows == pre.grid.rows,
        post.grid.cols == pre.grid.cols,
        post.devices@ == pre.devices@.update(
            id,
            Device {
                x: pre.move_dest(id, pre.devices@[id].x, pre.devices@[id].y, to_x, to_y).0,
                y: pre.move_dest(id, pre.devices@[id].x, pre.devices@[id].y, to_x, to_y).1,
                locked: pre.devices@[id].locked,
                ty: pre.devices@[id].ty,
            },
        ),
        forall|x2: int, y2: int|
            pre.grid.in_bounds(x2, y2) ==> #[trigger] post.grid.at(x2, y2) == pre.moved_cell(
                id,
                pre.devices@[id].x as int,
                pre.devices@[id].y as int,
                pre.move_dest(id, pre.devices@[id].x, pre.devices@[id].y, to_x, to_y).0 as int,
                pre.move_dest(id, pre.devices@[id].x, pre.devices@[id].y, to_x, to_y).1 as int,
                x2,
                y2,
            ),
    ensures
        post.devices@ == pre.devices@,
        post.grid.cells@ == pre.grid.cells@,
{
    let d = pre.devices@[id];
    assert(pre.move_dest(id, d.x, d.y, to_x, to_y) == (d.x, d.y));
    assert(post.devices@ =~= pre.devices@);
    assert(pre.device_placed(id));
    assert forall|x2: int, y2: int| pre.grid.in_bounds(x2, y2) implies pre.moved_cell(
        id,
        d.x as int,
        d.y as int,
        d.x as int,
        d.y as int,
        x2,
        y2,
    ) == #[trigger] pre.grid.at(x2, y2) by {
        if fp_hits(d.ty, d.x as int, d.y as int, x2, y2) {
            let k = choose|k: int|
                0 <= k < d.ty.cells_spec().len() && d.x + (#[trigger] d.ty.cells_spec()[k]).0
                    == x2 && d.y + d.ty.cells_spec()[k].1 == y2;
            assert(pre.grid.at(x2, y2) == fp_cell(d.x as int, d.y as int, x2, y2, id));
        }
    }
    assert forall|x2: int, y2: int|
        post.grid.in_bounds(x2, y2) implies post.grid.at(x2, y2) == #[trigger] pre.grid.at(
        x2,
        y2,
    ) by {}
    post.grid.lemma_cellwise_equal(pre.grid);
}

/// Pseudo-placement allowance: when the destination is provisionally but
/// not strictly placeable — every footprint cell empty or void, at least
/// one not empty — `move_from` does place the device at the destination,
/// writing its root there, while still reporting the move as not strictly
/// valid (its result being `mid_placeable`, which is false).  `pre` is
/// the level before such a call and `post` any level related to it as
/// `move_from`'s contract promises.
pub proof fn lemma_pseudo_placement_allowed(
    pre: Level,
    post: Level,
    id: int,
    cx: i32,
    cy: i32,
    to_x: i32,
    to_y: i32,
)
    requires
        pre.inv(),
        0 <= id < pre.devices@.len(),
        !pre.mid_placeable(id, cx as int, cy as int, to_x as int, to_y as int),
        pre.mid_pseudo_placeable(id, cx as int, cy as int, to_x as int, to_y as int),
        post.devices@ == pre.devices@.update(
            id,
            Device {
                x: pre.move_dest(id, cx, cy, to_x, to_y).0,
                y: pre.move_dest(id, cx, cy, to_x, to_y).1,
                locked: pre.devices@[id].locked,
                ty: pre.devices@[id].ty,
            },
        ),
        forall|x2: int, y2: int|
            pre.grid.in_bounds(x2, y2) ==> #[trigger] post.grid.at(x2, y2) == pre.moved_cell(
                id,
                cx as int,
                cy as int,
                pre.move_dest(id, cx, cy, to_x, to_y).0 as int,
                pre.move_dest(id, cx, cy, to_x, to_y).1 as int,
                x2,
                y2,
            ),
    ensures
        pre.move_dest(id, cx, cy, to_x, to_y) == (to_x, to_y),
        post.devices@[id].x == to_x && post.devices@[id].y == to_y,
        post.grid.at(to_x as int, to_y as int) == GridCell::DeviceRoot(Gp { id: id as usize }),
{
    let ty = pre.devices@[id].ty;
    lemma_footprint_shape(ty);
    assert(ty.cells_spec()[0] == (0i32, 0i32));
    // The anchor cell itself belongs to the footprint, so it is in
    // bounds and carries the freshly written root.
    assert(pre.grid.in_bounds(to_x as int + (ty.cells_spec()[0]).0, to_y as int
        + ty.cells_spec()[0].1));
    assert(fp_hits(ty, to_x as int, to_y as int, to_x as int, to_y as int));
}

/// At most every device is a goal device.
proof fn lemma_goal_count_le_len(devices: Seq<Device>)
    ensures
        0 <= goal_count(devices) <= devices.len(),
    decreases devices.len(),
{
    if devices.len() > 0 {
        lemma_goal_count_le_len(devices.drop_last());
    }
}

/// The number of goal devices is unchanged by updating a device to one of
/// the same kind.
proof fn lemma_goal_count_update(devices: Seq<Device>, id: int, d: Device)
    requires
        0 <= id < devices.len(),
        (devices[id].ty is Goal) == (d.ty is Goal),
    ensures
        goal_count(devices.update(id, d)) == goal_count(devices),
    decreases devices.len(),
{
    let upd = devices.update(id, d);
    if id == devices.len() - 1 {
        assert(upd.drop_last() =~= devices.drop_last());
    } else {
        assert(upd.drop_last() =~= devices.drop_last().update(id, d));
        lemma_goal_count_update(devices.drop_last(), id, d);
    }
}

} // verus!
