//! What to draw: the per-tick enumeration of render instances.
//!
//! The simulation hands the rendering collaborator a flat list of plain
//! instance descriptions: one body per placed device (goal devices also
//! get their colored light), and one scaled beam per laser.  Turning these
//! into meshes, materials, and transforms is the collaborator's business.

use vstd::prelude::*;

use crate::color::Color;
use crate::device::{Device, DeviceTy, Laser};
use crate::level::{GridCell, Level};

verus! {

/// One instance for the rendering collaborator to draw, in grid
/// coordinates.
#[derive(Clone, Copy, Debug, PartialEq, Eq, Structural)]
pub enum RenderItem {
    /// The colored glow of a goal device at its cell.
    GoalLight { x: i32, y: i32, color: Color },
    /// A device's body, drawn at its anchor with its kind's mesh and its
    /// locked or unlocked material.
    DeviceBody { x: i32, y: i32, ty: DeviceTy, locked: bool },
    /// A laser beam: drawn from its origin cell, stretched to its length.
    LaserBeam { x: i32, y: i32, length: i32, color: Color },
}

/// The instances cell `(x, y)` contributes: a device root yields its
/// body, preceded by its light if it is a goal; other cells yield nothing.
pub open spec fn cell_items(
    cells: Seq<GridCell>,
    devices: Seq<Device>,
    rows: nat,
    x: int,
    y: int,
) -> Seq<RenderItem> {
    match cells[x * rows + y] {
        GridCell::DeviceRoot(g) => {
            let d = devices[g.id as int];
            match d.ty {
                DeviceTy::Goal(v) => seq![
                    RenderItem::GoalLight { x: x as i32, y: y as i32, color: v.color },
                    RenderItem::DeviceBody {
                        x: x as i32,
                        y: y as i32,
                        ty: d.ty,
                        locked: d.locked,
                    },
                ],
                _ => seq![
                    RenderItem::DeviceBody {
                        x: x as i32,
                        y: y as i32,
                        ty: d.ty,
                        locked: d.locked,
                    },
                ],
            }
        },
        _ => seq![],
    }
}

/// The device instances of all cells from `(x, y)` on, in column-major
/// order.
pub open spec fn device_items_from(
    cells: Seq<GridCell>,
    devices: Seq<Device>,
    rows: nat,
    cols: nat,
    x: int,
    y: int,
) -> Seq<RenderItem>
    decreases cols - x, rows - y,
{
    if x >= cols {
        seq![]
    } else if y >= rows {
        device_items_from(cells, devices, rows, cols, x + 1, 0)
    } else {
        cell_items(cells, devices, rows, x, y) + device_items_from(
            cells,
            devices,
            rows,
            cols,
            x,
            y + 1,
        )
    }
}

/// One beam instance per laser, in laser order.
pub open spec fn laser_items(lasers: Seq<Laser>) -> Seq<RenderItem> {
    lasers.map(
        |i: int, l: Laser|
            RenderItem::LaserBeam { x: l.x, y: l.y, length: l.length, color: l.value.color },
    )
}

impl Level {
    /// Everything to draw for the current state: device bodies and goal
    /// lights in grid order, then one beam per laser.
    pub open spec fn render_items(self) -> Seq<RenderItem> {
        device_items_from(
            self.grid.cells@,
            self.devices@,
            self.grid.rows as nat,
            self.grid.cols as nat,
            0,
            0,
        ) + laser_items(self.lasers@)
    }

    /// Enumerates the current grid and laser state as a flat list of
    /// instances for the rendering collaborator.
    pub fn build_meshes(&self) -> (items: Vec<RenderItem>)
        requires
            self.inv(),
        ensures
            items@ == self.render_items(),
    {
        let ghost cells = self.grid.cells@;
        let ghost devs = self.devices@;
        let ghost rows_n = self.grid.rows as nat;
        let ghost cols_n = self.grid.cols as nat;
        let rows = self.grid.rows;
        let cols = self.grid.cols;
        let mut items: Vec<RenderItem> = Vec::new();
        let ghost all_dev_items = device_items_from(cells, devs, rows_n, cols_n, 0, 0);
        let mut x: usize = 0;
        proof {
            assert(items@ + device_items_from(cells, devs, rows_n, cols_n, 0, 0)
                =~= all_dev_items);
        }
        while x < cols
            invariant
                self.inv(),
                cells == self.grid.cells@,
                devs == self.devices@,
                rows_n == self.grid.rows as nat,
                cols_n == self.grid.cols as nat,
                rows == self.grid.rows,
                cols == self.grid.cols,
                x <= cols,
                items@ + device_items_from(cells, devs, rows_n, cols_n, x as int, 0)
                    == all_dev_items,
            decreases cols - x,
        {
            let mut y: usize = 0;
            while y < rows
                invariant
                    self.inv(),
                    cells == self.grid.cells@,
                    devs == self.devices@,
                    rows_n == self.grid.rows as nat,
                    cols_n == self.grid.cols as nat,
                    rows == self.grid.rows,
                    cols == self.grid.cols,
                    x < cols,
                    y <= rows,
                    items@ + device_items_from(cells, devs, rows_n, cols_n, x as int, y as int)
                        == all_dev_items,
                decreases rows - y,
            {
                proof {
                    crate::grid::lemma_flat_index_in_range(
                        rows as int,
                        cols as int,
                        x as int,
                        y as int,
                    );
                }
                let ghost items_pre = items@;
                let cell = self.grid.get(x, y);
                match cell {
                    GridCell::DeviceRoot(g) => {
                        proof {
                            assert(self.cell_backrefs_ok(x as int, y as int));
                        }
                        let d = self.devices[g.id];
                        if let DeviceTy::Goal(v) = d.ty {
                            items.push(
                                RenderItem::GoalLight { x: x as i32, y: y as i32, color: v.color },
                            );
                        }
                        items.push(
                            RenderItem::DeviceBody {
                                x: x as i32,
                                y: y as i32,
                                ty: d.ty,
                                locked: d.locked,
                            },
                        );
                        proof {
                            assert(items@ =~= items_pre + cell_items(cells, devs, rows_n, x
                                as int, y as int));
                        }
                    },
                    _ => {
                        proof {
                            assert(items@ =~= items_pre + cell_items(cells, devs, rows_n, x
                                as int, y as int));
                        }
                    },
                }
                proof {
                    assert((items_pre + cell_items(cells, devs, rows_n, x as int, y as int))
                        + device_items_from(cells, devs, rows_n, cols_n, x as int, y as int + 1)
                        =~= items_pre + (cell_items(cells, devs, rows_n, x as int, y as int)
                        + device_items_from(cells, devs, rows_n, cols_n, x as int, y as int
                        + 1)));
                }
                y = y + 1;
            }
            x = x + 1;
        }
        let ghost lasers = self.lasers@;
        let n = self.lasers.len();
        let mut i: usize = 0;
        proof {
            assert(lasers.take(0) =~= Seq::<Laser>::empty());
            assert(laser_items(lasers.take(0)) =~= Seq::<RenderItem>::empty());
            assert(items@ + laser_items(lasers.take(0)) =~= items@);
            assert(items@ =~= all_dev_items);
        }
        while i < n
            invariant
                self.inv(),
                lasers == self.lasers@,
                n == lasers.len(),
                i <= n,
                items@ == all_dev_items + laser_items(lasers.take(i as int)),
            decreases n - i,
        {
            let l = self.lasers[i];
            items.push(
                RenderItem::LaserBeam { x: l.x, y: l.y, length: l.length, color: l.value.color },
            );
            proof {
                assert(laser_items(lasers.take(i as int + 1)) =~= laser_items(
                    lasers.take(i as int),
                ).push(
                    RenderItem::LaserBeam {
                        x: l.x,
                        y: l.y,
                        length: l.length,
                        color: l.value.color,
                    },
                ));
            }
            i = i + 1;
        }
        proof {
            assert(lasers.take(n as int) =~= lasers);
            assert(items@ =~= self.render_items());
        }
        items
    }
}

} // verus!
