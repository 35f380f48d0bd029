//! Laser propagation.
//!
//! Once per simulation tick the level clears its laser state and sweeps the
//! grid in column-major order, columns strictly left to right.  Every
//! device root encountered runs its emission rule against the beam ends
//! recorded so far, and each freshly emitted beam is immediately extended
//! to the right until something blocks it, recording its value at the cell
//! where it stops.  The traversal order is a contract, not an accident:
//! beams only ever travel rightwards, so when a device in a later column
//! reads the beam ending at one of its cells, that beam has already been
//! fully extended.  Devices within one column never feed each other, so the
//! row order inside a column is free.
//!
//! The whole pass is specified against the recursive model `sweep`, a pure
//! function of the grid and the device arena alone.

use vstd::prelude::*;

use crate::color::{close_spec, close_to, mix, mix_spec};
use crate::device::{Device, DeviceTy, Laser, LaserValue};
use crate::grid::{lemma_flat_index_in_range, Grid};
use crate::level::{device_color_wf, GridCell, Level};

verus! {

/// The state the propagation sweep threads along: the beams emitted so
/// far, the per-cell record of beam ends (flat, in grid order), and how
/// many goals have been fulfilled.
pub struct PropState {
    pub lasers: Seq<Laser>,
    pub ends: Seq<Option<LaserValue>>,
    pub goals: int,
}

/// Whether a beam travels through cell `(x, y)`: in bounds and `Empty` or
/// `Void`.
pub open spec fn travelable(cells: Seq<GridCell>, rows: nat, cols: nat, x: int, y: int) -> bool {
    0 <= x < cols && 0 <= y < rows && (cells[x * rows + y] is Empty || cells[x * rows + y]
        is Void)
}

/// The column where a beam starting at `(x, y)` stops: the first
/// non-travelable column strictly right of `x`.
pub open spec fn run_stop(cells: Seq<GridCell>, rows: nat, cols: nat, x: int, y: int) -> int
    decreases cols - x,
{
    if travelable(cells, rows, cols, x + 1, y) {
        run_stop(cells, rows, cols, x + 1, y)
    } else {
        x + 1
    }
}

/// The beam-end value recorded at `(x, y)`, `None` outside the grid.
pub open spec fn ends_read(
    ends: Seq<Option<LaserValue>>,
    rows: nat,
    cols: nat,
    x: int,
    y: int,
) -> Option<LaserValue> {
    if 0 <= x < cols && 0 <= y < rows {
        ends[x * rows + y]
    } else {
        None
    }
}

/// The beams a device of kind `ty` at `(x, y)` emits, given the beam ends
/// recorded so far: an emitter fires unconditionally; a mixer needs both
/// its inputs and emits their normalized average at its lower cell; a hook
/// duplicates its input onto both its cells; everything else is silent.
pub open spec fn emits(
    ty: DeviceTy,
    x: i32,
    y: i32,
    ends: Seq<Option<LaserValue>>,
    rows: nat,
    cols: nat,
) -> Seq<Laser> {
    match ty {
        DeviceTy::Mix => {
            match (
                ends_read(ends, rows, cols, x as int, y as int),
                ends_read(ends, rows, cols, x as int, y as int + 1),
            ) {
                (Some(left), Some(right)) => seq![
                    Laser {
                        x,
                        y: (y + 1) as i32,
                        length: 0,
                        value: LaserValue { color: mix_spec(left.color, right.color) },
                    },
                ],
                _ => seq![],
            }
        },
        DeviceTy::Emitter(v) => seq![Laser { x, y, length: 0, value: v }],
        DeviceTy::Hook => {
            match ends_read(ends, rows, cols, x as int, y as int) {
                Some(input) => seq![
                    Laser { x, y, length: 0, value: input },
                    Laser { x, y: (y + 1) as i32, length: 0, value: input },
                ],
                None => seq![],
            }
        },
        _ => seq![],
    }
}

/// Whether a device of kind `ty` at `(x, y)` fulfills its goal: only a
/// goal device does, when a beam ends at its cell with a color matching
/// its target within the tolerance.
pub open spec fn fulfills(
    ty: DeviceTy,
    x: i32,
    y: i32,
    ends: Seq<Option<LaserValue>>,
    rows: nat,
    cols: nat,
) -> bool {
    match ty {
        DeviceTy::Goal(v) => match ends_read(ends, rows, cols, x as int, y as int) {
            Some(input) => close_spec(v.color, input.color),
            None => false,
        },
        _ => false,
    }
}

/// A freshly emitted beam after extension: its length counts the
/// travelable cells to its right, plus one so that even a fully blocked
/// beam is drawn one cell long.
pub open spec fn extended_laser(cells: Seq<GridCell>, rows: nat, cols: nat, l: Laser) -> Laser {
    Laser {
        x: l.x,
        y: l.y,
        length: (run_stop(cells, rows, cols, l.x as int, l.y as int) - l.x) as i32,
        value: l.value,
    }
}

/// The beam-end record after extending beam `l`: its value is written at
/// the cell where it stops, if that cell lies inside the grid.
pub open spec fn ends_after_extend(
    cells: Seq<GridCell>,
    rows: nat,
    cols: nat,
    ends: Seq<Option<LaserValue>>,
    l: Laser,
) -> Seq<Option<LaserValue>> {
    let stop = run_stop(cells, rows, cols, l.x as int, l.y as int);
    if stop < cols {
        ends.update(stop * rows + l.y, Some(l.value))
    } else {
        ends
    }
}

/// Extends every beam from index `i` on, in order.
pub open spec fn extend_batch(
    cells: Seq<GridCell>,
    rows: nat,
    cols: nat,
    st: PropState,
    i: int,
) -> PropState
    decreases st.lasers.len() - i,
{
    if i < 0 || i >= st.lasers.len() {
        st
    } else {
        let l = st.lasers[i];
        let st2 = PropState {
            lasers: st.lasers.update(i, extended_laser(cells, rows, cols, l)),
            ends: ends_after_extend(cells, rows, cols, st.ends, l),
            goals: st.goals,
        };
        extend_batch(cells, rows, cols, st2, i + 1)
    }
}

/// Processes one cell of the sweep: a device root runs its emission rule,
/// its goal check is counted, and every beam it emitted is extended at
/// once; all other cells change nothing.
pub open spec fn process_cell(
    cells: Seq<GridCell>,
    rows: nat,
    cols: nat,
    devices: Seq<Device>,
    st: PropState,
    x: int,
    y: int,
) -> PropState {
    match cells[x * rows + y] {
        GridCell::DeviceRoot(g) => {
            let ty = devices[g.id as int].ty;
            let st1 = PropState {
                lasers: st.lasers + emits(ty, x as i32, y as i32, st.ends, rows, cols),
                ends: st.ends,
                goals: st.goals + if fulfills(ty, x as i32, y as i32, st.ends, rows, cols) {
                    1int
                } else {
                    0int
                },
            };
            extend_batch(cells, rows, cols, st1, st.lasers.len() as int)
        },
        _ => st,
    }
}

/// The full propagation sweep from cell `(x, y)` on, in column-major
/// order: columns left to right, rows top to bottom within a column.
pub open spec fn sweep(
    cells: Seq<GridCell>,
    rows: nat,
    cols: nat,
    devices: Seq<Device>,
    st: PropState,
    x: int,
    y: int,
) -> PropState
    decreases cols - x, rows - y,
{
    if x >= cols {
        st
    } else if y >= rows {
        sweep(cells, rows, cols, devices, st, x + 1, 0)
    } else {
        sweep(cells, rows, cols, devices, process_cell(cells, rows, cols, devices, st, x, y), x, y
            + 1)
    }
}

/// A beam always stops strictly right of where it starts.
proof fn lemma_run_stop_ge(cells: Seq<GridCell>, rows: nat, cols: nat, x: int, y: int)
    ensures
        run_stop(cells, rows, cols, x, y) > x,
    decreases cols - x,
{
    if travelable(cells, rows, cols, x + 1, y) {
        lemma_run_stop_ge(cells, rows, cols, x + 1, y);
    }
}

/// The level invariant does not depend on the laser state: it carries
/// over to any level with the same grid, floor layer, and devices, as long
/// as the beam-end grid keeps the right shape.
proof fn lemma_inv_same_placement(a: Level, b: Level)
    requires
        a.inv(),
        b.grid == a.grid,
        b.floor_grid == a.floor_grid,
        b.devices == a.devices,
        b.nr_goals == a.nr_goals,
        b.h_laser_ends.wf(),
        b.h_laser_ends.rows == b.grid.rows,
        b.h_laser_ends.cols == b.grid.cols,
    ensures
        b.inv(),
{
    assert(b.shape_inv());
    assert forall|id: int| 0 <= id < b.devices.len() implies b.device_placed(id) by {
        assert(a.device_placed(id));
    }
    assert forall|x: int, y: int| b.grid.in_bounds(x, y) implies b.cell_backrefs_ok(x, y) by {
        assert(a.cell_backrefs_ok(x, y));
    }
}

impl Level {
    /// The state a propagation pass starts from: no beams, no recorded
    /// ends, no fulfilled goals.
    pub open spec fn initial_prop_state(self) -> PropState {
        PropState {
            lasers: Seq::empty(),
            ends: Seq::new((self.grid.rows * self.grid.cols) as nat, |i: int| None),
            goals: 0,
        }
    }

    /// What a propagation pass over this level produces: a pure function
    /// of the grid and the device arena alone.
    pub open spec fn prop_result(self) -> PropState {
        sweep(
            self.grid.cells@,
            self.grid.rows as nat,
            self.grid.cols as nat,
            self.devices@,
            self.initial_prop_state(),
            0,
            0,
        )
    }
}

/// Laser propagation is deterministic: two levels with the same grid and
/// the same devices produce the same beams, beam ends, and goal count, no
/// matter what laser state they carried before.
pub proof fn lemma_propagation_deterministic(a: Level, b: Level)
    requires
        a.grid.cells@ == b.grid.cells@,
        a.grid.rows == b.grid.rows,
        a.grid.cols == b.grid.cols,
        a.devices@ == b.devices@,
    ensures
        a.prop_result() == b.prop_result(),
{
}

/// Reads the recorded beam end at `(x, y)`, `None` outside the grid.
fn ends_get(ends_h: &Grid<Option<LaserValue>>, x: i32, y: i32) -> (r: Option<LaserValue>)
    requires
        ends_h.wf(),
    ensures
        r == ends_read(ends_h.cells@, ends_h.rows as nat, ends_h.cols as nat, x as int, y as int),
{
    if x < 0 || y < 0 {
        return None;
    }
    if x as u64 >= ends_h.cols as u64 {
        return None;
    }
    if y as u64 >= ends_h.rows as u64 {
        return None;
    }
    proof {
        lemma_flat_index_in_range(ends_h.rows as int, ends_h.cols as int, x as int, y as int);
    }
    ends_h.get(x as usize, y as usize)
}

/// Every recorded beam end carries a well-formed color.
pub open spec fn ends_wf(ends: Seq<Option<LaserValue>>) -> bool {
    forall|i: int|
        0 <= i < ends.len() ==> match #[trigger] ends[i] {
            Some(v) => v.color.wf(),
            None => true,
        }
}

impl DeviceTy {
    /// Runs this kind's emission rule at `(x, y)`: emitted beams are
    /// appended to `lasers` with length zero, and the return value says
    /// whether a goal was fulfilled.
    pub fn make_lasers(
        &self,
        x: i32,
        y: i32,
        lasers: &mut Vec<Laser>,
        ends_h: &Grid<Option<LaserValue>>,
    ) -> (goal: bool)
        requires
            ends_h.wf(),
            device_color_wf(*self),
            ends_wf(ends_h.cells@),
            y < i32::MAX,
        ensures
            final(lasers)@ == old(lasers)@ + emits(
                *self,
                x,
                y,
                ends_h.cells@,
                ends_h.rows as nat,
                ends_h.cols as nat,
            ),
            goal == fulfills(
                *self,
                x,
                y,
                ends_h.cells@,
                ends_h.rows as nat,
                ends_h.cols as nat,
            ),
            forall|i: int|
                old(lasers)@.len() <= i < final(lasers)@.len()
                    ==> (#[trigger] final(lasers)@[i]).value.color.wf(),
    {
        let ghost rows = ends_h.rows as nat;
        let ghost cols = ends_h.cols as nat;
        match self {
            DeviceTy::Mix => {
                let left = ends_get(ends_h, x, y);
                let right = ends_get(ends_h, x, y + 1);
                match (left, right) {
                    (Some(left), Some(right)) => {
                        proof {
                            if ends_h.in_bounds(x as int, y as int) {
                                lemma_flat_index_in_range(
                                    ends_h.rows as int,
                                    ends_h.cols as int,
                                    x as int,
                                    y as int,
                                );
                            }
                            if ends_h.in_bounds(x as int, y as int + 1) {
                                lemma_flat_index_in_range(
                                    ends_h.rows as int,
                                    ends_h.cols as int,
                                    x as int,
                                    y as int + 1,
                                );
                            }
                        }
                        let mixed = mix(left.color, right.color);
                        lasers.push(
                            Laser { x, y: y + 1, length: 0, value: LaserValue { color: mixed } },
                        );
                        proof {
                            assert(lasers@ =~= old(lasers)@ + emits(
                                *self,
                                x,
                                y,
                                ends_h.cells@,
                                rows,
                                cols,
                            ));
                        }
                        false
                    },
                    _ => {
                        proof {
                            assert(lasers@ =~= old(lasers)@ + emits(
                                *self,
                                x,
                                y,
                                ends_h.cells@,
                                rows,
                                cols,
                            ));
                        }
                        false
                    },
                }
            },
            DeviceTy::Emitter(v) => {
                lasers.push(Laser { x, y, length: 0, value: *v });
                proof {
                    assert(lasers@ =~= old(lasers)@ + emits(
                        *self,
                        x,
                        y,
                        ends_h.cells@,
                        rows,
                        cols,
                    ));
                }
                false
            },
            DeviceTy::Goal(v) => {
                proof {
                    assert(lasers@ =~= old(lasers)@ + emits(
                        *self,
                        x,
                        y,
                        ends_h.cells@,
                        rows,
                        cols,
                    ));
                }
                match ends_get(ends_h, x, y) {
                    Some(input) => close_to(v.color, input.color),
                    None => false,
                }
            },
            DeviceTy::Hook => {
                match ends_get(ends_h, x, y) {
                    Some(input) => {
                        proof {
                            if ends_h.in_bounds(x as int, y as int) {
                                lemma_flat_index_in_range(
                                    ends_h.rows as int,
                                    ends_h.cols as int,
                                    x as int,
                                    y as int,
                                );
                            }
                        }
                        lasers.push(Laser { x, y, length: 0, value: input });
                        lasers.push(Laser { x, y: y + 1, length: 0, value: input });
                        proof {
                            assert(lasers@ =~= old(lasers)@ + emits(
                                *self,
                                x,
                                y,
                                ends_h.cells@,
                                rows,
                                cols,
                            ));
                        }
                        false
                    },
                    None => {
                        proof {
                            assert(lasers@ =~= old(lasers)@ + emits(
                                *self,
                                x,
                                y,
                                ends_h.cells@,
                                rows,
                                cols,
                            ));
                        }
                        false
                    },
                }
            },
            _ => {
                proof {
                    assert(lasers@ =~= old(lasers)@ + emits(
                        *self,
                        x,
                        y,
                        ends_h.cells@,
                        rows,
                        cols,
                    ));
                }
                false
            },
        }
    }
}

impl Level {
    /// Extends the beam at index `idx`: walks right from its origin while
    /// cells let it pass, sets its length to the cells walked plus one,
    /// and records its value at the cell where it stopped, if that cell
    /// lies inside the grid.
    pub fn extend_laser_h(&mut self, idx: usize)
        requires
            old(self).shape_inv(),
            idx < old(self).lasers.len(),
            old(self).lasers[idx as int].length == 0,
            0 <= old(self).lasers[idx as int].x < old(self).grid.cols,
            0 <= old(self).lasers[idx as int].y < old(self).grid.rows,
        ensures
            final(self).shape_inv(),
            final(self).grid == old(self).grid,
            final(self).floor_grid == old(self).floor_grid,
            final(self).devices == old(self).devices,
            final(self).bounds == old(self).bounds,
            final(self).nr_goals == old(self).nr_goals,
            final(self).nr_goals_fulfilled == old(self).nr_goals_fulfilled,
            final(self).lasers@ == old(self).lasers@.update(
                idx as int,
                extended_laser(
                    old(self).grid.cells@,
                    old(self).grid.rows as nat,
                    old(self).grid.cols as nat,
                    old(self).lasers[idx as int],
                ),
            ),
            final(self).h_laser_ends.cells@ == ends_after_extend(
                old(self).grid.cells@,
                old(self).grid.rows as nat,
                old(self).grid.cols as nat,
                old(self).h_laser_ends.cells@,
                old(self).lasers[idx as int],
            ),
    {
        let ghost cells = self.grid.cells@;
        let ghost rows = self.grid.rows as nat;
        let ghost cols = self.grid.cols as nat;
        let l = self.lasers[idx];
        let mut x: i32 = l.x + 1;
        let mut len: i32 = 0;
        while self.is_in_bounds_and_laser_travelable(x, l.y)
            invariant
                *self == *old(self),
                self.shape_inv(),
                l == old(self).lasers[idx as int],
                cells == self.grid.cells@,
                rows == self.grid.rows as nat,
                cols == self.grid.cols as nat,
                0 <= l.x < cols,
                0 <= l.y < rows,
                l.x < x <= cols,
                len == x - l.x - 1,
                run_stop(cells, rows, cols, l.x as int, l.y as int) == run_stop(
                    cells,
                    rows,
                    cols,
                    x - 1,
                    l.y as int,
                ),
            decreases self.grid.cols - x,
        {
            proof {
                assert(travelable(cells, rows, cols, x as int, l.y as int));
            }
            len = len + 1;
            x = x + 1;
        }
        proof {
            assert(!travelable(cells, rows, cols, x as int, l.y as int));
            assert(run_stop(cells, rows, cols, x - 1, l.y as int) == x as int);
        }
        len = len + 1;
        let mut updated = l;
        updated.length = len;
        self.lasers.set(idx, updated);
        proof {
            assert(updated == extended_laser(cells, rows, cols, l));
        }
        if (x as u64) < (self.h_laser_ends.cols as u64) {
            self.h_laser_ends.put(x as usize, l.y as usize, Some(l.value));
        }
    }

    /// Rebuilds the laser state from scratch: clears every recorded beam
    /// end and every beam, sweeps the grid column by column running each
    /// device root's emission rule and extending its beams at once, and
    /// counts the fulfilled goals.  The result is exactly the recursive
    /// model `sweep`, a pure function of the grid and the devices.
    pub fn build_lasers(&mut self)
        requires
            old(self).inv(),
        ensures
            final(self).inv(),
            final(self).grid == old(self).grid,
            final(self).floor_grid == old(self).floor_grid,
            final(self).devices == old(self).devices,
            final(self).bounds == old(self).bounds,
            final(self).nr_goals == old(self).nr_goals,
            final(self).lasers@ == old(self).prop_result().lasers,
            final(self).h_laser_ends.cells@ == old(self).prop_result().ends,
            final(self).nr_goals_fulfilled as int == old(self).prop_result().goals,
            forall|i: int|
                0 <= i < final(self).lasers@.len()
                    ==> (#[trigger] final(self).lasers@[i]).value.color.wf(),
    {
        let ghost cells = self.grid.cells@;
        let ghost rows_n = self.grid.rows as nat;
        let ghost cols_n = self.grid.cols as nat;
        let ghost devs = self.devices@;
        self.h_laser_ends.fill(None);
        self.lasers.clear();
        proof {
            lemma_inv_same_placement(*old(self), *self);
            assert(self.lasers@ =~= old(self).initial_prop_state().lasers);
            assert(self.h_laser_ends.cells@ =~= old(self).initial_prop_state().ends);
        }
        let ghost st0 = old(self).initial_prop_state();
        let ghost target = sweep(cells, rows_n, cols_n, devs, st0, 0, 0);
        let rows = self.grid.rows;
        let cols = self.grid.cols;
        let mut laser_len: usize = 0;
        let mut fulfilled: usize = 0;
        let mut x: usize = 0;
        while x < cols
            invariant
                self.inv(),
                self.grid == old(self).grid,
                self.floor_grid == old(self).floor_grid,
                self.devices == old(self).devices,
                self.bounds == old(self).bounds,
                self.nr_goals == old(self).nr_goals,
                self.nr_goals_fulfilled == old(self).nr_goals_fulfilled,
                cells == self.grid.cells@,
                rows_n == self.grid.rows as nat,
                cols_n == self.grid.cols as nat,
                devs == self.devices@,
                rows == self.grid.rows,
                cols == self.grid.cols,
                x <= cols,
                laser_len == self.lasers.len(),
                fulfilled as int <= x as int * rows as int,
                target == old(self).prop_result(),
                sweep(
                    cells,
                    rows_n,
                    cols_n,
                    devs,
                    PropState {
                        lasers: self.lasers@,
                        ends: self.h_laser_ends.cells@,
                        goals: fulfilled as int,
                    },
                    x as int,
                    0,
                ) == target,
                forall|i: int|
                    0 <= i < self.lasers@.len() ==> (#[trigger] self.lasers@[i]).value.color.wf(),
                ends_wf(self.h_laser_ends.cells@),
            decreases cols - x,
        {
            let mut y: usize = 0;
            proof {
                assert(fulfilled as int <= x as int * rows as int + y as int);
            }
            while y < rows
                invariant
                    self.inv(),
                    self.grid == old(self).grid,
                    self.floor_grid == old(self).floor_grid,
                    self.devices == old(self).devices,
                    self.bounds == old(self).bounds,
                    self.nr_goals == old(self).nr_goals,
                    self.nr_goals_fulfilled == old(self).nr_goals_fulfilled,
                    cells == self.grid.cells@,
                    rows_n == self.grid.rows as nat,
                    cols_n == self.grid.cols as nat,
                    devs == self.devices@,
                    rows == self.grid.rows,
                    cols == self.grid.cols,
                    x < cols,
                    y <= rows,
                    laser_len == self.lasers.len(),
                    fulfilled as int <= x as int * rows as int + y as int,
                    target == old(self).prop_result(),
                    sweep(
                        cells,
                        rows_n,
                        cols_n,
                        devs,
                        PropState {
                            lasers: self.lasers@,
                            ends: self.h_laser_ends.cells@,
                            goals: fulfilled as int,
                        },
                        x as int,
                        y as int,
                    ) == target,
                    forall|i: int|
                        0 <= i < self.lasers@.len() ==> (#[trigger] self.lasers@[i]).value.color.wf(),
                    ends_wf(self.h_laser_ends.cells@),
                decreases rows - y,
            {
                let ghost st_before = PropState {
                    lasers: self.lasers@,
                    ends: self.h_laser_ends.cells@,
                    goals: fulfilled as int,
                };
                let ghost st_after_cell = process_cell(
                    cells,
                    rows_n,
                    cols_n,
                    devs,
                    st_before,
                    x as int,
                    y as int,
                );
                proof {
                    lemma_flat_index_in_range(rows as int, cols as int, x as int, y as int);
                    assert(sweep(cells, rows_n, cols_n, devs, st_before, x as int, y as int)
                        == sweep(cells, rows_n, cols_n, devs, st_after_cell, x as int, y as int
                        + 1));
                }
                let cell = self.grid.get(x, y);
                match cell {
                    GridCell::DeviceRoot(g) => {
                        proof {
                            assert(self.cell_backrefs_ok(x as int, y as int));
                        }
                        let d = self.devices[g.id];
                        proof {
                            assert(device_color_wf(devs[g.id as int].ty));
                        }
                        let ghost lv_before = *self;
                        let goal = d.ty.make_lasers(
                            x as i32,
                            y as i32,
                            &mut self.lasers,
                            &self.h_laser_ends,
                        );
                        proof {
                            lemma_inv_same_placement(lv_before, *self);
                        }
                        if goal {
                            fulfilled = fulfilled + 1;
                        }
                        let ghost st1 = PropState {
                            lasers: st_before.lasers + emits(
                                d.ty,
                                x as i32,
                                y as i32,
                                st_before.ends,
                                rows_n,
                                cols_n,
                            ),
                            ends: st_before.ends,
                            goals: st_before.goals + if fulfills(
                                d.ty,
                                x as i32,
                                y as i32,
                                st_before.ends,
                                rows_n,
                                cols_n,
                            ) {
                                1int
                            } else {
                                0int
                            },
                        };
                        proof {
                            assert(self.lasers@ == st1.lasers);
                            assert(fulfilled as int == st1.goals);
                            assert(st_after_cell == extend_batch(
                                cells,
                                rows_n,
                                cols_n,
                                st1,
                                st_before.lasers.len() as int,
                            ));
                            // Freshly emitted beams start with length zero,
                            // inside the grid, and with well-formed colors.
                            assert(self.device_placed(g.id as int));
                            assert forall|i: int|
                                laser_len <= i < self.lasers@.len() implies {
                                let l = #[trigger] self.lasers@[i];
                                &&& l.length == 0
                                &&& 0 <= l.x < cols_n
                                &&& 0 <= l.y < rows_n
                                &&& l.value.color.wf()
                            } by {
                                let emitted = emits(
                                    d.ty,
                                    x as i32,
                                    y as i32,
                                    st_before.ends,
                                    rows_n,
                                    cols_n,
                                );
                                assert(self.lasers@[i] == emitted[i - laser_len]);
                                match d.ty {
                                    DeviceTy::Hook => {
                                        assert(d.ty.cells_spec()[1] == (0i32, 1i32));
                                        assert(self.grid.in_bounds(
                                            d.x + (d.ty.cells_spec()[1]).0,
                                            d.y + d.ty.cells_spec()[1].1,
                                        ));
                                    },
                                    _ => {},
                                }
                            }
                        }
                        while laser_len < self.lasers.len()
                            invariant
                                self.inv(),
                                self.grid == old(self).grid,
                                self.floor_grid == old(self).floor_grid,
                                self.devices == old(self).devices,
                                self.bounds == old(self).bounds,
                                self.nr_goals == old(self).nr_goals,
                                self.nr_goals_fulfilled == old(self).nr_goals_fulfilled,
                                cells == self.grid.cells@,
                                rows_n == self.grid.rows as nat,
                                cols_n == self.grid.cols as nat,
                                devs == self.devices@,
                                rows == self.grid.rows,
                                cols == self.grid.cols,
                                laser_len <= self.lasers.len(),
                                extend_batch(
                                    cells,
                                    rows_n,
                                    cols_n,
                                    PropState {
                                        lasers: self.lasers@,
                                        ends: self.h_laser_ends.cells@,
                                        goals: fulfilled as int,
                                    },
                                    laser_len as int,
                                ) == st_after_cell,
                                forall|i: int|
                                    laser_len <= i < self.lasers@.len() ==> {
                                        let l = #[trigger] self.lasers@[i];
                                        &&& l.length == 0
                                        &&& 0 <= l.x < cols_n
                                        &&& 0 <= l.y < rows_n
                                        &&& l.value.color.wf()
                                    },
                                forall|i: int|
                                    0 <= i < self.lasers@.len() ==> (#[trigger] self.lasers@[i]).value.color.wf(),
                                ends_wf(self.h_laser_ends.cells@),
                            decreases self.lasers.len() - laser_len,
                        {
                            let ghost cur = PropState {
                                lasers: self.lasers@,
                                ends: self.h_laser_ends.cells@,
                                goals: fulfilled as int,
                            };
                            let ghost l = self.lasers@[laser_len as int];
                            let ghost lv_mid = *self;
                            self.extend_laser_h(laser_len);
                            laser_len = laser_len + 1;
                            proof {
                                lemma_inv_same_placement(lv_mid, *self);
                                let cur2 = PropState {
                                    lasers: self.lasers@,
                                    ends: self.h_laser_ends.cells@,
                                    goals: fulfilled as int,
                                };
                                assert(cur2.lasers == cur.lasers.update(
                                    laser_len - 1,
                                    extended_laser(cells, rows_n, cols_n, l),
                                ));
                                assert(cur2.ends == ends_after_extend(
                                    cells,
                                    rows_n,
                                    cols_n,
                                    cur.ends,
                                    l,
                                ));
                                assert(extend_batch(cells, rows_n, cols_n, cur, laser_len - 1)
                                    == extend_batch(cells, rows_n, cols_n, cur2, laser_len
                                    as int));
                                // The value written at the stopped beam's
                                // cell is the beam's own, so the record
                                // stays well-formed.
                                let stop = run_stop(cells, rows_n, cols_n, l.x as int, l.y
                                    as int);
                                if stop < cols_n {
                                    lemma_run_stop_ge(cells, rows_n, cols_n, l.x as int, l.y
                                        as int);
                                    lemma_flat_index_in_range(
                                        rows_n as int,
                                        cols_n as int,
                                        stop,
                                        l.y as int,
                                    );
                                    assert forall|j: int|
                                        0 <= j < self.h_laser_ends.cells@.len() implies match
                                        #[trigger] self.h_laser_ends.cells@[j] {
                                        Some(v) => v.color.wf(),
                                        None => true,
                                    } by {
                                        if j != stop * rows_n + l.y {
                                            assert(self.h_laser_ends.cells@[j] == cur.ends[j]);
                                        }
                                    }
                                }
                            }
                        }
                        proof {
                            assert(extend_batch(
                                cells,
                                rows_n,
                                cols_n,
                                PropState {
                                    lasers: self.lasers@,
                                    ends: self.h_laser_ends.cells@,
                                    goals: fulfilled as int,
                                },
                                laser_len as int,
                            ) == PropState {
                                lasers: self.lasers@,
                                ends: self.h_laser_ends.cells@,
                                goals: fulfilled as int,
                            });
                        }
                    },
                    _ => {
                        proof {
                            assert(st_after_cell == st_before);
                        }
                    },
                }
                y = y + 1;
            }
            x = x + 1;
            proof {
                assert(fulfilled as int <= x as int * rows as int) by (nonlinear_arith)
                    requires
                        fulfilled as int <= (x as int - 1) * rows as int + rows as int,
                ;
            }
        }
        let ghost lv_end = *self;
        self.nr_goals_fulfilled = fulfilled;
        proof {
            lemma_inv_same_placement(lv_end, *self);
            assert(sweep(
                cells,
                rows_n,
                cols_n,
                devs,
                PropState {
                    lasers: self.lasers@,
                    ends: self.h_laser_ends.cells@,
                    goals: fulfilled as int,
                },
                cols as int,
                0,
            ) == target);
        }
    }
}

} // verus!
