//! Devices and their catalog.
//!
//! Every device on the grid has a `DeviceTy` that fixes its footprint (cell
//! offsets from its anchor), its bounding box, the drag-handle shape shown
//! when it is selected, and its laser behavior.  Devices themselves live in
//! an arena owned by the level; grid cells refer to them through the stable
//! integer handle `Gp`.

use vstd::prelude::*;

use crate::color::Color;

verus! {

/// A stable handle to a device in the level's arena.
#[derive(Clone, Copy, Debug, PartialEq, Eq, Structural)]
pub struct Gp {
    pub id: usize,
}

impl Gp {
    /// Makes a handle to the device with index `id`.
    pub fn new(id: usize) -> (g: Gp)
        ensures
            g.id == id,
    {
        Gp { id }
    }

    /// Repoints this handle at the same device as `other`.
    pub fn set(&mut self, other: &Gp)
        ensures
            final(self).id == other.id,
    {
        self.id = other.id;
    }

    /// Whether the two handles name the same device.
    pub fn has_same_id(&self, other: &Gp) -> (same: bool)
        ensures
            same == (self.id == other.id),
    {
        self.id == other.id
    }
}

/// A handle that may point at no device at all.
#[derive(Clone, Copy, Debug)]
pub struct GpMaybe {
    pub target: Option<Gp>,
}

impl GpMaybe {
    /// The empty handle.
    pub fn none() -> (g: GpMaybe)
        ensures
            g.target is None,
    {
        GpMaybe { target: None }
    }

    /// Repoints this handle, or clears it.
    pub fn set(&mut self, other: Option<&Gp>)
        ensures
            match other {
                Some(g) => final(self).target == Some(*g),
                None => final(self).target is None,
            },
    {
        match other {
            Some(g) => {
                self.target = Some(*g);
            },
            None => {
                self.target = None;
            },
        }
    }

    /// The handle held, if any.
    pub fn get(&self) -> (g: Option<Gp>)
        ensures
            g == self.target,
    {
        self.target
    }
}

/// The color payload a laser carries.
#[derive(Clone, Copy, Debug, PartialEq, Eq, Structural)]
pub struct LaserValue {
    pub color: Color,
}

impl LaserValue {
    /// Wraps a color as a laser payload.
    pub fn color(color: Color) -> (v: LaserValue)
        ensures
            v.color == color,
    {
        LaserValue { color }
    }
}

/// A horizontal laser beam: its origin cell, the length of its run to the
/// right, and the value it carries.
#[derive(Clone, Copy, Debug, PartialEq, Eq, Structural)]
pub struct Laser {
    pub x: i32,
    pub y: i32,
    pub length: i32,
    pub value: LaserValue,
}

/// The drag-handle shape a device shows while selected, or
/// `NotSelectable` for devices that cannot be picked up.
#[derive(Clone, Copy, Debug, PartialEq, Eq, Structural)]
pub enum SelectorState {
    NotSelectable,
    Vert1,
    Vert2,
    Swap,
    OO,
    OOO,
    V3,
}

/// The closed catalog of device kinds.
#[derive(Clone, Copy, Debug, PartialEq, Eq, Structural)]
pub enum DeviceTy {
    /// Combines its two vertical inputs into their normalized average.
    Mix,
    /// Unconditionally emits a laser with the given value.
    Emitter(LaserValue),
    /// Checks an incoming laser against the given value.
    Goal(LaserValue),
    /// Splits one input into two identical outputs.
    Hook,
    Ingot,
    Mix2,
    Nut,
    Bolt,
    Collect,
    Swap,
    Split,
}

/// A placed device: its anchor position on the grid, whether it is locked
/// in place, and its kind.
#[derive(Clone, Copy, Debug)]
pub struct Device {
    pub x: i32,
    pub y: i32,
    pub locked: bool,
    pub ty: DeviceTy,
}

impl DeviceTy {
    /// The footprint: cell offsets from the anchor, anchor first.
    pub open spec fn cells_spec(self) -> Seq<(i32, i32)> {
        match self {
            DeviceTy::Mix => seq![(0i32, 0i32), (0i32, 1i32)],
            DeviceTy::Emitter(_) => seq![(0i32, 0i32)],
            DeviceTy::Goal(_) => seq![(0i32, 0i32)],
            DeviceTy::Hook => seq![(0i32, 0i32), (0i32, 1i32)],
            DeviceTy::Ingot => seq![(0i32, 0i32)],
            DeviceTy::Mix2 => seq![(0i32, 0i32), (0i32, 2i32)],
            DeviceTy::Nut => seq![(0i32, 0i32)],
            DeviceTy::Bolt => seq![(0i32, 0i32)],
            DeviceTy::Collect => seq![(0i32, 0i32), (0i32, 1i32), (0i32, 2i32)],
            DeviceTy::Swap => seq![(0i32, 0i32), (1i32, 2i32)],
            DeviceTy::Split => seq![(0i32, 0i32), (0i32, 2i32), (0i32, 4i32)],
        }
    }

    /// Whether offset `(dx, dy)` belongs to the footprint.
    pub open spec fn has_offset(self, dx: int, dy: int) -> bool {
        exists|k: int|
            0 <= k < self.cells_spec().len() && #[trigger] self.cells_spec()[k] == (dx as i32, dy
                as i32)
    }

    /// The bounding box of the footprint.
    pub open spec fn bounds_spec(self) -> (i32, i32) {
        match self {
            DeviceTy::Mix => (1i32, 2i32),
            DeviceTy::Emitter(_) => (1i32, 1i32),
            DeviceTy::Goal(_) => (1i32, 1i32),
            DeviceTy::Hook => (1i32, 2i32),
            DeviceTy::Ingot => (1i32, 1i32),
            DeviceTy::Mix2 => (1i32, 3i32),
            DeviceTy::Nut => (1i32, 1i32),
            DeviceTy::Bolt => (1i32, 1i32),
            DeviceTy::Collect => (1i32, 3i32),
            DeviceTy::Swap => (2i32, 3i32),
            DeviceTy::Split => (1i32, 5i32),
        }
    }

    /// The drag-handle shape of this kind.
    pub open spec fn selector_spec(self) -> SelectorState {
        match self {
            DeviceTy::Mix => SelectorState::Vert2,
            DeviceTy::Emitter(_) => SelectorState::Vert1,
            DeviceTy::Goal(_) => SelectorState::Vert1,
            DeviceTy::Hook => SelectorState::Vert2,
            DeviceTy::Ingot => SelectorState::Vert1,
            DeviceTy::Mix2 => SelectorState::OO,
            DeviceTy::Nut => SelectorState::Vert1,
            DeviceTy::Bolt => SelectorState::Vert1,
            DeviceTy::Collect => SelectorState::V3,
            DeviceTy::Swap => SelectorState::Swap,
            DeviceTy::Split => SelectorState::OOO,
        }
    }

    /// The footprint offsets of this kind, anchor `(0, 0)` first.
    pub fn get_cells(&self) -> (cells: Vec<(i32, i32)>)
        ensures
            cells@ == self.cells_spec(),
    {
        let cells: Vec<(i32, i32)> = match self {
            DeviceTy::Mix => vec![(0, 0), (0, 1)],
            DeviceTy::Emitter(_) => vec![(0, 0)],
            DeviceTy::Goal(_) => vec![(0, 0)],
            DeviceTy::Hook => vec![(0, 0), (0, 1)],
            DeviceTy::Ingot => vec![(0, 0)],
            DeviceTy::Mix2 => vec![(0, 0), (0, 2)],
            DeviceTy::Nut => vec![(0, 0)],
            DeviceTy::Bolt => vec![(0, 0)],
            DeviceTy::Collect => vec![(0, 0), (0, 1), (0, 2)],
            DeviceTy::Swap => vec![(0, 0), (1, 2)],
            DeviceTy::Split => vec![(0, 0), (0, 2), (0, 4)],
        };
        proof {
            assert(cells@ =~= self.cells_spec());
        }
        cells
    }

    /// The bounding box of this kind's footprint.
    pub fn get_bounds(&self) -> (bounds: (i32, i32))
        ensures
            bounds == self.bounds_spec(),
    {
        match self {
            DeviceTy::Mix => (1, 2),
            DeviceTy::Emitter(_) => (1, 1),
            DeviceTy::Goal(_) => (1, 1),
            DeviceTy::Hook => (1, 2),
            DeviceTy::Ingot => (1, 1),
            DeviceTy::Mix2 => (1, 3),
            DeviceTy::Nut => (1, 1),
            DeviceTy::Bolt => (1, 1),
            DeviceTy::Collect => (1, 3),
            DeviceTy::Swap => (2, 3),
            DeviceTy::Split => (1, 5),
        }
    }

    /// The drag-handle shape of this kind.
    pub fn get_selector(&self) -> (s: SelectorState)
        ensures
            s == self.selector_spec(),
    {
        match self {
            DeviceTy::Mix => SelectorState::Vert2,
            DeviceTy::Emitter(_) => SelectorState::Vert1,
            DeviceTy::Goal(_) => SelectorState::Vert1,
            DeviceTy::Hook => SelectorState::Vert2,
            DeviceTy::Ingot => SelectorState::Vert1,
            DeviceTy::Mix2 => SelectorState::OO,
            DeviceTy::Nut => SelectorState::Vert1,
            DeviceTy::Bolt => SelectorState::Vert1,
            DeviceTy::Collect => SelectorState::V3,
            DeviceTy::Swap => SelectorState::Swap,
            DeviceTy::Split => SelectorState::OOO,
        }
    }
}

/// The footprint always starts with the anchor offset `(0, 0)`, lists each
/// offset once, and stays inside the bounding box, which is tight on both
/// axes.
pub proof fn lemma_footprint_shape(ty: DeviceTy)
    ensures
        ty.cells_spec().len() >= 1,
        ty.cells_spec()[0] == (0i32, 0i32),
        forall|k: int|
            0 <= k < ty.cells_spec().len() ==> 0 <= (#[trigger] ty.cells_spec()[k]).0
                < ty.bounds_spec().0 && 0 <= ty.cells_spec()[k].1 < ty.bounds_spec().1,
        forall|k1: int, k2: int|
            0 <= k1 < k2 < ty.cells_spec().len() ==> #[trigger] ty.cells_spec()[k1]
                != #[trigger] ty.cells_spec()[k2],
        exists|k: int|
            0 <= k < ty.cells_spec().len() && (#[trigger] ty.cells_spec()[k]).0
                == ty.bounds_spec().0 - 1,
        exists|k: int|
            0 <= k < ty.cells_spec().len() && (#[trigger] ty.cells_spec()[k]).1
                == ty.bounds_spec().1 - 1,
{
    match ty {
        DeviceTy::Mix => {
            assert(ty.cells_spec()[1].1 == ty.bounds_spec().1 - 1);
        },
        DeviceTy::Emitter(_) => {
            assert(ty.cells_spec()[0].0 == ty.bounds_spec().0 - 1);
        },
        DeviceTy::Goal(_) => {
            assert(ty.cells_spec()[0].0 == ty.bounds_spec().0 - 1);
        },
        DeviceTy::Hook => {
            assert(ty.cells_spec()[1].1 == ty.bounds_spec().1 - 1);
        },
        DeviceTy::Ingot => {
            assert(ty.cells_spec()[0].0 == ty.bounds_spec().0 - 1);
        },
        DeviceTy::Mix2 => {
            assert(ty.cells_spec()[1].1 == ty.bounds_spec().1 - 1);
        },
        DeviceTy::Nut => {
            assert(ty.cells_spec()[0].0 == ty.bounds_spec().0 - 1);
        },
        DeviceTy::Bolt => {
            assert(ty.cells_spec()[0].0 == ty.bounds_spec().0 - 1);
        },
        DeviceTy::Collect => {
            assert(ty.cells_spec()[2].1 == ty.bounds_spec().1 - 1);
        },
        DeviceTy::Swap => {
            assert(ty.cells_spec()[1].0 == ty.bounds_spec().0 - 1);
            assert(ty.cells_spec()[1].1 == ty.bounds_spec().1 - 1);
        },
        DeviceTy::Split => {
            assert(ty.cells_spec()[2].1 == ty.bounds_spec().1 - 1);
        },
    }
}

} // verus!
