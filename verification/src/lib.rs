//! Core of a grid-based laser-routing puzzle.
//!
//! A `Level` holds a rectangular grid of cells together with an arena of
//! placed devices.  Emitter devices shoot horizontal laser beams to the
//! right; mixer and hook devices read the beams that end at their cells and
//! emit new ones; goal devices check an incoming beam's color against a
//! target.  Players pick devices up and drop them through a drag state
//! machine (`Selector`), with placement validity checked and rolled back by
//! the level.

pub mod color;
pub mod device;
pub mod error;
pub mod grid;
pub mod input;
pub mod lasers;
pub mod level;
pub mod render;
pub mod selector;
pub mod timestep;
