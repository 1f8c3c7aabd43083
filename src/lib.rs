//! Exact three-dimensional discrete knapsack: choose a value-maximising set of
//! axis-aligned boxes and place each, without rotation and without overlap,
//! on the unit grid of a rectangular container.

use vstd::prelude::*;

pub mod geometry;
pub mod ordering;
pub mod search;
pub mod extract;
pub mod soundness;
pub mod optimality;
pub mod pruning;

pub use extract::solve_to_grid_zxy;

verus! {

/// A box that may be packed: its label, its extents along x, y and z, and its value.
#[derive(Clone, Debug, PartialEq, Eq)]
pub struct Object {
    pub name: String,
    pub x: usize,
    pub y: usize,
    pub z: usize,
    pub value: usize,
}

/// The container: the extents of the valid coordinate range `[0,x)×[0,y)×[0,z)`.
#[derive(Clone, Copy, Debug, PartialEq, Eq)]
pub struct Limit {
    pub x: usize,
    pub y: usize,
    pub z: usize,
}

/// The external form of a solution: the names of the objects placed, the
/// grid indexed `[z][x][y]` (`-1` empty, else a place in `names`), the
/// objects selected and the best total value.
pub struct SolveOutput {
    pub names: Vec<String>,
    pub grid_zxy: Vec<Vec<Vec<i32>>>,
    pub selected: Vec<Object>,
    pub best: usize,
}

} // verus!
