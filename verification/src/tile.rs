//! The tile: a cell of the grid at one zoom level.

use vstd::arithmetic::power2::pow2;
use vstd::prelude::*;

verus! {

/// The deepest zoom level whose grid the 64-bit coordinates of a [`Tile`] can
/// index in full.
pub const MAX_ZOOM: u8 = 64;

/// Number of columns, and of rows, of the grid at zoom level `z`.
pub open spec fn grid_size(z: nat) -> nat {
    pow2(z)
}

/// A cell of the grid: column `x` and row `y` at zoom level `z`.
///
/// Column 0 is the westernmost, row 0 the northernmost.
#[derive(Clone, Copy, Debug, PartialEq, Eq, Structural)]
pub struct Tile {
    pub x: u64,
    pub y: u64,
    pub z: u8,
}

impl Tile {
    /// The tile names a cell that its zoom level has: the zoom is at most
    /// [`MAX_ZOOM`], and both coordinates lie below the grid's size.
    pub open spec fn in_grid(self) -> bool {
        &&& self.z <= MAX_ZOOM
        &&& self.x < grid_size(self.z as nat)
        &&& self.y < grid_size(self.z as nat)
    }
}

} // verus!
