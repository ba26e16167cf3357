//! Grid facts the first-person raycaster relies on.

use vstd::prelude::*;
use crate::maze::MazeGrid;

verus! {

/// Which kind of grid line a ray hit.
#[derive(Debug, Clone, Copy, PartialEq, Eq, Structural)]
pub enum WallSide {
    Vertical,
    Horizontal,
}

/// Whether signed cell coordinates `(x, y)` lie inside the grid.
pub fn in_bounds(grid: &MazeGrid, x: i32, y: i32) -> (r: bool)
    ensures
        r == (0 <= x < grid.width && 0 <= y < grid.height),
{
    x >= 0 && y >= 0 && x < grid.width as i32 && y < grid.height as i32
}

} // verus!
