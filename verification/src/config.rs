use vstd::prelude::*;

verus! {

/// Number of columns of the simulation grid.
pub const GRID_WIDTH: usize = 400;

/// Number of rows of the simulation grid.
pub const GRID_HEIGHT: usize = 300;

/// Number of cells of the simulation grid.
pub const GRID_CELLS: usize = 120000;

/// Side of one cell on screen, in pixels.
pub const CELL_SIZE: usize = 3;

/// Frame rate the main loop aims at.
pub const TARGET_FPS: usize = 60;

/// Radius of the round brush used to paint materials, in cells.
pub const DEFAULT_BRUSH_R: usize = 3;

} // verus!
