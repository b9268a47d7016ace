//! A discrete-event simulator for dynamic channel assignment in a hexagonal
//! cellular network: a 7x7 grid of cells shares 70 radio channels under a
//! spatial reuse constraint, with an event queue driving call arrivals,
//! hand-offs and terminations, and an incremental feature representation
//! feeding a linear value-function controller.

use vstd::prelude::*;

pub mod agent;
pub mod environment;
pub mod eventgen;
pub mod filters;
pub mod frep;
pub mod gridfuncs;
pub mod neighs;
pub mod stats;

verus! {

/// Number of rows in the cell grid.
pub const ROWS: usize = 7;

/// Number of columns in the cell grid.
pub const COLS: usize = 7;

/// Number of radio channels shared by the whole grid.
pub const CHANNELS: usize = 70;

/// A cell of the hexagonal grid, identified by row and column.
#[derive(Eq, PartialEq, Hash, Clone, Copy, Debug, Structural)]
pub struct Cell {
    pub row: usize,
    pub col: usize,
}

impl Cell {
    /// A cell is valid when it lies on the 7x7 grid.
    pub open spec fn valid(self) -> bool {
        self.row < ROWS && self.col < COLS
    }
}

/// Hexagonal distance between two cells given by signed axial coordinates.
pub open spec fn spec_hex_distance(r1: int, c1: int, r2: int, c2: int) -> int {
    (abs_int(r1 - r2) + abs_int(r1 + c1 - r2 - c2) + abs_int(c1 - c2)) / 2
}

/// Absolute value of an integer.
pub open spec fn abs_int(x: int) -> int {
    if x < 0 {
        -x
    } else {
        x
    }
}

/// Distance from cell (r1, c1) to cell (r2, c2) in a hexagonal grid.
pub fn hex_distance(r1: i8, c1: i8, r2: i8, c2: i8) -> (d: i8)
    requires
        0 <= r1 < 7,
        0 <= c1 < 7,
        0 <= r2 < 7,
        0 <= c2 < 7,
    ensures
        d == spec_hex_distance(r1 as int, c1 as int, r2 as int, c2 as int),
        0 <= d <= 12,
{
    let dr = if r1 > r2 {
        r1 - r2
    } else {
        r2 - r1
    };
    let ds = if r1 + c1 > r2 + c2 {
        (r1 + c1) - (r2 + c2)
    } else {
        (r2 + c2) - (r1 + c1)
    };
    let dc = if c1 > c2 {
        c1 - c2
    } else {
        c2 - c1
    };
    (dr + ds + dc) / 2
}

} // verus!
