//! Per-cell value types: grid coordinates and the cell classification markers
//! that a front end attaches to the on-screen representation of a cell.

use vstd::prelude::*;

verus! {

/// Marks a cell that holds a mine.
#[derive(Debug, Clone, Copy, PartialEq, Eq, Structural)]
pub struct Bomb;

/// Marks a cell adjacent to at least one mine, carrying the number of
/// adjacent mines (between 1 and 8).
#[derive(Debug, Clone, Copy, PartialEq, Eq, Structural)]
pub struct BombNeighbor {
    /// Number of neighbor cells that hold a mine.
    pub count: u8,
}

/// Marks a cell that is about to be uncovered by a front end.
#[derive(Debug, Clone, Copy, PartialEq, Eq, Structural)]
pub struct Uncover;

/// An integer 2D coordinate identifying a cell of a grid.
///
/// A coordinate is valid for a grid of dimensions `width x height` when
/// `x < width` and `y < height`; coordinates themselves carry no bound, and
/// every operation that takes one filters or rejects out-of-range values.
#[derive(Debug, Clone, Copy, PartialEq, Eq, Hash, Structural)]
pub struct Coordinates {
    pub x: u16,
    pub y: u16,
}

/// The value of a coordinate axis after adding a signed delta with
/// saturation: clamped at 0, and at the largest `u16`.
pub open spec fn sat_add_axis(v: int, d: int) -> u16 {
    if v + d < 0 {
        0u16
    } else if v + d > u16::MAX {
        u16::MAX
    } else {
        (v + d) as u16
    }
}

impl Coordinates {
    /// Adds a signed delta to both axes using saturating arithmetic: the
    /// result never wraps below zero nor above the `u16` range. No upper
    /// bound of any grid is checked here; callers validate the result
    /// against their grid's dimensions.
    pub fn offset(self, dx: i8, dy: i8) -> (r: Coordinates)
        ensures
            r.x == sat_add_axis(self.x as int, dx as int),
            r.y == sat_add_axis(self.y as int, dy as int),
    {
        let nx: i32 = self.x as i32 + dx as i32;
        let ny: i32 = self.y as i32 + dy as i32;
        let x: u16 = if nx < 0 {
            0
        } else if nx > 0xffff {
            0xffff
        } else {
            nx as u16
        };
        let y: u16 = if ny < 0 {
            0
        } else if ny > 0xffff {
            0xffff
        } else {
            ny as u16
        };
        Coordinates { x, y }
    }
}

} // verus!
