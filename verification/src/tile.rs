//! The per-cell classification: a mine, a cell with a positive count of
//! adjacent mines, or an empty cell with none.

use vstd::prelude::*;

use crate::render::dec_seq;
use crate::render::dec_string;

verus! {

/// The classification of one cell, fixed at grid generation time.
///
/// `Empty` and `BombNeighbour` are mutually exclusive with `Bomb`: a
/// non-mine cell is `Empty` exactly when it has no mine among its up-to-8
/// neighbors, and `BombNeighbour(count)` with `count` between 1 and 8
/// otherwise.
#[derive(Debug, Clone, Copy, PartialEq, Eq, Structural)]
pub enum Tile {
    /// A mine; revealing it ends the game.
    Bomb,
    /// A safe cell with this many mines among its neighbors.
    BombNeighbour(u8),
    /// A safe cell with no mine among its neighbors.
    Empty,
}

/// The plain console text for one tile: `*` for a mine, the decimal count
/// for a mine neighbor, and a space for an empty cell.
pub open spec fn tile_text(t: Tile) -> Seq<char> {
    match t {
        Tile::Bomb => seq!['*'],
        Tile::BombNeighbour(c) => dec_seq(c as nat),
        Tile::Empty => seq![' '],
    }
}

impl Tile {
    /// Whether this tile is a mine.
    pub fn is_bomb(&self) -> (r: bool)
        ensures
            r <==> (*self is Bomb),
    {
        matches!(self, Tile::Bomb)
    }

    /// The plain, single-cell console form of this tile.
    pub fn console_output(&self) -> (r: String)
        ensures
            r@ == tile_text(*self),
    {
        match self {
            Tile::Bomb => {
                proof {
                    reveal_strlit("*");
                }
                let r = String::from_str("*");
                proof {
                    assert(r@ =~= tile_text(*self));
                }
                r
            },
            Tile::BombNeighbour(c) => dec_string(*c as u16),
            Tile::Empty => {
                proof {
                    reveal_strlit(" ");
                }
                let r = String::from_str(" ");
                proof {
                    assert(r@ =~= tile_text(*self));
                }
                r
            },
        }
    }
}

} // verus!
