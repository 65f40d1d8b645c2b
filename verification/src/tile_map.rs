//! The tile grid: an immutable mine layout generated once, with
//! neighbor-mine counts derived from the placed mines and bounds-safe
//! neighbor enumeration.

use vstd::pervasive::VecAdditionalExecFns;
use vstd::prelude::*;

use crate::components::Coordinates;
use crate::render::dec_seq;
use crate::render::push_dec;
use crate::rng::new_rng;
use crate::rng::rand_below;
use crate::tile::tile_text;
use crate::tile::Tile;
use vstd::string::StringExecFns;

verus! {

/// A construction error: grids must have at least one column and one row.
#[derive(Debug, Clone, Copy, PartialEq, Eq, Structural)]
pub enum GridError {
    /// Width or height was zero.
    InvalidDimensions,
}

/// The delta, as `(column, row)` offsets, of the `i`-th of the 8 neighbors
/// of a cell, in the fixed enumeration order: bottom-left, bottom,
/// bottom-right, left, right, top-left, top, top-right.
pub open spec fn delta(i: int) -> (int, int) {
    if i == 0 {
        (-1, -1)
    } else if i == 1 {
        (0, -1)
    } else if i == 2 {
        (1, -1)
    } else if i == 3 {
        (-1, 0)
    } else if i == 4 {
        (1, 0)
    } else if i == 5 {
        (-1, 1)
    } else if i == 6 {
        (0, 1)
    } else {
        (1, 1)
    }
}

/// The `i`-th neighbor delta, as executable values.
pub(crate) fn delta_exec(i: usize) -> (r: (i32, i32))
    requires
        i < 8,
    ensures
        r.0 == delta(i as int).0,
        r.1 == delta(i as int).1,
{
    if i == 0 {
        (-1, -1)
    } else if i == 1 {
        (0, -1)
    } else if i == 2 {
        (1, -1)
    } else if i == 3 {
        (-1, 0)
    } else if i == 4 {
        (1, 0)
    } else if i == 5 {
        (-1, 1)
    } else if i == 6 {
        (0, 1)
    } else {
        (1, 1)
    }
}

/// How many of the first `k` tiles of `s` are mines.
pub open spec fn mines_in_prefix(s: Seq<Tile>, k: int) -> int
    decreases k,
{
    if k <= 0 {
        0
    } else {
        mines_in_prefix(s, k - 1) + if s[k - 1] is Bomb {
            1int
        } else {
            0int
        }
    }
}

/// The tile a generated grid stores for a non-mine cell with `n` adjacent
/// mines: `Empty` when `n` is zero, else `BombNeighbour(n)`.
pub open spec fn count_tile(n: int) -> Tile {
    if n == 0 {
        Tile::Empty
    } else {
        Tile::BombNeighbour(n as u8)
    }
}

/// A rectangular grid of tiles with a target mine count, stored row-major.
#[derive(Debug, Clone)]
pub struct TileMap {
    pub bomb_count: u16,
    pub height: u16,
    pub width: u16,
    pub map: Vec<Tile>,
}

impl TileMap {
    /// The number of columns.
    pub open spec fn spec_width(self) -> int {
        self.width as int
    }

    /// The number of rows.
    pub open spec fn spec_height(self) -> int {
        self.height as int
    }

    /// The number of mines the grid was generated with.
    pub open spec fn spec_bomb_count(self) -> int {
        self.bomb_count as int
    }

    /// Structural well-formedness: positive dimensions and a tile for every
    /// cell of the `height x width` rectangle.
    pub open spec fn wf(self) -> bool {
        &&& 1 <= self.width
        &&& 1 <= self.height
        &&& self.map@.len() == self.spec_width() * self.spec_height()
    }

    /// Whether `(x, y)` lies within the grid.
    pub open spec fn in_bounds(self, x: int, y: int) -> bool {
        0 <= x < self.spec_width() && 0 <= y < self.spec_height()
    }

    /// The row-major index of cell `(x, y)`.
    pub open spec fn cell_index(self, x: int, y: int) -> int {
        y * self.spec_width() + x
    }

    /// The tile stored at cell `(x, y)`.
    pub open spec fn tile_at(self, x: int, y: int) -> Tile {
        self.map@[self.cell_index(x, y)]
    }

    /// Whether the in-bounds cell `(x, y)` holds a mine; false off the grid.
    pub open spec fn mine_at(self, x: int, y: int) -> bool {
        self.in_bounds(x, y) && self.tile_at(x, y) is Bomb
    }

    /// The total number of mines on the grid.
    pub open spec fn total_mines(self) -> int {
        mines_in_prefix(self.map@, self.map@.len() as int)
    }

    /// How many of the first `k` neighbor deltas of `(x, y)` land on a mine.
    pub open spec fn mines_near_upto(self, x: int, y: int, k: int) -> int
        decreases k,
    {
        if k <= 0 {
            0
        } else {
            self.mines_near_upto(x, y, k - 1) + if self.mine_at(
                x + delta(k - 1).0,
                y + delta(k - 1).1,
            ) {
                1int
            } else {
                0int
            }
        }
    }

    /// The number of mines among the up-to-8 neighbors of `(x, y)`.
    pub open spec fn mines_near(self, x: int, y: int) -> int {
        self.mines_near_upto(x, y, 8)
    }

    /// Every non-mine tile agrees with the actual count of its mine
    /// neighbors: `Empty` when the count is zero, else `BombNeighbour` of it.
    pub open spec fn counts_consistent(self) -> bool {
        forall|x: int, y: int|
            self.in_bounds(x, y) && !(#[trigger] self.tile_at(x, y) is Bomb) ==> self.tile_at(x, y)
                == count_tile(self.mines_near(x, y))
    }

    /// The invariant of a grid as handed to a board: well-formed, with
    /// exactly `bomb_count` mines, and counts consistent with the layout.
    pub open spec fn generated(self) -> bool {
        &&& self.wf()
        &&& self.total_mines() == self.spec_bomb_count()
        &&& self.counts_consistent()
    }

    /// The in-bounds neighbors of `(x, y)` among the first `k` deltas, in
    /// enumeration order.
    pub open spec fn neighbors_upto(self, x: int, y: int, k: int) -> Seq<Coordinates>
        decreases k,
    {
        if k <= 0 {
            Seq::empty()
        } else {
            let t = self.neighbors_upto(x, y, k - 1);
            let nx = x + delta(k - 1).0;
            let ny = y + delta(k - 1).1;
            if self.in_bounds(nx, ny) {
                t.push(Coordinates { x: nx as u16, y: ny as u16 })
            } else {
                t
            }
        }
    }

    /// All in-bounds neighbors of `(x, y)`, in enumeration order.
    pub open spec fn spec_neighbors(self, x: int, y: int) -> Seq<Coordinates> {
        self.neighbors_upto(x, y, 8)
    }
}

/// The cell count of a grid with dimensions below the `u16` range fits in
/// 32 bits, in either order of the factors.
pub proof fn lemma_grid_fits(w: int, h: int)
    requires
        0 <= w <= 0xffff,
        0 <= h <= 0xffff,
    ensures
        0 <= w * h < 0x1_0000_0000,
        w * h == h * w,
        1 <= w && 1 <= h ==> 1 <= w * h,
{
    assert(0 <= w * h < 0x1_0000_0000 && w * h == h * w && (1 <= w && 1 <= h ==> 1 <= w * h))
        by (nonlinear_arith)
        requires
            0 <= w <= 0xffff,
            0 <= h <= 0xffff,
    ;
}

/// A row-major cell index is within the tile vector of a well-formed grid.
pub proof fn lemma_cell_index_bounds(w: int, h: int, x: int, y: int)
    requires
        0 <= x < w <= 0xffff,
        0 <= y < h <= 0xffff,
    ensures
        0 <= y * w + x < h * w,
        h * w == w * h,
        y * w + x < 0x1_0000_0000,
{
    assert(0 <= y * w + x < h * w && h * w == w * h && h * w < 0x1_0000_0000)
        by (nonlinear_arith)
        requires
            0 <= x < w <= 0xffff,
            0 <= y < h <= 0xffff,
    ;
}

/// Distinct in-bounds cells have distinct row-major indices.
pub proof fn lemma_cell_index_injective(w: int, x1: int, y1: int, x2: int, y2: int)
    requires
        0 <= x1 < w,
        0 <= x2 < w,
        0 <= y1,
        0 <= y2,
        (x1, y1) != (x2, y2),
    ensures
        y1 * w + x1 != y2 * w + x2,
{
    assert(y1 * w + x1 != y2 * w + x2) by (nonlinear_arith)
        requires
            0 <= x1 < w,
            0 <= x2 < w,
            0 <= y1,
            0 <= y2,
            (x1, y1) != (x2, y2),
    ;
}

/// The mine count of a prefix is bounded by its length.
proof fn lemma_mines_in_prefix_le(s: Seq<Tile>, k: int)
    ensures
        mines_in_prefix(s, k) <= if k <= 0 {
            0
        } else {
            k
        },
        0 <= mines_in_prefix(s, k),
    decreases k,
{
    if k > 0 {
        lemma_mines_in_prefix_le(s, k - 1);
    }
}

/// Two tile sequences with pointwise equal mine status below `k` have the
/// same mine count in their length-`k` prefixes.
proof fn lemma_mines_in_prefix_same(s1: Seq<Tile>, s2: Seq<Tile>, k: int)
    requires
        forall|p: int| 0 <= p < k ==> ((#[trigger] s1[p]) is Bomb <==> s2[p] is Bomb),
    ensures
        mines_in_prefix(s1, k) == mines_in_prefix(s2, k),
    decreases k,
{
    if k > 0 {
        lemma_mines_in_prefix_same(s1, s2, k - 1);
    }
}

/// Updating position `i` changes a prefix mine count exactly by the change
/// in mine status at `i`, and only when `i` lies inside the prefix.
proof fn lemma_mines_in_prefix_update(s: Seq<Tile>, i: int, t: Tile, k: int)
    requires
        0 <= i < s.len(),
        k <= s.len(),
    ensures
        mines_in_prefix(s.update(i, t), k) == mines_in_prefix(s, k) + if i < k {
            (if t is Bomb {
                1int
            } else {
                0int
            }) - (if s[i] is Bomb {
                1int
            } else {
                0int
            })
        } else {
            0int
        },
    decreases k,
{
    if k > 0 {
        lemma_mines_in_prefix_update(s, i, t, k - 1);
    }
}

/// Neighbor-mine counts agree on two grids with the same dimensions and the
/// same mines.
proof fn lemma_mines_near_upto_same(a: TileMap, b: TileMap, x: int, y: int, k: int)
    requires
        a.spec_width() == b.spec_width(),
        a.spec_height() == b.spec_height(),
        forall|px: int, py: int| #[trigger] a.mine_at(px, py) == b.mine_at(px, py),
    ensures
        a.mines_near_upto(x, y, k) == b.mines_near_upto(x, y, k),
    decreases k,
{
    if k > 0 {
        lemma_mines_near_upto_same(a, b, x, y, k - 1);
    }
}

/// A neighbor-mine count over `k` deltas is between 0 and `k`.
pub(crate) proof fn lemma_mines_near_upto_le(g: TileMap, x: int, y: int, k: int)
    ensures
        0 <= g.mines_near_upto(x, y, k) <= if k <= 0 {
            0
        } else {
            k
        },
    decreases k,
{
    if k > 0 {
        lemma_mines_near_upto_le(g, x, y, k - 1);
    }
}

impl TileMap {
    /// Creates a grid of the given dimensions with every tile `Empty` and a
    /// mine count of zero, or reports `InvalidDimensions` when either
    /// dimension is zero.
    pub fn empty(width: u16, height: u16) -> (r: Result<TileMap, GridError>)
        ensures
            match r {
                Ok(g) => {
                    &&& width >= 1 && height >= 1
                    &&& g.wf()
                    &&& g.generated()
                    &&& g.spec_width() == width
                    &&& g.spec_height() == height
                    &&& g.spec_bomb_count() == 0
                    &&& forall|x: int, y: int|
                        g.in_bounds(x, y) ==> #[trigger] g.tile_at(x, y) == Tile::Empty
                },
                Err(e) => {
                    &&& e == GridError::InvalidDimensions
                    &&& (width == 0 || height == 0)
                },
            },
    {
        if width == 0 || height == 0 {
            return Err(GridError::InvalidDimensions);
        }
        proof {
            lemma_grid_fits(width as int, height as int);
        }
        let n: usize = (width as usize) * (height as usize);
        let map = make_empty_tiles(n);
        let g = TileMap { bomb_count: 0, height, width, map };
        proof {
            assert forall|x: int, y: int| g.in_bounds(x, y) implies #[trigger] g.tile_at(x, y)
                == Tile::Empty by {
                lemma_cell_index_bounds(g.spec_width(), g.spec_height(), x, y);
            }
            lemma_all_empty_no_mines(g.map@, g.map@.len() as int);
            assert forall|px: int, py: int| !(#[trigger] g.mine_at(px, py)) by {
                if g.in_bounds(px, py) {
                    assert(g.tile_at(px, py) == Tile::Empty);
                }
            }
            assert forall|x: int, y: int|
                g.in_bounds(x, y) && !(#[trigger] g.tile_at(x, y) is Bomb) implies g.tile_at(x, y)
                == count_tile(g.mines_near(x, y)) by {
                lemma_no_mines_near(g, x, y, 8);
            }
        }
        Ok(g)
    }

    /// The number of columns.
    pub fn width(&self) -> (r: u16)
        ensures
            r == self.spec_width(),
    {
        self.width
    }

    /// The number of rows.
    pub fn height(&self) -> (r: u16)
        ensures
            r == self.spec_height(),
    {
        self.height
    }

    /// The number of mines placed on the grid.
    pub fn bomb_count(&self) -> (r: u16)
        ensures
            r == self.spec_bomb_count(),
    {
        self.bomb_count
    }

    /// Whether the cell at `coordinates` holds a mine; false for
    /// out-of-bounds coordinates, which are routine during neighbor
    /// enumeration and never an error.
    pub fn is_bomb_at(&self, coordinates: Coordinates) -> (r: bool)
        requires
            self.wf(),
        ensures
            r == self.mine_at(coordinates.x as int, coordinates.y as int),
    {
        if coordinates.x >= self.width || coordinates.y >= self.height {
            return false;
        }
        proof {
            lemma_cell_index_bounds(
                self.spec_width(),
                self.spec_height(),
                coordinates.x as int,
                coordinates.y as int,
            );
        }
        let i: usize = (coordinates.y as usize) * (self.width as usize) + (coordinates.x as usize);
        self.map[i].is_bomb()
    }

    /// The in-bounds neighbors of `coordinates` on this grid, in the fixed
    /// enumeration order.
    pub fn safe_square_at(&self, coordinates: Coordinates) -> (r: Vec<Coordinates>)
        ensures
            r@ == self.spec_neighbors(coordinates.x as int, coordinates.y as int),
    {
        let mut out: Vec<Coordinates> = Vec::new();
        let mut i: usize = 0;
        while i < 8
            invariant
                i <= 8,
                out@ == self.neighbors_upto(coordinates.x as int, coordinates.y as int, i as int),
            decreases 8 - i,
        {
            let (dx, dy) = delta_exec(i);
            let nx: i32 = coordinates.x as i32 + dx;
            let ny: i32 = coordinates.y as i32 + dy;
            if nx >= 0 && ny >= 0 && nx < self.width as i32 && ny < self.height as i32 {
                out.push(Coordinates { x: nx as u16, y: ny as u16 });
            }
            i = i + 1;
        }
        out
    }

    /// The number of mine neighbors of the cell at `coordinates`: zero when
    /// the cell is out of bounds or itself a mine, the count of adjacent
    /// mines otherwise.
    pub fn bomb_count_at(&self, coordinates: Coordinates) -> (r: u8)
        requires
            self.wf(),
        ensures
            r as int == if self.mine_at(coordinates.x as int, coordinates.y as int) || !self
                .in_bounds(coordinates.x as int, coordinates.y as int) {
                0int
            } else {
                self.mines_near(coordinates.x as int, coordinates.y as int)
            },
    {
        if coordinates.x >= self.width || coordinates.y >= self.height {
            return 0;
        }
        if self.is_bomb_at(coordinates) {
            return 0;
        }
        let cx: i32 = coordinates.x as i32;
        let cy: i32 = coordinates.y as i32;
        let mut count: u8 = 0;
        let mut i: usize = 0;
        while i < 8
            invariant
                self.wf(),
                i <= 8,
                count as int == self.mines_near_upto(coordinates.x as int, coordinates.y as int, i as int),
                count <= i,
                cx == coordinates.x as int,
                cy == coordinates.y as int,
            decreases 8 - i,
        {
            let (dx, dy) = delta_exec(i);
            let nx: i32 = cx + dx;
            let ny: i32 = cy + dy;
            if nx >= 0 && ny >= 0 && nx < self.width as i32 && ny < self.height as i32 {
                if self.is_bomb_at(Coordinates { x: nx as u16, y: ny as u16 }) {
                    count = count + 1;
                }
            }
            i = i + 1;
        }
        count
    }
}

/// Neighbor-mine counts are zero on a grid with no mine anywhere.
proof fn lemma_no_mines_near(g: TileMap, x: int, y: int, k: int)
    requires
        forall|px: int, py: int| !(#[trigger] g.mine_at(px, py)),
    ensures
        g.mines_near_upto(x, y, k) == 0,
    decreases k,
{
    if k > 0 {
        lemma_no_mines_near(g, x, y, k - 1);
    }
}

/// A sequence of `Empty` tiles has no mines in any prefix.
proof fn lemma_all_empty_no_mines(s: Seq<Tile>, k: int)
    requires
        forall|p: int| 0 <= p < k ==> #[trigger] s[p] == Tile::Empty,
    ensures
        mines_in_prefix(s, k) == 0,
    decreases k,
{
    if k > 0 {
        lemma_all_empty_no_mines(s, k - 1);
    }
}

/// A vector of `n` tiles, all `Empty`.
fn make_empty_tiles(n: usize) -> (r: Vec<Tile>)
    ensures
        r@.len() == n,
        forall|p: int| 0 <= p < n ==> #[trigger] r@[p] == Tile::Empty,
{
    let mut map: Vec<Tile> = Vec::new();
    let mut i: usize = 0;
    while i < n
        invariant
            i <= n,
            map@.len() == i,
            forall|p: int| 0 <= p < i ==> #[trigger] map@[p] == Tile::Empty,
        decreases n - i,
    {
        map.push(Tile::Empty);
        i = i + 1;
    }
    map
}

/// Every entry of `s` is below `n` and no entry repeats.
pub open spec fn distinct_below(s: Seq<usize>, n: int) -> bool {
    &&& forall|i: int| 0 <= i < s.len() ==> (#[trigger] s[i]) < n
    &&& forall|i: int, j: int| 0 <= i < j < s.len() ==> s[i] != s[j]
}

/// Whether some entry of `s` equals the index `p`.
pub open spec fn seq_has_index(s: Seq<usize>, p: int) -> bool {
    exists|j: int| 0 <= j < s.len() && (#[trigger] s[j]) as int == p
}

/// The number of mines actually placed for a request of `requested` on a
/// grid of `cells` cells: the request itself when it leaves at least one
/// safe cell, else clamped down to `cells - 1`.
pub open spec fn clamped_mines(requested: int, cells: int) -> int {
    if requested < cells {
        requested
    } else {
        cells - 1
    }
}

impl TileMap {
    /// Turns the tiles at the given distinct cell indices into mines; every
    /// other tile stays `Empty`.
    fn mark_mines_at_indices(&mut self, idxs: &Vec<usize>)
        requires
            old(self).wf(),
            distinct_below(idxs@, old(self).map@.len() as int),
            forall|p: int|
                0 <= p < old(self).map@.len() ==> #[trigger] old(self).map@[p] == Tile::Empty,
        ensures
            final(self).wf(),
            final(self).width == old(self).width,
            final(self).height == old(self).height,
            final(self).bomb_count == old(self).bomb_count,
            final(self).map@.len() == old(self).map@.len(),
            forall|p: int|
                0 <= p < final(self).map@.len() ==> #[trigger] final(self).map@[p] == (
                if seq_has_index(idxs@, p) {
                    Tile::Bomb
                } else {
                    Tile::Empty
                }),
            final(self).total_mines() == idxs@.len(),
    {
        let ghost len = old(self).map@.len() as int;
        proof {
            lemma_all_empty_no_mines(old(self).map@, len);
        }
        let n_idx: usize = idxs.len();
        let mut i: usize = 0;
        while i < n_idx
            invariant
                self.wf(),
                self.width == old(self).width,
                self.height == old(self).height,
                self.bomb_count == old(self).bomb_count,
                self.map@.len() == len,
                len == old(self).map@.len(),
                i <= n_idx,
                n_idx == idxs@.len(),
                distinct_below(idxs@, len),
                forall|p: int|
                    0 <= p < len ==> #[trigger] self.map@[p] == (
                    if seq_has_index(idxs@.subrange(0, i as int), p) {
                        Tile::Bomb
                    } else {
                        Tile::Empty
                    }),
                mines_in_prefix(self.map@, len) == i,
            decreases n_idx - i,
        {
            let c: usize = idxs[i];
            let ghost prefix = idxs@.subrange(0, i as int);
            proof {
                assert(!seq_has_index(prefix, c as int)) by {
                    if seq_has_index(prefix, c as int) {
                        let j = choose|j: int|
                            0 <= j < prefix.len() && (#[trigger] prefix[j]) as int == c as int;
                        assert(idxs@[j] == idxs@[i as int]);
                    }
                }
                assert(self.map@[c as int] == Tile::Empty);
                lemma_mines_in_prefix_update(self.map@, c as int, Tile::Bomb, len);
            }
            let ghost prev = self.map@;
            self.map.set(c, Tile::Bomb);
            i = i + 1;
            proof {
                let next = idxs@.subrange(0, i as int);
                assert(next =~= prefix.push(idxs@[i - 1]));
                assert forall|p: int| 0 <= p < len implies #[trigger] self.map@[p] == (
                if seq_has_index(next, p) {
                    Tile::Bomb
                } else {
                    Tile::Empty
                }) by {
                    if p == c as int {
                        assert(next[i - 1] as int == p);
                        assert(seq_has_index(next, p));
                    } else {
                        assert(self.map@[p] == prev[p]);
                        if seq_has_index(next, p) {
                            let j = choose|j: int|
                                0 <= j < next.len() && (#[trigger] next[j]) as int == p;
                            assert(j < i - 1 ==> prefix[j] as int == p);
                            assert(seq_has_index(prefix, p));
                        }
                        if seq_has_index(prefix, p) {
                            let j = choose|j: int|
                                0 <= j < prefix.len() && (#[trigger] prefix[j]) as int == p;
                            assert(next[j] as int == p);
                            assert(seq_has_index(next, p));
                        }
                    }
                }
            }
        }
        proof {
            assert(idxs@.subrange(0, n_idx as int) =~= idxs@);
        }
    }

    /// Rewrites every non-mine tile to agree with the count of its mine
    /// neighbors: `Empty` for zero, `BombNeighbour` of the count otherwise.
    /// Mines, dimensions and the mine counter are untouched.
    fn apply_counts(&mut self)
        requires
            old(self).wf(),
        ensures
            final(self).wf(),
            final(self).width == old(self).width,
            final(self).height == old(self).height,
            final(self).bomb_count == old(self).bomb_count,
            final(self).map@.len() == old(self).map@.len(),
            forall|p: int|
                0 <= p < final(self).map@.len() ==> ((#[trigger] final(self).map@[p]) is Bomb
                    <==> old(self).map@[p] is Bomb),
            final(self).total_mines() == old(self).total_mines(),
            final(self).counts_consistent(),
    {
        let ghost len = old(self).map@.len() as int;
        let w: usize = self.width as usize;
        let h: usize = self.height as usize;
        let mut y: usize = 0;
        while y < h
            invariant
                self.wf(),
                self.width == old(self).width,
                self.height == old(self).height,
                self.bomb_count == old(self).bomb_count,
                self.map@.len() == len,
                len == old(self).map@.len(),
                w == self.spec_width(),
                h == self.spec_height(),
                y <= h,
                forall|p: int|
                    0 <= p < len ==> ((#[trigger] self.map@[p]) is Bomb <==> old(self).map@[p]
                        is Bomb),
                forall|px: int, py: int|
                    self.in_bounds(px, py) && py < y && !(#[trigger] self.tile_at(px, py)
                        is Bomb) ==> self.tile_at(px, py) == count_tile(self.mines_near(px, py)),
            decreases h - y,
        {
            let mut x: usize = 0;
            while x < w
                invariant
                    self.wf(),
                    self.width == old(self).width,
                    self.height == old(self).height,
                    self.bomb_count == old(self).bomb_count,
                    self.map@.len() == len,
                    len == old(self).map@.len(),
                    w == self.spec_width(),
                    h == self.spec_height(),
                    y < h,
                    x <= w,
                    forall|p: int|
                        0 <= p < len ==> ((#[trigger] self.map@[p]) is Bomb <==> old(self).map@[p]
                            is Bomb),
                    forall|px: int, py: int|
                        self.in_bounds(px, py) && (py < y || (py == y && px < x)) && !(
                        #[trigger] self.tile_at(px, py) is Bomb) ==> self.tile_at(px, py)
                            == count_tile(self.mines_near(px, py)),
                decreases w - x,
            {
                let c = Coordinates { x: x as u16, y: y as u16 };
                if !self.is_bomb_at(c) {
                    let cnt: u8 = self.bomb_count_at(c);
                    proof {
                        lemma_cell_index_bounds(w as int, h as int, x as int, y as int);
                        lemma_mines_near_upto_le(*self, x as int, y as int, 8);
                    }
                    let idx: usize = y * w + x;
                    let t = if cnt == 0 {
                        Tile::Empty
                    } else {
                        Tile::BombNeighbour(cnt)
                    };
                    let ghost prev = *self;
                    self.map.set(idx, t);
                    proof {
                        assert forall|px: int, py: int| #[trigger] self.mine_at(px, py)
                            == prev.mine_at(px, py) by {
                            if prev.in_bounds(px, py) {
                                lemma_cell_index_bounds(w as int, h as int, px, py);
                            }
                        }
                        assert forall|px: int, py: int| #[trigger] self.mines_near(px, py)
                            == prev.mines_near(px, py) by {
                            lemma_mines_near_upto_same(*self, prev, px, py, 8);
                        }
                        assert forall|px: int, py: int|
                            self.in_bounds(px, py) && (py < y || (py == y && px < x + 1)) && !(
                            #[trigger] self.tile_at(px, py) is Bomb) implies self.tile_at(px, py)
                            == count_tile(self.mines_near(px, py)) by {
                            lemma_cell_index_bounds(w as int, h as int, px, py);
                            if px == x && py == y {
                                assert(self.tile_at(px, py) == t);
                            } else {
                                lemma_cell_index_injective(w as int, px, py, x as int, y as int);
                                assert(self.tile_at(px, py) == prev.tile_at(px, py));
                            }
                        }
                    }
                } else {
                    proof {
                        assert forall|px: int, py: int|
                            self.in_bounds(px, py) && (py < y || (py == y && px < x + 1)) && !(
                            #[trigger] self.tile_at(px, py) is Bomb) implies self.tile_at(px, py)
                            == count_tile(self.mines_near(px, py)) by {
                            lemma_cell_index_bounds(w as int, h as int, px, py);
                        }
                    }
                }
                x = x + 1;
            }
            y = y + 1;
        }
        proof {
            lemma_mines_in_prefix_same(self.map@, old(self).map@, len);
        }
    }

    /// Regenerates the layout with mines at exactly the given cells, which
    /// must be distinct and in bounds, then derives every neighbor count.
    /// The grid is reset first, so earlier layouts do not linger.
    pub fn set_bombs_at(&mut self, positions: &Vec<Coordinates>)
        requires
            old(self).wf(),
            positions@.len() <= 0xffff,
            forall|i: int|
                0 <= i < positions@.len() ==> old(self).in_bounds(
                    (#[trigger] positions@[i]).x as int,
                    positions@[i].y as int,
                ),
            forall|i: int, j: int|
                0 <= i < j < positions@.len() ==> positions@[i] != positions@[j],
        ensures
            final(self).generated(),
            final(self).spec_width() == old(self).spec_width(),
            final(self).spec_height() == old(self).spec_height(),
            final(self).spec_bomb_count() == positions@.len(),
            final(self).total_mines() == positions@.len(),
            forall|x: int, y: int|
                #[trigger] final(self).mine_at(x, y) <==> exists|i: int|
                    0 <= i < positions@.len() && (#[trigger] positions@[i]).x as int == x
                        && positions@[i].y as int == y,
    {
        proof {
            lemma_grid_fits(self.spec_width(), self.spec_height());
        }
        let w: usize = self.width as usize;
        let h: usize = self.height as usize;
        let n: usize = w * h;
        self.map = make_empty_tiles(n);
        self.bomb_count = positions.len() as u16;
        let m: usize = positions.len();
        let mut idxs: Vec<usize> = Vec::new();
        let mut i: usize = 0;
        while i < m
            invariant
                self.wf(),
                w == self.spec_width(),
                h == self.spec_height(),
                n == self.map@.len(),
                i <= m,
                m == positions@.len(),
                forall|j: int|
                    0 <= j < positions@.len() ==> self.in_bounds(
                        (#[trigger] positions@[j]).x as int,
                        positions@[j].y as int,
                    ),
                forall|a: int, b: int|
                    0 <= a < b < positions@.len() ==> positions@[a] != positions@[b],
                idxs@.len() == i,
                forall|j: int|
                    0 <= j < i ==> (#[trigger] idxs@[j]) as int == self.cell_index(
                        positions@[j].x as int,
                        positions@[j].y as int,
                    ),
                distinct_below(idxs@, n as int),
            decreases m - i,
        {
            let p = positions[i];
            proof {
                lemma_cell_index_bounds(w as int, h as int, p.x as int, p.y as int);
                assert forall|j: int| 0 <= j < i implies (#[trigger] idxs@[j]) as int != (p.y as int)
                    * (w as int) + (p.x as int) by {
                    lemma_cell_index_injective(
                        w as int,
                        positions@[j].x as int,
                        positions@[j].y as int,
                        p.x as int,
                        p.y as int,
                    );
                }
            }
            let idx: usize = (p.y as usize) * w + (p.x as usize);
            idxs.push(idx);
            i = i + 1;
        }
        self.mark_mines_at_indices(&idxs);
        self.apply_counts();
        proof {
            let g = *self;
            assert forall|x: int, y: int| #[trigger] g.mine_at(x, y) <==> exists|i: int|
                0 <= i < positions@.len() && (#[trigger] positions@[i]).x as int == x
                    && positions@[i].y as int == y by {
                if g.mine_at(x, y) {
                    lemma_cell_index_bounds(w as int, h as int, x, y);
                    let ci = g.cell_index(x, y);
                    assert(seq_has_index(idxs@, ci));
                    let j = choose|j: int|
                        0 <= j < idxs@.len() && (#[trigger] idxs@[j]) as int == ci;
                    if positions@[j].x as int != x || positions@[j].y as int != y {
                        lemma_cell_index_injective(
                            w as int,
                            positions@[j].x as int,
                            positions@[j].y as int,
                            x,
                            y,
                        );
                    }
                    assert(0 <= j < positions@.len() && (positions@[j]).x as int == x
                        && positions@[j].y as int == y);
                }
                if exists|i: int|
                    0 <= i < positions@.len() && (#[trigger] positions@[i]).x as int == x
                        && positions@[i].y as int == y {
                    let j = choose|j: int|
                        0 <= j < positions@.len() && (#[trigger] positions@[j]).x as int == x
                            && positions@[j].y as int == y;
                    lemma_cell_index_bounds(w as int, h as int, x, y);
                    assert(idxs@[j] as int == g.cell_index(x, y));
                    assert(seq_has_index(idxs@, g.cell_index(x, y)));
                    assert(g.map@[g.cell_index(x, y)] is Bomb);
                }
            }
        }
    }

    /// Places the requested number of mines at uniformly random distinct
    /// cells — clamped to one fewer than the cell count when the request
    /// would fill (or overflow) the grid, so at least one cell stays safe
    /// and placement always terminates — then derives every neighbor count.
    /// The grid is reset first, so a repeated call simply regenerates it.
    /// Returns the number of mines actually placed.
    pub fn set_bombs(&mut self, bomb_count: u16) -> (placed: u16)
        requires
            old(self).wf(),
        ensures
            final(self).generated(),
            final(self).spec_width() == old(self).spec_width(),
            final(self).spec_height() == old(self).spec_height(),
            placed as int == clamped_mines(
                bomb_count as int,
                old(self).spec_width() * old(self).spec_height(),
            ),
            final(self).spec_bomb_count() == placed,
            final(self).total_mines() == placed,
    {
        proof {
            lemma_grid_fits(self.spec_width(), self.spec_height());
        }
        let w: usize = self.width as usize;
        let h: usize = self.height as usize;
        let n: usize = w * h;
        let k: usize = if (bomb_count as usize) < n {
            bomb_count as usize
        } else {
            n - 1
        };
        let mut perm: Vec<usize> = Vec::new();
        let mut i: usize = 0;
        while i < n
            invariant
                i <= n,
                perm@.len() == i,
                forall|j: int| 0 <= j < i ==> (#[trigger] perm@[j]) as int == j,
            decreases n - i,
        {
            perm.push(i);
            i = i + 1;
        }
        let mut rng = new_rng();
        let mut s: usize = 0;
        while s < k
            invariant
                s <= k,
                k < n,
                perm@.len() == n,
                distinct_below(perm@, n as int),
            decreases k - s,
        {
            let r = rand_below(&mut rng, n - s);
            let j: usize = s + r;
            let a: usize = perm[s];
            let b: usize = perm[j];
            let ghost before = perm@;
            perm.set(s, b);
            perm.set(j, a);
            proof {
                assert forall|p: int, q: int| 0 <= p < q < perm@.len() implies perm@[p]
                    != perm@[q] by {
                    assert(before[p] != before[q]);
                }
            }
            s = s + 1;
        }
        perm.truncate(k);
        self.map = make_empty_tiles(n);
        self.bomb_count = k as u16;
        self.mark_mines_at_indices(&perm);
        self.apply_counts();
        k as u16
    }

    /// The first cell, scanning rows from the bottom and each row left to
    /// right, whose tile is `Empty` — a guaranteed-safe, zero-count starting
    /// cell — or `None` when the grid has no empty tile at all.
    pub fn safe_start_cell(&self) -> (r: Option<Coordinates>)
        requires
            self.wf(),
        ensures
            match r {
                Some(c) => {
                    &&& self.in_bounds(c.x as int, c.y as int)
                    &&& self.tile_at(c.x as int, c.y as int) == Tile::Empty
                    &&& forall|x: int, y: int|
                        self.in_bounds(x, y) && (y < c.y || (y == c.y && x < c.x))
                            ==> #[trigger] self.tile_at(x, y) != Tile::Empty
                },
                None => forall|x: int, y: int|
                    self.in_bounds(x, y) ==> #[trigger] self.tile_at(x, y) != Tile::Empty,
            },
    {
        let w: usize = self.width as usize;
        let h: usize = self.height as usize;
        let mut y: usize = 0;
        while y < h
            invariant
                self.wf(),
                w == self.spec_width(),
                h == self.spec_height(),
                y <= h,
                forall|px: int, py: int|
                    self.in_bounds(px, py) && py < y ==> #[trigger] self.tile_at(px, py)
                        != Tile::Empty,
            decreases h - y,
        {
            let mut x: usize = 0;
            while x < w
                invariant
                    self.wf(),
                    w == self.spec_width(),
                    h == self.spec_height(),
                    y < h,
                    x <= w,
                    forall|px: int, py: int|
                        self.in_bounds(px, py) && (py < y || (py == y && px < x))
                            ==> #[trigger] self.tile_at(px, py) != Tile::Empty,
                decreases w - x,
            {
                proof {
                    lemma_cell_index_bounds(w as int, h as int, x as int, y as int);
                }
                let idx: usize = y * w + x;
                if matches!(self.map[idx], Tile::Empty) {
                    return Some(Coordinates { x: x as u16, y: y as u16 });
                }
                x = x + 1;
            }
            y = y + 1;
        }
        None
    }
}

/// The horizontal separator of the console form: `width + 2` dashes.
pub open spec fn sep_text(w: int) -> Seq<char> {
    Seq::new((w + 2) as nat, |i: int| '-')
}

/// The text of the first `k` cells of row `y`, left to right.
pub open spec fn row_text(g: TileMap, y: int, k: int) -> Seq<char>
    decreases k,
{
    if k <= 0 {
        Seq::empty()
    } else {
        row_text(g, y, k - 1) + tile_text(g.tile_at(k - 1, y))
    }
}

/// The framed rows with index below `hi` and at least `lo`, highest first,
/// each between `|` bars and ended by a newline.
pub open spec fn rows_text(g: TileMap, hi: int, lo: int) -> Seq<char>
    decreases hi - lo,
{
    if hi <= lo {
        Seq::empty()
    } else {
        seq!['|'] + row_text(g, hi - 1, g.spec_width()) + seq!['|', '\n'] + rows_text(
            g,
            hi - 1,
            lo,
        )
    }
}

/// The whole console form of a grid: a header with the dimensions and mine
/// count, then the rows top-down between separator lines.
pub open spec fn map_text(g: TileMap) -> Seq<char> {
    "Map: ("@ + dec_seq(g.spec_width() as nat) + ","@ + dec_seq(g.spec_height() as nat)
        + ") with "@ + dec_seq(g.spec_bomb_count() as nat) + " bombs:\n"@ + sep_text(g.spec_width())
        + "\n"@ + rows_text(g, g.spec_height(), 0) + sep_text(g.spec_width())
}

/// Peeling the lowest remaining row off a top-down row rendering appends it.
proof fn lemma_rows_text_snoc(g: TileMap, hi: int, lo: int)
    requires
        lo >= 1,
        hi >= lo,
    ensures
        rows_text(g, hi, lo - 1) == rows_text(g, hi, lo) + (seq!['|'] + row_text(
            g,
            lo - 1,
            g.spec_width(),
        ) + seq!['|', '\n']),
    decreases hi - lo,
{
    if hi == lo {
        reveal_with_fuel(rows_text, 2);
        assert(rows_text(g, hi, lo - 1) =~= rows_text(g, hi, lo) + (seq!['|'] + row_text(
            g,
            lo - 1,
            g.spec_width(),
        ) + seq!['|', '\n']));
    } else {
        lemma_rows_text_snoc(g, hi - 1, lo);
        let fr = seq!['|'] + row_text(g, lo - 1, g.spec_width()) + seq!['|', '\n'];
        let top = seq!['|'] + row_text(g, hi - 1, g.spec_width()) + seq!['|', '\n'];
        assert(rows_text(g, hi, lo - 1) == top + rows_text(g, hi - 1, lo - 1));
        assert(rows_text(g, hi - 1, lo - 1) == rows_text(g, hi - 1, lo) + fr);
        assert(rows_text(g, hi, lo) == top + rows_text(g, hi - 1, lo));
        assert(rows_text(g, hi, lo - 1) =~= rows_text(g, hi, lo) + fr);
    }
}

impl TileMap {
    /// Appends the separator line of this grid's console form.
    fn push_sep(&self, s: &mut String)
        requires
            self.wf(),
        ensures
            final(s)@ == old(s)@ + sep_text(self.spec_width()),
    {
        let total: usize = self.width as usize + 2;
        let mut i: usize = 0;
        while i < total
            invariant
                i <= total,
                total == self.spec_width() + 2,
                s@ == old(s)@ + Seq::new(i as nat, |p: int| '-'),
            decreases total - i,
        {
            proof {
                reveal_strlit("-");
            }
            s.append("-");
            i = i + 1;
            proof {
                assert(s@ =~= old(s)@ + Seq::new(i as nat, |p: int| '-'));
            }
        }
        proof {
            assert(Seq::new(i as nat, |p: int| '-') =~= sep_text(self.spec_width()));
        }
    }

    /// The console form of the whole grid: dimensions and mine count, then
    /// every row top-down, mines as `*`, counts as digits, empty cells as
    /// spaces.
    pub fn console_output(&self) -> (r: String)
        requires
            self.wf(),
        ensures
            r@ == map_text(*self),
    {
        let w: usize = self.width as usize;
        let h: usize = self.height as usize;
        let mut s = String::from_str("Map: (");
        push_dec(&mut s, self.width);
        s.append(",");
        push_dec(&mut s, self.height);
        s.append(") with ");
        push_dec(&mut s, self.bomb_count);
        s.append(" bombs:\n");
        self.push_sep(&mut s);
        s.append("\n");
        let ghost base = s@;
        let mut yy: usize = h;
        while yy > 0
            invariant
                self.wf(),
                w == self.spec_width(),
                h == self.spec_height(),
                yy <= h,
                s@ == base + rows_text(*self, h as int, yy as int),
            decreases yy,
        {
            let y: usize = yy - 1;
            s.append("|");
            let ghost row_base = s@;
            let mut x: usize = 0;
            while x < w
                invariant
                    self.wf(),
                    w == self.spec_width(),
                    h == self.spec_height(),
                    y < h,
                    x <= w,
                    s@ == row_base + row_text(*self, y as int, x as int),
                decreases w - x,
            {
                proof {
                    lemma_cell_index_bounds(w as int, h as int, x as int, y as int);
                }
                let idx: usize = y * w + x;
                let cell = self.map[idx].console_output();
                s.append(cell.as_str());
                x = x + 1;
                proof {
                    assert(s@ =~= row_base + row_text(*self, y as int, x as int));
                }
            }
            s.append("|\n");
            yy = y;
            proof {
                lemma_rows_text_snoc(*self, h as int, yy as int + 1);
                reveal_strlit("|");
                reveal_strlit("|\n");
                assert("|"@ =~= seq!['|']);
                assert("|\n"@ =~= seq!['|', '\n']);
                assert(s@ =~= base + rows_text(*self, h as int, yy as int));
            }
        }
        self.push_sep(&mut s);
        proof {
            assert(rows_text(*self, h as int, h as int) =~= Seq::<char>::empty());
            assert(s@ =~= map_text(*self));
        }
        s
    }
}

/// No neighbor of `(x, y)` holds a mine when the neighbor-mine count over
/// the first `k` deltas is zero.
pub(crate) proof fn lemma_zero_near_no_mine(g: TileMap, x: int, y: int, k: int, kk: int)
    requires
        0 <= kk < k,
        g.mines_near_upto(x, y, k) == 0,
    ensures
        !g.mine_at(x + delta(kk).0, y + delta(kk).1),
    decreases k,
{
    lemma_mines_near_upto_le(g, x, y, k - 1);
    if kk < k - 1 {
        lemma_zero_near_no_mine(g, x, y, k - 1, kk);
    }
}

/// A generated grid stores, at every non-mine cell, exactly the tile that
/// the actual count of its mine neighbors dictates: `Empty` when that count
/// is zero, else `BombNeighbour` of that very count.
pub proof fn lemma_neighbor_counts_match(g: TileMap, x: int, y: int)
    requires
        g.generated(),
        g.in_bounds(x, y),
        !g.mine_at(x, y),
    ensures
        g.tile_at(x, y) == count_tile(g.mines_near(x, y)),
        g.tile_at(x, y) == Tile::Empty <==> g.mines_near(x, y) == 0,
{
    lemma_mines_near_upto_le(g, x, y, 8);
}

} // verus!
