//! The board state: a generated tile grid together with the player-visible
//! bookkeeping — which cells are still covered (each associated with an
//! opaque handle a front end uses to address its on-screen representation),
//! which are flagged — and the reveal/flag rules, including the cascading
//! flood fill of empty regions.

use vstd::prelude::*;

use crate::components::Coordinates;
use crate::tile::Tile;
use crate::tile_map::delta;
use crate::tile_map::mines_in_prefix;
use crate::tile_map::lemma_cell_index_bounds;
use crate::tile_map::lemma_cell_index_injective;
use crate::tile_map::TileMap;

verus! {

/// The reported effect of one flag toggle.
#[derive(Debug, Clone, Copy, PartialEq, Eq, Structural)]
pub enum ToggleMarkResult {
    /// The covered cell with this handle is now flagged.
    FlagIsSet(u64),
    /// The covered cell with this handle is no longer flagged.
    FlagIsUnset(u64),
    /// The cell is not covered, so flags cannot change.
    DidNothing,
}

/// The reported effect of one reveal request.
#[derive(Debug, Clone, PartialEq, Eq)]
pub enum RevealOutcome {
    /// The cell is flagged: a reveal attempt is a no-op.
    Blocked,
    /// The cell is already revealed (or out of bounds): nothing to do.
    AlreadyRevealed,
    /// The cell held a mine. It is now revealed; nothing cascades.
    MineHit,
    /// These cells, the requested one first, were newly revealed.
    Revealed(Vec<Coordinates>),
    /// As `Revealed`, and every cell still covered is now a mine: the win
    /// condition.
    BoardCompleted(Vec<Coordinates>),
}

/// How many of the first `k` entries are occupied (still covered).
pub open spec fn covered_in_prefix(s: Seq<Option<u64>>, k: int) -> int
    decreases k,
{
    if k <= 0 {
        0
    } else {
        covered_in_prefix(s, k - 1) + if s[k - 1] is Some {
            1int
        } else {
            0int
        }
    }
}

/// Whether some entry of `s` names the cell `(x, y)`.
pub open spec fn coords_contain(s: Seq<Coordinates>, x: int, y: int) -> bool {
    exists|i: int| 0 <= i < s.len() && (#[trigger] s[i]).x as int == x && s[i].y as int == y
}

/// A board: the immutable generated grid, plus per-cell covered handles and
/// flags, stored row-major like the grid itself.
pub struct Board {
    /// The generated mine layout.
    pub tile_map: TileMap,
    /// `Some(handle)` while the cell is covered, `None` once revealed.
    /// A cell is never re-covered.
    pub covered_tiles: Vec<Option<u64>>,
    /// `true` while the cell is flagged; only covered cells can be.
    pub marked_tiles: Vec<bool>,
    /// The number of cells still covered.
    pub covered_count: usize,
}

impl Board {
    /// The number of columns.
    pub open spec fn spec_width(self) -> int {
        self.tile_map.spec_width()
    }

    /// The number of rows.
    pub open spec fn spec_height(self) -> int {
        self.tile_map.spec_height()
    }

    /// Whether `(x, y)` lies on the board.
    pub open spec fn in_bounds(self, x: int, y: int) -> bool {
        self.tile_map.in_bounds(x, y)
    }

    /// The row-major index of cell `(x, y)`.
    pub open spec fn cell_index(self, x: int, y: int) -> int {
        self.tile_map.cell_index(x, y)
    }

    /// The covered entry of cell `(x, y)`.
    pub open spec fn covered_entry(self, x: int, y: int) -> Option<u64> {
        self.covered_tiles@[self.cell_index(x, y)]
    }

    /// Whether the cell `(x, y)` is still covered; false off the board.
    pub open spec fn covered_at(self, x: int, y: int) -> bool {
        self.in_bounds(x, y) && self.covered_entry(x, y) is Some
    }

    /// The view-layer handle of the covered cell `(x, y)`.
    pub open spec fn handle_at(self, x: int, y: int) -> u64 {
        self.covered_entry(x, y)->0
    }

    /// Whether the cell `(x, y)` is flagged; false off the board.
    pub open spec fn flagged_at(self, x: int, y: int) -> bool {
        self.in_bounds(x, y) && self.marked_tiles@[self.cell_index(x, y)]
    }

    /// The number of cells still covered.
    pub open spec fn spec_covered_count(self) -> int {
        self.covered_count as int
    }

    /// The board invariant: the grid is generated; both bookkeeping vectors
    /// cover the whole grid; every flagged cell is covered; and the counter
    /// agrees with the number of occupied entries.
    pub open spec fn wf(self) -> bool {
        &&& self.tile_map.generated()
        &&& self.covered_tiles@.len() == self.spec_width() * self.spec_height()
        &&& self.marked_tiles@.len() == self.spec_width() * self.spec_height()
        &&& forall|p: int|
            0 <= p < self.marked_tiles@.len() ==> ((#[trigger] self.marked_tiles@[p])
                ==> self.covered_tiles@[p] is Some)
        &&& self.covered_count == covered_in_prefix(
            self.covered_tiles@,
            self.covered_tiles@.len() as int,
        )
    }

    /// Completion: every cell still covered is necessarily a mine, by count.
    pub open spec fn spec_completed(self) -> bool {
        self.spec_covered_count() == self.tile_map.spec_bomb_count()
    }
}

/// A covered-prefix count is between 0 and the prefix length.
proof fn lemma_covered_in_prefix_le(s: Seq<Option<u64>>, k: int)
    ensures
        0 <= covered_in_prefix(s, k) <= if k <= 0 {
            0
        } else {
            k
        },
    decreases k,
{
    if k > 0 {
        lemma_covered_in_prefix_le(s, k - 1);
    }
}

/// A prefix of all-occupied entries counts its full length.
proof fn lemma_covered_in_prefix_all_some(s: Seq<Option<u64>>, k: int)
    requires
        forall|p: int| 0 <= p < k ==> (#[trigger] s[p]) is Some,
    ensures
        covered_in_prefix(s, k) == if k <= 0 {
            0
        } else {
            k
        },
    decreases k,
{
    if k > 0 {
        lemma_covered_in_prefix_all_some(s, k - 1);
    }
}

/// A prefix holding an occupied entry counts at least one.
proof fn lemma_covered_in_prefix_pos(s: Seq<Option<u64>>, i: int, k: int)
    requires
        0 <= i < k,
        s[i] is Some,
    ensures
        covered_in_prefix(s, k) >= 1,
    decreases k,
{
    lemma_covered_in_prefix_le(s, k - 1);
    if i < k - 1 {
        lemma_covered_in_prefix_pos(s, i, k - 1);
    }
}

/// Updating entry `i` changes a prefix count exactly by the change of
/// occupancy at `i`, and only when `i` lies inside the prefix.
proof fn lemma_covered_in_prefix_update(s: Seq<Option<u64>>, i: int, v: Option<u64>, k: int)
    requires
        0 <= i < s.len(),
        k <= s.len(),
    ensures
        covered_in_prefix(s.update(i, v), k) == covered_in_prefix(s, k) + if i < k {
            (if v is Some {
                1int
            } else {
                0int
            }) - (if s[i] is Some {
                1int
            } else {
                0int
            })
        } else {
            0int
        },
    decreases k,
{
    if k > 0 {
        lemma_covered_in_prefix_update(s, i, v, k - 1);
    }
}

impl Board {
    /// Creates the board state for a freshly generated grid: every cell
    /// covered and unflagged, cell `(x, y)` associated with the handle at
    /// its row-major position in `handles`.
    pub fn new(tile_map: TileMap, handles: &Vec<u64>) -> (r: Board)
        requires
            tile_map.generated(),
            handles@.len() == tile_map.spec_width() * tile_map.spec_height(),
        ensures
            r.wf(),
            r.tile_map == tile_map,
            r.spec_covered_count() == tile_map.spec_width() * tile_map.spec_height(),
            forall|x: int, y: int|
                r.in_bounds(x, y) ==> #[trigger] r.covered_entry(x, y) == Some(
                    handles@[r.cell_index(x, y)],
                ),
            forall|x: int, y: int| !(#[trigger] r.flagged_at(x, y)),
    {
        let n: usize = handles.len();
        let mut covered_tiles: Vec<Option<u64>> = Vec::new();
        let mut marked_tiles: Vec<bool> = Vec::new();
        let mut i: usize = 0;
        while i < n
            invariant
                i <= n,
                n == handles@.len(),
                covered_tiles@.len() == i,
                marked_tiles@.len() == i,
                forall|p: int| 0 <= p < i ==> #[trigger] covered_tiles@[p] == Some(handles@[p]),
                forall|p: int| 0 <= p < i ==> !(#[trigger] marked_tiles@[p]),
            decreases n - i,
        {
            covered_tiles.push(Some(handles[i]));
            marked_tiles.push(false);
            i = i + 1;
        }
        let r = Board { tile_map, covered_tiles, marked_tiles, covered_count: n };
        proof {
            lemma_covered_in_prefix_all_some(r.covered_tiles@, n as int);
            assert forall|x: int, y: int| r.in_bounds(x, y) implies #[trigger] r.covered_entry(
                x,
                y,
            ) == Some(handles@[r.cell_index(x, y)]) by {
                lemma_cell_index_bounds(r.spec_width(), r.spec_height(), x, y);
            }
            assert forall|x: int, y: int| !(#[trigger] r.flagged_at(x, y)) by {
                if r.in_bounds(x, y) {
                    lemma_cell_index_bounds(r.spec_width(), r.spec_height(), x, y);
                }
            }
        }
        r
    }

    /// The handle of the covered cell at `coordinates`, flagged or not, or
    /// `None` when the cell is revealed or out of bounds.
    pub fn tile_to_uncover(&self, coordinates: &Coordinates) -> (r: Option<u64>)
        requires
            self.wf(),
        ensures
            r == if self.covered_at(coordinates.x as int, coordinates.y as int) {
                Some(self.handle_at(coordinates.x as int, coordinates.y as int))
            } else {
                None::<u64>
            },
    {
        if coordinates.x >= self.tile_map.width || coordinates.y >= self.tile_map.height {
            return None;
        }
        proof {
            lemma_cell_index_bounds(
                self.spec_width(),
                self.spec_height(),
                coordinates.x as int,
                coordinates.y as int,
            );
        }
        let i: usize = (coordinates.y as usize) * (self.tile_map.width as usize) + (
        coordinates.x as usize);
        self.covered_tiles[i]
    }

    /// Uncovers the cell at `coordinates` and returns its handle — unless
    /// the cell is flagged, already revealed, or out of bounds, in which
    /// case nothing changes and `None` is returned.
    pub fn try_uncover_tile(&mut self, coordinates: &Coordinates) -> (r: Option<u64>)
        requires
            old(self).wf(),
        ensures
            final(self).wf(),
            final(self).tile_map == old(self).tile_map,
            final(self).marked_tiles@ == old(self).marked_tiles@,
            ({
                let cx = coordinates.x as int;
                let cy = coordinates.y as int;
                if old(self).flagged_at(cx, cy) || !old(self).covered_at(cx, cy) {
                    &&& r is None
                    &&& final(self).covered_tiles@ == old(self).covered_tiles@
                    &&& final(self).covered_count == old(self).covered_count
                } else {
                    &&& r == Some(old(self).handle_at(cx, cy))
                    &&& final(self).covered_tiles@ == old(self).covered_tiles@.update(
                        old(self).cell_index(cx, cy),
                        None::<u64>,
                    )
                    &&& final(self).covered_count == old(self).covered_count - 1
                }
            }),
    {
        if coordinates.x >= self.tile_map.width || coordinates.y >= self.tile_map.height {
            return None;
        }
        proof {
            lemma_cell_index_bounds(
                self.spec_width(),
                self.spec_height(),
                coordinates.x as int,
                coordinates.y as int,
            );
        }
        let i: usize = (coordinates.y as usize) * (self.tile_map.width as usize) + (
        coordinates.x as usize);
        if self.marked_tiles[i] {
            return None;
        }
        match self.covered_tiles[i] {
            None => None,
            Some(handle) => {
                proof {
                    lemma_covered_in_prefix_update(
                        self.covered_tiles@,
                        i as int,
                        None::<u64>,
                        self.covered_tiles@.len() as int,
                    );
                    lemma_covered_in_prefix_pos(
                        self.covered_tiles@,
                        i as int,
                        self.covered_tiles@.len() as int,
                    );
                }
                self.covered_tiles.set(i, None);
                self.covered_count = self.covered_count - 1;
                Some(handle)
            },
        }
    }

    /// Toggles the flag of the covered cell at `coordinates` and reports
    /// which way it flipped, with the cell's handle; a cell that is not
    /// covered (revealed, or out of bounds) reports `DidNothing`.
    pub fn try_toggle_mark(&mut self, coordinates: &Coordinates) -> (r: ToggleMarkResult)
        requires
            old(self).wf(),
        ensures
            final(self).wf(),
            final(self).tile_map == old(self).tile_map,
            final(self).covered_tiles@ == old(self).covered_tiles@,
            final(self).covered_count == old(self).covered_count,
            ({
                let cx = coordinates.x as int;
                let cy = coordinates.y as int;
                if !old(self).covered_at(cx, cy) {
                    &&& r == ToggleMarkResult::DidNothing
                    &&& final(self).marked_tiles@ == old(self).marked_tiles@
                } else if old(self).flagged_at(cx, cy) {
                    &&& r == ToggleMarkResult::FlagIsUnset(old(self).handle_at(cx, cy))
                    &&& final(self).marked_tiles@ == old(self).marked_tiles@.update(
                        old(self).cell_index(cx, cy),
                        false,
                    )
                } else {
                    &&& r == ToggleMarkResult::FlagIsSet(old(self).handle_at(cx, cy))
                    &&& final(self).marked_tiles@ == old(self).marked_tiles@.update(
                        old(self).cell_index(cx, cy),
                        true,
                    )
                }
            }),
    {
        if coordinates.x >= self.tile_map.width || coordinates.y >= self.tile_map.height {
            return ToggleMarkResult::DidNothing;
        }
        proof {
            lemma_cell_index_bounds(
                self.spec_width(),
                self.spec_height(),
                coordinates.x as int,
                coordinates.y as int,
            );
        }
        let i: usize = (coordinates.y as usize) * (self.tile_map.width as usize) + (
        coordinates.x as usize);
        match self.covered_tiles[i] {
            None => ToggleMarkResult::DidNothing,
            Some(handle) => {
                if self.marked_tiles[i] {
                    self.marked_tiles.set(i, false);
                    ToggleMarkResult::FlagIsUnset(handle)
                } else {
                    self.marked_tiles.set(i, true);
                    ToggleMarkResult::FlagIsSet(handle)
                }
            },
        }
    }

    /// The handles of the covered (flagged or not) neighbor cells of
    /// `coordinate`, in the fixed neighbor enumeration order.
    pub open spec fn adj_covered_upto(self, x: int, y: int, k: int) -> Seq<u64>
        decreases k,
    {
        if k <= 0 {
            Seq::empty()
        } else {
            let t = self.adj_covered_upto(x, y, k - 1);
            let nx = x + delta(k - 1).0;
            let ny = y + delta(k - 1).1;
            if self.covered_at(nx, ny) {
                t.push(self.handle_at(nx, ny))
            } else {
                t
            }
        }
    }

    /// The handles of all currently covered neighbor cells of `coordinate`
    /// — a primitive for callers that drive view-layer cascades themselves.
    pub fn adjancent_covered_tiles(&self, coordinate: Coordinates) -> (r: Vec<u64>)
        requires
            self.wf(),
        ensures
            r@ == self.adj_covered_upto(coordinate.x as int, coordinate.y as int, 8),
    {
        let mut out: Vec<u64> = Vec::new();
        let mut k: usize = 0;
        while k < 8
            invariant
                self.wf(),
                k <= 8,
                out@ == self.adj_covered_upto(coordinate.x as int, coordinate.y as int, k as int),
            decreases 8 - k,
        {
            let (dx, dy) = crate::tile_map::delta_exec(k);
            let nx: i32 = coordinate.x as i32 + dx;
            let ny: i32 = coordinate.y as i32 + dy;
            if nx >= 0 && ny >= 0 && nx < self.tile_map.width as i32 && ny
                < self.tile_map.height as i32 {
                proof {
                    lemma_cell_index_bounds(
                        self.spec_width(),
                        self.spec_height(),
                        nx as int,
                        ny as int,
                    );
                }
                let i: usize = (ny as usize) * (self.tile_map.width as usize) + (nx as usize);
                match self.covered_tiles[i] {
                    Some(handle) => out.push(handle),
                    None => (),
                }
            }
            k = k + 1;
        }
        out
    }

    /// Whether the board is completed: exactly as many cells remain covered
    /// as there are mines, so every remaining covered cell is a mine. This
    /// is the win condition.
    pub fn is_completed(&self) -> (r: bool)
        requires
            self.wf(),
        ensures
            r <==> self.spec_completed(),
    {
        self.tile_map.bomb_count() as usize == self.covered_count
    }
}

/// Whether `b` is one of the 8 neighbors of `a`.
#[verifier::opaque]
pub open spec fn adjacent(a: Coordinates, b: Coordinates) -> bool {
    exists|k: int|
        0 <= k < 8 && a.x as int + (#[trigger] delta(k)).0 == b.x as int && a.y as int + delta(
            k,
        ).1 == b.y as int
}

/// No entry repeats.
#[verifier::opaque]
pub open spec fn list_distinct(list: Seq<Coordinates>) -> bool {
    forall|i: int, j: int| 0 <= i < j < list.len() ==> list[i] != list[j]
}

/// Every entry after the first neighbors an earlier entry whose tile is
/// `Empty`: the cascade only spreads outward from empty cells.
#[verifier::opaque]
pub open spec fn list_connected(g: TileMap, list: Seq<Coordinates>) -> bool {
    forall|i: int|
        1 <= i < list.len() ==> exists|j: int|
            0 <= j < i && adjacent(#[trigger] list[j], #[trigger] list[i]) && g.tile_at(
                list[j].x as int,
                list[j].y as int,
            ) == Tile::Empty
}

/// The first `k` neighbor deltas of `(x, y)` point at no cell that could
/// still be auto-revealed: each such neighbor is off the board, already
/// uncovered, or flagged.
#[verifier::opaque]
pub open spec fn frontier_scanned(b: Board, x: int, y: int, k: int) -> bool {
    forall|kk: int|
        0 <= kk < k ==> !(b.covered_at(x + (#[trigger] delta(kk)).0, y + delta(kk).1)
            && !b.flagged_at(x + delta(kk).0, y + delta(kk).1))
}

/// No neighbor of `(x, y)` can still be auto-revealed. The cascade leaves
/// every empty cell it reveals in this state.
pub open spec fn frontier_done(b: Board, x: int, y: int) -> bool {
    frontier_scanned(b, x, y, 8)
}

/// What a successful reveal reports. `list` holds the newly revealed
/// cells: the requested cell first, no cell twice, each previously covered
/// and unflagged, none a mine, each later one adjacent to an earlier empty
/// one; exactly those cells flipped from covered to revealed; and every
/// empty revealed cell has no auto-revealable neighbor left, so the
/// cascade is complete and the region is bounded by its non-zero-count rim.
pub open spec fn reveal_list_ok(
    b0: Board,
    b1: Board,
    start: Coordinates,
    list: Seq<Coordinates>,
) -> bool {
    &&& list.len() >= 1
    &&& list[0] == start
    &&& list_distinct(list)
    &&& list_connected(b0.tile_map, list)
    &&& forall|i: int|
        0 <= i < list.len() ==> {
            let x = (#[trigger] list[i]).x as int;
            let y = list[i].y as int;
            &&& b0.in_bounds(x, y)
            &&& b0.covered_at(x, y)
            &&& !b0.flagged_at(x, y)
            &&& !b1.covered_at(x, y)
            &&& !b0.tile_map.mine_at(x, y)
        }
    &&& forall|x: int, y: int|
        b0.in_bounds(x, y) ==> #[trigger] b1.covered_entry(x, y) == (if coords_contain(
            list,
            x,
            y,
        ) {
            None::<u64>
        } else {
            b0.covered_entry(x, y)
        })
    &&& b1.spec_covered_count() == b0.spec_covered_count() - list.len()
    &&& forall|i: int|
        0 <= i < list.len() && b0.tile_map.tile_at(
            (#[trigger] list[i]).x as int,
            list[i].y as int,
        ) == Tile::Empty ==> frontier_done(b1, list[i].x as int, list[i].y as int)
}

impl Board {
    /// Reveals the cell at `coordinates` and applies the game rules: a
    /// flagged cell blocks the attempt, an already-revealed (or
    /// out-of-bounds) cell is reported as such, a mine ends the game with
    /// no cascade, and an empty cell floods outward through connected
    /// zero-count cells, revealing their rims but stopping there. After a
    /// successful cascade the win condition is checked.
    #[verifier::rlimit(100)]
    pub fn uncover(&mut self, coordinates: Coordinates) -> (r: RevealOutcome)
        requires
            old(self).wf(),
        ensures
            final(self).wf(),
            final(self).tile_map == old(self).tile_map,
            final(self).marked_tiles@ == old(self).marked_tiles@,
            ({
                let cx = coordinates.x as int;
                let cy = coordinates.y as int;
                &&& (r is Blocked <==> old(self).flagged_at(cx, cy))
                &&& (r is AlreadyRevealed <==> !old(self).flagged_at(cx, cy) && !old(
                    self).covered_at(cx, cy))
                &&& (r is MineHit <==> !old(self).flagged_at(cx, cy) && old(self).covered_at(cx, cy)
                    && old(self).tile_map.tile_at(cx, cy) is Bomb)
                &&& (r is Blocked || r is AlreadyRevealed ==> final(self).covered_tiles@ == old(
                    self).covered_tiles@ && final(self).covered_count == old(self).covered_count)
                &&& (r is MineHit ==> final(self).covered_tiles@ == old(
                    self).covered_tiles@.update(old(self).cell_index(cx, cy), None::<u64>) && final(
                    self).covered_count == old(self).covered_count - 1)
                &&& (match r {
                    RevealOutcome::Revealed(list) => reveal_list_ok(
                        *old(self),
                        *final(self),
                        coordinates,
                        list@,
                    ) && !final(self).spec_completed(),
                    RevealOutcome::BoardCompleted(list) => reveal_list_ok(
                        *old(self),
                        *final(self),
                        coordinates,
                        list@,
                    ) && final(self).spec_completed(),
                    _ => true,
                })
            }),
    {
        let cx = coordinates.x;
        let cy = coordinates.y;
        if cx >= self.tile_map.width || cy >= self.tile_map.height {
            return RevealOutcome::AlreadyRevealed;
        }
        proof {
            lemma_cell_index_bounds(self.spec_width(), self.spec_height(), cx as int, cy as int);
        }
        let w: usize = self.tile_map.width as usize;
        let ci: usize = (cy as usize) * w + (cx as usize);
        if self.marked_tiles[ci] {
            return RevealOutcome::Blocked;
        }
        if self.covered_tiles[ci].is_none() {
            return RevealOutcome::AlreadyRevealed;
        }
        proof {
            lemma_covered_in_prefix_update(
                self.covered_tiles@,
                ci as int,
                None::<u64>,
                self.covered_tiles@.len() as int,
            );
            lemma_covered_in_prefix_pos(
                self.covered_tiles@,
                ci as int,
                self.covered_tiles@.len() as int,
            );
        }
        self.covered_tiles.set(ci, None);
        self.covered_count = self.covered_count - 1;
        let start_tile = self.tile_map.map[ci];
        if matches!(start_tile, Tile::Bomb) {
            return RevealOutcome::MineHit;
        }
        let mut newly: Vec<Coordinates> = Vec::new();
        newly.push(coordinates);
        let mut stack: Vec<Coordinates> = Vec::new();
        if matches!(start_tile, Tile::Empty) {
            stack.push(coordinates);
        }
        proof {
            assert(list_distinct(newly@)) by {
                reveal(list_distinct);
            }
            assert(list_connected(self.tile_map, newly@)) by {
                reveal(list_connected);
            }
            assert(coords_contain(newly@, cx as int, cy as int)) by {
                reveal(coords_contain);
                assert(newly@[0].x as int == cx as int && newly@[0].y as int == cy as int);
            }
            assert forall|x: int, y: int| self.in_bounds(x, y) implies #[trigger] self.covered_entry(
                x,
                y,
            ) == (if coords_contain(newly@, x, y) {
                None::<u64>
            } else {
                old(self).covered_entry(x, y)
            }) by {
                reveal(coords_contain);
                lemma_cell_index_bounds(self.spec_width(), self.spec_height(), x, y);
                if x == cx as int && y == cy as int {
                    assert(newly@[0].x as int == x && newly@[0].y as int == y);
                } else {
                    lemma_cell_index_injective(self.spec_width(), x, y, cx as int, cy as int);
                    if coords_contain(newly@, x, y) {
                        let i = choose|i: int|
                            0 <= i < newly@.len() && (#[trigger] newly@[i]).x as int == x
                                && newly@[i].y as int == y;
                        assert(false);
                    }
                }
            }
            assert forall|s: int| 0 <= s < stack@.len() implies {
                let x = (#[trigger] stack@[s]).x as int;
                let y = stack@[s].y as int;
                &&& coords_contain(newly@, x, y)
                &&& self.in_bounds(x, y)
                &&& self.tile_map.tile_at(x, y) == Tile::Empty
            } by {
                assert(stack@[s] == coordinates);
            }
            assert forall|i: int|
                0 <= i < newly@.len() && self.tile_map.tile_at(
                    (#[trigger] newly@[i]).x as int,
                    newly@[i].y as int,
                ) == Tile::Empty && !coords_contain(
                    stack@,
                    newly@[i].x as int,
                    newly@[i].y as int,
                ) implies frontier_done(*self, newly@[i].x as int, newly@[i].y as int) by {
                reveal(coords_contain);
                assert(newly@[i] == coordinates);
                assert(stack@[0] == coordinates);
                assert(coords_contain(stack@, newly@[i].x as int, newly@[i].y as int));
            }
        }
        while stack.len() > 0
            invariant
                self.wf(),
                w == self.spec_width(),
                self.tile_map == old(self).tile_map,
                self.marked_tiles@ == old(self).marked_tiles@,
                newly@.len() >= 1,
                newly@[0] == coordinates,
                list_distinct(newly@),
                list_connected(self.tile_map, newly@),
                forall|i: int|
                    0 <= i < newly@.len() ==> {
                        let x = (#[trigger] newly@[i]).x as int;
                        let y = newly@[i].y as int;
                        &&& self.in_bounds(x, y)
                        &&& old(self).covered_at(x, y)
                        &&& !old(self).flagged_at(x, y)
                        &&& !self.covered_at(x, y)
                        &&& !self.tile_map.mine_at(x, y)
                    },
                forall|x: int, y: int|
                    self.in_bounds(x, y) ==> #[trigger] self.covered_entry(x, y) == (
                    if coords_contain(newly@, x, y) {
                        None::<u64>
                    } else {
                        old(self).covered_entry(x, y)
                    }),
                self.covered_count == old(self).covered_count - newly@.len(),
                forall|s: int|
                    0 <= s < stack@.len() ==> {
                        let x = (#[trigger] stack@[s]).x as int;
                        let y = stack@[s].y as int;
                        &&& coords_contain(newly@, x, y)
                        &&& self.in_bounds(x, y)
                        &&& self.tile_map.tile_at(x, y) == Tile::Empty
                    },
                forall|i: int|
                    0 <= i < newly@.len() && self.tile_map.tile_at(
                        (#[trigger] newly@[i]).x as int,
                        newly@[i].y as int,
                    ) == Tile::Empty && !coords_contain(
                        stack@,
                        newly@[i].x as int,
                        newly@[i].y as int,
                    ) ==> frontier_done(*self, newly@[i].x as int, newly@[i].y as int),
            decreases self.covered_count, stack@.len(),
        {
            let ghost stack_before = stack@;
            let c_opt = stack.pop();
            let c = c_opt.unwrap();
            let ghost cc0 = self.covered_count;
            let ghost len0 = stack@.len();
            proof {
                assert(stack_before[stack_before.len() - 1] == c);
                assert(coords_contain(newly@, c.x as int, c.y as int));
                assert(frontier_scanned(*self, c.x as int, c.y as int, 0)) by {
                    reveal(frontier_scanned);
                }
                assert forall|s: int| 0 <= s < stack@.len() implies {
                    let x = (#[trigger] stack@[s]).x as int;
                    let y = stack@[s].y as int;
                    &&& coords_contain(newly@, x, y)
                    &&& self.in_bounds(x, y)
                    &&& self.tile_map.tile_at(x, y) == Tile::Empty
                } by {
                    assert(stack@[s] == stack_before[s]);
                }
                assert forall|i: int|
                    0 <= i < newly@.len() && self.tile_map.tile_at(
                        (#[trigger] newly@[i]).x as int,
                        newly@[i].y as int,
                    ) == Tile::Empty && !coords_contain(
                        stack@,
                        newly@[i].x as int,
                        newly@[i].y as int,
                    ) && newly@[i] != c implies frontier_done(
                    *self,
                    newly@[i].x as int,
                    newly@[i].y as int,
                ) by {
                    reveal(coords_contain);
                    if coords_contain(stack_before, newly@[i].x as int, newly@[i].y as int) {
                        let s = choose|s: int|
                            0 <= s < stack_before.len() && (#[trigger] stack_before[s]).x as int
                                == newly@[i].x as int && stack_before[s].y as int
                                == newly@[i].y as int;
                        if s < stack_before.len() - 1 {
                            assert(stack@[s] == stack_before[s]);
                            assert(coords_contain(stack@, newly@[i].x as int, newly@[i].y as int));
                        } else {
                            assert(newly@[i] == c);
                        }
                    }
                }
            }
            let mut k: usize = 0;
            while k < 8
                invariant
                    self.wf(),
                    w == self.spec_width(),
                    self.tile_map == old(self).tile_map,
                    self.marked_tiles@ == old(self).marked_tiles@,
                    newly@.len() >= 1,
                    newly@[0] == coordinates,
                    list_distinct(newly@),
                    list_connected(self.tile_map, newly@),
                    forall|i: int|
                        0 <= i < newly@.len() ==> {
                            let x = (#[trigger] newly@[i]).x as int;
                            let y = newly@[i].y as int;
                            &&& self.in_bounds(x, y)
                            &&& old(self).covered_at(x, y)
                            &&& !old(self).flagged_at(x, y)
                            &&& !self.covered_at(x, y)
                            &&& !self.tile_map.mine_at(x, y)
                        },
                    forall|x: int, y: int|
                        self.in_bounds(x, y) ==> #[trigger] self.covered_entry(x, y) == (
                        if coords_contain(newly@, x, y) {
                            None::<u64>
                        } else {
                            old(self).covered_entry(x, y)
                        }),
                    self.covered_count == old(self).covered_count - newly@.len(),
                    forall|s: int|
                        0 <= s < stack@.len() ==> {
                            let x = (#[trigger] stack@[s]).x as int;
                            let y = stack@[s].y as int;
                            &&& coords_contain(newly@, x, y)
                            &&& self.in_bounds(x, y)
                            &&& self.tile_map.tile_at(x, y) == Tile::Empty
                        },
                    k <= 8,
                    self.in_bounds(c.x as int, c.y as int),
                    self.tile_map.tile_at(c.x as int, c.y as int) == Tile::Empty,
                    coords_contain(newly@, c.x as int, c.y as int),
                    self.covered_count <= cc0,
                    stack@.len() >= len0,
                    stack@.len() == len0 || self.covered_count < cc0,
                    frontier_scanned(*self, c.x as int, c.y as int, k as int),
                    forall|i: int|
                        0 <= i < newly@.len() && self.tile_map.tile_at(
                            (#[trigger] newly@[i]).x as int,
                            newly@[i].y as int,
                        ) == Tile::Empty && !coords_contain(
                            stack@,
                            newly@[i].x as int,
                            newly@[i].y as int,
                        ) && newly@[i] != c ==> frontier_done(
                        *self,
                        newly@[i].x as int,
                        newly@[i].y as int,
                    ),
                decreases 8 - k,
            {
                let (dx, dy) = crate::tile_map::delta_exec(k);
                let nx: i32 = c.x as i32 + dx;
                let ny: i32 = c.y as i32 + dy;
                if nx >= 0 && ny >= 0 && nx < self.tile_map.width as i32 && ny
                    < self.tile_map.height as i32 {
                    let nc = Coordinates { x: nx as u16, y: ny as u16 };
                    proof {
                        lemma_cell_index_bounds(
                            self.spec_width(),
                            self.spec_height(),
                            nx as int,
                            ny as int,
                        );
                    }
                    let ni: usize = (ny as usize) * w + (nx as usize);
                    if !self.marked_tiles[ni] && self.covered_tiles[ni].is_some() {
                        proof {
                            lemma_covered_in_prefix_update(
                                self.covered_tiles@,
                                ni as int,
                                None::<u64>,
                                self.covered_tiles@.len() as int,
                            );
                            lemma_covered_in_prefix_pos(
                                self.covered_tiles@,
                                ni as int,
                                self.covered_tiles@.len() as int,
                            );
                            crate::tile_map::lemma_neighbor_counts_match(
                                self.tile_map,
                                c.x as int,
                                c.y as int,
                            );
                            crate::tile_map::lemma_zero_near_no_mine(
                                self.tile_map,
                                c.x as int,
                                c.y as int,
                                8,
                                k as int,
                            );
                            assert(!self.tile_map.mine_at(nc.x as int, nc.y as int));
                            assert(self.covered_at(nc.x as int, nc.y as int));
                        }
                        let ghost prev = *self;
                        let ghost prev_newly = newly@;
                        let ghost prev_stack = stack@;
                        self.covered_tiles.set(ni, None);
                        self.covered_count = self.covered_count - 1;
                        newly.push(nc);
                        let tn = self.tile_map.map[ni];
                        if matches!(tn, Tile::Empty) {
                            stack.push(nc);
                        }
                        proof {
                            let nxi = nc.x as int;
                            let nyi = nc.y as int;
                            // the fresh cell was still covered, so it is new to the list
                            assert forall|i: int| 0 <= i < prev_newly.len() implies prev_newly[i]
                                != nc by {
                                assert(!prev.covered_at(
                                    prev_newly[i].x as int,
                                    prev_newly[i].y as int,
                                ));
                            }
                            assert(list_distinct(newly@)) by {
                                reveal(list_distinct);
                            }
                            // the flag invariant survives: the fresh cell was unflagged
                            assert forall|p: int|
                                0 <= p < self.marked_tiles@.len() && (
                                #[trigger] self.marked_tiles@[p]) implies self.covered_tiles@[p]
                                is Some by {
                                assert(self.covered_tiles@[p] == prev.covered_tiles@[p] || p
                                    == ni as int);
                            }
                            assert(coords_contain(newly@, nxi, nyi)) by {
                                reveal(coords_contain);
                                assert(newly@[newly@.len() - 1] == nc);
                            }
                            assert(coords_contain(newly@, c.x as int, c.y as int)) by {
                                reveal(coords_contain);
                                let i = choose|i: int|
                                    0 <= i < prev_newly.len() && (#[trigger] prev_newly[i]).x as int
                                        == c.x as int && prev_newly[i].y as int == c.y as int;
                                assert(newly@[i] == prev_newly[i]);
                            }
                            // every listed cell keeps its reveal facts
                            assert forall|i: int| 0 <= i < newly@.len() implies {
                                let x = (#[trigger] newly@[i]).x as int;
                                let y = newly@[i].y as int;
                                &&& self.in_bounds(x, y)
                                &&& old(self).covered_at(x, y)
                                &&& !old(self).flagged_at(x, y)
                                &&& !self.covered_at(x, y)
                                &&& !self.tile_map.mine_at(x, y)
                            } by {
                                if i < prev_newly.len() {
                                    assert(newly@[i] == prev_newly[i]);
                                    let x = newly@[i].x as int;
                                    let y = newly@[i].y as int;
                                    lemma_cell_index_bounds(
                                        self.spec_width(),
                                        self.spec_height(),
                                        x,
                                        y,
                                    );
                                    assert(self.covered_entry(x, y) == prev.covered_entry(x, y)
                                        || self.covered_entry(x, y) is None);
                                } else {
                                    assert(newly@[i] == nc);
                                    assert(prev.covered_entry(nxi, nyi) is Some);
                                    assert(old(self).covered_entry(nxi, nyi) is Some);
                                    assert(self.covered_entry(nxi, nyi) is None);
                                }
                            }
                            // the exact frame of covered entries
                            assert forall|x: int, y: int| self.in_bounds(x, y) implies
                                #[trigger] self.covered_entry(x, y) == (if coords_contain(
                                newly@,
                                x,
                                y,
                            ) {
                                None::<u64>
                            } else {
                                old(self).covered_entry(x, y)
                            }) by {
                                reveal(coords_contain);
                                lemma_cell_index_bounds(self.spec_width(), self.spec_height(), x, y);
                                if x == nxi && y == nyi {
                                    assert(newly@[newly@.len() - 1] == nc);
                                } else {
                                    lemma_cell_index_injective(self.spec_width(), x, y, nxi, nyi);
                                    assert(self.covered_entry(x, y) == prev.covered_entry(x, y));
                                    if coords_contain(newly@, x, y) {
                                        let i = choose|i: int|
                                            0 <= i < newly@.len() && (#[trigger] newly@[i]).x as int
                                                == x && newly@[i].y as int == y;
                                        assert(i < prev_newly.len());
                                        assert(coords_contain(prev_newly, x, y));
                                    }
                                    if coords_contain(prev_newly, x, y) {
                                        let i = choose|i: int|
                                            0 <= i < prev_newly.len() && (
                                            #[trigger] prev_newly[i]).x as int == x
                                                && prev_newly[i].y as int == y;
                                        assert(newly@[i] == prev_newly[i]);
                                        assert(coords_contain(newly@, x, y));
                                    }
                                }
                            }
                            // connectivity: the fresh cell neighbors `c`, an
                            // already-listed empty cell
                            assert(list_connected(self.tile_map, newly@)) by {
                                reveal(list_connected);
                                reveal(adjacent);
                                reveal(coords_contain);
                                let j = choose|j: int|
                                    0 <= j < prev_newly.len() && (#[trigger] prev_newly[j]).x as int
                                        == c.x as int && prev_newly[j].y as int == c.y as int;
                                assert(newly@[j] == c);
                                assert(c.x as int + delta(k as int).0 == nxi && c.y as int + delta(
                                    k as int,
                                ).1 == nyi);
                                assert(adjacent(c, nc));
                                assert forall|i: int| 1 <= i < newly@.len() implies exists|jj: int|
                                    0 <= jj < i && adjacent(
                                        #[trigger] newly@[jj],
                                        #[trigger] newly@[i],
                                    ) && self.tile_map.tile_at(
                                        newly@[jj].x as int,
                                        newly@[jj].y as int,
                                    ) == Tile::Empty by {
                                    if i < newly@.len() - 1 {
                                        assert(list_connected(self.tile_map, prev_newly));
                                        let jj = choose|jj: int|
                                            0 <= jj < i && adjacent(
                                                #[trigger] prev_newly[jj],
                                                prev_newly[i],
                                            ) && self.tile_map.tile_at(
                                                prev_newly[jj].x as int,
                                                prev_newly[jj].y as int,
                                            ) == Tile::Empty;
                                        assert(newly@[jj] == prev_newly[jj] && newly@[i]
                                            == prev_newly[i]);
                                    } else {
                                        assert(0 <= j < i && adjacent(newly@[j], newly@[i])
                                            && self.tile_map.tile_at(
                                            newly@[j].x as int,
                                            newly@[j].y as int,
                                        ) == Tile::Empty);
                                    }
                                }
                            }
                            // stack membership facts survive the push
                            assert forall|s: int| 0 <= s < stack@.len() implies {
                                let x = (#[trigger] stack@[s]).x as int;
                                let y = stack@[s].y as int;
                                &&& coords_contain(newly@, x, y)
                                &&& self.in_bounds(x, y)
                                &&& self.tile_map.tile_at(x, y) == Tile::Empty
                            } by {
                                reveal(coords_contain);
                                if s < prev_stack.len() {
                                    assert(stack@[s] == prev_stack[s]);
                                    assert(coords_contain(prev_newly, stack@[s].x as int, stack@[s].y as int));
                                    let i = choose|i: int|
                                        0 <= i < prev_newly.len() && (
                                        #[trigger] prev_newly[i]).x as int == stack@[s].x as int
                                            && prev_newly[i].y as int == stack@[s].y as int;
                                    assert(newly@[i] == prev_newly[i]);
                                } else {
                                    assert(stack@[s] == nc);
                                    assert(newly@[newly@.len() - 1] == nc);
                                }
                            }
                            // settled empty cells keep their finished frontiers
                            assert forall|i: int|
                                0 <= i < newly@.len() && self.tile_map.tile_at(
                                    (#[trigger] newly@[i]).x as int,
                                    newly@[i].y as int,
                                ) == Tile::Empty && !coords_contain(
                                    stack@,
                                    newly@[i].x as int,
                                    newly@[i].y as int,
                                ) && newly@[i] != c implies frontier_done(
                                *self,
                                newly@[i].x as int,
                                newly@[i].y as int,
                            ) by {
                                reveal(coords_contain);
                                if i < prev_newly.len() {
                                    assert(newly@[i] == prev_newly[i]);
                                    assert(!coords_contain(
                                        prev_stack,
                                        newly@[i].x as int,
                                        newly@[i].y as int,
                                    )) by {
                                        if coords_contain(
                                            prev_stack,
                                            newly@[i].x as int,
                                            newly@[i].y as int,
                                        ) {
                                            let s = choose|s: int|
                                                0 <= s < prev_stack.len() && (
                                                #[trigger] prev_stack[s]).x as int
                                                    == newly@[i].x as int && prev_stack[s].y as int
                                                    == newly@[i].y as int;
                                            assert(stack@[s] == prev_stack[s]);
                                        }
                                    }
                                    assert(frontier_done(prev, newly@[i].x as int, newly@[i].y as int));
                                    assert(frontier_scanned(
                                        *self,
                                        newly@[i].x as int,
                                        newly@[i].y as int,
                                        8,
                                    )) by {
                                        reveal(frontier_scanned);
                                        assert forall|kk: int| 0 <= kk < 8 implies !(
                                        self.covered_at(
                                            newly@[i].x as int + (#[trigger] delta(kk)).0,
                                            newly@[i].y as int + delta(kk).1,
                                        ) && !self.flagged_at(
                                            newly@[i].x as int + delta(kk).0,
                                            newly@[i].y as int + delta(kk).1,
                                        )) by {
                                            let ax = newly@[i].x as int + delta(kk).0;
                                            let ay = newly@[i].y as int + delta(kk).1;
                                            if self.covered_at(ax, ay) {
                                                lemma_cell_index_bounds(
                                                    self.spec_width(),
                                                    self.spec_height(),
                                                    ax,
                                                    ay,
                                                );
                                                if self.cell_index(ax, ay) != ni as int {
                                                    assert(prev.covered_at(ax, ay));
                                                } else {
                                                    assert(self.covered_entry(ax, ay) is None);
                                                }
                                            }
                                        }
                                    }
                                } else {
                                    // the fresh cell: when empty it was pushed, so
                                    // it is on the stack and excluded here
                                    assert(newly@[i] == nc);
                                    assert(stack@[stack@.len() - 1] == nc);
                                    assert(coords_contain(
                                        stack@,
                                        newly@[i].x as int,
                                        newly@[i].y as int,
                                    ));
                                }
                            }
                            // the partially scanned frontier of `c` grows by one
                            assert(frontier_scanned(*self, c.x as int, c.y as int, k as int + 1))
                                by {
                                reveal(frontier_scanned);
                                assert forall|kk: int| 0 <= kk < k + 1 implies !(self.covered_at(
                                    c.x as int + (#[trigger] delta(kk)).0,
                                    c.y as int + delta(kk).1,
                                ) && !self.flagged_at(
                                    c.x as int + delta(kk).0,
                                    c.y as int + delta(kk).1,
                                )) by {
                                    let ax = c.x as int + delta(kk).0;
                                    let ay = c.y as int + delta(kk).1;
                                    if kk < k as int {
                                        if self.covered_at(ax, ay) {
                                            lemma_cell_index_bounds(
                                                self.spec_width(),
                                                self.spec_height(),
                                                ax,
                                                ay,
                                            );
                                            if self.cell_index(ax, ay) != ni as int {
                                                assert(prev.covered_at(ax, ay));
                                            } else {
                                                assert(self.covered_entry(ax, ay) is None);
                                            }
                                        }
                                    } else {
                                        assert(ax == nxi && ay == nyi);
                                        assert(self.covered_entry(ax, ay) is None);
                                    }
                                }
                            }
                        }
                    } else {
                        proof {
                            assert(frontier_scanned(*self, c.x as int, c.y as int, k as int + 1))
                                by {
                                reveal(frontier_scanned);
                                assert(c.x as int + delta(k as int).0 == nx as int);
                                assert(c.y as int + delta(k as int).1 == ny as int);
                            }
                        }
                    }
                } else {
                    proof {
                        assert(frontier_scanned(*self, c.x as int, c.y as int, k as int + 1)) by {
                            reveal(frontier_scanned);
                            assert(!self.in_bounds(
                                c.x as int + delta(k as int).0,
                                c.y as int + delta(k as int).1,
                            ));
                        }
                    }
                }
                k = k + 1;
            }
            proof {
                assert(frontier_done(*self, c.x as int, c.y as int));
                assert forall|i: int|
                    0 <= i < newly@.len() && self.tile_map.tile_at(
                        (#[trigger] newly@[i]).x as int,
                        newly@[i].y as int,
                    ) == Tile::Empty && !coords_contain(
                        stack@,
                        newly@[i].x as int,
                        newly@[i].y as int,
                    ) implies frontier_done(*self, newly@[i].x as int, newly@[i].y as int) by {
                    if newly@[i] == c {
                    }
                }
            }
        }
        proof {
            assert forall|i: int|
                0 <= i < newly@.len() && self.tile_map.tile_at(
                    (#[trigger] newly@[i]).x as int,
                    newly@[i].y as int,
                ) == Tile::Empty implies frontier_done(*self, newly@[i].x as int, newly@[i].y as int)
                by {
                assert(!coords_contain(stack@, newly@[i].x as int, newly@[i].y as int)) by {
                    reveal(coords_contain);
                }
            }
        }
        if self.is_completed() {
            RevealOutcome::BoardCompleted(newly)
        } else {
            RevealOutcome::Revealed(newly)
        }
    }
}

/// The coordinates a row-major index decomposes into on a `w`-wide,
/// `h`-high grid.
proof fn lemma_coords_of_index(w: int, h: int, p: int)
    requires
        1 <= w,
        0 <= p < w * h,
    ensures
        0 <= p % w < w,
        0 <= p / w < h,
        (p / w) * w + (p % w) == p,
{
    assert(0 <= p % w < w && 0 <= p / w < h && (p / w) * w + (p % w) == p) by (nonlinear_arith)
        requires
            1 <= w,
            0 <= p < w * h,
    ;
}

/// When every mine is still covered, the covered entries never count fewer
/// than the mines, and the counts agree exactly when coverage and mines
/// coincide position by position.
proof fn lemma_prefix_counts(tiles: Seq<Tile>, cov: Seq<Option<u64>>, k: int)
    requires
        forall|p: int| 0 <= p < k ==> ((#[trigger] tiles[p]) is Bomb ==> cov[p] is Some),
    ensures
        mines_in_prefix(tiles, k) <= covered_in_prefix(cov, k),
        (mines_in_prefix(tiles, k) == covered_in_prefix(cov, k)) <==> (forall|p: int|
            0 <= p < k ==> ((#[trigger] cov[p]) is Some <==> tiles[p] is Bomb)),
    decreases k,
{
    if k > 0 {
        lemma_prefix_counts(tiles, cov, k - 1);
        if mines_in_prefix(tiles, k) == covered_in_prefix(cov, k) {
            assert(mines_in_prefix(tiles, k - 1) == covered_in_prefix(cov, k - 1));
            assert forall|p: int| 0 <= p < k implies ((#[trigger] cov[p]) is Some <==> tiles[p]
                is Bomb) by {
                if p == k - 1 {
                    assert(cov[p] is Some <==> tiles[p] is Bomb);
                }
            }
        }
        if forall|p: int| 0 <= p < k ==> ((#[trigger] cov[p]) is Some <==> tiles[p] is Bomb) {
            assert(mines_in_prefix(tiles, k - 1) == covered_in_prefix(cov, k - 1));
        }
    }
}

/// A board is completed — as many covered cells as mines — exactly when the
/// covered cells are precisely the mine cells, provided no mine has been
/// revealed (that is, the game has not already been lost).
pub proof fn lemma_completed_iff_covered_are_mines(b: Board)
    requires
        b.wf(),
        forall|x: int, y: int| b.tile_map.mine_at(x, y) ==> #[trigger] b.covered_at(x, y),
    ensures
        b.spec_completed() <==> (forall|x: int, y: int|
            #[trigger] b.covered_at(x, y) <==> b.tile_map.mine_at(x, y)),
{
    let tiles = b.tile_map.map@;
    let cov = b.covered_tiles@;
    let w = b.spec_width();
    let h = b.spec_height();
    let n = w * h;
    assert forall|p: int| 0 <= p < n && (#[trigger] tiles[p]) is Bomb implies cov[p] is Some by {
        lemma_coords_of_index(w, h, p);
        let x = p % w;
        let y = p / w;
        assert(b.tile_map.cell_index(x, y) == p);
        assert(b.tile_map.mine_at(x, y));
        assert(b.covered_at(x, y));
    }
    lemma_prefix_counts(tiles, cov, n);
    if b.spec_completed() {
        assert forall|x: int, y: int| #[trigger] b.covered_at(x, y) <==> b.tile_map.mine_at(
            x,
            y,
        ) by {
            if b.in_bounds(x, y) {
                lemma_cell_index_bounds(w, h, x, y);
                assert(cov[b.cell_index(x, y)] is Some <==> tiles[b.cell_index(x, y)] is Bomb);
            }
        }
    }
    if forall|x: int, y: int| #[trigger] b.covered_at(x, y) <==> b.tile_map.mine_at(x, y) {
        assert forall|p: int| 0 <= p < n implies ((#[trigger] cov[p]) is Some <==> tiles[p]
            is Bomb) by {
            lemma_coords_of_index(w, h, p);
            let x = p % w;
            let y = p / w;
            assert(b.tile_map.cell_index(x, y) == p);
            assert(b.covered_at(x, y) <==> b.tile_map.mine_at(x, y));
        }
        assert(mines_in_prefix(tiles, n) == covered_in_prefix(cov, n));
    }
}

/// Toggling the flag of a covered cell twice is a net no-op on the flag
/// set, while each single toggle flips exactly that cell's flag. The two
/// hypotheses on `b1` and `b2` are what `try_toggle_mark` guarantees of
/// its two calls.
pub proof fn lemma_toggle_twice_restores(b0: Board, b1: Board, b2: Board, x: int, y: int)
    requires
        b0.wf(),
        b0.covered_at(x, y),
        b1.tile_map == b0.tile_map,
        b1.covered_tiles@ == b0.covered_tiles@,
        b1.marked_tiles@ == b0.marked_tiles@.update(b0.cell_index(x, y), !b0.flagged_at(x, y)),
        b2.tile_map == b1.tile_map,
        b2.covered_tiles@ == b1.covered_tiles@,
        b2.marked_tiles@ == b1.marked_tiles@.update(b1.cell_index(x, y), !b1.flagged_at(x, y)),
    ensures
        b1.flagged_at(x, y) == !b0.flagged_at(x, y),
        b2.marked_tiles@ == b0.marked_tiles@,
{
    lemma_cell_index_bounds(b0.spec_width(), b0.spec_height(), x, y);
    assert(b2.marked_tiles@ =~= b0.marked_tiles@);
}

} // verus!
