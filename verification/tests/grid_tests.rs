use board_plugin::components::Coordinates;
use board_plugin::tile::Tile;
use board_plugin::tile_map::GridError;
use board_plugin::tile_map::TileMap;

fn grid_with_mines(width: u16, height: u16, mines: &[(u16, u16)]) -> TileMap {
    let mut grid = TileMap::empty(width, height).unwrap();
    let positions: Vec<Coordinates> = mines.iter().map(|&(x, y)| Coordinates { x, y }).collect();
    grid.set_bombs_at(&positions);
    grid
}

fn count_mines(grid: &TileMap) -> usize {
    let mut count: usize = 0;
    for y in 0..grid.height() {
        for x in 0..grid.width() {
            if grid.is_bomb_at(Coordinates { x, y }) {
                count += 1;
            }
        }
    }
    count
}

#[test]
fn empty_rejects_zero_width() {
    assert_eq!(TileMap::empty(0, 5).unwrap_err(), GridError::InvalidDimensions);
}

#[test]
fn empty_rejects_zero_height() {
    assert_eq!(TileMap::empty(7, 0).unwrap_err(), GridError::InvalidDimensions);
}

#[test]
fn empty_grid_has_no_mines() {
    let grid = TileMap::empty(4, 3).unwrap();
    assert_eq!(grid.width(), 4);
    assert_eq!(grid.height(), 3);
    assert_eq!(grid.bomb_count(), 0);
    assert_eq!(count_mines(&grid), 0);
}

#[test]
fn set_bombs_places_requested_count() {
    let mut grid = TileMap::empty(5, 5).unwrap();
    let placed = grid.set_bombs(7);
    assert_eq!(placed, 7);
    assert_eq!(grid.bomb_count(), 7);
    assert_eq!(count_mines(&grid), 7);
}

#[test]
fn set_bombs_clamps_when_request_fills_grid() {
    let mut grid = TileMap::empty(4, 4).unwrap();
    let placed = grid.set_bombs(16);
    assert_eq!(placed, 15);
    assert_eq!(grid.bomb_count(), 15);
    assert_eq!(count_mines(&grid), 15);
}

#[test]
fn set_bombs_clamps_oversized_request_and_terminates() {
    let mut grid = TileMap::empty(3, 3).unwrap();
    let placed = grid.set_bombs(500);
    assert_eq!(placed, 8);
    assert_eq!(count_mines(&grid), 8);
}

#[test]
fn set_bombs_on_one_cell_grid_leaves_it_safe() {
    let mut grid = TileMap::empty(1, 1).unwrap();
    let placed = grid.set_bombs(5);
    assert_eq!(placed, 0);
    assert_eq!(count_mines(&grid), 0);
}

#[test]
fn set_bombs_regenerates_idempotently() {
    let mut grid = TileMap::empty(4, 4).unwrap();
    grid.set_bombs(10);
    let placed = grid.set_bombs(3);
    assert_eq!(placed, 3);
    assert_eq!(grid.bomb_count(), 3);
    assert_eq!(count_mines(&grid), 3);
}

#[test]
fn stored_tiles_match_actual_neighbor_counts() {
    let mut grid = TileMap::empty(6, 5).unwrap();
    grid.set_bombs(9);
    for y in 0..grid.height() {
        for x in 0..grid.width() {
            let c = Coordinates { x, y };
            if grid.is_bomb_at(c) {
                continue;
            }
            let count = grid.bomb_count_at(c);
            let tile = grid.map[(y as usize) * (grid.width() as usize) + (x as usize)];
            if count == 0 {
                assert_eq!(tile, Tile::Empty);
            } else {
                assert_eq!(tile, Tile::BombNeighbour(count));
            }
        }
    }
}

#[test]
fn bomb_count_at_matches_scenario_grid() {
    let grid = grid_with_mines(4, 4, &[(0, 0), (3, 3)]);
    assert_eq!(grid.bomb_count_at(Coordinates { x: 1, y: 1 }), 1);
    assert_eq!(grid.bomb_count_at(Coordinates { x: 2, y: 2 }), 1);
    assert_eq!(grid.bomb_count_at(Coordinates { x: 2, y: 0 }), 0);
    assert_eq!(grid.bomb_count_at(Coordinates { x: 1, y: 2 }), 0);
    // a mine itself and out-of-bounds cells both answer zero
    assert_eq!(grid.bomb_count_at(Coordinates { x: 0, y: 0 }), 0);
    assert_eq!(grid.bomb_count_at(Coordinates { x: 9, y: 9 }), 0);
}

#[test]
fn is_bomb_at_is_bounds_safe() {
    let grid = grid_with_mines(2, 2, &[(1, 1)]);
    assert!(grid.is_bomb_at(Coordinates { x: 1, y: 1 }));
    assert!(!grid.is_bomb_at(Coordinates { x: 0, y: 0 }));
    assert!(!grid.is_bomb_at(Coordinates { x: 2, y: 0 }));
    assert!(!grid.is_bomb_at(Coordinates { x: 0, y: 7 }));
}

#[test]
fn safe_square_at_filters_corner_neighbors() {
    let grid = TileMap::empty(3, 3).unwrap();
    let neighbors = grid.safe_square_at(Coordinates { x: 0, y: 0 });
    assert_eq!(
        neighbors,
        vec![
            Coordinates { x: 1, y: 0 },
            Coordinates { x: 0, y: 1 },
            Coordinates { x: 1, y: 1 },
        ]
    );
}

#[test]
fn safe_square_at_center_has_eight_neighbors() {
    let grid = TileMap::empty(3, 3).unwrap();
    let neighbors = grid.safe_square_at(Coordinates { x: 1, y: 1 });
    assert_eq!(
        neighbors,
        vec![
            Coordinates { x: 0, y: 0 },
            Coordinates { x: 1, y: 0 },
            Coordinates { x: 2, y: 0 },
            Coordinates { x: 0, y: 1 },
            Coordinates { x: 2, y: 1 },
            Coordinates { x: 0, y: 2 },
            Coordinates { x: 1, y: 2 },
            Coordinates { x: 2, y: 2 },
        ]
    );
}

#[test]
fn safe_start_cell_picks_first_empty_cell() {
    let grid = grid_with_mines(4, 4, &[(0, 0), (3, 3)]);
    assert_eq!(grid.safe_start_cell(), Some(Coordinates { x: 2, y: 0 }));
}

#[test]
fn safe_start_cell_absent_when_no_cell_is_empty() {
    // on 2x1 with a mine at (0,0), the safe cell (1,0) counts one neighbor
    let grid = grid_with_mines(2, 1, &[(0, 0)]);
    assert_eq!(grid.safe_start_cell(), None);
}

#[test]
fn coordinates_offset_saturates_at_zero() {
    let c = Coordinates { x: 0, y: 0 };
    assert_eq!(c.offset(-1, -1), Coordinates { x: 0, y: 0 });
    assert_eq!(c.offset(1, -1), Coordinates { x: 1, y: 0 });
}

#[test]
fn coordinates_offset_moves_both_axes() {
    let c = Coordinates { x: 5, y: 5 };
    assert_eq!(c.offset(1, -1), Coordinates { x: 6, y: 4 });
    assert_eq!(c.offset(-2, 3), Coordinates { x: 3, y: 8 });
}

#[test]
fn coordinates_offset_saturates_at_max() {
    let c = Coordinates { x: 65535, y: 65534 };
    assert_eq!(c.offset(1, 2), Coordinates { x: 65535, y: 65535 });
}
