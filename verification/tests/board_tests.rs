use board_plugin::board::Board;
use board_plugin::board::RevealOutcome;
use board_plugin::board::ToggleMarkResult;
use board_plugin::components::Coordinates;
use board_plugin::tile_map::TileMap;

/// A board over the given layout whose handle for each cell is its
/// row-major index, as a front end would register spawned cell objects.
fn board_with_mines(width: u16, height: u16, mines: &[(u16, u16)]) -> Board {
    let mut grid = TileMap::empty(width, height).unwrap();
    let positions: Vec<Coordinates> = mines.iter().map(|&(x, y)| Coordinates { x, y }).collect();
    grid.set_bombs_at(&positions);
    let handles: Vec<u64> = (0..(width as u64) * (height as u64)).collect();
    Board::new(grid, &handles)
}

fn handle(board: &Board, x: u16, y: u16) -> u64 {
    (y as u64) * (board.tile_map.width() as u64) + (x as u64)
}

#[test]
fn new_board_is_fully_covered_and_unflagged() {
    let board = board_with_mines(3, 2, &[(0, 0)]);
    assert_eq!(board.covered_count, 6);
    for y in 0..2 {
        for x in 0..3 {
            let c = Coordinates { x, y };
            assert_eq!(board.tile_to_uncover(&c), Some(handle(&board, x, y)));
        }
    }
    assert!(!board.is_completed());
}

#[test]
fn tile_to_uncover_is_none_off_the_board() {
    let board = board_with_mines(3, 2, &[(0, 0)]);
    assert_eq!(board.tile_to_uncover(&Coordinates { x: 3, y: 0 }), None);
    assert_eq!(board.tile_to_uncover(&Coordinates { x: 0, y: 2 }), None);
}

#[test]
fn try_uncover_tile_returns_handle_once() {
    let mut board = board_with_mines(3, 2, &[(0, 0)]);
    let c = Coordinates { x: 2, y: 1 };
    assert_eq!(board.try_uncover_tile(&c), Some(handle(&board, 2, 1)));
    assert_eq!(board.try_uncover_tile(&c), None);
    assert_eq!(board.tile_to_uncover(&c), None);
    assert_eq!(board.covered_count, 5);
}

#[test]
fn try_uncover_tile_respects_flags() {
    let mut board = board_with_mines(3, 2, &[(0, 0)]);
    let c = Coordinates { x: 1, y: 1 };
    board.try_toggle_mark(&c);
    assert_eq!(board.try_uncover_tile(&c), None);
    assert_eq!(board.covered_count, 6);
    // the flagged cell still has its handle: it stayed covered
    assert_eq!(board.tile_to_uncover(&c), Some(handle(&board, 1, 1)));
}

#[test]
fn toggle_mark_reports_set_then_unset() {
    let mut board = board_with_mines(3, 2, &[(0, 0)]);
    let c = Coordinates { x: 1, y: 0 };
    let h = handle(&board, 1, 0);
    assert_eq!(board.try_toggle_mark(&c), ToggleMarkResult::FlagIsSet(h));
    assert_eq!(board.try_toggle_mark(&c), ToggleMarkResult::FlagIsUnset(h));
    // a double toggle is a net no-op: a third toggle sets again
    assert_eq!(board.try_toggle_mark(&c), ToggleMarkResult::FlagIsSet(h));
}

#[test]
fn toggle_mark_does_nothing_on_revealed_or_outside_cells() {
    let mut board = board_with_mines(3, 2, &[(0, 0)]);
    let c = Coordinates { x: 2, y: 0 };
    board.try_uncover_tile(&c);
    assert_eq!(board.try_toggle_mark(&c), ToggleMarkResult::DidNothing);
    assert_eq!(board.try_toggle_mark(&Coordinates { x: 9, y: 9 }), ToggleMarkResult::DidNothing);
}

#[test]
fn adjancent_covered_tiles_lists_covered_neighbors() {
    let board = board_with_mines(4, 4, &[(0, 0)]);
    let handles = board.adjancent_covered_tiles(Coordinates { x: 0, y: 0 });
    assert_eq!(handles, vec![handle(&board, 1, 0), handle(&board, 0, 1), handle(&board, 1, 1)]);
}

#[test]
fn adjancent_covered_tiles_skips_revealed_neighbors() {
    let mut board = board_with_mines(4, 4, &[(0, 0)]);
    board.try_uncover_tile(&Coordinates { x: 1, y: 0 });
    let handles = board.adjancent_covered_tiles(Coordinates { x: 0, y: 0 });
    assert_eq!(handles, vec![handle(&board, 0, 1), handle(&board, 1, 1)]);
}

#[test]
fn uncover_mine_hits_without_cascade() {
    let mut board = board_with_mines(4, 4, &[(0, 0), (3, 3)]);
    let outcome = board.uncover(Coordinates { x: 0, y: 0 });
    assert_eq!(outcome, RevealOutcome::MineHit);
    // only the mine itself was revealed: no neighbor cascaded open
    assert_eq!(board.covered_count, 15);
    for y in 0..4 {
        for x in 0..4 {
            let c = Coordinates { x, y };
            if (x, y) == (0, 0) {
                assert_eq!(board.tile_to_uncover(&c), None);
            } else {
                assert_eq!(board.tile_to_uncover(&c), Some(handle(&board, x, y)));
            }
        }
    }
}

#[test]
fn uncover_numbered_cell_reveals_only_itself() {
    let mut board = board_with_mines(4, 4, &[(0, 0), (3, 3)]);
    let outcome = board.uncover(Coordinates { x: 1, y: 1 });
    assert_eq!(outcome, RevealOutcome::Revealed(vec![Coordinates { x: 1, y: 1 }]));
    assert_eq!(board.covered_count, 15);
}

#[test]
fn uncover_empty_cell_cascades_to_numbered_rim() {
    let mut board = board_with_mines(4, 4, &[(0, 0), (3, 3)]);
    let outcome = board.uncover(Coordinates { x: 2, y: 0 });
    // the whole zero-count region opens, with its numbered rim, and only
    // the two mines stay covered: that is the win condition
    match outcome {
        RevealOutcome::BoardCompleted(list) => {
            assert_eq!(list[0], Coordinates { x: 2, y: 0 });
            assert_eq!(list.len(), 14);
            for (i, a) in list.iter().enumerate() {
                for b in list.iter().skip(i + 1) {
                    assert_ne!(a, b);
                }
            }
            assert!(!list.contains(&Coordinates { x: 0, y: 0 }));
            assert!(!list.contains(&Coordinates { x: 3, y: 3 }));
        },
        other => panic!("expected completion, got {:?}", other),
    }
    assert_eq!(board.covered_count, 2);
    assert!(board.is_completed());
}

#[test]
fn uncover_cascade_stops_at_numbered_border() {
    let mut board = board_with_mines(4, 4, &[(0, 0), (3, 3)]);
    board.uncover(Coordinates { x: 1, y: 1 });
    let outcome = board.uncover(Coordinates { x: 2, y: 0 });
    match outcome {
        RevealOutcome::BoardCompleted(list) => {
            // 16 cells minus two mines minus the one already revealed
            assert_eq!(list.len(), 13);
        },
        other => panic!("expected completion, got {:?}", other),
    }
}

#[test]
fn uncover_on_mine_free_board_reveals_everything_at_once() {
    let mut board = board_with_mines(3, 3, &[]);
    let outcome = board.uncover(Coordinates { x: 1, y: 1 });
    match outcome {
        RevealOutcome::BoardCompleted(list) => {
            assert_eq!(list.len(), 9);
            assert_eq!(list[0], Coordinates { x: 1, y: 1 });
        },
        other => panic!("expected completion, got {:?}", other),
    }
    assert_eq!(board.covered_count, 0);
    assert!(board.is_completed());
}

#[test]
fn uncover_already_revealed_cell_reports_it() {
    let mut board = board_with_mines(4, 4, &[(0, 0), (3, 3)]);
    board.uncover(Coordinates { x: 1, y: 1 });
    assert_eq!(board.uncover(Coordinates { x: 1, y: 1 }), RevealOutcome::AlreadyRevealed);
    assert_eq!(board.covered_count, 15);
}

#[test]
fn uncover_out_of_bounds_reports_already_revealed() {
    let mut board = board_with_mines(4, 4, &[(0, 0)]);
    assert_eq!(board.uncover(Coordinates { x: 4, y: 0 }), RevealOutcome::AlreadyRevealed);
    assert_eq!(board.covered_count, 16);
}

#[test]
fn flag_blocks_uncover_and_unflag_restores_it() {
    let mut board = board_with_mines(4, 4, &[(0, 0), (3, 3)]);
    let c = Coordinates { x: 1, y: 1 };
    board.try_toggle_mark(&c);
    assert_eq!(board.uncover(c), RevealOutcome::Blocked);
    // no state mutation: still covered, still flagged
    assert_eq!(board.covered_count, 16);
    assert_eq!(board.tile_to_uncover(&c), Some(handle(&board, 1, 1)));
    assert_eq!(board.try_uncover_tile(&c), None);
    // unflagging lets the reveal proceed normally
    board.try_toggle_mark(&c);
    assert_eq!(board.uncover(c), RevealOutcome::Revealed(vec![c]));
    assert_eq!(board.covered_count, 15);
}

#[test]
fn cascade_skips_flagged_cells() {
    let mut board = board_with_mines(4, 4, &[(0, 0), (3, 3)]);
    let flagged = Coordinates { x: 3, y: 0 };
    board.try_toggle_mark(&flagged);
    let outcome = board.uncover(Coordinates { x: 2, y: 0 });
    match outcome {
        RevealOutcome::Revealed(list) => {
            assert!(!list.contains(&flagged));
            assert_eq!(list.len(), 13);
        },
        other => panic!("expected plain reveal, got {:?}", other),
    }
    // the flagged cell stayed covered, so the board is not complete
    assert_eq!(board.covered_count, 3);
    assert!(!board.is_completed());
}

#[test]
fn completion_on_numbered_final_cell() {
    let mut board = board_with_mines(2, 1, &[(0, 0)]);
    assert!(!board.is_completed());
    let outcome = board.uncover(Coordinates { x: 1, y: 0 });
    assert_eq!(outcome, RevealOutcome::BoardCompleted(vec![Coordinates { x: 1, y: 0 }]));
    assert!(board.is_completed());
}
