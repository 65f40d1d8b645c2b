use board_plugin::components::Coordinates;
use board_plugin::render::dec_string;
use board_plugin::tile::Tile;
use board_plugin::tile_map::TileMap;

#[test]
fn dec_string_renders_decimal_digits() {
    assert_eq!(dec_string(0), "0");
    assert_eq!(dec_string(7), "7");
    assert_eq!(dec_string(10), "10");
    assert_eq!(dec_string(304), "304");
    assert_eq!(dec_string(65535), "65535");
}

#[test]
fn tile_console_output_is_plain_text() {
    assert_eq!(Tile::Bomb.console_output(), "*");
    assert_eq!(Tile::Empty.console_output(), " ");
    assert_eq!(Tile::BombNeighbour(1).console_output(), "1");
    assert_eq!(Tile::BombNeighbour(8).console_output(), "8");
}

#[test]
fn tile_is_bomb_distinguishes_variants() {
    assert!(Tile::Bomb.is_bomb());
    assert!(!Tile::Empty.is_bomb());
    assert!(!Tile::BombNeighbour(3).is_bomb());
}

#[test]
fn map_console_output_draws_framed_rows() {
    let mut grid = TileMap::empty(2, 1).unwrap();
    grid.set_bombs_at(&vec![Coordinates { x: 0, y: 0 }]);
    assert_eq!(grid.console_output(), "Map: (2,1) with 1 bombs:\n----\n|*1|\n----");
}

#[test]
fn map_console_output_lists_rows_top_down() {
    let mut grid = TileMap::empty(3, 2).unwrap();
    grid.set_bombs_at(&vec![Coordinates { x: 0, y: 0 }]);
    // row y = 1 is printed first: counts 1 1 . above the mine row * 1 .
    assert_eq!(grid.console_output(), "Map: (3,2) with 1 bombs:\n-----\n|11 |\n|*1 |\n-----");
}
