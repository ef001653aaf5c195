use minesweeper_core::{BoardError, Coordinates, Tile, TileMap};

fn coord(x: u16, y: u16) -> Coordinates {
    Coordinates { x, y }
}

#[test]
fn it_works() {
    let result = minesweeper_core::add(2, 2);
    assert_eq!(result, 4);
}

#[test]
fn empty_rejects_zero_dimensions() {
    assert_eq!(TileMap::empty(0, 3).unwrap_err(), BoardError::InvalidDimensions);
    assert_eq!(TileMap::empty(3, 0).unwrap_err(), BoardError::InvalidDimensions);
    assert_eq!(TileMap::empty(0, 0).unwrap_err(), BoardError::InvalidDimensions);
}

#[test]
fn empty_grid_starts_all_empty() {
    let tm = TileMap::empty(4, 3).unwrap();
    assert_eq!(tm.width(), 4);
    assert_eq!(tm.height(), 3);
    assert_eq!(tm.bomb_count(), 0);
    for y in 0..3 {
        for x in 0..4 {
            assert_eq!(tm.kind_at(&coord(x, y)).unwrap(), Tile::Empty);
        }
    }
}

#[test]
fn kind_at_rejects_out_of_bounds() {
    let tm = TileMap::empty(4, 3).unwrap();
    assert_eq!(tm.kind_at(&coord(4, 0)).unwrap_err(), BoardError::OutOfBounds);
    assert_eq!(tm.kind_at(&coord(0, 3)).unwrap_err(), BoardError::OutOfBounds);
}

#[test]
fn set_bombs_rejects_too_many() {
    let mut tm = TileMap::empty(2, 2).unwrap();
    assert_eq!(tm.set_bombs(4, 7).unwrap_err(), BoardError::TooManyMines);
    assert_eq!(tm.set_bombs(9, 7).unwrap_err(), BoardError::TooManyMines);
    // the failed calls left the grid untouched
    assert_eq!(tm.bomb_count(), 0);
    tm.set_bombs(3, 7).unwrap();
    assert_eq!(tm.bomb_count(), 3);
}

fn count_mines(tm: &TileMap) -> usize {
    let mut n = 0;
    for y in 0..tm.height() {
        for x in 0..tm.width() {
            if tm.kind_at(&coord(x, y)).unwrap().is_bomb() {
                n += 1;
            }
        }
    }
    n
}

#[test]
fn set_bombs_places_exact_count() {
    for seed in [0u64, 1, 42, 0xDEADBEEF] {
        let mut tm = TileMap::empty(8, 8).unwrap();
        tm.set_bombs(10, seed).unwrap();
        assert_eq!(count_mines(&tm), 10);
        assert_eq!(tm.bomb_count(), 10);
    }
    // edge: zero mines, and the maximum allowed count
    let mut tm = TileMap::empty(3, 3).unwrap();
    tm.set_bombs(0, 5).unwrap();
    assert_eq!(count_mines(&tm), 0);
    let mut tm = TileMap::empty(3, 3).unwrap();
    tm.set_bombs(8, 5).unwrap();
    assert_eq!(count_mines(&tm), 8);
}

fn brute_force_adjacent(tm: &TileMap, x: u16, y: u16) -> u8 {
    let mut n = 0u8;
    for dy in -1i32..=1 {
        for dx in -1i32..=1 {
            if dx == 0 && dy == 0 {
                continue;
            }
            let nx = x as i32 + dx;
            let ny = y as i32 + dy;
            if nx >= 0 && ny >= 0 && nx < tm.width() as i32 && ny < tm.height() as i32 {
                if tm.kind_at(&coord(nx as u16, ny as u16)).unwrap().is_bomb() {
                    n += 1;
                }
            }
        }
    }
    n
}

#[test]
fn neighbor_counts_match_brute_force_recount() {
    for seed in [3u64, 99, 123456789] {
        let mut tm = TileMap::empty(7, 5).unwrap();
        tm.set_bombs(9, seed).unwrap();
        for y in 0..5 {
            for x in 0..7 {
                let kind = tm.kind_at(&coord(x, y)).unwrap();
                if kind.is_bomb() {
                    continue;
                }
                let expected = brute_force_adjacent(&tm, x, y);
                match kind {
                    Tile::Empty => assert_eq!(expected, 0),
                    Tile::BombNeighbor(v) => assert_eq!(v, expected),
                    Tile::Bomb => unreachable!(),
                }
            }
        }
    }
}

#[test]
fn place_bombs_at_marks_exactly_the_given_cells() {
    let mut tm = TileMap::empty(3, 1).unwrap();
    tm.place_bombs_at(&vec![coord(0, 0)]).unwrap();
    assert_eq!(tm.kind_at(&coord(0, 0)).unwrap(), Tile::Bomb);
    assert_eq!(tm.kind_at(&coord(1, 0)).unwrap(), Tile::BombNeighbor(1));
    assert_eq!(tm.kind_at(&coord(2, 0)).unwrap(), Tile::Empty);
    assert_eq!(tm.bomb_count(), 1);
}

#[test]
fn place_bombs_at_rejects_bad_positions() {
    let mut tm = TileMap::empty(2, 2).unwrap();
    assert_eq!(
        tm.place_bombs_at(&vec![coord(5, 5)]).unwrap_err(),
        BoardError::OutOfBounds
    );
    assert_eq!(
        tm.place_bombs_at(&vec![coord(0, 0), coord(0, 1), coord(1, 0), coord(1, 1)])
            .unwrap_err(),
        BoardError::TooManyMines
    );
    // failed calls left it untouched
    assert_eq!(tm.kind_at(&coord(0, 0)).unwrap(), Tile::Empty);
}

#[test]
fn safe_square_at_clips_to_grid() {
    let tm = TileMap::empty(3, 3).unwrap();
    // row-major offset order around the center
    assert_eq!(
        tm.safe_square_at(coord(1, 1)),
        vec![
            coord(0, 0),
            coord(1, 0),
            coord(2, 0),
            coord(0, 1),
            coord(2, 1),
            coord(0, 2),
            coord(1, 2),
            coord(2, 2),
        ]
    );
    // a corner keeps only its three in-bounds neighbors
    assert_eq!(
        tm.safe_square_at(coord(0, 0)),
        vec![coord(1, 0), coord(0, 1), coord(1, 1)]
    );
}

#[test]
fn a_single_cell_grid_has_no_neighbors() {
    let tm = TileMap::empty(1, 1).unwrap();
    assert!(tm.safe_square_at(coord(0, 0)).is_empty());
    assert_eq!(tm.kind_at(&coord(0, 0)).unwrap(), Tile::Empty);
}

#[test]
fn safe_start_cell_finds_an_empty_cell() {
    let mut tm = TileMap::empty(3, 1).unwrap();
    tm.place_bombs_at(&vec![coord(0, 0)]).unwrap();
    let c = tm.safe_start_cell().unwrap();
    assert_eq!(tm.kind_at(&c).unwrap(), Tile::Empty);
    // a fully numbered grid has no safe start
    let mut tm = TileMap::empty(2, 2).unwrap();
    tm.place_bombs_at(&vec![coord(0, 0), coord(1, 1), coord(0, 1)]).unwrap();
    assert!(tm.safe_start_cell().is_none());
}

#[test]
fn console_symbols_are_exact() {
    assert_eq!(Tile::Bomb.console_symbol(), "*");
    assert_eq!(Tile::Empty.console_symbol(), " ");
    assert_eq!(Tile::BombNeighbor(1).console_symbol(), "1");
    assert_eq!(Tile::BombNeighbor(5).console_symbol(), "5");
    assert_eq!(Tile::BombNeighbor(8).console_symbol(), "8");
}

#[test]
fn console_output_shows_the_symbol() {
    assert!(Tile::Bomb.console_output().contains('*'));
    assert!(Tile::BombNeighbor(3).console_output().contains('3'));
    assert!(Tile::Empty.console_output().contains(' '));
}

#[test]
fn is_bomb_distinguishes_kinds() {
    assert!(Tile::Bomb.is_bomb());
    assert!(!Tile::Empty.is_bomb());
    assert!(!Tile::BombNeighbor(2).is_bomb());
}

#[test]
fn error_messages_name_each_kind() {
    assert_eq!(
        BoardError::InvalidDimensions.message(),
        "board dimensions must be positive"
    );
    assert_eq!(
        BoardError::TooManyMines.message(),
        "mine count must be below the cell count"
    );
    assert_eq!(BoardError::OutOfBounds.message(), "coordinate lies outside the grid");
}
