use minesweeper_core::{create_board, Board, BoardError, Coordinates, Tile, TileMap};

fn coord(x: u16, y: u16) -> Coordinates {
    Coordinates { x, y }
}

fn handles(n: usize) -> Vec<u64> {
    let mut v = Vec::new();
    for i in 0..n {
        v.push(1000 + i as u64);
    }
    v
}

/// A 1x3 strip: [Mine, Empty, Empty] becomes [Mine, 1, Empty].
fn strip_board() -> Board {
    let mut tm = TileMap::empty(3, 1).unwrap();
    tm.place_bombs_at(&vec![coord(0, 0)]).unwrap();
    Board::new(tm, 0, 0, 16, &handles(3))
}

#[test]
fn board_starts_fully_covered() {
    let b = strip_board();
    assert_eq!(b.tile_to_uncover(&coord(0, 0)), Some(1000));
    assert_eq!(b.tile_to_uncover(&coord(1, 0)), Some(1001));
    assert_eq!(b.tile_to_uncover(&coord(2, 0)), Some(1002));
    assert_eq!(b.tile_to_uncover(&coord(3, 0)), None);
    assert!(!b.is_completed());
}

#[test]
fn mouse_position_translates_and_bounds_checks() {
    let b = strip_board();
    // board extent: 48 x 16 pixels at origin (0, 0)
    assert_eq!(b.mouse_position(0, 0), Some(coord(0, 0)));
    assert_eq!(b.mouse_position(15, 15), Some(coord(0, 0)));
    assert_eq!(b.mouse_position(16, 0), Some(coord(1, 0)));
    assert_eq!(b.mouse_position(47, 15), Some(coord(2, 0)));
    assert_eq!(b.mouse_position(48, 0), None);
    assert_eq!(b.mouse_position(0, 16), None);
    assert_eq!(b.mouse_position(-1, 5), None);
}

#[test]
fn mouse_position_respects_the_origin() {
    let mut tm = TileMap::empty(2, 2).unwrap();
    tm.place_bombs_at(&vec![coord(0, 0)]).unwrap();
    let b = Board::new(tm, -10, 20, 8, &handles(4));
    assert_eq!(b.mouse_position(-10, 20), Some(coord(0, 0)));
    assert_eq!(b.mouse_position(-3, 28), Some(coord(0, 1)));
    assert_eq!(b.mouse_position(-2, 28), Some(coord(1, 1)));
    assert_eq!(b.mouse_position(-11, 20), None);
    assert_eq!(b.mouse_position(6, 20), None);
}

#[test]
fn try_uncover_removes_the_cover_once() {
    let mut b = strip_board();
    assert_eq!(b.try_uncover_tile(&coord(1, 0)), Some(1001));
    // idempotent: the second attempt is a defined no-op
    assert_eq!(b.try_uncover_tile(&coord(1, 0)), None);
    assert_eq!(b.tile_to_uncover(&coord(1, 0)), None);
    // the other covers are untouched
    assert_eq!(b.tile_to_uncover(&coord(0, 0)), Some(1000));
    assert_eq!(b.tile_to_uncover(&coord(2, 0)), Some(1002));
    // out of bounds is a no-op, never an error
    assert_eq!(b.try_uncover_tile(&coord(7, 7)), None);
}

#[test]
fn adjacent_covered_tiles_lists_covered_neighbors() {
    let mut b = strip_board();
    assert_eq!(b.adjacent_covered_tiles(coord(1, 0)), vec![1000, 1002]);
    b.try_uncover_tile(&coord(2, 0)).unwrap();
    assert_eq!(b.adjacent_covered_tiles(coord(1, 0)), vec![1000]);
    assert_eq!(b.adjacent_covered_coordinates(coord(1, 0)), vec![coord(0, 0)]);
}

#[test]
fn completion_ignores_covered_mines() {
    let mut b = strip_board();
    assert!(!b.is_completed());
    b.try_uncover_tile(&coord(1, 0)).unwrap();
    assert!(!b.is_completed());
    b.try_uncover_tile(&coord(2, 0)).unwrap();
    // every safe cell is revealed; the mine may stay covered
    assert!(b.is_completed());
    assert_eq!(b.tile_to_uncover(&coord(0, 0)), Some(1000));
}

#[test]
fn create_board_validates_and_builds() {
    let h = handles(12);
    assert_eq!(
        create_board(0, 4, 1, 7, 0, 0, 16, &Vec::new()).unwrap_err(),
        BoardError::InvalidDimensions
    );
    assert_eq!(
        create_board(4, 3, 12, 7, 0, 0, 16, &h).unwrap_err(),
        BoardError::TooManyMines
    );
    let b = create_board(4, 3, 5, 7, 0, 0, 16, &h).unwrap();
    assert_eq!(b.tile_map.width(), 4);
    assert_eq!(b.tile_map.height(), 3);
    assert_eq!(b.tile_map.bomb_count(), 5);
    let mut mines = 0;
    for y in 0..3 {
        for x in 0..4 {
            assert!(b.tile_to_uncover(&coord(x, y)).is_some());
            if b.tile_map.kind_at(&coord(x, y)).unwrap() == Tile::Bomb {
                mines += 1;
            }
        }
    }
    assert_eq!(mines, 5);
}
