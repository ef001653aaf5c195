//! Core rules engine of a Minesweeper game: grid generation with mine
//! placement and neighbor counting, covered-cell tracking, coordinate
//! mapping, and the cascading reveal algorithm.
//!
//! The contracts pin the engine's guarantees down: a generated grid
//! holds exactly the requested number of mines and every non-mine cell
//! stores the exact count of mines among its in-bounds 8-neighbors; the
//! covered set only ever shrinks; a reveal of an uncovered or invalid
//! coordinate is a proven no-op; every cascade terminates, never crosses
//! a numbered boundary outward, and leaves no covered neighbor next to a
//! revealed empty cell; a board is completed exactly when every non-mine
//! cell is revealed, and each mine hit and each completion is reported
//! by exactly one event.

pub mod board;
pub mod bounds;
pub mod coordinates;
pub mod errors;
pub mod events;
pub mod tile;
pub mod tile_map;
pub mod uncover;

pub use board::Board;
pub use bounds::Bounds2;
pub use coordinates::Coordinates;
pub use errors::BoardError;
pub use events::{BoardEvent, CellChange, RevealOutcome, TileTriggerEvent, UncoverStep};
pub use tile::Tile;
pub use tile_map::TileMap;
pub use uncover::{request_reveal, trigger_event_handler, uncover_tiles};

use vstd::prelude::*;

verus! {

/// Generates a complete board: an empty grid of the requested size,
/// `bomb_count` mines placed by the seeded selection pass, neighbor
/// counts derived, and every cell covered with the host-supplied handle.
/// Zero width or height fails with `InvalidDimensions`; a mine count at
/// least the cell count fails with `TooManyMines`.
pub fn create_board(
    width: u16,
    height: u16,
    bomb_count: u16,
    seed: u64,
    origin_x: i64,
    origin_y: i64,
    tile_size: u32,
    cover_handles: &Vec<u64>,
) -> (r: Result<Board, BoardError>)
    requires
        cover_handles@.len() == width as int * height as int,
        tile_size >= 1,
        origin_x + width as int * tile_size as int <= i64::MAX,
        origin_y + height as int * tile_size as int <= i64::MAX,
    ensures
        (width == 0 || height == 0) <==> r == Result::<Board, BoardError>::Err(
            BoardError::InvalidDimensions,
        ),
        (width > 0 && height > 0 && bomb_count as int >= width as int * height as int) <==> r
            == Result::<Board, BoardError>::Err(BoardError::TooManyMines),
        r is Ok <==> (width > 0 && height > 0 && (bomb_count as int) < width as int
            * height as int),
        r matches Ok(b) ==> {
            &&& b.wf()
            &&& b.saturated()
            &&& b.tile_map.width == width
            &&& b.tile_map.height == height
            &&& b.tile_map.well_numbered()
            &&& tile_map::count_bombs(b.tile_map.map@) == bomb_count as int
            &&& b.bounds.x == origin_x
            &&& b.bounds.y == origin_y
            &&& b.tile_size == tile_size
            &&& forall|c: Coordinates| b.in_bounds(c) ==> #[trigger] b.covered_at(c)
        },
{
    let mut tile_map = match TileMap::empty(width, height) {
        Ok(tm) => tm,
        Err(e) => {
            return Err(e);
        },
    };
    match tile_map.set_bombs(bomb_count, seed) {
        Ok(()) => {},
        Err(e) => {
            return Err(e);
        },
    }
    Ok(Board::new(tile_map, origin_x, origin_y, tile_size, cover_handles))
}

/// Adds two numbers; kept as the crate's smallest example of a contract.
pub fn add(left: usize, right: usize) -> (r: usize)
    requires
        left + right <= usize::MAX,
    ensures
        r == left + right,
{
    left + right
}

} // verus!
