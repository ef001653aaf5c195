//! The generated grid: a rectangular map of tiles, mine placement and
//! neighbor-count derivation.

use crate::coordinates::{adjacent, Coordinates};
use crate::errors::BoardError;
use crate::tile::Tile;
use vstd::arithmetic::div_mod::{
    lemma_fundamental_div_mod, lemma_mod_bound, lemma_multiply_divide_lt,
};
use vstd::pervasive::VecAdditionalExecFns;
use vstd::prelude::*;

verus! {

broadcast use vstd::seq_lib::lemma_seq_contains_after_push;

/// The row-major position of a coordinate in a flat grid of the given width.
pub open spec fn flat_index(width: int, c: Coordinates) -> int {
    c.y * width + c.x
}

/// The coordinate stored at a row-major position of a flat grid.
pub open spec fn coord_of_index(width: int, i: int) -> Coordinates {
    Coordinates { x: (i % width) as u16, y: (i / width) as u16 }
}

/// How many of the first `n` tiles are bombs.
pub open spec fn count_bombs_prefix(s: Seq<Tile>, n: int) -> int
    decreases n,
{
    if n <= 0 {
        0
    } else {
        count_bombs_prefix(s, n - 1) + if s[n - 1] is Bomb {
            1int
        } else {
            0int
        }
    }
}

/// How many tiles of the sequence are bombs.
pub open spec fn count_bombs(s: Seq<Tile>) -> int {
    count_bombs_prefix(s, s.len() as int)
}

/// Two tile sequences agree on which positions hold bombs.
pub open spec fn bombs_agree(s1: Seq<Tile>, s2: Seq<Tile>) -> bool {
    &&& s1.len() == s2.len()
    &&& forall|i: int|
        0 <= i < s1.len() ==> ((#[trigger] s1[i]) is Bomb <==> (#[trigger] s2[i]) is Bomb)
}

/// A rectangular `width x height` grid of tiles, stored row-major, with
/// the number of bombs placed in it.
#[derive(Debug)]
pub struct TileMap {
    pub width: u16,
    pub height: u16,
    pub bomb_count: u16,
    pub map: Vec<Tile>,
}

impl TileMap {
    /// The grid has positive extent and its storage matches it.
    pub open spec fn dims_ok(&self) -> bool {
        &&& 0 < self.width
        &&& 0 < self.height
        &&& self.map@.len() == self.width as int * self.height as int
    }

    /// Every stored neighbor count lies between 1 and 8.
    pub open spec fn tiles_wf(&self) -> bool {
        forall|i: int| 0 <= i < self.map@.len() ==> (#[trigger] self.map@[i]).wf()
    }

    /// The grid's structural invariant: positive extent, well-formed
    /// tiles, and a bomb-count field that matches the tiles.
    pub open spec fn wf(&self) -> bool {
        &&& self.dims_ok()
        &&& self.tiles_wf()
        &&& count_bombs(self.map@) == self.bomb_count as int
    }

    /// No mine has been placed yet: every cell is an empty placeholder.
    pub open spec fn all_empty(&self) -> bool {
        forall|i: int| 0 <= i < self.map@.len() ==> (#[trigger] self.map@[i]) is Empty
    }

    /// The coordinate names a cell of the grid.
    pub open spec fn in_bounds(&self, c: Coordinates) -> bool {
        c.x < self.width && c.y < self.height
    }

    /// The row-major storage position of an in-bounds coordinate.
    pub open spec fn index_of(&self, c: Coordinates) -> int {
        flat_index(self.width as int, c)
    }

    /// The tile stored at an in-bounds coordinate.
    pub open spec fn tile_at(&self, c: Coordinates) -> Tile {
        self.map@[self.index_of(c)]
    }

    /// 1 when the given position names an in-bounds cell holding a bomb,
    /// 0 otherwise; positions outside the grid never count as bombs.
    pub open spec fn bomb_ind(&self, x: int, y: int) -> int {
        if 0 <= x < self.width && 0 <= y < self.height && self.map@[y * self.width + x] is Bomb {
            1
        } else {
            0
        }
    }

    /// The number of bombs among the in-bounds 8-neighbors of a cell.
    pub open spec fn adjacent_bombs(&self, c: Coordinates) -> int {
        self.bomb_ind(c.x - 1, c.y - 1) + self.bomb_ind(c.x as int, c.y - 1) + self.bomb_ind(
            c.x + 1,
            c.y - 1,
        ) + self.bomb_ind(c.x - 1, c.y as int) + self.bomb_ind(c.x + 1, c.y as int)
            + self.bomb_ind(c.x - 1, c.y + 1) + self.bomb_ind(c.x as int, c.y + 1) + self.bomb_ind(
            c.x + 1,
            c.y + 1,
        )
    }

    /// Every non-bomb cell stores exactly the kind its neighborhood
    /// demands: `Empty` for zero adjacent bombs, the exact count otherwise.
    pub open spec fn well_numbered(&self) -> bool {
        forall|c: Coordinates|
            self.in_bounds(c) && !((#[trigger] self.tile_at(c)) is Bomb) ==> self.tile_at(c)
                == numbered_tile(self.adjacent_bombs(c))
    }
}

/// The tile kind a non-bomb cell with `n` adjacent bombs must store.
pub open spec fn numbered_tile(n: int) -> Tile {
    if n == 0 {
        Tile::Empty
    } else {
        Tile::BombNeighbor(n as u8)
    }
}

/// An in-bounds coordinate's row-major position lies inside the storage.
pub proof fn lemma_flat_index_bounds(width: int, height: int, c: Coordinates)
    requires
        0 < width,
        c.x < width,
        c.y < height,
    ensures
        0 <= flat_index(width, c) < width * height,
{
    assert(0 <= c.y * width + c.x < width * height) by (nonlinear_arith)
        requires
            0 < width,
            0 <= c.x < width,
            0 <= c.y < height,
    ;
}

/// Distinct in-bounds coordinates occupy distinct row-major positions.
pub proof fn lemma_flat_index_injective(width: int, c1: Coordinates, c2: Coordinates)
    requires
        0 < width,
        c1.x < width,
        c2.x < width,
        flat_index(width, c1) == flat_index(width, c2),
    ensures
        c1 == c2,
{
    assert(c1.x == c2.x && c1.y == c2.y) by (nonlinear_arith)
        requires
            0 < width,
            0 <= c1.x < width,
            0 <= c2.x < width,
            c1.y * width + c1.x == c2.y * width + c2.x,
    ;
}

/// Taking a row-major position apart into a coordinate inverts
/// `flat_index`.
pub proof fn lemma_coord_of_index(width: int, height: int, i: int)
    requires
        0 < width <= 0xFFFF,
        0 < height <= 0xFFFF,
        0 <= i < width * height,
    ensures
        coord_of_index(width, i).x < width,
        coord_of_index(width, i).y < height,
        flat_index(width, coord_of_index(width, i)) == i,
{
    lemma_mod_bound(i, width);
    lemma_multiply_divide_lt(i, width, height);
    lemma_fundamental_div_mod(i, width);
    assert(width * (i / width) == (i / width) * width) by (nonlinear_arith);
}

/// A prefix bomb count is bounded by the prefix length.
pub proof fn lemma_count_bombs_prefix_bounds(s: Seq<Tile>, n: int)
    ensures
        0 <= count_bombs_prefix(s, n),
        count_bombs_prefix(s, n) <= if n >= 0 {
            n
        } else {
            0int
        },
    decreases n,
{
    if n > 0 {
        lemma_count_bombs_prefix_bounds(s, n - 1);
    }
}

/// Sequences that agree on bomb positions have equal prefix bomb counts.
pub proof fn lemma_count_bombs_prefix_agree(s1: Seq<Tile>, s2: Seq<Tile>, n: int)
    requires
        forall|i: int|
            0 <= i < n ==> ((#[trigger] s1[i]) is Bomb <==> (#[trigger] s2[i]) is Bomb),
    ensures
        count_bombs_prefix(s1, n) == count_bombs_prefix(s2, n),
    decreases n,
{
    if n > 0 {
        lemma_count_bombs_prefix_agree(s1, s2, n - 1);
    }
}

/// Updating a position beyond the prefix leaves its bomb count unchanged.
pub proof fn lemma_count_bombs_prefix_update_beyond(s: Seq<Tile>, n: int, j: int, t: Tile)
    requires
        0 <= j < s.len(),
        n <= j,
    ensures
        count_bombs_prefix(s.update(j, t), n) == count_bombs_prefix(s, n),
{
    lemma_count_bombs_prefix_agree(s.update(j, t), s, n);
}

/// A position's bomb indicator matches the tile stored at it, and the
/// position itself lies inside the storage.
pub proof fn lemma_bomb_ind_is_tile(tm: TileMap, d: Coordinates)
    requires
        tm.dims_ok(),
        tm.in_bounds(d),
    ensures
        0 <= tm.index_of(d) < tm.map@.len(),
        tm.bomb_ind(d.x as int, d.y as int) == if tm.tile_at(d) is Bomb {
            1int
        } else {
            0int
        },
{
    lemma_flat_index_bounds(tm.width as int, tm.height as int, d);
}

/// Each bomb indicator is 0 or 1, and indicates an in-bounds bomb cell.
pub proof fn lemma_bomb_ind_bounds(tm: TileMap, x: int, y: int)
    requires
        tm.dims_ok(),
    ensures
        0 <= tm.bomb_ind(x, y) <= 1,
        tm.bomb_ind(x, y) == 1 ==> 0 <= x < tm.width && 0 <= y < tm.height && 0 <= y * tm.width + x
            < tm.map@.len() && tm.map@[y * tm.width + x] is Bomb,
{
    if 0 <= x < tm.width && 0 <= y < tm.height {
        lemma_flat_index_bounds(
            tm.width as int,
            tm.height as int,
            Coordinates { x: x as u16, y: y as u16 },
        );
    }
}

/// A grid without any bomb is well numbered: every cell may stay `Empty`.
pub proof fn lemma_all_empty_well_numbered(tm: TileMap)
    requires
        tm.dims_ok(),
        tm.all_empty(),
    ensures
        tm.well_numbered(),
{
    assert forall|c: Coordinates|
        tm.in_bounds(c) && !((#[trigger] tm.tile_at(c)) is Bomb) implies tm.tile_at(c)
        == numbered_tile(tm.adjacent_bombs(c)) by {
        lemma_bomb_ind_is_tile(tm, c);
        assert forall|x: int, y: int| tm.dims_ok() implies #[trigger] tm.bomb_ind(x, y) == 0 by {
            lemma_bomb_ind_bounds(tm, x, y);
        }
        assert(tm.adjacent_bombs(c) == 0);
    }
}

/// In a well-numbered grid no bomb sits next to an empty cell: an empty
/// cell states that zero of its neighbors hold bombs.
pub proof fn lemma_no_bomb_next_to_empty(tm: TileMap, c: Coordinates, d: Coordinates)
    requires
        tm.dims_ok(),
        tm.well_numbered(),
        tm.in_bounds(c),
        tm.in_bounds(d),
        tm.tile_at(c) is Empty,
        adjacent(c, d),
    ensures
        !(tm.tile_at(d) is Bomb),
{
    assert(tm.tile_at(c) == numbered_tile(tm.adjacent_bombs(c)));
    assert(tm.adjacent_bombs(c) == 0) by {
        if tm.adjacent_bombs(c) != 0 {
            assert(numbered_tile(tm.adjacent_bombs(c)) is BombNeighbor);
        }
    }
    lemma_bomb_ind_bounds(tm, c.x - 1, c.y - 1);
    lemma_bomb_ind_bounds(tm, c.x as int, c.y - 1);
    lemma_bomb_ind_bounds(tm, c.x + 1, c.y - 1);
    lemma_bomb_ind_bounds(tm, c.x - 1, c.y as int);
    lemma_bomb_ind_bounds(tm, c.x + 1, c.y as int);
    lemma_bomb_ind_bounds(tm, c.x - 1, c.y + 1);
    lemma_bomb_ind_bounds(tm, c.x as int, c.y + 1);
    lemma_bomb_ind_bounds(tm, c.x + 1, c.y + 1);
    assert(tm.bomb_ind(d.x as int, d.y as int) == 0);
    lemma_bomb_ind_is_tile(tm, d);
}

/// Updating a position inside the prefix shifts its bomb count by the
/// change at that position.
pub proof fn lemma_count_bombs_prefix_update_within(s: Seq<Tile>, n: int, j: int, t: Tile)
    requires
        0 <= j < n <= s.len(),
    ensures
        count_bombs_prefix(s.update(j, t), n) == count_bombs_prefix(s, n) - (if s[j] is Bomb {
            1int
        } else {
            0int
        }) + (if t is Bomb {
            1int
        } else {
            0int
        }),
    decreases n,
{
    if j == n - 1 {
        lemma_count_bombs_prefix_update_beyond(s, n - 1, j, t);
    } else {
        lemma_count_bombs_prefix_update_within(s, n - 1, j, t);
    }
}

impl TileMap {
    /// Creates a grid in which every cell is an empty placeholder; mine
    /// placement and neighbor counting come afterwards. Zero width or
    /// height is rejected with `InvalidDimensions`.
    pub fn empty(width: u16, height: u16) -> (r: Result<TileMap, BoardError>)
        ensures
            (width == 0 || height == 0) <==> r is Err,
            r is Err ==> r == Result::<TileMap, BoardError>::Err(BoardError::InvalidDimensions),
            r matches Ok(tm) ==> tm.wf() && tm.well_numbered() && tm.all_empty() && tm.width
                == width && tm.height == height && tm.bomb_count == 0,
    {
        if width == 0 || height == 0 {
            return Err(BoardError::InvalidDimensions);
        }
        proof {
            assert(width as int * height as int <= 0xFFFF * 0xFFFF) by (nonlinear_arith)
                requires
                    width <= 0xFFFF,
                    height <= 0xFFFF,
            ;
            assert(width as int * height as int >= 1) by (nonlinear_arith)
                requires
                    width >= 1,
                    height >= 1,
            ;
        }
        let total: usize = (width as usize) * (height as usize);
        let mut map: Vec<Tile> = Vec::new();
        let mut i: usize = 0;
        while i < total
            invariant
                i <= total,
                map@.len() == i,
                forall|j: int| 0 <= j < i ==> (#[trigger] map@[j]) is Empty,
            decreases total - i,
        {
            map.push(Tile::Empty);
            i += 1;
        }
        let tm = TileMap { width, height, bomb_count: 0, map };
        proof {
            lemma_count_bombs_prefix_agree(tm.map@, tm.map@, tm.map@.len() as int);
            lemma_count_bombs_prefix_bounds(tm.map@, tm.map@.len() as int);
            assert(count_bombs(tm.map@) == 0) by {
                lemma_count_bombs_all_empty(tm.map@, tm.map@.len() as int);
            }
            lemma_all_empty_well_numbered(tm);
        }
        Ok(tm)
    }

    /// The grid width, in cells.
    pub fn width(&self) -> (r: u16)
        ensures
            r == self.width,
    {
        self.width
    }

    /// The grid height, in cells.
    pub fn height(&self) -> (r: u16)
        ensures
            r == self.height,
    {
        self.height
    }

    /// How many bombs the grid holds.
    pub fn bomb_count(&self) -> (r: u16)
        ensures
            r == self.bomb_count,
    {
        self.bomb_count
    }

    /// The tile at an in-bounds coordinate; the caller answers for the
    /// bounds check.
    pub fn tile(&self, coordinates: Coordinates) -> (t: Tile)
        requires
            self.dims_ok(),
            self.in_bounds(coordinates),
        ensures
            t == self.tile_at(coordinates),
    {
        proof {
            lemma_flat_index_bounds(self.width as int, self.height as int, coordinates);
            assert(coordinates.y as int * self.width as int + coordinates.x as int <= 0xFFFF
                * 0xFFFF + 0xFFFF) by (nonlinear_arith)
                requires
                    coordinates.y <= 0xFFFF,
                    self.width <= 0xFFFF,
                    coordinates.x <= 0xFFFF,
            ;
        }
        let idx: usize = (coordinates.y as usize) * (self.width as usize) + (
        coordinates.x as usize);
        self.map[idx]
    }

    /// The kind of the cell at a coordinate, or `OutOfBounds` when the
    /// coordinate lies outside the grid. No side effects.
    pub fn kind_at(&self, coordinates: &Coordinates) -> (r: Result<Tile, BoardError>)
        requires
            self.dims_ok(),
        ensures
            self.in_bounds(*coordinates) ==> r == Result::<Tile, BoardError>::Ok(
                self.tile_at(*coordinates),
            ),
            !self.in_bounds(*coordinates) ==> r == Result::<Tile, BoardError>::Err(
                BoardError::OutOfBounds,
            ),
    {
        if coordinates.x < self.width && coordinates.y < self.height {
            Ok(self.tile(*coordinates))
        } else {
            Err(BoardError::OutOfBounds)
        }
    }

    /// Whether the possibly-out-of-range position `(x, y)` names an
    /// in-bounds cell holding a bomb; positions outside the grid never do.
    fn bomb_at_position(&self, x: i64, y: i64) -> (r: bool)
        requires
            self.dims_ok(),
        ensures
            r == (self.bomb_ind(x as int, y as int) == 1),
    {
        if x >= 0 && y >= 0 && x < self.width as i64 && y < self.height as i64 {
            let c = Coordinates { x: x as u16, y: y as u16 };
            proof {
                lemma_bomb_ind_is_tile(*self, c);
            }
            let t = self.tile(c);
            t.is_bomb()
        } else {
            false
        }
    }

    /// Counts the bombs among the in-bounds 8-neighbors of a cell.
    pub fn adjacent_bomb_count(&self, c: Coordinates) -> (n: u8)
        requires
            self.dims_ok(),
        ensures
            n as int == self.adjacent_bombs(c),
            n <= 8,
    {
        let x = c.x as i64;
        let y = c.y as i64;
        proof {
            lemma_bomb_ind_bounds(*self, c.x - 1, c.y - 1);
            lemma_bomb_ind_bounds(*self, c.x as int, c.y - 1);
            lemma_bomb_ind_bounds(*self, c.x + 1, c.y - 1);
            lemma_bomb_ind_bounds(*self, c.x - 1, c.y as int);
            lemma_bomb_ind_bounds(*self, c.x + 1, c.y as int);
            lemma_bomb_ind_bounds(*self, c.x - 1, c.y + 1);
            lemma_bomb_ind_bounds(*self, c.x as int, c.y + 1);
            lemma_bomb_ind_bounds(*self, c.x + 1, c.y + 1);
        }
        let mut n: u8 = 0;
        if self.bomb_at_position(x - 1, y - 1) {
            n += 1;
        }
        if self.bomb_at_position(x, y - 1) {
            n += 1;
        }
        if self.bomb_at_position(x + 1, y - 1) {
            n += 1;
        }
        if self.bomb_at_position(x - 1, y) {
            n += 1;
        }
        if self.bomb_at_position(x + 1, y) {
            n += 1;
        }
        if self.bomb_at_position(x - 1, y + 1) {
            n += 1;
        }
        if self.bomb_at_position(x, y + 1) {
            n += 1;
        }
        if self.bomb_at_position(x + 1, y + 1) {
            n += 1;
        }
        n
    }
}

/// Grids of equal extent that agree on bomb positions assign every cell
/// the same neighbor-bomb count.
pub proof fn lemma_adjacent_bombs_agree(a: TileMap, b: TileMap, c: Coordinates)
    requires
        a.dims_ok(),
        a.width == b.width,
        a.height == b.height,
        bombs_agree(a.map@, b.map@),
    ensures
        a.adjacent_bombs(c) == b.adjacent_bombs(c),
{
    assert forall|x: int, y: int| #[trigger] a.bomb_ind(x, y) == b.bomb_ind(x, y) by {
        lemma_bomb_ind_bounds(a, x, y);
        lemma_bomb_ind_bounds(b, x, y);
        if 0 <= x < a.width && 0 <= y < a.height {
            lemma_flat_index_bounds(
                a.width as int,
                a.height as int,
                Coordinates { x: x as u16, y: y as u16 },
            );
            assert(a.map@[y * a.width + x] is Bomb <==> b.map@[y * b.width + x] is Bomb);
        }
    }
}

impl TileMap {
    /// Derives every non-bomb cell's kind from the already-fixed bomb
    /// positions: `Empty` for zero adjacent bombs, the exact count
    /// otherwise. One pass over all cells; bomb cells are left alone.
    fn compute_numbers(&mut self)
        requires
            old(self).dims_ok(),
            forall|i: int|
                0 <= i < old(self).map@.len() ==> ((#[trigger] old(self).map@[i]) is Bomb || old(
                    self,
                ).map@[i] is Empty),
        ensures
            final(self).dims_ok(),
            final(self).width == old(self).width,
            final(self).height == old(self).height,
            final(self).bomb_count == old(self).bomb_count,
            bombs_agree(final(self).map@, old(self).map@),
            final(self).tiles_wf(),
            final(self).well_numbered(),
            count_bombs(final(self).map@) == count_bombs(old(self).map@),
    {
        let total: usize = self.map.len();
        let mut i: usize = 0;
        while i < total
            invariant
                i <= total,
                total == self.map@.len(),
                self.dims_ok(),
                self.width == old(self).width,
                self.height == old(self).height,
                self.bomb_count == old(self).bomb_count,
                bombs_agree(self.map@, old(self).map@),
                forall|j: int| i <= j < total ==> self.map@[j] == old(self).map@[j],
                forall|j: int| 0 <= j < i ==> (#[trigger] self.map@[j]).wf(),
                forall|i2: int|
                    0 <= i2 < old(self).map@.len() ==> ((#[trigger] old(self).map@[i2]) is Bomb
                        || old(self).map@[i2] is Empty),
                forall|c: Coordinates|
                    self.in_bounds(c) && self.index_of(c) < i && !((#[trigger] self.tile_at(
                        c,
                    )) is Bomb) ==> self.tile_at(c) == numbered_tile(self.adjacent_bombs(c)),
            decreases total - i,
        {
            let t = self.map[i];
            match t {
                Tile::Bomb => {},
                _ => {
                    let ghost pre = *self;
                    let w = self.width as usize;
                    let x16 = (i % w) as u16;
                    let y16 = (i / w) as u16;
                    let c = Coordinates { x: x16, y: y16 };
                    proof {
                        lemma_coord_of_index(
                            self.width as int,
                            self.height as int,
                            i as int,
                        );
                        assert(c == coord_of_index(self.width as int, i as int));
                        assert(self.in_bounds(c) && self.index_of(c) == i);
                    }
                    let n = self.adjacent_bomb_count(c);
                    let newt = if n == 0 {
                        Tile::Empty
                    } else {
                        Tile::BombNeighbor(n)
                    };
                    self.map.set(i, newt);
                    proof {
                        assert(bombs_agree(self.map@, pre.map@));
                        assert forall|c2: Coordinates|
                            self.in_bounds(c2) && self.index_of(c2) < i + 1 && !((
                            #[trigger] self.tile_at(c2)) is Bomb) implies self.tile_at(c2)
                            == numbered_tile(self.adjacent_bombs(c2)) by {
                            lemma_flat_index_bounds(
                                self.width as int,
                                self.height as int,
                                c2,
                            );
                            lemma_adjacent_bombs_agree(*self, pre, c2);
                            if self.index_of(c2) == i {
                                lemma_flat_index_injective(self.width as int, c2, c);
                                assert(self.tile_at(c2) == newt);
                            } else {
                                assert(self.tile_at(c2) == pre.tile_at(c2));
                            }
                        }
                    }
                },
            }
            i += 1;
        }
        proof {
            assert forall|c: Coordinates|
                self.in_bounds(c) && !((#[trigger] self.tile_at(c)) is Bomb) implies self.tile_at(
                c,
            ) == numbered_tile(self.adjacent_bombs(c)) by {
                lemma_flat_index_bounds(self.width as int, self.height as int, c);
            }
            lemma_count_bombs_prefix_agree(self.map@, old(self).map@, self.map@.len() as int);
        }
    }
}

impl TileMap {
    /// Places `bomb_count` mines on distinct cells chosen by a seeded
    /// pseudo-random selection pass (every cell subset is reachable), then
    /// derives every non-bomb cell's kind from the fixed bomb positions.
    /// A count of at least the cell count is rejected with `TooManyMines`.
    pub fn set_bombs(&mut self, bomb_count: u16, seed: u64) -> (r: Result<(), BoardError>)
        requires
            old(self).wf(),
            old(self).all_empty(),
        ensures
            final(self).width == old(self).width,
            final(self).height == old(self).height,
            (bomb_count as int >= old(self).width as int * old(self).height as int) <==> r is Err,
            r is Err ==> r == Result::<(), BoardError>::Err(BoardError::TooManyMines)
                && *final(self) == *old(self),
            r is Ok ==> final(self).wf() && final(self).well_numbered() && final(self).bomb_count
                == bomb_count && count_bombs(final(self).map@) == bomb_count as int,
    {
        proof {
            assert(self.width as int * self.height as int <= 0xFFFF * 0xFFFF) by (nonlinear_arith)
                requires
                    self.width <= 0xFFFF,
                    self.height <= 0xFFFF,
            ;
        }
        let total: usize = (self.width as usize) * (self.height as usize);
        if (bomb_count as usize) >= total {
            return Err(BoardError::TooManyMines);
        }
        proof {
            lemma_count_bombs_all_empty(self.map@, self.map@.len() as int);
        }
        let mut needed: u16 = bomb_count;
        let mut state: u64 = seed;
        let mut i: usize = 0;
        while i < total
            invariant
                i <= total,
                total == self.map@.len(),
                self.dims_ok(),
                self.width == old(self).width,
                self.height == old(self).height,
                needed as int <= total - i,
                count_bombs_prefix(self.map@, i as int) + needed == bomb_count,
                forall|j: int| i <= j < total ==> (#[trigger] self.map@[j]) is Empty,
                forall|j: int|
                    0 <= j < i ==> ((#[trigger] self.map@[j]) is Bomb || self.map@[j] is Empty),
            decreases total - i,
        {
            let ghost pre = self.map@;
            let remaining: u64 = (total - i) as u64;
            let (next_state, value) = next_random(state);
            state = next_state;
            let roll: u64 = value % remaining;
            if roll < needed as u64 {
                self.map.set(i, Tile::Bomb);
                needed = needed - 1;
                proof {
                    lemma_count_bombs_prefix_update_beyond(pre, i as int, i as int, Tile::Bomb);
                    assert(count_bombs_prefix(self.map@, i as int + 1) == count_bombs_prefix(
                        self.map@,
                        i as int,
                    ) + 1);
                }
            } else {
                proof {
                    assert(count_bombs_prefix(self.map@, i as int + 1) == count_bombs_prefix(
                        self.map@,
                        i as int,
                    ));
                }
            }
            i += 1;
        }
        self.bomb_count = bomb_count;
        self.compute_numbers();
        Ok(())
    }

    /// Places mines on exactly the given distinct cells, then derives
    /// every non-bomb cell's kind from them. As many positions as there
    /// are cells is rejected with `TooManyMines`; a position outside the
    /// grid with `OutOfBounds`; either error leaves the grid untouched.
    pub fn place_bombs_at(&mut self, positions: &Vec<Coordinates>) -> (r: Result<
        (),
        BoardError,
    >)
        requires
            old(self).wf(),
            old(self).all_empty(),
            positions@.no_duplicates(),
            positions@.len() <= u16::MAX,
        ensures
            final(self).width == old(self).width,
            final(self).height == old(self).height,
            r is Ok <==> (positions@.len() < old(self).width as int * old(self).height as int
                && forall|k: int|
                0 <= k < positions@.len() ==> old(self).in_bounds(#[trigger] positions@[k])),
            positions@.len() >= old(self).width as int * old(self).height as int ==> r
                == Result::<(), BoardError>::Err(BoardError::TooManyMines),
            r is Err ==> (r == Result::<(), BoardError>::Err(BoardError::TooManyMines) || r
                == Result::<(), BoardError>::Err(BoardError::OutOfBounds))
                && *final(self) == *old(self),
            r is Ok ==> final(self).wf() && final(self).well_numbered() && final(self).bomb_count
                == positions@.len() && count_bombs(final(self).map@) == positions@.len() && forall|
                c: Coordinates,
            |
                final(self).in_bounds(c) ==> ((#[trigger] final(self).tile_at(c)) is Bomb
                    <==> positions@.contains(c)),
    {
        proof {
            assert(self.width as int * self.height as int <= 0xFFFF * 0xFFFF) by (nonlinear_arith)
                requires
                    self.width <= 0xFFFF,
                    self.height <= 0xFFFF,
            ;
        }
        let total: usize = (self.width as usize) * (self.height as usize);
        if positions.len() >= total {
            return Err(BoardError::TooManyMines);
        }
        let mut k: usize = 0;
        while k < positions.len()
            invariant
                k <= positions@.len(),
                *self == *old(self),
                self.dims_ok(),
                positions@.len() < total,
                total == self.width as int * self.height as int,
                forall|j: int| 0 <= j < k ==> self.in_bounds(#[trigger] positions@[j]),
            decreases positions@.len() - k,
        {
            let p = positions[k];
            if !(p.x < self.width && p.y < self.height) {
                return Err(BoardError::OutOfBounds);
            }
            k += 1;
        }
        proof {
            lemma_count_bombs_all_empty(self.map@, self.map@.len() as int);
            assert forall|c: Coordinates| self.in_bounds(c) implies !((#[trigger] self.tile_at(
                c,
            )) is Bomb) by {
                lemma_flat_index_bounds(self.width as int, self.height as int, c);
            }
        }
        let mut k: usize = 0;
        while k < positions.len()
            invariant
                k <= positions@.len(),
                positions@.len() < total,
                total == self.map@.len(),
                self.dims_ok(),
                self.width == old(self).width,
                self.height == old(self).height,
                positions@.no_duplicates(),
                forall|j: int| 0 <= j < positions@.len() ==> self.in_bounds(#[trigger] positions@[j]),
                count_bombs(self.map@) == k,
                forall|c: Coordinates|
                    self.in_bounds(c) ==> ((#[trigger] self.tile_at(c)) is Bomb <==> positions@.take(
                        k as int,
                    ).contains(c)),
                forall|j: int|
                    0 <= j < total ==> ((#[trigger] self.map@[j]) is Bomb || self.map@[j] is Empty),
            decreases positions@.len() - k,
        {
            let ghost pre = *self;
            let p = positions[k];
            proof {
                lemma_flat_index_bounds(self.width as int, self.height as int, p);
                assert(p.y as int * self.width as int + p.x as int <= 0xFFFF * 0xFFFF + 0xFFFF)
                    by (nonlinear_arith)
                    requires
                        p.y <= 0xFFFF,
                        self.width <= 0xFFFF,
                        p.x <= 0xFFFF,
                ;
            }
            let idx: usize = (p.y as usize) * (self.width as usize) + (p.x as usize);
            proof {
                // p is not among the first k positions, so its cell is still empty
                assert(!positions@.take(k as int).contains(p)) by {
                    if positions@.take(k as int).contains(p) {
                        let j = choose|j: int|
                            0 <= j < k && positions@.take(k as int)[j] == p;
                        assert(positions@[j] == positions@[k as int]);
                    }
                }
                assert(!(pre.tile_at(p) is Bomb));
                lemma_count_bombs_prefix_update_within(
                    pre.map@,
                    pre.map@.len() as int,
                    idx as int,
                    Tile::Bomb,
                );
            }
            self.map.set(idx, Tile::Bomb);
            k += 1;
            proof {
                assert(positions@.take(k as int) =~= positions@.take(k as int - 1).push(p));
                assert forall|c: Coordinates| self.in_bounds(c) implies ((
                #[trigger] self.tile_at(c)) is Bomb <==> positions@.take(k as int).contains(c)) by {
                    lemma_flat_index_bounds(self.width as int, self.height as int, c);
                    assert(positions@.take(k as int).contains(c) <==> (positions@.take(
                        k as int - 1,
                    ).contains(c) || c == p));
                    if self.index_of(c) == idx {
                        lemma_flat_index_injective(self.width as int, c, p);
                        assert(c == p);
                        assert(self.tile_at(c) is Bomb);
                    } else {
                        assert(self.tile_at(c) == pre.tile_at(c));
                        if c == p {
                            assert(self.index_of(c) == idx);
                        }
                    }
                }
            }
        }
        let ghost before_numbers = *self;
        proof {
            assert(positions@.take(positions@.len() as int) =~= positions@);
        }
        let n_bombs = positions.len() as u16;
        self.bomb_count = n_bombs;
        self.compute_numbers();
        proof {
            assert forall|c: Coordinates| self.in_bounds(c) implies ((#[trigger] self.tile_at(
                c,
            )) is Bomb <==> positions@.contains(c)) by {
                lemma_flat_index_bounds(self.width as int, self.height as int, c);
                assert(before_numbers.in_bounds(c));
                assert(before_numbers.tile_at(c) is Bomb <==> positions@.take(
                    positions@.len() as int,
                ).contains(c));
                assert(self.tile_at(c) is Bomb <==> before_numbers.tile_at(c) is Bomb);
            }
        }
        Ok(())
    }
}

/// The 8 neighborhood offsets, in row-major order.
pub open spec fn neighbor_offsets() -> Seq<(int, int)> {
    seq![(-1, -1), (0, -1), (1, -1), (-1, 0), (1, 0), (-1, 1), (0, 1), (1, 1)]
}

/// The coordinate `d` is the in-bounds neighbor of `c` named by the
/// `j`-th neighborhood offset.
pub open spec fn neighbor_matches(tm: TileMap, c: Coordinates, d: Coordinates, j: int) -> bool {
    let dx = neighbor_offsets()[j].0;
    let dy = neighbor_offsets()[j].1;
    &&& tm.pos_in_bounds(c.x + dx, c.y + dy)
    &&& d.x == c.x + dx
    &&& d.y == c.y + dy
}

impl TileMap {
    /// Whether the possibly-out-of-range position `(x, y)` names a cell.
    pub open spec fn pos_in_bounds(&self, x: int, y: int) -> bool {
        0 <= x < self.width && 0 <= y < self.height
    }

    /// The in-bounds neighbors of `c` among the first `k` neighborhood
    /// offsets, in offset order.
    pub open spec fn neighbors_prefix(&self, c: Coordinates, k: int) -> Seq<Coordinates>
        decreases k,
    {
        if k <= 0 {
            Seq::empty()
        } else {
            let prev = self.neighbors_prefix(c, k - 1);
            let dx = neighbor_offsets()[k - 1].0;
            let dy = neighbor_offsets()[k - 1].1;
            if self.pos_in_bounds(c.x + dx, c.y + dy) {
                prev.push(Coordinates { x: (c.x + dx) as u16, y: (c.y + dy) as u16 })
            } else {
                prev
            }
        }
    }

    /// All in-bounds 8-neighbors of `c`, in row-major offset order.
    pub open spec fn neighbors_seq(&self, c: Coordinates) -> Seq<Coordinates> {
        self.neighbors_prefix(c, 8)
    }
}

/// Membership in a neighbor prefix means matching one of its offsets.
proof fn lemma_neighbors_prefix_contains(tm: TileMap, c: Coordinates, d: Coordinates, k: int)
    requires
        0 <= k <= 8,
    ensures
        tm.neighbors_prefix(c, k).contains(d) <==> exists|j: int|
            0 <= j < k && neighbor_matches(tm, c, d, j),
    decreases k,
{
    if k > 0 {
        lemma_neighbors_prefix_contains(tm, c, d, k - 1);
        let dx = neighbor_offsets()[k - 1].0;
        let dy = neighbor_offsets()[k - 1].1;
        if tm.pos_in_bounds(c.x + dx, c.y + dy) {
            let cand = Coordinates { x: (c.x + dx) as u16, y: (c.y + dy) as u16 };
            assert(tm.neighbors_prefix(c, k) == tm.neighbors_prefix(c, k - 1).push(cand));
            if d == cand {
                assert(neighbor_matches(tm, c, d, k - 1));
            }
        }
        if exists|j: int| 0 <= j < k && neighbor_matches(tm, c, d, j) {
            let j = choose|j: int| 0 <= j < k && neighbor_matches(tm, c, d, j);
            if j == k - 1 {
                assert(tm.pos_in_bounds(c.x + dx, c.y + dy));
                let cand = Coordinates { x: (c.x + dx) as u16, y: (c.y + dy) as u16 };
                assert(d == cand);
                assert(tm.neighbors_prefix(c, k).contains(d));
            }
        }
    }
}

/// The neighbor sequence of a cell holds exactly its in-bounds adjacent
/// coordinates, each once.
pub proof fn lemma_neighbors_seq_correct(tm: TileMap, c: Coordinates)
    requires
        tm.dims_ok(),
    ensures
        forall|d: Coordinates|
            #[trigger] tm.neighbors_seq(c).contains(d) <==> (tm.in_bounds(d) && adjacent(c, d)),
        tm.neighbors_seq(c).no_duplicates(),
{
    assert forall|d: Coordinates| #[trigger]
        tm.neighbors_seq(c).contains(d) <==> (tm.in_bounds(d) && adjacent(c, d)) by {
        lemma_neighbors_prefix_contains(tm, c, d, 8);
        if tm.in_bounds(d) && adjacent(c, d) {
            let dx = d.x - c.x;
            let dy = d.y - c.y;
            if dx == -1 && dy == -1 {
                assert(neighbor_matches(tm, c, d, 0));
            } else if dx == 0 && dy == -1 {
                assert(neighbor_matches(tm, c, d, 1));
            } else if dx == 1 && dy == -1 {
                assert(neighbor_matches(tm, c, d, 2));
            } else if dx == -1 && dy == 0 {
                assert(neighbor_matches(tm, c, d, 3));
            } else if dx == 1 && dy == 0 {
                assert(neighbor_matches(tm, c, d, 4));
            } else if dx == -1 && dy == 1 {
                assert(neighbor_matches(tm, c, d, 5));
            } else if dx == 0 && dy == 1 {
                assert(neighbor_matches(tm, c, d, 6));
            } else {
                assert(dx == 1 && dy == 1);
                assert(neighbor_matches(tm, c, d, 7));
            }
        }
    }
    assert forall|k: int| 0 <= k <= 8 implies #[trigger] tm.neighbors_prefix(
        c,
        k,
    ).no_duplicates() by {
        lemma_neighbors_prefix_no_duplicates(tm, c, k);
    }
}

/// A neighbor prefix never lists a coordinate twice: each offset yields a
/// distinct coordinate.
proof fn lemma_neighbors_prefix_no_duplicates(tm: TileMap, c: Coordinates, k: int)
    requires
        0 <= k <= 8,
    ensures
        tm.neighbors_prefix(c, k).no_duplicates(),
    decreases k,
{
    if k > 0 {
        lemma_neighbors_prefix_no_duplicates(tm, c, k - 1);
        let dx = neighbor_offsets()[k - 1].0;
        let dy = neighbor_offsets()[k - 1].1;
        if tm.pos_in_bounds(c.x + dx, c.y + dy) {
            let cand = Coordinates { x: (c.x + dx) as u16, y: (c.y + dy) as u16 };
            lemma_neighbors_prefix_contains(tm, c, cand, k - 1);
            assert(!tm.neighbors_prefix(c, k - 1).contains(cand)) by {
                if exists|j: int| 0 <= j < k - 1 && neighbor_matches(tm, c, cand, j) {
                    let j = choose|j: int| 0 <= j < k - 1 && neighbor_matches(tm, c, cand, j);
                    assert(neighbor_offsets()[j].0 == dx && neighbor_offsets()[j].1 == dy);
                }
            }
            let prev = tm.neighbors_prefix(c, k - 1);
            assert(tm.neighbors_prefix(c, k) == prev.push(cand));
            assert forall|i1: int, i2: int|
                0 <= i1 < i2 < prev.push(cand).len() implies prev.push(cand)[i1] != prev.push(
                cand,
            )[i2] by {
                if i2 == prev.len() {
                    assert(prev.push(cand)[i1] == prev[i1]);
                    assert(prev.contains(prev[i1]));
                }
            }
        }
    }
}

impl TileMap {
    /// Appends the coordinate at position `(x, y)` when it names a cell;
    /// does nothing otherwise.
    fn push_if_in_bounds(&self, out: &mut Vec<Coordinates>, x: i64, y: i64)
        requires
            self.dims_ok(),
        ensures
            self.pos_in_bounds(x as int, y as int) ==> final(out)@ == old(out)@.push(
                (Coordinates { x: x as u16, y: y as u16 }),
            ),
            !self.pos_in_bounds(x as int, y as int) ==> final(out)@ == old(out)@,
    {
        if x >= 0 && y >= 0 && x < self.width as i64 && y < self.height as i64 {
            out.push(Coordinates { x: x as u16, y: y as u16 });
        }
    }

    /// The up-to-8 coordinates surrounding a cell, clipped to the grid,
    /// in row-major offset order and without duplicates.
    pub fn safe_square_at(&self, coordinates: Coordinates) -> (r: Vec<Coordinates>)
        requires
            self.dims_ok(),
        ensures
            r@ == self.neighbors_seq(coordinates),
            forall|d: Coordinates|
                #[trigger] r@.contains(d) <==> (self.in_bounds(d) && adjacent(coordinates, d)),
            r@.no_duplicates(),
    {
        let c = coordinates;
        let x = c.x as i64;
        let y = c.y as i64;
        let mut out: Vec<Coordinates> = Vec::new();
        assert(out@ == self.neighbors_prefix(c, 0));
        self.push_if_in_bounds(&mut out, x - 1, y - 1);
        assert(out@ == self.neighbors_prefix(c, 1));
        self.push_if_in_bounds(&mut out, x, y - 1);
        assert(out@ == self.neighbors_prefix(c, 2));
        self.push_if_in_bounds(&mut out, x + 1, y - 1);
        assert(out@ == self.neighbors_prefix(c, 3));
        self.push_if_in_bounds(&mut out, x - 1, y);
        assert(out@ == self.neighbors_prefix(c, 4));
        self.push_if_in_bounds(&mut out, x + 1, y);
        assert(out@ == self.neighbors_prefix(c, 5));
        self.push_if_in_bounds(&mut out, x - 1, y + 1);
        assert(out@ == self.neighbors_prefix(c, 6));
        self.push_if_in_bounds(&mut out, x, y + 1);
        assert(out@ == self.neighbors_prefix(c, 7));
        self.push_if_in_bounds(&mut out, x + 1, y + 1);
        assert(out@ == self.neighbors_prefix(c, 8));
        proof {
            lemma_neighbors_seq_correct(*self, c);
        }
        out
    }

    /// An arbitrary empty cell of the grid — the first in row-major
    /// order — for hosts that want a guaranteed-safe opening reveal.
    pub fn safe_start_cell(&self) -> (r: Option<Coordinates>)
        requires
            self.dims_ok(),
        ensures
            r matches Some(c) ==> self.in_bounds(c) && self.tile_at(c) is Empty,
            r is None ==> forall|c: Coordinates|
                self.in_bounds(c) ==> !((#[trigger] self.tile_at(c)) is Empty),
    {
        let total: usize = self.map.len();
        let mut i: usize = 0;
        while i < total
            invariant
                i <= total,
                total == self.map@.len(),
                self.dims_ok(),
                forall|j: int| 0 <= j < i ==> !((#[trigger] self.map@[j]) is Empty),
            decreases total - i,
        {
            let t = self.map[i];
            match t {
                Tile::Empty => {
                    let w = self.width as usize;
                    let x16 = (i % w) as u16;
                    let y16 = (i / w) as u16;
                    let c = Coordinates { x: x16, y: y16 };
                    proof {
                        lemma_coord_of_index(self.width as int, self.height as int, i as int);
                        assert(c == coord_of_index(self.width as int, i as int));
                    }
                    return Some(c);
                },
                _ => {},
            }
            i += 1;
        }
        proof {
            assert forall|c: Coordinates| self.in_bounds(c) implies !((#[trigger] self.tile_at(
                c,
            )) is Empty) by {
                lemma_flat_index_bounds(self.width as int, self.height as int, c);
            }
        }
        None
    }
}

/// One step of a splitmix-style pseudo-random generator: the next state
/// and a scrambled output word. Nothing is claimed of the values; the
/// placement proofs never depend on which cells the generator picks.
fn next_random(state: u64) -> (r: (u64, u64)) {
    let s: u64 = state.wrapping_add(0x9E3779B97F4A7C15);
    let mut z: u64 = s;
    z = (z ^ (z >> 30)).wrapping_mul(0xBF58476D1CE4E5B9);
    z = (z ^ (z >> 27)).wrapping_mul(0x94D049BB133111EB);
    z = z ^ (z >> 31);
    (s, z)
}

/// An all-empty prefix holds no bombs.
pub proof fn lemma_count_bombs_all_empty(s: Seq<Tile>, n: int)
    requires
        forall|i: int| 0 <= i < n ==> (#[trigger] s[i]) is Empty,
    ensures
        count_bombs_prefix(s, n) == 0,
    decreases n,
{
    if n > 0 {
        lemma_count_bombs_all_empty(s, n - 1);
    }
}

} // verus!
