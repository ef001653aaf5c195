//! The runtime board: a generated grid plus the covered set and the
//! physical placement used for coordinate translation.

use crate::bounds::Bounds2;
use crate::coordinates::{adjacent, Coordinates};
use crate::tile_map::{
    lemma_flat_index_bounds, lemma_flat_index_injective, lemma_coord_of_index,
    lemma_no_bomb_next_to_empty, coord_of_index, TileMap,
};
use vstd::arithmetic::div_mod::lemma_multiply_divide_lt;
use vstd::pervasive::VecAdditionalExecFns;
use vstd::prelude::*;

verus! {

broadcast use vstd::seq_lib::lemma_seq_contains_after_push;

/// How many cells of the cover storage are still covered.
pub open spec fn count_covered_prefix(s: Seq<Option<u64>>, n: int) -> int
    decreases n,
{
    if n <= 0 {
        0
    } else {
        count_covered_prefix(s, n - 1) + if s[n - 1] is Some {
            1int
        } else {
            0int
        }
    }
}

/// How many entries of the cover storage are still covered.
pub open spec fn count_covered(s: Seq<Option<u64>>) -> int {
    count_covered_prefix(s, s.len() as int)
}

/// A prefix cover count is bounded by the prefix length.
pub proof fn lemma_count_covered_prefix_bounds(s: Seq<Option<u64>>, n: int)
    ensures
        0 <= count_covered_prefix(s, n),
        count_covered_prefix(s, n) <= if n >= 0 {
            n
        } else {
            0int
        },
    decreases n,
{
    if n > 0 {
        lemma_count_covered_prefix_bounds(s, n - 1);
    }
}

/// Clearing a covered entry lowers the cover count by one.
pub proof fn lemma_count_covered_prefix_update(s: Seq<Option<u64>>, n: int, j: int)
    requires
        0 <= j < n <= s.len(),
        s[j] is Some,
    ensures
        count_covered_prefix(s.update(j, None), n) == count_covered_prefix(s, n) - 1,
    decreases n,
{
    if j == n - 1 {
        lemma_count_covered_prefix_agree(s.update(j, None), s, n - 1);
    } else {
        lemma_count_covered_prefix_update(s, n - 1, j);
    }
}

/// Storages that agree on which entries are covered have equal counts.
pub proof fn lemma_count_covered_prefix_agree(s1: Seq<Option<u64>>, s2: Seq<Option<u64>>, n: int)
    requires
        forall|i: int|
            0 <= i < n ==> ((#[trigger] s1[i]) is Some <==> (#[trigger] s2[i]) is Some),
    ensures
        count_covered_prefix(s1, n) == count_covered_prefix(s2, n),
    decreases n,
{
    if n > 0 {
        lemma_count_covered_prefix_agree(s1, s2, n - 1);
    }
}

/// An all-covered prefix counts its full length.
pub proof fn lemma_count_covered_all_some(s: Seq<Option<u64>>, n: int)
    requires
        forall|i: int| 0 <= i < n ==> (#[trigger] s[i]) is Some,
    ensures
        count_covered_prefix(s, n) == if n >= 0 {
            n
        } else {
            0int
        },
    decreases n,
{
    if n > 0 {
        lemma_count_covered_all_some(s, n - 1);
    }
}

/// One game's board: the generated grid, the physical placement used to
/// translate pointer positions, and the covered set — for every cell not
/// yet revealed, the opaque cover handle its host supplied.
#[derive(Debug)]
pub struct Board {
    pub tile_map: TileMap,
    pub bounds: Bounds2,
    pub tile_size: u32,
    pub covered_tiles: Vec<Option<u64>>,
}

impl Board {
    /// The coordinate names a cell of the board's grid.
    pub open spec fn in_bounds(&self, c: Coordinates) -> bool {
        self.tile_map.in_bounds(c)
    }

    /// The storage position of an in-bounds coordinate.
    pub open spec fn index_of(&self, c: Coordinates) -> int {
        self.tile_map.index_of(c)
    }

    /// The cover entry of an in-bounds coordinate: the handle while the
    /// cell is covered, nothing once it has been revealed.
    pub open spec fn cover_at(&self, c: Coordinates) -> Option<u64> {
        self.covered_tiles@[self.index_of(c)]
    }

    /// The coordinate names a cell that has not been revealed yet.
    pub open spec fn covered_at(&self, c: Coordinates) -> bool {
        self.in_bounds(c) && self.cover_at(c) is Some
    }

    /// How many cells are still covered.
    pub open spec fn covered_count(&self) -> int {
        count_covered(self.covered_tiles@)
    }

    /// The board's structural invariant: a well-formed, well-numbered
    /// grid, one cover entry per cell, and a physical extent that matches
    /// the grid and the cell size.
    pub open spec fn wf(&self) -> bool {
        &&& self.tile_map.wf()
        &&& self.tile_map.well_numbered()
        &&& self.covered_tiles@.len() == self.tile_map.map@.len()
        &&& self.tile_size >= 1
        &&& self.bounds.wf()
        &&& self.bounds.width == self.tile_map.width as int * self.tile_size as int
        &&& self.bounds.height == self.tile_map.height as int * self.tile_size as int
    }

    /// The board is solved: every cell still covered holds a bomb, that
    /// is, every non-bomb cell has been revealed.
    pub open spec fn completed(&self) -> bool {
        forall|c: Coordinates| #[trigger]
            self.covered_at(c) ==> self.tile_map.tile_at(c) is Bomb
    }

    /// No revealed empty cell has a covered neighbor: the state every
    /// finished cascade leaves behind.
    pub open spec fn saturated(&self) -> bool {
        forall|c: Coordinates, d: Coordinates|
            #![trigger self.tile_map.tile_at(c), self.covered_at(d)]
            self.in_bounds(c) && !self.covered_at(c) && self.tile_map.tile_at(c) is Empty
                && adjacent(c, d) && self.in_bounds(d) ==> !self.covered_at(d)
    }

    /// Two boards share the same grid and placement; only their covered
    /// sets may differ.
    pub open spec fn same_layout(&self, other: &Board) -> bool {
        &&& self.tile_map == other.tile_map
        &&& self.bounds == other.bounds
        &&& self.tile_size == other.tile_size
        &&& self.covered_tiles@.len() == other.covered_tiles@.len()
    }
}

/// The covered set of `a` sits inside the covered set of `b`, with the
/// surviving cover handles untouched: the relation every reveal
/// operation guarantees between its new and its old board.
pub open spec fn covers_within(a: &Board, b: &Board) -> bool {
    forall|c: Coordinates| #[trigger]
        a.covered_at(c) ==> b.covered_at(c) && a.cover_at(c) == b.cover_at(c)
}

/// Covered-set monotonicity composes: across any sequence of reveal
/// requests, each of which only shrinks the covered set, the final
/// covered set still sits inside the first, and no coordinate ever
/// re-enters it.
pub proof fn lemma_covers_within_transitive(a: &Board, b: &Board, c: &Board)
    requires
        covers_within(a, b),
        covers_within(b, c),
    ensures
        covers_within(a, c),
{
}

/// A solved board is saturated: a revealed empty cell cannot have a
/// covered neighbor, because only bombs stay covered and no bomb sits
/// next to an empty cell.
pub proof fn lemma_completed_implies_saturated(b: Board)
    requires
        b.wf(),
        b.completed(),
    ensures
        b.saturated(),
{
    assert forall|c: Coordinates, d: Coordinates|
        #![trigger b.tile_map.tile_at(c), b.covered_at(d)]
        b.in_bounds(c) && !b.covered_at(c) && b.tile_map.tile_at(c) is Empty && adjacent(c, d)
            && b.in_bounds(d) implies !b.covered_at(d) by {
        if b.covered_at(d) {
            lemma_no_bomb_next_to_empty(b.tile_map, c, d);
        }
    }
}

/// On a solved board every safe cell is already revealed: one more
/// reveal request for a safe cell is a no-op.
pub proof fn lemma_completed_safe_cells_uncovered(b: Board, c: Coordinates)
    requires
        b.wf(),
        b.completed(),
        b.in_bounds(c),
        !(b.tile_map.tile_at(c) is Bomb),
    ensures
        !b.covered_at(c),
{
}

/// Revealing a mine neither solves nor unsolves a board: completion
/// only looks at non-bomb cells, whose cover is untouched.
pub proof fn lemma_completed_after_mine_reveal(b1: Board, b2: Board, target: Coordinates)
    requires
        b1.same_layout(&b2),
        b1.in_bounds(target),
        b1.tile_map.tile_at(target) is Bomb,
        forall|c: Coordinates| c != target ==> (b1.covered_at(c) <==> #[trigger] b2.covered_at(c)),
    ensures
        b1.completed() == b2.completed(),
{
    if b1.completed() {
        assert forall|c: Coordinates| #[trigger] b2.covered_at(c) implies b2.tile_map.tile_at(
            c,
        ) is Bomb by {
            if c != target {
                assert(b1.covered_at(c));
            }
        }
    }
    if b2.completed() {
        assert forall|c: Coordinates| #[trigger] b1.covered_at(c) implies b1.tile_map.tile_at(
            c,
        ) is Bomb by {
            if c != target {
                assert(b2.covered_at(c));
            }
        }
    }
}

/// Shrinking the covered set of a solved board keeps it solved.
pub proof fn lemma_completed_monotone(b1: Board, b2: Board)
    requires
        b1.completed(),
        b1.same_layout(&b2),
        forall|c: Coordinates| #[trigger] b2.covered_at(c) ==> b1.covered_at(c),
    ensures
        b2.completed(),
{
}

impl Board {
    /// Wraps a generated grid as a fresh board: every cell covered, one
    /// host-supplied cover handle each, positioned at the given origin
    /// with the given cell size.
    pub fn new(
        tile_map: TileMap,
        origin_x: i64,
        origin_y: i64,
        tile_size: u32,
        cover_handles: &Vec<u64>,
    ) -> (b: Board)
        requires
            tile_map.wf(),
            tile_map.well_numbered(),
            cover_handles@.len() == tile_map.map@.len(),
            tile_size >= 1,
            origin_x + tile_map.width as int * tile_size as int <= i64::MAX,
            origin_y + tile_map.height as int * tile_size as int <= i64::MAX,
        ensures
            b.wf(),
            b.tile_map == tile_map,
            b.bounds.x == origin_x,
            b.bounds.y == origin_y,
            b.tile_size == tile_size,
            forall|c: Coordinates| #[trigger]
                b.in_bounds(c) ==> b.cover_at(c) == Some(cover_handles@[b.index_of(c)]),
            forall|c: Coordinates| b.in_bounds(c) ==> #[trigger] b.covered_at(c),
            b.covered_count() == tile_map.map@.len(),
            b.saturated(),
    {
        proof {
            assert(tile_map.width as int * tile_size as int <= 0xFFFF * 0xFFFFFFFF)
                by (nonlinear_arith)
                requires
                    tile_map.width <= 0xFFFF,
                    tile_size <= 0xFFFFFFFF,
            ;
            assert(tile_map.height as int * tile_size as int <= 0xFFFF * 0xFFFFFFFF)
                by (nonlinear_arith)
                requires
                    tile_map.height <= 0xFFFF,
                    tile_size <= 0xFFFFFFFF,
            ;
        }
        let physical_width = (tile_map.width as u64) * (tile_size as u64);
        let physical_height = (tile_map.height as u64) * (tile_size as u64);
        let bounds = Bounds2 { x: origin_x, y: origin_y, width: physical_width, height: physical_height };
        let total: usize = cover_handles.len();
        let mut covered_tiles: Vec<Option<u64>> = Vec::new();
        let mut i: usize = 0;
        while i < total
            invariant
                i <= total,
                total == cover_handles@.len(),
                covered_tiles@.len() == i,
                forall|j: int| 0 <= j < i ==> (#[trigger] covered_tiles@[j]) == Some(
                    cover_handles@[j],
                ),
            decreases total - i,
        {
            covered_tiles.push(Some(cover_handles[i]));
            i += 1;
        }
        let b = Board { tile_map, bounds, tile_size, covered_tiles };
        proof {
            lemma_count_covered_all_some(b.covered_tiles@, b.covered_tiles@.len() as int);
            assert forall|c: Coordinates| b.in_bounds(c) implies b.cover_at(c) == Some(
                cover_handles@[b.index_of(c)],
            ) by {
                lemma_flat_index_bounds(
                    b.tile_map.width as int,
                    b.tile_map.height as int,
                    c,
                );
            }
        }
        b
    }

    /// Translates a physical position to the board coordinate under it;
    /// nothing when the position falls outside the board's extent. Pure.
    pub fn mouse_position(&self, px: i64, py: i64) -> (r: Option<Coordinates>)
        requires
            self.wf(),
        ensures
            r is Some <==> self.bounds.contains_pos(px as int, py as int),
            r matches Some(c) ==> self.in_bounds(c) && c.x == (px - self.bounds.x)
                / self.tile_size as int && c.y == (py - self.bounds.y) / self.tile_size as int,
    {
        if !self.bounds.in_bounds(px, py) {
            return None;
        }
        proof {
            assert(self.tile_map.width as int * self.tile_size as int <= 0xFFFF * 0xFFFFFFFF)
                by (nonlinear_arith)
                requires
                    self.tile_map.width <= 0xFFFF,
                    self.tile_size <= 0xFFFFFFFF,
            ;
            assert(self.tile_map.height as int * self.tile_size as int <= 0xFFFF * 0xFFFFFFFF)
                by (nonlinear_arith)
                requires
                    self.tile_map.height <= 0xFFFF,
                    self.tile_size <= 0xFFFFFFFF,
            ;
        }
        let dx = (px - self.bounds.x) as u64;
        let dy = (py - self.bounds.y) as u64;
        let cx: u64 = dx / (self.tile_size as u64);
        let cy: u64 = dy / (self.tile_size as u64);
        proof {
            assert(self.tile_map.width as int * self.tile_size as int == self.tile_size as int
                * self.tile_map.width as int) by (nonlinear_arith);
            assert(self.tile_map.height as int * self.tile_size as int == self.tile_size as int
                * self.tile_map.height as int) by (nonlinear_arith);
            lemma_multiply_divide_lt(dx as int, self.tile_size as int, self.tile_map.width as int);
            lemma_multiply_divide_lt(dy as int, self.tile_size as int, self.tile_map.height as int);
        }
        Some(Coordinates { x: cx as u16, y: cy as u16 })
    }

    /// Whether the coordinate is still covered.
    pub fn is_covered(&self, coordinates: &Coordinates) -> (r: bool)
        requires
            self.wf(),
        ensures
            r == self.covered_at(*coordinates),
    {
        if coordinates.x < self.tile_map.width && coordinates.y < self.tile_map.height {
            proof {
                lemma_flat_index_bounds(
                    self.tile_map.width as int,
                    self.tile_map.height as int,
                    *coordinates,
                );
                assert(coordinates.y as int * self.tile_map.width as int + coordinates.x as int
                    <= 0xFFFF * 0xFFFF + 0xFFFF) by (nonlinear_arith)
                    requires
                        coordinates.y <= 0xFFFF,
                        self.tile_map.width <= 0xFFFF,
                        coordinates.x <= 0xFFFF,
                ;
            }
            let idx: usize = (coordinates.y as usize) * (self.tile_map.width as usize) + (
            coordinates.x as usize);
            self.covered_tiles[idx].is_some()
        } else {
            false
        }
    }

    /// The cover handle of a still-covered cell; nothing when the cell
    /// was already revealed or the coordinate is invalid. Read-only.
    pub fn tile_to_uncover(&self, coords: &Coordinates) -> (r: Option<u64>)
        requires
            self.wf(),
        ensures
            self.covered_at(*coords) ==> r == self.cover_at(*coords),
            !self.covered_at(*coords) ==> r is None,
    {
        if coords.x < self.tile_map.width && coords.y < self.tile_map.height {
            proof {
                lemma_flat_index_bounds(
                    self.tile_map.width as int,
                    self.tile_map.height as int,
                    *coords,
                );
                assert(coords.y as int * self.tile_map.width as int + coords.x as int <= 0xFFFF
                    * 0xFFFF + 0xFFFF) by (nonlinear_arith)
                    requires
                        coords.y <= 0xFFFF,
                        self.tile_map.width <= 0xFFFF,
                        coords.x <= 0xFFFF,
                ;
            }
            let idx: usize = (coords.y as usize) * (self.tile_map.width as usize) + (
            coords.x as usize);
            self.covered_tiles[idx]
        } else {
            None
        }
    }

    /// Removes and returns a coordinate's cover entry: the sole mutator
    /// of the covered set. Revealing an uncovered or invalid coordinate
    /// changes nothing and returns nothing — a defined no-op, not an
    /// error. The covered set only ever shrinks.
    pub fn try_uncover_tile(&mut self, coords: &Coordinates) -> (r: Option<u64>)
        requires
            old(self).wf(),
        ensures
            final(self).wf(),
            final(self).same_layout(old(self)),
            !old(self).covered_at(*coords) ==> *final(self) == *old(self) && r is None,
            old(self).covered_at(*coords) ==> {
                &&& r == old(self).cover_at(*coords)
                &&& !final(self).covered_at(*coords)
                &&& final(self).covered_tiles@ == old(self).covered_tiles@.update(
                    old(self).index_of(*coords),
                    None::<u64>,
                )
                &&& final(self).covered_count() == old(self).covered_count() - 1
            },
            forall|c2: Coordinates|
                c2 != *coords ==> #[trigger] final(self).covered_at(c2) == old(self).covered_at(
                    c2,
                ),
            forall|c2: Coordinates|
                final(self).in_bounds(c2) && c2 != *coords ==> #[trigger] final(self).cover_at(c2)
                    == old(self).cover_at(c2),
            forall|c2: Coordinates| #[trigger]
                final(self).covered_at(c2) ==> old(self).covered_at(c2) && final(self).cover_at(c2)
                    == old(self).cover_at(c2),
    {
        if coords.x < self.tile_map.width && coords.y < self.tile_map.height {
            proof {
                lemma_flat_index_bounds(
                    self.tile_map.width as int,
                    self.tile_map.height as int,
                    *coords,
                );
                assert(coords.y as int * self.tile_map.width as int + coords.x as int <= 0xFFFF
                    * 0xFFFF + 0xFFFF) by (nonlinear_arith)
                    requires
                        coords.y <= 0xFFFF,
                        self.tile_map.width <= 0xFFFF,
                        coords.x <= 0xFFFF,
                ;
            }
            let idx: usize = (coords.y as usize) * (self.tile_map.width as usize) + (
            coords.x as usize);
            let entry = self.covered_tiles[idx];
            match entry {
                Some(handle) => {
                    let ghost pre = *self;
                    self.covered_tiles.set(idx, None);
                    proof {
                        lemma_count_covered_prefix_update(
                            pre.covered_tiles@,
                            pre.covered_tiles@.len() as int,
                            idx as int,
                        );
                        assert forall|c2: Coordinates|
                            self.in_bounds(c2) && c2 != *coords implies #[trigger] self.cover_at(
                            c2,
                        ) == pre.cover_at(c2) by {
                            lemma_flat_index_bounds(
                                self.tile_map.width as int,
                                self.tile_map.height as int,
                                c2,
                            );
                            if self.index_of(c2) == idx {
                                lemma_flat_index_injective(
                                    self.tile_map.width as int,
                                    c2,
                                    *coords,
                                );
                            }
                        }
                    }
                    Some(handle)
                },
                None => None,
            }
        } else {
            None
        }
    }

    /// The coordinates of the in-bounds 8-neighbors of a cell that are
    /// still covered; queries the covered set without changing it.
    pub fn adjacent_covered_coordinates(&self, coordinates: Coordinates) -> (r: Vec<Coordinates>)
        requires
            self.wf(),
        ensures
            forall|d: Coordinates|
                #[trigger] r@.contains(d) <==> (self.covered_at(d) && adjacent(coordinates, d)),
            r@.no_duplicates(),
    {
        let neighbors = self.tile_map.safe_square_at(coordinates);
        let mut out: Vec<Coordinates> = Vec::new();
        let mut k: usize = 0;
        while k < neighbors.len()
            invariant
                k <= neighbors@.len(),
                self.wf(),
                neighbors@.no_duplicates(),
                forall|d: Coordinates|
                    #[trigger] neighbors@.contains(d) <==> (self.in_bounds(d) && adjacent(
                        coordinates,
                        d,
                    )),
                forall|d: Coordinates|
                    #[trigger] out@.contains(d) <==> (self.covered_at(d) && neighbors@.take(
                        k as int,
                    ).contains(d)),
                out@.no_duplicates(),
            decreases neighbors@.len() - k,
        {
            let d = neighbors[k];
            let ghost pre = out@;
            if self.is_covered(&d) {
                proof {
                    assert(!out@.contains(d)) by {
                        if neighbors@.take(k as int).contains(d) {
                            let j = choose|j: int|
                                0 <= j < k && neighbors@.take(k as int)[j] == d;
                            assert(neighbors@[j] == neighbors@[k as int]);
                        }
                    }
                }
                out.push(d);
            }
            k += 1;
            proof {
                assert(neighbors@.take(k as int) =~= neighbors@.take(k as int - 1).push(d));
                assert(neighbors@.contains(d)) by {
                    assert(neighbors@[k as int - 1] == d);
                }
                assert forall|d2: Coordinates| #[trigger]
                    out@.contains(d2) <==> (self.covered_at(d2) && neighbors@.take(
                        k as int,
                    ).contains(d2)) by {
                    assert(neighbors@.take(k as int).contains(d2) <==> (neighbors@.take(
                        k as int - 1,
                    ).contains(d2) || d2 == d));
                    if self.covered_at(d) && out@ == pre.push(d) {
                        assert(out@.contains(d2) <==> (pre.contains(d2) || d2 == d));
                    }
                }
            }
        }
        proof {
            assert(neighbors@.take(neighbors@.len() as int) =~= neighbors@);
        }
        out
    }

    /// The cover handles of the in-bounds 8-neighbors of a cell that are
    /// still covered, in the same deterministic order as the coordinates.
    pub fn adjacent_covered_tiles(&self, coord: Coordinates) -> (r: Vec<u64>)
        requires
            self.wf(),
        ensures
            exists|cs: Seq<Coordinates>|
                {
                    &&& (forall|d: Coordinates|
                        #[trigger] cs.contains(d) <==> (self.covered_at(d) && adjacent(coord, d)))
                    &&& cs.no_duplicates()
                    &&& r@.len() == cs.len()
                    &&& (forall|k: int|
                        0 <= k < cs.len() ==> self.cover_at(#[trigger] cs[k]) == Some(r@[k]))
                },
    {
        let coords = self.adjacent_covered_coordinates(coord);
        let mut out: Vec<u64> = Vec::new();
        let mut k: usize = 0;
        while k < coords.len()
            invariant
                k <= coords@.len(),
                self.wf(),
                out@.len() == k,
                forall|d: Coordinates| #[trigger]
                    coords@.contains(d) ==> self.covered_at(d),
                forall|j: int| 0 <= j < k ==> self.cover_at(#[trigger] coords@[j]) == Some(
                    out@[j],
                ),
            decreases coords@.len() - k,
        {
            let d = coords[k];
            proof {
                assert(coords@.contains(d)) by {
                    assert(coords@[k as int] == d);
                }
            }
            let entry = self.tile_to_uncover(&d);
            match entry {
                Some(handle) => {
                    out.push(handle);
                },
                None => {
                    proof {
                        assert(false);
                    }
                },
            }
            k += 1;
        }
        proof {
            let cs = coords@;
            assert((forall|d: Coordinates|
                #[trigger] cs.contains(d) <==> (self.covered_at(d) && adjacent(coord, d)))
                && cs.no_duplicates() && out@.len() == cs.len() && (forall|k2: int|
                0 <= k2 < cs.len() ==> self.cover_at(#[trigger] cs[k2]) == Some(out@[k2])));
        }
        out
    }

    /// Whether the board is solved: every cell still covered holds a
    /// bomb. Mines need not be flagged to win.
    pub fn is_completed(&self) -> (r: bool)
        requires
            self.wf(),
        ensures
            r == self.completed(),
    {
        let total: usize = self.covered_tiles.len();
        let mut i: usize = 0;
        while i < total
            invariant
                i <= total,
                self.wf(),
                total == self.covered_tiles@.len(),
                forall|j: int|
                    0 <= j < i ==> ((#[trigger] self.covered_tiles@[j]) is Some
                        ==> self.tile_map.map@[j] is Bomb),
            decreases total - i,
        {
            let covered = self.covered_tiles[i].is_some();
            if covered {
                let t = self.tile_map.map[i];
                let bomb = t.is_bomb();
                if !bomb {
                    let ghost c = coord_of_index(self.tile_map.width as int, i as int);
                    proof {
                        lemma_coord_of_index(
                            self.tile_map.width as int,
                            self.tile_map.height as int,
                            i as int,
                        );
                        assert(self.covered_at(c));
                        assert(!(self.tile_map.tile_at(c) is Bomb));
                    }
                    return false;
                }
            }
            i += 1;
        }
        proof {
            assert forall|c: Coordinates| #[trigger]
                self.covered_at(c) implies self.tile_map.tile_at(c) is Bomb by {
                lemma_flat_index_bounds(
                    self.tile_map.width as int,
                    self.tile_map.height as int,
                    c,
                );
            }
        }
        true
    }
}

} // verus!
