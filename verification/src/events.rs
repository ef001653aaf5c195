//! Reveal requests, the domain events a reveal can emit, and the
//! per-cell changes a host renders.

use crate::coordinates::Coordinates;
use crate::tile::Tile;
use vstd::prelude::*;

verus! {

/// A transient request to uncover one coordinate.
#[derive(Debug, Copy, Clone, Eq, PartialEq, Structural)]
pub struct TileTriggerEvent(pub Coordinates);

/// A domain event emitted while revealing cells.
#[derive(Debug, Copy, Clone, Eq, PartialEq, Structural)]
pub enum BoardEvent {
    /// A mine was uncovered; emitted once per uncovered mine.
    MineTriggered,
    /// Every non-mine cell is revealed; emitted once per completed board.
    BoardCompleted,
}

/// One cell that changed this step: its coordinate, the kind that became
/// visible, and the cover handle that was removed.
#[derive(Debug, Copy, Clone, Eq, PartialEq, Structural)]
pub struct CellChange {
    pub coordinates: Coordinates,
    pub tile: Tile,
    pub cover_handle: u64,
}

/// What one frontier generation produced: the next frontier, the cells
/// changed, and the events emitted.
pub struct UncoverStep {
    pub next: Vec<Coordinates>,
    pub changes: Vec<CellChange>,
    pub events: Vec<BoardEvent>,
}

/// What a whole reveal request produced: the cells changed and the
/// events emitted.
pub struct RevealOutcome {
    pub changes: Vec<CellChange>,
    pub events: Vec<BoardEvent>,
}

/// How often an event occurs in a sequence of events.
pub open spec fn count_event(s: Seq<BoardEvent>, e: BoardEvent) -> int
    decreases s.len(),
{
    if s.len() == 0 {
        0
    } else {
        count_event(s.drop_last(), e) + if s.last() == e {
            1int
        } else {
            0int
        }
    }
}

/// How many of the changed cells uncovered a bomb.
pub open spec fn count_mine_changes(s: Seq<CellChange>) -> int
    decreases s.len(),
{
    if s.len() == 0 {
        0
    } else {
        count_mine_changes(s.drop_last()) + if s.last().tile is Bomb {
            1int
        } else {
            0int
        }
    }
}

/// Appending an event raises its count by one and no other.
pub proof fn lemma_count_event_push(s: Seq<BoardEvent>, v: BoardEvent, e: BoardEvent)
    ensures
        count_event(s.push(v), e) == count_event(s, e) + if v == e {
            1int
        } else {
            0int
        },
{
    assert(s.push(v).drop_last() =~= s);
}

/// Event counts add up over concatenation.
pub proof fn lemma_count_event_concat(a: Seq<BoardEvent>, b: Seq<BoardEvent>, e: BoardEvent)
    ensures
        count_event(a + b, e) == count_event(a, e) + count_event(b, e),
    decreases b.len(),
{
    if b.len() == 0 {
        assert(a + b =~= a);
    } else {
        assert((a + b).drop_last() =~= a + b.drop_last());
        lemma_count_event_concat(a, b.drop_last(), e);
    }
}

/// Appending a change raises the mine count exactly when it uncovered a
/// bomb.
pub proof fn lemma_count_mine_changes_push(s: Seq<CellChange>, v: CellChange)
    ensures
        count_mine_changes(s.push(v)) == count_mine_changes(s) + if v.tile is Bomb {
            1int
        } else {
            0int
        },
{
    assert(s.push(v).drop_last() =~= s);
}

/// Mine counts add up over concatenation.
pub proof fn lemma_count_mine_changes_concat(a: Seq<CellChange>, b: Seq<CellChange>)
    ensures
        count_mine_changes(a + b) == count_mine_changes(a) + count_mine_changes(b),
    decreases b.len(),
{
    if b.len() == 0 {
        assert(a + b =~= a);
    } else {
        assert((a + b).drop_last() =~= a + b.drop_last());
        lemma_count_mine_changes_concat(a, b.drop_last());
    }
}

/// A change sequence without any uncovered bomb has mine count zero.
pub proof fn lemma_count_mine_changes_zero(s: Seq<CellChange>)
    requires
        forall|j: int| 0 <= j < s.len() ==> !((#[trigger] s[j]).tile is Bomb),
    ensures
        count_mine_changes(s) == 0,
    decreases s.len(),
{
    if s.len() > 0 {
        lemma_count_mine_changes_zero(s.drop_last());
    }
}

/// Every event is a mine trigger or a completion, so the two counts
/// exhaust the sequence.
pub proof fn lemma_count_event_total(s: Seq<BoardEvent>)
    ensures
        count_event(s, BoardEvent::MineTriggered) + count_event(s, BoardEvent::BoardCompleted)
            == s.len(),
        count_event(s, BoardEvent::MineTriggered) >= 0,
        count_event(s, BoardEvent::BoardCompleted) >= 0,
    decreases s.len(),
{
    if s.len() > 0 {
        lemma_count_event_total(s.drop_last());
    }
}

/// A one-event sequence whose count of `e` is one holds exactly `e`.
pub proof fn lemma_single_event(s: Seq<BoardEvent>, e: BoardEvent)
    requires
        s.len() == 1,
        count_event(s, e) == 1,
    ensures
        s =~= seq![e],
{
    assert(s.drop_last().len() == 0);
    assert(count_event(s.drop_last(), e) == 0);
    assert(s.last() == e);
    assert(s[0] == s.last());
}

} // verus!
