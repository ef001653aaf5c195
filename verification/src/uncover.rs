//! The reveal engine: breadth-first cascading uncover across connected
//! empty regions, stopping at numbered and mine boundaries.

use crate::board::{
    lemma_completed_after_mine_reveal, lemma_completed_implies_saturated, lemma_completed_monotone,
    lemma_count_covered_prefix_bounds, Board,
};
use crate::coordinates::{adjacent, Coordinates};
use crate::events::{
    count_event, count_mine_changes, lemma_count_event_concat, lemma_count_event_push,
    lemma_count_mine_changes_concat, lemma_count_mine_changes_push, lemma_count_mine_changes_zero,
    lemma_single_event, BoardEvent, CellChange, RevealOutcome, TileTriggerEvent, UncoverStep,
};
use crate::tile::Tile;
use crate::tile_map::lemma_no_bomb_next_to_empty;
use vstd::prelude::*;

verus! {

broadcast use vstd::seq_lib::lemma_seq_contains_after_push;

/// Membership in a concatenation means membership in either part.
pub proof fn lemma_contains_concat<T>(a: Seq<T>, b: Seq<T>, x: T)
    ensures
        (a + b).contains(x) <==> (a.contains(x) || b.contains(x)),
{
    if (a + b).contains(x) {
        let i = choose|i: int| 0 <= i < (a + b).len() && (a + b)[i] == x;
        if i < a.len() {
            assert(a[i] == x);
        } else {
            assert(b[i - a.len()] == x);
        }
    }
    if a.contains(x) {
        let i = choose|i: int| 0 <= i < a.len() && a[i] == x;
        assert((a + b)[i] == x);
    }
    if b.contains(x) {
        let i = choose|i: int| 0 <= i < b.len() && b[i] == x;
        assert((a + b)[a.len() + i] == x);
    }
}

/// Turns a reveal request into the initial frontier: the requested
/// coordinate alone, when its cover still exists; nothing otherwise, in
/// which case the request must die silently.
pub fn trigger_event_handler(board: &Board, trigger: &TileTriggerEvent) -> (r: Option<
    Vec<Coordinates>,
>)
    requires
        board.wf(),
    ensures
        r is Some <==> board.covered_at(trigger.0),
        r matches Some(f) ==> f@ == seq![trigger.0],
{
    if board.is_covered(&trigger.0) {
        let mut frontier: Vec<Coordinates> = Vec::new();
        frontier.push(trigger.0);
        proof {
            assert(frontier@ =~= seq![trigger.0]);
        }
        Some(frontier)
    } else {
        None
    }
}

/// Processes one frontier generation of the reveal cascade.
///
/// Every coordinate of the frontier is revealed in order; one already
/// revealed or out of bounds is skipped as a defined no-op. A revealed
/// mine emits `MineTriggered` and does not expand; a numbered cell is a
/// boundary; an empty cell queues its covered neighbors for the next
/// generation. After each reveal the board is checked for completion:
/// the step that solves the board emits `BoardCompleted` once and stops
/// processing.
#[verifier::loop_isolation(false)]
#[verifier::rlimit(100)]
pub fn uncover_tiles(board: &mut Board, frontier: &Vec<Coordinates>) -> (step: UncoverStep)
    requires
        old(board).wf(),
    ensures
        final(board).wf(),
        final(board).same_layout(old(board)),
        // the covered set only shrinks, and surviving handles are untouched
        forall|c: Coordinates| #[trigger]
            final(board).covered_at(c) ==> old(board).covered_at(c) && final(board).cover_at(c)
                == old(board).cover_at(c),
        // only frontier cells are uncovered
        forall|c: Coordinates|
            #![trigger old(board).covered_at(c), final(board).covered_at(c)]
            old(board).covered_at(c) && !final(board).covered_at(c) ==> frontier@.contains(c),
        // the frontier's first cell is always processed
        frontier@.len() > 0 && old(board).covered_at(frontier@[0]) ==> !final(board).covered_at(
            frontier@[0],
        ),
        // unless this step solved the board, every covered frontier cell was revealed
        !final(board).completed() ==> forall|j: int|
            0 <= j < frontier@.len() && old(board).covered_at(#[trigger] frontier@[j])
                ==> !final(board).covered_at(frontier@[j]),
        // the changes record exactly the cells revealed by this step
        step.changes@.len() == old(board).covered_count() - final(board).covered_count(),
        forall|j: int|
            0 <= j < step.changes@.len() ==> {
                let ch = #[trigger] step.changes@[j];
                &&& old(board).covered_at(ch.coordinates)
                &&& !final(board).covered_at(ch.coordinates)
                &&& ch.tile == old(board).tile_map.tile_at(ch.coordinates)
                &&& old(board).cover_at(ch.coordinates) == Some(ch.cover_handle)
            },
        forall|j1: int, j2: int|
            #![trigger step.changes@[j1], step.changes@[j2]]
            0 <= j1 < j2 < step.changes@.len() ==> step.changes@[j1].coordinates
                != step.changes@[j2].coordinates,
        forall|c: Coordinates|
            #![trigger old(board).covered_at(c), final(board).covered_at(c)]
            old(board).covered_at(c) && !final(board).covered_at(c) ==> exists|j: int|
                0 <= j < step.changes@.len() && (#[trigger] step.changes@[j]).coordinates == c,
        // the next frontier holds only covered-neighbor candidates of
        // empty cells revealed this step, and is empty unless something
        // was revealed
        forall|n: Coordinates| #[trigger]
            step.next@.contains(n) ==> final(board).in_bounds(n) && exists|d: Coordinates|
                old(board).covered_at(d) && !final(board).covered_at(d) && old(
                    board,
                ).tile_map.tile_at(d) is Empty && adjacent(d, n),
        step.next@.len() > 0 ==> final(board).covered_count() < old(board).covered_count(),
        // unless this step solved the board, every still-covered neighbor
        // of an empty cell revealed this step is queued
        !final(board).completed() ==> forall|d: Coordinates, n: Coordinates|
            #![trigger old(board).tile_map.tile_at(d), final(board).covered_at(n)]
            old(board).covered_at(d) && !final(board).covered_at(d) && old(
                board,
            ).tile_map.tile_at(d) is Empty && adjacent(d, n) && final(board).covered_at(n)
                ==> step.next@.contains(n),
        // one MineTriggered per revealed mine; BoardCompleted exactly
        // when this step solved the board; nothing else
        count_event(step.events@, BoardEvent::MineTriggered) == count_mine_changes(step.changes@),
        count_event(step.events@, BoardEvent::BoardCompleted) == if final(board).completed()
            && !old(board).completed() {
            1int
        } else {
            0int
        },
        step.events@.len() == count_event(step.events@, BoardEvent::MineTriggered) + count_event(
            step.events@,
            BoardEvent::BoardCompleted,
        ),
        // a solved board stays solved
        old(board).completed() ==> final(board).completed(),
        // a frontier without a covered cell changes nothing
        (forall|j: int|
            0 <= j < frontier@.len() ==> !old(board).covered_at(#[trigger] frontier@[j]))
            ==> *final(board) == *old(board) && step.next@.len() == 0 && step.changes@.len() == 0
            && step.events@.len() == 0,
{
    let was_completed = board.is_completed();
    let mut next: Vec<Coordinates> = Vec::new();
    let mut changes: Vec<CellChange> = Vec::new();
    let mut events: Vec<BoardEvent> = Vec::new();
    let mut halted = false;
    let mut k: usize = 0;
    while k < frontier.len() && !halted
        invariant
            k <= frontier@.len(),
            board.wf(),
            board.same_layout(old(board)),
            forall|c: Coordinates| #[trigger]
                board.covered_at(c) ==> old(board).covered_at(c) && board.cover_at(c) == old(
                    board,
                ).cover_at(c),
            forall|c: Coordinates|
                #![trigger old(board).covered_at(c), board.covered_at(c)]
                old(board).covered_at(c) && !board.covered_at(c) ==> frontier@.take(
                    k as int,
                ).contains(c),
            forall|j: int| 0 <= j < k ==> !board.covered_at(#[trigger] frontier@[j]),
            changes@.len() + board.covered_count() == old(board).covered_count(),
            forall|j: int|
                0 <= j < changes@.len() ==> {
                    let ch = #[trigger] changes@[j];
                    &&& old(board).covered_at(ch.coordinates)
                    &&& !board.covered_at(ch.coordinates)
                    &&& ch.tile == old(board).tile_map.tile_at(ch.coordinates)
                    &&& old(board).cover_at(ch.coordinates) == Some(ch.cover_handle)
                },
            forall|j1: int, j2: int|
                #![trigger changes@[j1], changes@[j2]]
                0 <= j1 < j2 < changes@.len() ==> changes@[j1].coordinates
                    != changes@[j2].coordinates,
            forall|c: Coordinates|
                #![trigger old(board).covered_at(c), board.covered_at(c)]
                old(board).covered_at(c) && !board.covered_at(c) ==> exists|j: int|
                    0 <= j < changes@.len() && (#[trigger] changes@[j]).coordinates == c,
            forall|n: Coordinates| #[trigger]
                next@.contains(n) ==> board.in_bounds(n) && exists|d: Coordinates|
                    old(board).covered_at(d) && !board.covered_at(d) && old(
                        board,
                    ).tile_map.tile_at(d) is Empty && adjacent(d, n),
            next@.len() > 0 ==> board.covered_count() < old(board).covered_count(),
            !halted ==> forall|d: Coordinates, n: Coordinates|
                #![trigger old(board).tile_map.tile_at(d), board.covered_at(n)]
                old(board).covered_at(d) && !board.covered_at(d) && old(
                    board,
                ).tile_map.tile_at(d) is Empty && adjacent(d, n) && board.covered_at(n)
                    ==> next@.contains(n),
            count_event(events@, BoardEvent::MineTriggered) == count_mine_changes(changes@),
            !halted ==> count_event(events@, BoardEvent::BoardCompleted) == 0 && (board.completed()
                ==> was_completed),
            halted ==> count_event(events@, BoardEvent::BoardCompleted) == 1 && board.completed()
                && !was_completed && k >= 1,
            events@.len() == count_event(events@, BoardEvent::MineTriggered) + count_event(
                events@,
                BoardEvent::BoardCompleted,
            ),
            was_completed ==> board.completed(),
            (forall|j: int|
                0 <= j < frontier@.len() ==> !old(board).covered_at(#[trigger] frontier@[j]))
                ==> *board == *old(board) && next@.len() == 0 && changes@.len() == 0
                && events@.len() == 0 && !halted,
        decreases frontier@.len() - k,
    {
        let c = frontier[k];
        let ghost pre = *board;
        let entry = board.try_uncover_tile(&c);
        match entry {
            None => {
                proof {
                    assert(frontier@.take(k as int + 1) =~= frontier@.take(k as int).push(c));
                }
            },
            Some(handle) => {
                let ghost changes_pre = changes@;
                let ghost next_pre = next@;
                let ghost events_pre = events@;
                let t = board.tile_map.tile(c);
                changes.push(CellChange { coordinates: c, tile: t, cover_handle: handle });
                proof {
                    lemma_count_mine_changes_push(
                        changes_pre,
                        CellChange { coordinates: c, tile: t, cover_handle: handle },
                    );
                    assert(frontier@.take(k as int + 1) =~= frontier@.take(k as int).push(c));
                    if was_completed {
                        lemma_completed_monotone(pre, *board);
                    }
                    assert forall|c2: Coordinates|
                        #![trigger old(board).covered_at(c2), board.covered_at(c2)]
                        old(board).covered_at(c2) && !board.covered_at(c2) implies exists|j: int|
                        0 <= j < changes@.len() && (#[trigger] changes@[j]).coordinates == c2 by {
                        if c2 == c {
                            assert(changes@[changes@.len() - 1].coordinates == c2);
                        } else {
                            assert(!pre.covered_at(c2));
                            let j = choose|j: int|
                                0 <= j < changes_pre.len() && (#[trigger] changes_pre[j]).coordinates
                                    == c2;
                            assert(changes@[j].coordinates == c2);
                        }
                    }
                }
                match t {
                    Tile::Bomb => {
                        events.push(BoardEvent::MineTriggered);
                        proof {
                            lemma_count_event_push(
                                events_pre,
                                BoardEvent::MineTriggered,
                                BoardEvent::MineTriggered,
                            );
                            lemma_count_event_push(
                                events_pre,
                                BoardEvent::MineTriggered,
                                BoardEvent::BoardCompleted,
                            );
                        }
                    },
                    Tile::BombNeighbor(_) => {},
                    Tile::Empty => {
                        let mut adjacent_covered = board.adjacent_covered_coordinates(c);
                        let ghost adj_view = adjacent_covered@;
                        next.append(&mut adjacent_covered);
                        proof {
                            assert(next@ == next_pre + adj_view);
                            assert forall|n: Coordinates| #[trigger]
                                next@.contains(n) implies board.in_bounds(n) && exists|
                                d: Coordinates,
                            |
                                old(board).covered_at(d) && !board.covered_at(d) && old(
                                    board,
                                ).tile_map.tile_at(d) is Empty && adjacent(d, n) by {
                                lemma_contains_concat(next_pre, adj_view, n);
                                if adj_view.contains(n) {
                                    assert(board.covered_at(n) && adjacent(c, n));
                                    assert(old(board).covered_at(c) && !board.covered_at(c)
                                        && old(board).tile_map.tile_at(c) is Empty && adjacent(
                                        c,
                                        n,
                                    ));
                                }
                            }
                            assert forall|d: Coordinates, n: Coordinates|
                                #![trigger old(board).tile_map.tile_at(d), board.covered_at(n)]
                                old(board).covered_at(d) && !board.covered_at(d) && old(
                                    board,
                                ).tile_map.tile_at(d) is Empty && adjacent(d, n)
                                && board.covered_at(n) implies next@.contains(n) by {
                                lemma_contains_concat(next_pre, adj_view, n);
                                if d == c {
                                    assert(adj_view.contains(n));
                                } else {
                                    if pre.covered_at(d) {
                                        assert(d == c);
                                    } else {
                                        assert(pre.covered_at(n));
                                        assert(next_pre.contains(n));
                                    }
                                }
                            }
                        }
                    },
                }
                let now_completed = board.is_completed();
                if now_completed && !was_completed {
                    let ghost events_mid = events@;
                    events.push(BoardEvent::BoardCompleted);
                    halted = true;
                    proof {
                        lemma_count_event_push(
                            events_mid,
                            BoardEvent::BoardCompleted,
                            BoardEvent::MineTriggered,
                        );
                        lemma_count_event_push(
                            events_mid,
                            BoardEvent::BoardCompleted,
                            BoardEvent::BoardCompleted,
                        );
                    }
                }
            },
        }
        k += 1;
    }
    proof {
        assert(frontier@.take(frontier@.len() as int) =~= frontier@);
        if !halted {
            assert(k >= frontier@.len());
        }
        assert forall|c: Coordinates|
            #![trigger old(board).covered_at(c), board.covered_at(c)]
            old(board).covered_at(c) && !board.covered_at(c) implies frontier@.contains(c) by {
            let i = choose|i: int|
                0 <= i < frontier@.take(k as int).len() && frontier@.take(k as int)[i] == c;
            assert(frontier@[i] == c);
        }
    }
    UncoverStep { next, changes, events }
}

/// Executes one whole reveal request: seeds the frontier with the
/// requested coordinate and drains the cascade to quiescence.
///
/// A request for an already revealed or out-of-bounds coordinate does
/// nothing and emits nothing. Revealing a mine uncovers that cell alone
/// and emits exactly one `MineTriggered`. Revealing a safe cell expands
/// across connected empty cells up to the numbered boundary, and the
/// request that reveals the last safe cell emits `BoardCompleted` once.
#[verifier::loop_isolation(false)]
#[verifier::rlimit(100)]
pub fn request_reveal(board: &mut Board, coordinates: Coordinates) -> (outcome: RevealOutcome)
    requires
        old(board).wf(),
        old(board).saturated(),
    ensures
        final(board).wf(),
        final(board).same_layout(old(board)),
        final(board).saturated(),
        // the covered set only shrinks; surviving handles are untouched
        forall|c: Coordinates| #[trigger]
            final(board).covered_at(c) ==> old(board).covered_at(c) && final(board).cover_at(c)
                == old(board).cover_at(c),
        // an uncovered or invalid target is a silent no-op
        !old(board).covered_at(coordinates) ==> *final(board) == *old(board)
            && outcome.changes@.len() == 0 && outcome.events@.len() == 0,
        // the target itself is revealed
        old(board).covered_at(coordinates) ==> !final(board).covered_at(coordinates),
        // every other revealed cell neighbors an empty cell revealed by
        // this request: the cascade never crosses a numbered boundary
        forall|c: Coordinates|
            #![trigger old(board).covered_at(c), final(board).covered_at(c)]
            old(board).covered_at(c) && !final(board).covered_at(c) && c != coordinates
                ==> exists|d: Coordinates|
                old(board).covered_at(d) && !final(board).covered_at(d) && old(
                    board,
                ).tile_map.tile_at(d) is Empty && adjacent(d, c),
        // a revealed mine uncovers nothing else and emits exactly one
        // MineTriggered
        old(board).covered_at(coordinates) && old(board).tile_map.tile_at(coordinates) is Bomb
            ==> (forall|c: Coordinates|
            (old(board).covered_at(c) && !(#[trigger] final(board).covered_at(c))) <==> c
                == coordinates) && outcome.events@ == seq![BoardEvent::MineTriggered],
        // a revealed safe cell emits BoardCompleted exactly when it
        // solves the board, and nothing else
        old(board).covered_at(coordinates) && !(old(board).tile_map.tile_at(coordinates) is Bomb)
            ==> outcome.events@ == if final(board).completed() {
            seq![BoardEvent::BoardCompleted]
        } else {
            Seq::<BoardEvent>::empty()
        },
        // the changes record exactly the cells revealed by this request
        outcome.changes@.len() == old(board).covered_count() - final(board).covered_count(),
        forall|j: int|
            0 <= j < outcome.changes@.len() ==> {
                let ch = #[trigger] outcome.changes@[j];
                &&& old(board).covered_at(ch.coordinates)
                &&& !final(board).covered_at(ch.coordinates)
                &&& ch.tile == old(board).tile_map.tile_at(ch.coordinates)
                &&& old(board).cover_at(ch.coordinates) == Some(ch.cover_handle)
            },
        forall|j1: int, j2: int|
            #![trigger outcome.changes@[j1], outcome.changes@[j2]]
            0 <= j1 < j2 < outcome.changes@.len() ==> outcome.changes@[j1].coordinates
                != outcome.changes@[j2].coordinates,
        forall|c: Coordinates|
            #![trigger old(board).covered_at(c), final(board).covered_at(c)]
            old(board).covered_at(c) && !final(board).covered_at(c) ==> exists|j: int|
                0 <= j < outcome.changes@.len() && (#[trigger] outcome.changes@[j]).coordinates
                    == c,
        // events in general: one MineTriggered per revealed mine,
        // BoardCompleted exactly when this request solved the board
        count_event(outcome.events@, BoardEvent::MineTriggered) == count_mine_changes(
            outcome.changes@,
        ),
        count_event(outcome.events@, BoardEvent::BoardCompleted) == if final(board).completed()
            && !old(board).completed() {
            1int
        } else {
            0int
        },
        outcome.events@.len() == count_event(outcome.events@, BoardEvent::MineTriggered)
            + count_event(outcome.events@, BoardEvent::BoardCompleted),
        // a solved board stays solved
        old(board).completed() ==> final(board).completed(),
{
    let was_completed = board.is_completed();
    let mut frontier: Vec<Coordinates> = Vec::new();
    frontier.push(coordinates);
    let mut changes: Vec<CellChange> = Vec::new();
    let mut events: Vec<BoardEvent> = Vec::new();
    let mut done = false;
    proof {
        lemma_count_covered_prefix_bounds(
            board.covered_tiles@,
            board.covered_tiles@.len() as int,
        );
        assert(frontier@ =~= Seq::<Coordinates>::empty().push(coordinates));
    }
    while frontier.len() > 0 && !done
        invariant
            board.wf(),
            board.same_layout(old(board)),
            0 <= board.covered_count(),
            forall|c: Coordinates| #[trigger]
                board.covered_at(c) ==> old(board).covered_at(c) && board.cover_at(c) == old(
                    board,
                ).cover_at(c),
            forall|c: Coordinates|
                #![trigger old(board).covered_at(c), board.covered_at(c)]
                old(board).covered_at(c) && !board.covered_at(c) && c != coordinates ==> exists|
                    d: Coordinates,
                |
                    old(board).covered_at(d) && !board.covered_at(d) && old(
                        board,
                    ).tile_map.tile_at(d) is Empty && adjacent(d, c),
            forall|n: Coordinates| #[trigger]
                frontier@.contains(n) ==> n == coordinates || (board.in_bounds(n) && exists|
                    d: Coordinates,
                |
                    old(board).covered_at(d) && !board.covered_at(d) && old(
                        board,
                    ).tile_map.tile_at(d) is Empty && adjacent(d, n)),
            changes@.len() + board.covered_count() == old(board).covered_count(),
            forall|j: int|
                0 <= j < changes@.len() ==> {
                    let ch = #[trigger] changes@[j];
                    &&& old(board).covered_at(ch.coordinates)
                    &&& !board.covered_at(ch.coordinates)
                    &&& ch.tile == old(board).tile_map.tile_at(ch.coordinates)
                    &&& old(board).cover_at(ch.coordinates) == Some(ch.cover_handle)
                },
            forall|j1: int, j2: int|
                #![trigger changes@[j1], changes@[j2]]
                0 <= j1 < j2 < changes@.len() ==> changes@[j1].coordinates
                    != changes@[j2].coordinates,
            forall|c: Coordinates|
                #![trigger old(board).covered_at(c), board.covered_at(c)]
                old(board).covered_at(c) && !board.covered_at(c) ==> exists|j: int|
                    0 <= j < changes@.len() && (#[trigger] changes@[j]).coordinates == c,
            board.completed() || forall|d: Coordinates, n: Coordinates|
                #![trigger old(board).tile_map.tile_at(d), board.covered_at(n)]
                old(board).covered_at(d) && !board.covered_at(d) && old(
                    board,
                ).tile_map.tile_at(d) is Empty && adjacent(d, n) && board.covered_at(n)
                    ==> frontier@.contains(n),
            count_event(events@, BoardEvent::MineTriggered) == count_mine_changes(changes@),
            count_event(events@, BoardEvent::BoardCompleted) == if board.completed()
                && !was_completed {
                1int
            } else {
                0int
            },
            events@.len() == count_event(events@, BoardEvent::MineTriggered) + count_event(
                events@,
                BoardEvent::BoardCompleted,
            ),
            was_completed ==> board.completed(),
            done ==> board.completed(),
            !old(board).covered_at(coordinates) ==> *board == *old(board) && changes@.len() == 0
                && events@.len() == 0,
            old(board).covered_at(coordinates) && board.covered_at(coordinates) ==> frontier@.len()
                > 0 && frontier@[0] == coordinates && !done,
            (old(board).covered_at(coordinates) && old(board).tile_map.tile_at(
                coordinates,
            ) is Bomb) ==> forall|c: Coordinates|
                #![trigger board.covered_at(c)]
                old(board).covered_at(c) && !board.covered_at(c) ==> c == coordinates,
        decreases board.covered_count(), frontier@.len(),
    {
        let ghost top = *board;
        let ghost frontier_top = frontier@;
        let ghost changes_top = changes@;
        let ghost events_top = events@;
        let mut step = uncover_tiles(board, &frontier);
        let ghost step_changes = step.changes@;
        let ghost step_events = step.events@;
        let ghost step_next = step.next@;
        changes.append(&mut step.changes);
        events.append(&mut step.events);
        frontier = step.next;
        let now_completed = board.is_completed();
        if now_completed && !was_completed {
            done = true;
        }
        proof {
            lemma_count_event_concat(events_top, step_events, BoardEvent::MineTriggered);
            lemma_count_event_concat(events_top, step_events, BoardEvent::BoardCompleted);
            lemma_count_mine_changes_concat(changes_top, step_changes);
            lemma_count_covered_prefix_bounds(
                board.covered_tiles@,
                board.covered_tiles@.len() as int,
            );
            assert(changes@ == changes_top + step_changes);
            assert(events@ == events_top + step_events);

            // boundary: a cell revealed this generation sat in the
            // frontier, whose members carry their own witnesses
            assert forall|c: Coordinates|
                #![trigger old(board).covered_at(c), board.covered_at(c)]
                old(board).covered_at(c) && !board.covered_at(c) && c != coordinates implies exists|
                d: Coordinates,
            |
                old(board).covered_at(d) && !board.covered_at(d) && old(
                    board,
                ).tile_map.tile_at(d) is Empty && adjacent(d, c) by {
                if top.covered_at(c) {
                    assert(frontier_top.contains(c));
                }
            }

            // new frontier members carry witnesses from this generation
            assert forall|n: Coordinates| #[trigger]
                frontier@.contains(n) implies n == coordinates || (board.in_bounds(n) && exists|
                d: Coordinates,
            |
                old(board).covered_at(d) && !board.covered_at(d) && old(
                    board,
                ).tile_map.tile_at(d) is Empty && adjacent(d, n)) by {
                let d = choose|d: Coordinates|
                    top.covered_at(d) && !board.covered_at(d) && top.tile_map.tile_at(
                        d,
                    ) is Empty && adjacent(d, n);
                assert(old(board).covered_at(d) && !board.covered_at(d) && old(
                    board,
                ).tile_map.tile_at(d) is Empty && adjacent(d, n));
            }

            // aggregate the change records
            assert forall|j: int| 0 <= j < changes@.len() implies {
                let ch = #[trigger] changes@[j];
                &&& old(board).covered_at(ch.coordinates)
                &&& !board.covered_at(ch.coordinates)
                &&& ch.tile == old(board).tile_map.tile_at(ch.coordinates)
                &&& old(board).cover_at(ch.coordinates) == Some(ch.cover_handle)
            } by {
                if j < changes_top.len() {
                    assert(changes@[j] == changes_top[j]);
                } else {
                    assert(changes@[j] == step_changes[j - changes_top.len()]);
                }
            }
            assert forall|j1: int, j2: int|
                #![trigger changes@[j1], changes@[j2]]
                0 <= j1 < j2 < changes@.len() implies changes@[j1].coordinates
                != changes@[j2].coordinates by {
                if j2 < changes_top.len() {
                    assert(changes@[j1] == changes_top[j1] && changes@[j2] == changes_top[j2]);
                } else if j1 >= changes_top.len() {
                    assert(changes@[j1] == step_changes[j1 - changes_top.len()]
                        && changes@[j2] == step_changes[j2 - changes_top.len()]);
                } else {
                    assert(changes@[j1] == changes_top[j1]
                        && changes@[j2] == step_changes[j2 - changes_top.len()]);
                    assert(!top.covered_at(changes_top[j1].coordinates));
                    assert(top.covered_at(step_changes[j2 - changes_top.len()].coordinates));
                }
            }
            assert forall|c: Coordinates|
                #![trigger old(board).covered_at(c), board.covered_at(c)]
                old(board).covered_at(c) && !board.covered_at(c) implies exists|j: int|
                0 <= j < changes@.len() && (#[trigger] changes@[j]).coordinates == c by {
                if top.covered_at(c) {
                    let j = choose|j: int|
                        0 <= j < step_changes.len() && (#[trigger] step_changes[j]).coordinates
                            == c;
                    assert(changes@[changes_top.len() + j].coordinates == c);
                } else {
                    let j = choose|j: int|
                        0 <= j < changes_top.len() && (#[trigger] changes_top[j]).coordinates
                            == c;
                    assert(changes@[j].coordinates == c);
                }
            }

            // pending saturation: obligations either died with this
            // generation or moved into the new frontier
            if !board.completed() {
                assert forall|d: Coordinates, n: Coordinates|
                    #![trigger old(board).tile_map.tile_at(d), board.covered_at(n)]
                    old(board).covered_at(d) && !board.covered_at(d) && old(
                        board,
                    ).tile_map.tile_at(d) is Empty && adjacent(d, n) && board.covered_at(n)
                    implies frontier@.contains(n) by {
                    if top.covered_at(d) {
                        // revealed this generation: the step queued n
                        assert(top.tile_map.tile_at(d) is Empty);
                        assert(step_next.contains(n));
                    } else {
                        // revealed earlier: n was in the old frontier,
                        // but this generation revealed every covered
                        // frontier cell, so n cannot still be covered
                        assert(top.completed() || frontier_top.contains(n));
                        if !top.completed() {
                            assert(top.covered_at(n));
                            let j = choose|j: int|
                                0 <= j < frontier_top.len() && frontier_top[j] == n;
                            assert(!board.covered_at(frontier_top[j]));
                        } else {
                            assert(board.completed()) by {
                                lemma_completed_monotone(top, *board);
                            }
                        }
                    }
                }
            }

            // the target is revealed by the generation that holds it first
            if old(board).covered_at(coordinates) && board.covered_at(coordinates) {
                assert(top.covered_at(coordinates));
                assert(frontier_top.len() > 0 && frontier_top[0] == coordinates);
                assert(!board.covered_at(frontier_top[0]));
                assert(false);
            }

            // a mine reveal cannot seed any further reveals
            if old(board).covered_at(coordinates) && old(board).tile_map.tile_at(
                coordinates,
            ) is Bomb {
                assert forall|c: Coordinates|
                    #![trigger board.covered_at(c)]
                    old(board).covered_at(c) && !board.covered_at(c) implies c
                    == coordinates by {
                    if top.covered_at(c) {
                        assert(frontier_top.contains(c));
                        if c != coordinates {
                            let d = choose|d: Coordinates|
                                old(board).covered_at(d) && !top.covered_at(d) && old(
                                    board,
                                ).tile_map.tile_at(d) is Empty && adjacent(d, c);
                            assert(d == coordinates);
                        }
                    }
                }
            }

            // no-op path: a dead request leaves everything untouched
            if !old(board).covered_at(coordinates) {
                assert forall|j: int|
                    0 <= j < frontier_top.len() implies !top.covered_at(
                    #[trigger] frontier_top[j],
                ) by {
                    assert(frontier_top.contains(frontier_top[j]));
                    if frontier_top[j] != coordinates {
                        let d = choose|d: Coordinates|
                            old(board).covered_at(d) && !top.covered_at(d) && old(
                                board,
                            ).tile_map.tile_at(d) is Empty && adjacent(d, frontier_top[j]);
                        assert(false);
                    }
                }
                assert(*board == top);
                assert(step_changes.len() == 0 && step_events.len() == 0);
                assert(changes@ =~= changes_top);
                assert(events@ =~= events_top);
            }

            if was_completed {
                lemma_completed_monotone(top, *board);
            }
        }
    }
    proof {
        // quiescence: the board is saturated again
        assert forall|c: Coordinates, d: Coordinates|
            #![trigger board.tile_map.tile_at(c), board.covered_at(d)]
            board.in_bounds(c) && !board.covered_at(c) && board.tile_map.tile_at(c) is Empty
                && adjacent(c, d) && board.in_bounds(d) implies !board.covered_at(d) by {
            if board.covered_at(d) {
                if board.completed() {
                    lemma_completed_implies_saturated(*board);
                } else {
                    assert(!done);
                    assert(frontier@.len() == 0);
                    if old(board).covered_at(c) {
                        // revealed during this request: its covered
                        // neighbors would still be queued
                        assert(old(board).tile_map.tile_at(c) is Empty);
                        assert(frontier@.contains(d));
                    } else {
                        // revealed before this request: the board was
                        // saturated then, and covers only disappear
                        assert(old(board).tile_map.tile_at(c) is Empty);
                        assert(old(board).covered_at(d));
                        assert(!old(board).covered_at(d));
                    }
                }
            }
        }
    }
    let outcome = RevealOutcome { changes, events };
    proof {
        if old(board).covered_at(coordinates) && old(board).tile_map.tile_at(
            coordinates,
        ) is Bomb {
            // exactly one cell changed: the mine itself
            assert(!board.covered_at(coordinates));
            assert(outcome.changes@.len() >= 1) by {
                assert(old(board).covered_at(coordinates) && !board.covered_at(coordinates));
            }
            assert(outcome.changes@.len() <= 1) by {
                if outcome.changes@.len() >= 2 {
                    assert(outcome.changes@[0].coordinates == coordinates);
                    assert(outcome.changes@[1].coordinates == coordinates);
                }
            }
            assert(count_mine_changes(outcome.changes@) == 1) by {
                assert(outcome.changes@[0].tile is Bomb);
                assert(outcome.changes@.drop_last().len() == 0);
                assert(count_mine_changes(outcome.changes@.drop_last()) == 0);
                assert(outcome.changes@.last() == outcome.changes@[0]);
            }
            // completion is untouched by a mine reveal
            assert(board.completed() == old(board).completed()) by {
                assert forall|c: Coordinates|
                    c != coordinates implies (old(board).covered_at(c) <==> #[trigger] board
                    .covered_at(c)) by {}
                lemma_completed_after_mine_reveal(*old(board), *board, coordinates);
            }
            assert(count_event(outcome.events@, BoardEvent::BoardCompleted) == 0);
            assert(outcome.events@.len() == 1);
            lemma_single_event(outcome.events@, BoardEvent::MineTriggered);
            assert(outcome.events@ == seq![BoardEvent::MineTriggered]);
        }
        if old(board).covered_at(coordinates) && !(old(board).tile_map.tile_at(
            coordinates,
        ) is Bomb) {
            // nothing revealed by a safe request is a mine
            assert forall|j: int|
                0 <= j < outcome.changes@.len() implies !((#[trigger] outcome.changes@[j]).tile
                is Bomb) by {
                let ch = outcome.changes@[j];
                if ch.coordinates != coordinates {
                    let d = choose|d: Coordinates|
                        old(board).covered_at(d) && !board.covered_at(d) && old(
                            board,
                        ).tile_map.tile_at(d) is Empty && adjacent(d, ch.coordinates);
                    lemma_no_bomb_next_to_empty(
                        old(board).tile_map,
                        d,
                        ch.coordinates,
                    );
                }
            }
            lemma_count_mine_changes_zero(outcome.changes@);
            assert(!old(board).completed()) by {
                assert(old(board).covered_at(coordinates));
            }
            if board.completed() {
                assert(count_event(outcome.events@, BoardEvent::BoardCompleted) == 1);
                assert(outcome.events@.len() == 1);
                lemma_single_event(outcome.events@, BoardEvent::BoardCompleted);
            } else {
                assert(outcome.events@.len() == 0);
                assert(outcome.events@ =~= Seq::<BoardEvent>::empty());
            }
        }
    }
    outcome
}

} // verus!
