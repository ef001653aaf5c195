use minesweeper_core::{
    request_reveal, trigger_event_handler, uncover_tiles, Board, BoardEvent, Coordinates, Tile,
    TileMap, TileTriggerEvent,
};

fn coord(x: u16, y: u16) -> Coordinates {
    Coordinates { x, y }
}

fn handles(n: usize) -> Vec<u64> {
    let mut v = Vec::new();
    for i in 0..n {
        v.push(1000 + i as u64);
    }
    v
}

/// A 1x3 strip: [Mine, Empty, Empty] becomes [Mine, 1, Empty].
fn strip_board() -> Board {
    let mut tm = TileMap::empty(3, 1).unwrap();
    tm.place_bombs_at(&vec![coord(0, 0)]).unwrap();
    Board::new(tm, 0, 0, 16, &handles(3))
}

fn covered_set(b: &Board) -> Vec<Coordinates> {
    let mut v = Vec::new();
    for y in 0..b.tile_map.height() {
        for x in 0..b.tile_map.width() {
            if b.tile_to_uncover(&coord(x, y)).is_some() {
                v.push(coord(x, y));
            }
        }
    }
    v
}

#[test]
fn reveal_cascades_to_the_numbered_boundary() {
    // revealing the far empty cell uncovers the numbered cell next to
    // the mine and stops there; the mine stays covered and the board is
    // then complete
    let mut b = strip_board();
    let outcome = request_reveal(&mut b, coord(2, 0));
    assert_eq!(covered_set(&b), vec![coord(0, 0)]);
    assert!(b.is_completed());
    assert_eq!(outcome.events, vec![BoardEvent::BoardCompleted]);
    let mut changed: Vec<Coordinates> =
        outcome.changes.iter().map(|ch| ch.coordinates).collect();
    changed.sort_by_key(|c| (c.y, c.x));
    assert_eq!(changed, vec![coord(1, 0), coord(2, 0)]);
    for ch in &outcome.changes {
        match ch.coordinates {
            Coordinates { x: 1, y: 0 } => {
                assert_eq!(ch.tile, Tile::BombNeighbor(1));
                assert_eq!(ch.cover_handle, 1001);
            }
            Coordinates { x: 2, y: 0 } => {
                assert_eq!(ch.tile, Tile::Empty);
                assert_eq!(ch.cover_handle, 1002);
            }
            _ => panic!("unexpected change"),
        }
    }
}

#[test]
fn revealing_a_mine_emits_one_trigger_and_nothing_else() {
    let mut b = strip_board();
    let outcome = request_reveal(&mut b, coord(0, 0));
    assert_eq!(outcome.events, vec![BoardEvent::MineTriggered]);
    assert_eq!(outcome.changes.len(), 1);
    assert_eq!(outcome.changes[0].coordinates, coord(0, 0));
    assert_eq!(outcome.changes[0].tile, Tile::Bomb);
    // no other cell was revealed
    assert_eq!(covered_set(&b), vec![coord(1, 0), coord(2, 0)]);
    assert!(!b.is_completed());
}

#[test]
fn reveal_requests_are_idempotent() {
    let mut b = strip_board();
    request_reveal(&mut b, coord(1, 0));
    let after_once = covered_set(&b);
    let second = request_reveal(&mut b, coord(1, 0));
    // the second request changes nothing and emits nothing
    assert_eq!(covered_set(&b), after_once);
    assert!(second.changes.is_empty());
    assert!(second.events.is_empty());
}

#[test]
fn reveal_out_of_bounds_is_a_silent_no_op() {
    let mut b = strip_board();
    let before = covered_set(&b);
    let outcome = request_reveal(&mut b, coord(9, 9));
    assert_eq!(covered_set(&b), before);
    assert!(outcome.changes.is_empty());
    assert!(outcome.events.is_empty());
}

#[test]
fn covered_set_only_shrinks_across_requests() {
    let mut tm = TileMap::empty(5, 5).unwrap();
    tm.set_bombs(6, 11).unwrap();
    let mut b = Board::new(tm, 0, 0, 16, &handles(25));
    let mut previous = covered_set(&b);
    for (x, y) in [(0u16, 0u16), (4, 4), (2, 2), (0, 4), (2, 2), (4, 0)] {
        request_reveal(&mut b, coord(x, y));
        let now = covered_set(&b);
        // monotone: nothing re-enters the covered set
        assert!(now.iter().all(|c| previous.contains(c)));
        previous = now;
    }
}

#[test]
fn cascade_on_a_mine_free_board_reveals_everything() {
    let mut tm = TileMap::empty(4, 4).unwrap();
    tm.set_bombs(0, 3).unwrap();
    let mut b = Board::new(tm, 0, 0, 16, &handles(16));
    let outcome = request_reveal(&mut b, coord(1, 2));
    assert_eq!(outcome.changes.len(), 16);
    assert!(covered_set(&b).is_empty());
    assert_eq!(outcome.events, vec![BoardEvent::BoardCompleted]);
}

#[test]
fn completed_board_reports_completion_only_once() {
    let mut b = strip_board();
    let first = request_reveal(&mut b, coord(2, 0));
    assert_eq!(first.events, vec![BoardEvent::BoardCompleted]);
    // a later mine reveal on the completed board does not repeat it
    let second = request_reveal(&mut b, coord(0, 0));
    assert_eq!(second.events, vec![BoardEvent::MineTriggered]);
}

#[test]
fn trigger_event_handler_seeds_only_covered_cells() {
    let mut b = strip_board();
    let frontier = trigger_event_handler(&b, &TileTriggerEvent(coord(2, 0))).unwrap();
    assert_eq!(frontier, vec![coord(2, 0)]);
    b.try_uncover_tile(&coord(2, 0)).unwrap();
    assert!(trigger_event_handler(&b, &TileTriggerEvent(coord(2, 0))).is_none());
    assert!(trigger_event_handler(&b, &TileTriggerEvent(coord(8, 8))).is_none());
}

#[test]
fn staged_uncover_proceeds_ring_by_ring() {
    // a 5x1 strip with a mine at the far left: [Mine, 1, Empty x3]
    let mut tm = TileMap::empty(5, 1).unwrap();
    tm.place_bombs_at(&vec![coord(0, 0)]).unwrap();
    let mut b = Board::new(tm, 0, 0, 16, &handles(5));

    let frontier = trigger_event_handler(&b, &TileTriggerEvent(coord(4, 0))).unwrap();
    let step1 = uncover_tiles(&mut b, &frontier);
    // generation one reveals only the requested cell and queues its
    // covered neighbor
    assert_eq!(step1.changes.len(), 1);
    assert_eq!(step1.changes[0].coordinates, coord(4, 0));
    assert_eq!(step1.next, vec![coord(3, 0)]);
    assert!(step1.events.is_empty());
    assert!(b.tile_to_uncover(&coord(3, 0)).is_some());

    let step2 = uncover_tiles(&mut b, &step1.next);
    assert_eq!(step2.changes.len(), 1);
    assert_eq!(step2.changes[0].coordinates, coord(3, 0));
    assert_eq!(step2.next, vec![coord(2, 0)]);

    let step3 = uncover_tiles(&mut b, &step2.next);
    assert_eq!(step3.changes.len(), 1);
    assert_eq!(step3.next, vec![coord(1, 0)]);

    // the numbered boundary is revealed, completes the board, and does
    // not expand toward the mine
    let step4 = uncover_tiles(&mut b, &step3.next);
    assert_eq!(step4.changes.len(), 1);
    assert_eq!(step4.changes[0].tile, Tile::BombNeighbor(1));
    assert!(step4.next.is_empty());
    assert_eq!(step4.events, vec![BoardEvent::BoardCompleted]);
    assert!(b.is_completed());
    assert!(b.tile_to_uncover(&coord(0, 0)).is_some());

    // an exhausted frontier is a no-op generation
    let step5 = uncover_tiles(&mut b, &step4.next);
    assert!(step5.changes.is_empty());
    assert!(step5.next.is_empty());
    assert!(step5.events.is_empty());
}

#[test]
fn duplicate_frontier_entries_deduplicate_safely() {
    // queueing the same coordinate twice reveals it once; the second
    // occurrence is the expected no-op, not an error
    let mut b = strip_board();
    let frontier = vec![coord(1, 0), coord(1, 0)];
    let step = uncover_tiles(&mut b, &frontier);
    assert_eq!(step.changes.len(), 1);
    assert_eq!(step.changes[0].coordinates, coord(1, 0));
    assert!(step.next.is_empty());
}

#[test]
fn revealing_a_safe_cell_on_a_completed_board_is_a_no_op() {
    let mut b = strip_board();
    request_reveal(&mut b, coord(2, 0));
    assert!(b.is_completed());
    let outcome = request_reveal(&mut b, coord(1, 0));
    assert!(outcome.changes.is_empty());
    assert!(outcome.events.is_empty());
    assert!(b.is_completed());
}
