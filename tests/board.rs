use minesweeper::{
    adaptive_tile_size, board_layout, handle_mouse_input, mark_tiles, trigger_event_handler,
    uncover_tiles, Board, BoardInput, BoardOptions, BoardPosition, Bounds2, Coordinates,
    MouseButton, Position, TileHandle, TileMap, TileMarkEvent, TileSize, TileTriggerEvent,
};

fn c(x: u16, y: u16) -> Coordinates {
    Coordinates { x, y }
}

fn h(id: u64) -> TileHandle {
    TileHandle { id }
}

fn board_with_mines(w: u16, hgt: u16, mines: &[Coordinates]) -> Board {
    let mut map = TileMap::new_empty(w, hgt);
    map.set_mines_at(&mines.to_vec());
    let covers: Vec<TileHandle> = (0..(w as u64 * hgt as u64)).map(h).collect();
    let bounds = Bounds2 {
        position: Position { x: -(w as i32 * 5), y: -(hgt as i32 * 5) },
        size: Position { x: w as i32 * 10, y: hgt as i32 * 10 },
    };
    Board::new(map, bounds, 10, h(1000), &covers)
}

fn covered(board: &Board) -> usize {
    board.covered_tiles.len()
}

#[test]
fn new_board_covers_every_cell() {
    let board = board_with_mines(3, 2, &[]);
    assert_eq!(covered(&board), 6);
    assert_eq!(board.tile_to_uncover(&c(2, 1)), Some(h(5)));
    assert_eq!(board.tile_to_uncover(&c(3, 0)), None);
    assert!(board.marked_tiles.is_empty());
}

#[test]
fn single_cell_board_completes() {
    let mut board = board_with_mines(1, 1, &[]);
    assert!(!board.is_completed());
    let out = uncover_tiles(&mut board, c(0, 0));
    assert_eq!(out.uncovered, vec![(c(0, 0), h(0))]);
    assert!(out.completed);
    assert!(!out.mine_exploded);
    assert!(board.is_completed());
}

#[test]
fn uncover_twice_is_a_no_op() {
    let mut board = board_with_mines(3, 3, &[c(1, 1)]);
    assert_eq!(board.try_uncover_tile(&c(0, 0)), Some(h(0)));
    assert_eq!(covered(&board), 8);
    assert_eq!(board.try_uncover_tile(&c(0, 0)), None);
    assert_eq!(covered(&board), 8);
    let out = uncover_tiles(&mut board, c(0, 0));
    assert!(out.uncovered.is_empty());
    assert!(!out.completed && !out.mine_exploded);
    assert_eq!(covered(&board), 8);
}

#[test]
fn centre_mine_click_reveals_one_cell() {
    let mut board = board_with_mines(3, 3, &[c(1, 1)]);
    let out = uncover_tiles(&mut board, c(0, 0));
    assert_eq!(out.uncovered, vec![(c(0, 0), h(0))]);
    assert_eq!(covered(&board), 8);
    let corners = [c(2, 0), c(0, 2), c(2, 2)];
    for (i, corner) in corners.iter().enumerate() {
        let out = uncover_tiles(&mut board, *corner);
        assert_eq!(out.uncovered.len(), 1);
        assert_eq!(covered(&board), 7 - i);
    }
    for side in [c(1, 0), c(0, 1), c(2, 1)] {
        let out = uncover_tiles(&mut board, side);
        assert!(!out.completed);
    }
    let out = uncover_tiles(&mut board, c(1, 2));
    assert!(out.completed);
    assert!(board.is_completed());
}

#[test]
fn cascade_opens_empty_region_and_border() {
    let mut board = board_with_mines(5, 1, &[c(4, 0)]);
    let out = uncover_tiles(&mut board, c(0, 0));
    let mut cells: Vec<Coordinates> = out.uncovered.iter().map(|p| p.0).collect();
    cells.sort();
    assert_eq!(cells, vec![c(0, 0), c(1, 0), c(2, 0), c(3, 0)]);
    assert!(!out.mine_exploded);
    assert!(out.completed);
    assert_eq!(board.tile_to_uncover(&c(4, 0)), Some(h(4)));
}

#[test]
fn cascade_on_mine_free_board_opens_everything() {
    let mut board = board_with_mines(4, 4, &[]);
    let out = uncover_tiles(&mut board, c(2, 1));
    assert_eq!(out.uncovered.len(), 16);
    assert_eq!(covered(&board), 0);
    assert!(out.completed);
}

#[test]
fn mine_click_explodes() {
    let mut board = board_with_mines(3, 3, &[c(1, 1)]);
    let out = uncover_tiles(&mut board, c(1, 1));
    assert!(out.mine_exploded);
    assert_eq!(out.uncovered, vec![(c(1, 1), h(4))]);
    assert!(!out.completed);
}

#[test]
fn cascade_clears_marks_it_passes() {
    let mut board = board_with_mines(3, 3, &[]);
    assert_eq!(board.try_toggle_mark(&c(2, 2)), Some((h(8), true)));
    let out = uncover_tiles(&mut board, c(0, 0));
    assert_eq!(out.uncovered.len(), 9);
    assert!(board.marked_tiles.is_empty());
}

#[test]
fn marking_toggles_and_protects() {
    let mut board = board_with_mines(3, 3, &[c(1, 1)]);
    assert_eq!(board.try_toggle_mark(&c(0, 0)), Some((h(0), true)));
    assert_eq!(board.tile_to_uncover(&c(0, 0)), None);
    let event = TileTriggerEvent { coordinates: c(0, 0) };
    assert_eq!(trigger_event_handler(&board, &event), None);
    assert_eq!(board.try_toggle_mark(&c(0, 0)), Some((h(0), false)));
    assert_eq!(trigger_event_handler(&board, &event), Some(h(0)));
    assert_eq!(mark_tiles(&mut board, &TileMarkEvent(c(2, 0))), Some((h(2), true)));
    assert_eq!(board.marked_tiles, vec![c(2, 0)]);
}

#[test]
fn mark_then_uncover_clears_mark() {
    let mut board = board_with_mines(3, 3, &[c(1, 1)]);
    board.try_toggle_mark(&c(0, 0));
    assert_eq!(board.try_uncover_tile(&c(0, 0)), Some(h(0)));
    assert!(board.marked_tiles.is_empty());
    assert_eq!(board.try_toggle_mark(&c(0, 0)), None);
}

#[test]
fn marking_uncovered_cell_fails() {
    let mut board = board_with_mines(2, 2, &[]);
    board.try_uncover_tile(&c(1, 1));
    assert_eq!(board.try_toggle_mark(&c(1, 1)), None);
    assert!(board.marked_tiles.is_empty());
}

#[test]
fn adjacent_covered_tiles_follow_square() {
    let mut board = board_with_mines(3, 3, &[]);
    assert_eq!(
        board.adjacent_covered_tiles(c(1, 1)),
        vec![h(0), h(1), h(2), h(3), h(5), h(6), h(7), h(8)]
    );
    board.try_uncover_tile(&c(0, 0));
    board.try_uncover_tile(&c(2, 2));
    assert_eq!(
        board.adjacent_covered_tiles(c(1, 1)),
        vec![h(1), h(2), h(3), h(5), h(6), h(7)]
    );
    // Repeated clamped neighbours give their handle again.
    assert_eq!(
        board.adjacent_covered_tiles(c(0, 0)),
        vec![h(1), h(1), h(3), h(3), h(4)]
    );
}

#[test]
fn mouse_position_round_trip() {
    let board = board_with_mines(5, 5, &[]);
    let window = (800, 800);
    assert_eq!(board.mouse_position(window, Position { x: 380, y: 420 }), Some(c(0, 0)));
    assert_eq!(board.mouse_position(window, Position { x: 420, y: 380 }), Some(c(4, 4)));
    assert_eq!(board.mouse_position(window, Position { x: 400, y: 400 }), Some(c(2, 2)));
    assert_eq!(board.mouse_position(window, Position { x: 390, y: 420 }), Some(c(1, 0)));
    assert_eq!(board.mouse_position(window, Position { x: 380, y: 410 }), Some(c(0, 1)));
    assert_eq!(board.mouse_position(window, Position { x: 374, y: 400 }), None);
    assert_eq!(board.mouse_position(window, Position { x: 400, y: 426 }), None);
    // The far edges belong to no cell.
    assert_eq!(board.mouse_position(window, Position { x: 425, y: 400 }), None);
}

#[test]
fn mouse_position_odd_window() {
    let board = board_with_mines(5, 5, &[]);
    // Centre at 400.5: pixel 376 is 24.5 left of it, inside the first column.
    assert_eq!(board.mouse_position((801, 800), Position { x: 376, y: 400 }), Some(c(0, 2)));
    assert_eq!(board.mouse_position((801, 800), Position { x: 375, y: 400 }), None);
}

#[test]
fn bounds_include_edges() {
    let b = Bounds2 { position: Position { x: -5, y: 0 }, size: Position { x: 10, y: 4 } };
    assert!(b.is_in_bounds(Position { x: -5, y: 0 }));
    assert!(b.is_in_bounds(Position { x: 5, y: 4 }));
    assert!(!b.is_in_bounds(Position { x: 6, y: 4 }));
    assert!(!b.is_in_bounds(Position { x: 0, y: -1 }));
}

#[test]
fn mouse_input_becomes_requests() {
    let board = board_with_mines(5, 5, &[]);
    let p = Position { x: 400, y: 400 };
    assert_eq!(
        handle_mouse_input(&board, (800, 800), p, MouseButton::Left, true),
        Some(BoardInput::Trigger(TileTriggerEvent { coordinates: c(2, 2) }))
    );
    assert_eq!(
        handle_mouse_input(&board, (800, 800), p, MouseButton::Right, true),
        Some(BoardInput::Mark(TileMarkEvent(c(2, 2))))
    );
    assert_eq!(handle_mouse_input(&board, (800, 800), p, MouseButton::Middle, true), None);
    assert_eq!(handle_mouse_input(&board, (800, 800), p, MouseButton::Left, false), None);
    let off = Position { x: 10, y: 10 };
    assert_eq!(handle_mouse_input(&board, (800, 800), off, MouseButton::Left, true), None);
}

#[test]
fn adaptive_size_fits_and_clamps() {
    assert_eq!(adaptive_tile_size((800, 800), (10, 50), (15, 15)), 50);
    assert_eq!(adaptive_tile_size((800, 600), (10, 50), (20, 20)), 30);
    assert_eq!(adaptive_tile_size((100, 100), (10, 50), (20, 20)), 10);
    assert_eq!(adaptive_tile_size((100, 100), (10, 50), (0, 0)), 50);
}

#[test]
fn default_layout_is_centred() {
    let options = BoardOptions::default();
    assert_eq!(options.map_size, (15, 15));
    assert_eq!(options.mine_count, 30);
    assert_eq!(options.tile_size, TileSize::WindowAdaptive { min: 10, max: 50 });
    assert!(!options.safe_start_enabled);
    let (ts, bounds) = board_layout(&options, (800, 800)).unwrap();
    assert_eq!(ts, 50);
    assert_eq!(bounds.size, Position { x: 750, y: 750 });
    assert_eq!(bounds.position, Position { x: -375, y: -375 });
}

#[test]
fn layout_rejects_incoherent_sizes() {
    let mut options = BoardOptions::default();
    options.tile_size = TileSize::Fixed(0);
    assert!(board_layout(&options, (800, 800)).is_none());
    options.tile_size = TileSize::WindowAdaptive { min: 60, max: 50 };
    assert!(board_layout(&options, (800, 800)).is_none());
    options.tile_size = TileSize::Fixed(12);
    options.position = BoardPosition::CustomPosition(Position { x: 3, y: -4 });
    let (ts, bounds) = board_layout(&options, (800, 800)).unwrap();
    assert_eq!(ts, 12);
    assert_eq!(bounds.position, Position { x: 3, y: -4 });
    assert_eq!(bounds.size, Position { x: 180, y: 180 });
}

#[test]
fn won_board_is_lost_again_by_uncovering_a_mine() {
    // Completion is a count: after a win, uncovering a remaining mine drops
    // the covered count below the mine count.
    let mut board = board_with_mines(2, 1, &[c(1, 0)]);
    let out = uncover_tiles(&mut board, c(0, 0));
    assert!(out.completed);
    let again = uncover_tiles(&mut board, c(0, 0));
    assert!(again.uncovered.is_empty());
    assert!(board.is_completed());
    let boom = uncover_tiles(&mut board, c(1, 0));
    assert!(boom.mine_exploded);
    assert!(!boom.completed);
    assert!(!board.is_completed());
}
