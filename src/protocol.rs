use vstd::prelude::*;

use crate::board::{key, lemma_key_injective, Board, Bounds2, Position, TileHandle};
use crate::coordinates::Coordinates;
use crate::tile::Tile;
use crate::tile_map::{
    cell_index, count_mines, lemma_mines_among_zero, square, tile_for_count,
    TileMap,
};

verus! {

broadcast use vstd::std_specs::hash::group_hash_axioms;

/// A request to uncover the cell at `coordinates` (a primary click).
#[derive(Debug, Clone, Copy, PartialEq, Eq, Structural)]
pub struct TileTriggerEvent {
    pub coordinates: Coordinates,
}

/// A request to toggle the mark on a cell (a secondary click).
#[derive(Debug, Clone, Copy, PartialEq, Eq, Structural)]
pub struct TileMarkEvent(pub Coordinates);

/// Every safe cell has been uncovered.
#[derive(Debug, Clone, Copy, PartialEq, Eq, Structural)]
pub struct BoardCompletedEvent;

/// A mine was uncovered.
#[derive(Debug, Clone, Copy, PartialEq, Eq, Structural)]
pub struct MineExplosionEvent;

/// What one uncover request did: the cells it uncovered with the handles of
/// their covers, in the order they were uncovered, and the signals it raised.
#[derive(Debug)]
pub struct UncoverOutcome {
    pub uncovered: Vec<(Coordinates, TileHandle)>,
    pub mine_exploded: bool,
    pub completed: bool,
}

/// Uncovered by the step from `before` to `after`.
pub open spec fn newly_uncovered(before: &Board, after: &Board, c: Coordinates) -> bool {
    before.is_covered(c) && !after.is_covered(c)
}

/// `c` is one of the (possibly repeated, clamped) neighbours of a cell that
/// was empty and was uncovered by the step from `before` to `after`.
pub open spec fn reached(before: &Board, after: &Board, c: Coordinates) -> bool {
    exists|e: Coordinates, i: int|
        newly_uncovered(before, after, e) && before.tile_map.tile(e) == Tile::Empty && 0 <= i < 8
            && #[trigger] square(e)[i] == c
}

proof fn lemma_reached_monotone(b0: &Board, b1: &Board, b2: &Board, c: Coordinates)
    requires
        forall|d: Coordinates| #[trigger] b2.is_covered(d) ==> b1.is_covered(d),
        reached(b0, b1, c),
    ensures
        reached(b0, b2, c),
{
    let (e, i) = choose|e: Coordinates, i: int|
        newly_uncovered(b0, b1, e) && b0.tile_map.tile(e) == Tile::Empty && 0 <= i < 8
            && #[trigger] square(e)[i] == c;
    assert(newly_uncovered(b0, b2, e));
    assert(square(e)[i] == c);
}

/// The cover to lift for a primary click: none for a marked or uncovered
/// cell.
pub fn trigger_event_handler(board: &Board, event: &TileTriggerEvent) -> (r: Option<TileHandle>)
    ensures
        r == if !board.is_marked(event.coordinates) && board.is_covered(event.coordinates) {
            Some(board.handle(event.coordinates))
        } else {
            None::<TileHandle>
        },
{
    board.tile_to_uncover(&event.coordinates)
}

/// Toggles the mark for a secondary click: the cover's handle and whether the
/// cell is marked now, or none for a cell that is not covered.
pub fn mark_tiles(board: &mut Board, event: &TileMarkEvent) -> (r: Option<(TileHandle, bool)>)
    requires
        old(board).wf(),
    ensures
        final(board).wf(),
        final(board).same_layout(old(board)),
        final(board).covered_tiles@ == old(board).covered_tiles@,
        r == if old(board).is_covered(event.0) {
            Some((old(board).handle(event.0), !old(board).is_marked(event.0)))
        } else {
            None::<(TileHandle, bool)>
        },
        forall|d: Coordinates| #[trigger]
            final(board).is_marked(d) <==> if d == event.0 && old(board).is_covered(d) {
                !old(board).is_marked(d)
            } else {
                old(board).is_marked(d)
            },
{
    board.try_toggle_mark(&event.0)
}

/// Uncovers `start` and, when it holds no mine and has no mine around it,
/// every cell reached through such cells, with their bordering numbered
/// cells. A cell that is already uncovered gives an empty outcome and no
/// signal.
pub fn uncover_tiles(board: &mut Board, start: Coordinates) -> (r: UncoverOutcome)
    requires
        old(board).wf(),
        old(board).tile_map.counts_consistent(),
    ensures
        final(board).wf(),
        final(board).same_layout(old(board)),
        // Nothing is covered again, and covers keep their handles.
        forall|c: Coordinates| #[trigger]
            final(board).is_covered(c) ==> old(board).is_covered(c) && final(board).handle(c)
                == old(board).handle(c),
        // A mark survives exactly on the cells that stay covered.
        forall|d: Coordinates| #[trigger]
            final(board).is_marked(d) <==> (old(board).is_marked(d) && final(board).is_covered(d)),
        // An uncovered cell is a no-op.
        !old(board).is_covered(start) ==> final(board).covered_tiles@ == old(board).covered_tiles@
            && r.uncovered@.len() == 0 && !r.mine_exploded && !r.completed,
        old(board).is_covered(start) ==> !final(board).is_covered(start),
        // A mine or a numbered cell is uncovered alone.
        old(board).is_covered(start) && old(board).tile_map.tile(start) != Tile::Empty
            ==> final(board).covered_tiles@ == old(board).covered_tiles@.remove(key(start)),
        // Every empty cell uncovered here has no covered neighbour left.
        forall|c: Coordinates, i: int|
            newly_uncovered(old(board), final(board), c) && old(board).tile_map.tile(c) == Tile::Empty
                && 0 <= i < 8 ==> !final(board).is_covered(#[trigger] square(c)[i]),
        // The cascade spreads only from empty cells: every other cell it
        // uncovers neighbours an empty cell uncovered here.
        forall|c: Coordinates| #[trigger]
            newly_uncovered(old(board), final(board), c) && c != start ==> reached(old(board), final(board), c),
        // The cascade never uncovers a mine.
        forall|c: Coordinates| #[trigger]
            newly_uncovered(old(board), final(board), c) && c != start
                ==> !old(board).tile_map.spec_is_mine_at(c),
        // The outcome lists exactly the cells uncovered here.
        forall|j: int|
            0 <= j < r.uncovered@.len() ==> newly_uncovered(old(board), final(board), #[trigger] r.uncovered@[j].0)
                && r.uncovered@[j].1 == old(board).handle(r.uncovered@[j].0),
        forall|c: Coordinates| #[trigger]
            newly_uncovered(old(board), final(board), c) ==> exists|j: int|
                0 <= j < r.uncovered@.len() && #[trigger] r.uncovered@[j].0 == c,
        // The covered count never grows, so a won board stays won while no
        // covered cell is uncovered.
        final(board).covered_count() <= old(board).covered_count(),
        !old(board).is_covered(start) ==> final(board).covered_count() == old(board).covered_count(),
        r.mine_exploded == (old(board).is_covered(start) && old(board).tile_map.spec_is_mine_at(start)),
        r.completed == (old(board).is_covered(start) && final(board).covered_count()
            == final(board).tile_map.spec_mine_count()),
{
    let ghost b0 = *board;
    let mut uncovered: Vec<(Coordinates, TileHandle)> = Vec::new();
    let first = match board.try_uncover_tile(&start) {
        None => {
            proof {
                assert(board.covered_tiles@ =~= old(board).covered_tiles@);
            }
            return UncoverOutcome { uncovered, mine_exploded: false, completed: false };
        },
        Some(h) => h,
    };
    uncovered.push((start, first));
    let tile = board.tile_map.tile_at(start);
    let mine_exploded = tile.is_a_mine();
    let mut work: Vec<Coordinates> = Vec::new();
    if tile == Tile::Empty {
        work = board.tile_map.safe_square_at(start);
        proof {
            assert(board.tile_map.tile(start) == tile_for_count(board.tile_map.neighbor_mines(start)));
            lemma_mines_among_zero(
                board.tile_map.cells(),
                board.tile_map.spec_width(),
                board.tile_map.spec_height(),
                square(start),
            );
        }
    }
    proof {
        assert forall|c: Coordinates| #[trigger] newly_uncovered(&b0, board, c) implies exists|j: int|
            0 <= j < uncovered@.len() && #[trigger] uncovered@[j].0 == c by {
            assert(uncovered@[0].0 == start);
        }
        assert forall|c: Coordinates| #[trigger] newly_uncovered(&b0, board, c) && c != start implies reached(
            &b0,
            board,
            c,
        ) by {
            if key(c) == key(start) {
                lemma_key_injective(c, start);
            }
        }
        assert forall|j: int| 0 <= j < work@.len() implies reached(&b0, board, #[trigger] work@[j]) by {
            assert(newly_uncovered(&b0, board, start));
            assert(square(start)[j] == work@[j]);
        }
    }
    while work.len() > 0
        invariant
            board.wf(),
            board.same_layout(&b0),
            b0.wf(),
            b0.tile_map.counts_consistent(),
            b0.is_covered(start),
            !board.is_covered(start),
            mine_exploded == b0.tile_map.spec_is_mine_at(start),
            work@.len() > 0 ==> b0.tile_map.tile(start) == Tile::Empty,
            b0.tile_map.tile(start) != Tile::Empty ==> board.covered_tiles@ == b0.covered_tiles@.remove(
                key(start),
            ),
            forall|c: Coordinates| #[trigger]
                board.is_covered(c) ==> b0.is_covered(c) && board.handle(c) == b0.handle(c),
            forall|d: Coordinates| #[trigger]
                board.is_marked(d) <==> (b0.is_marked(d) && board.is_covered(d)),
            forall|j: int| 0 <= j < work@.len() ==> !b0.tile_map.spec_is_mine_at(#[trigger] work@[j]),
            forall|c: Coordinates| #[trigger]
                newly_uncovered(&b0, board, c) && c != start ==> !b0.tile_map.spec_is_mine_at(c),
            forall|c: Coordinates| #[trigger]
                newly_uncovered(&b0, board, c) && c != start ==> reached(&b0, board, c),
            forall|j: int| 0 <= j < work@.len() ==> reached(&b0, board, #[trigger] work@[j]),
            forall|c: Coordinates, i: int|
                newly_uncovered(&b0, board, c) && b0.tile_map.tile(c) == Tile::Empty && 0 <= i < 8
                    ==> !board.is_covered(#[trigger] square(c)[i]) || work@.contains(square(c)[i]),
            forall|j: int|
                0 <= j < uncovered@.len() ==> newly_uncovered(&b0, board, #[trigger] uncovered@[j].0)
                    && uncovered@[j].1 == b0.handle(uncovered@[j].0),
            forall|c: Coordinates| #[trigger]
                newly_uncovered(&b0, board, c) ==> exists|j: int|
                    0 <= j < uncovered@.len() && #[trigger] uncovered@[j].0 == c,
        decreases board.covered_count() * 9 + work@.len(),
    {
        let ghost before = *board;
        let ghost work_before = work@;
        let ghost list_before = uncovered@;
        let c = match work.pop() {
            Some(c) => c,
            None => start,
        };
        let ghost mut pushed = false;
        proof {
            assert(c == work_before[work_before.len() - 1]);
            assert(!b0.tile_map.spec_is_mine_at(c));
            assert forall|j: int| 0 <= j < work@.len() implies !b0.tile_map.spec_is_mine_at(
                #[trigger] work@[j],
            ) by {
                assert(work@[j] == work_before[j]);
            }
        }
        let res = board.try_uncover_tile(&c);
        proof {
            assert forall|d: Coordinates| #[trigger] board.is_covered(d) implies before.is_covered(d) by {}
            assert(reached(&b0, &before, work_before[work_before.len() - 1]));
            lemma_reached_monotone(&b0, &before, board, c);
            assert forall|j: int| 0 <= j < work@.len() implies reached(&b0, board, #[trigger] work@[j]) by {
                assert(work@[j] == work_before[j]);
                assert(reached(&b0, &before, work_before[j]));
                lemma_reached_monotone(&b0, &before, board, work@[j]);
            }
        }
        match res {
            None => {},
            Some(h) => {
                uncovered.push((c, h));
                if board.tile_map.tile_at(c) == Tile::Empty {
                    proof {
                        assert(work_before[work_before.len() - 1] == c);
                        assert(!b0.tile_map.spec_is_mine_at(c));
                        assert(b0.tile_map.tile(c) == tile_for_count(b0.tile_map.neighbor_mines(c)));
                        lemma_mines_among_zero(
                            b0.tile_map.cells(),
                            b0.tile_map.spec_width(),
                            b0.tile_map.spec_height(),
                            square(c),
                        );
                    }
                    let around = board.tile_map.safe_square_at(c);
                    let mut i: usize = 0;
                    while i < around.len()
                        invariant
                            around@ == square(c),
                            work_before.len() > 0,
                            i <= 8,
                            work@.len() == work_before.len() - 1 + i,
                            forall|j: int| 0 <= j < work_before.len() - 1 ==> work@[j] == work_before[j],
                            forall|j: int| 0 <= j < i ==> work@[work_before.len() - 1 + j] == square(c)[j],
                            forall|k: int| 0 <= k < 8 ==> !b0.tile_map.spec_is_mine_at(#[trigger] square(c)[k]),
                            forall|j: int| 0 <= j < work@.len() ==> !b0.tile_map.spec_is_mine_at(#[trigger] work@[j]),
                            newly_uncovered(&b0, board, c),
                            b0.tile_map.tile(c) == Tile::Empty,
                            forall|j: int| 0 <= j < work@.len() ==> reached(&b0, board, #[trigger] work@[j]),
                        decreases 8 - i,
                    {
                        let ghost prev = work@;
                        work.push(around[i]);
                        proof {
                            assert(work@ == prev.push(square(c)[i as int]));
                            assert(prev.len() == work_before.len() - 1 + i);
                            assert forall|j: int| 0 <= j < i + 1 implies work@[work_before.len() - 1 + j]
                                == square(c)[j] by {
                                let idx = work_before.len() - 1 + j;
                                if j < i {
                                    assert(0 <= idx < prev.len());
                                    assert(work@[idx] == prev[idx]);
                                    assert(prev[idx] == square(c)[j]);
                                }
                            }
                            assert forall|j: int| 0 <= j < work_before.len() - 1 implies work@[j] == work_before[j] by {
                                assert(work@[j] == prev[j]);
                            }
                            assert forall|j: int| 0 <= j < work@.len() implies !b0.tile_map.spec_is_mine_at(
                                #[trigger] work@[j],
                            ) by {
                                if j < prev.len() {
                                    assert(work@[j] == prev[j]);
                                } else {
                                    assert(work@[j] == square(c)[i as int]);
                                }
                            }
                            assert forall|j: int| 0 <= j < work@.len() implies reached(&b0, board, #[trigger] work@[j]) by {
                                if j < prev.len() {
                                    assert(work@[j] == prev[j]);
                                } else {
                                    assert(square(c)[i as int] == work@[j]);
                                }
                            }
                        }
                        i = i + 1;
                    }
                    proof {
                        pushed = true;
                    }
                }
            },
        }
        proof {
            assert forall|d: Coordinates| #[trigger] board.is_covered(d) implies b0.is_covered(d)
                && board.handle(d) == b0.handle(d) by {
                assert(before.is_covered(d));
                assert(board.covered_tiles@[key(d)] == before.covered_tiles@[key(d)]);
            }
            assert forall|d: Coordinates| #[trigger] newly_uncovered(&b0, board, d) implies exists|j: int|
                0 <= j < uncovered@.len() && #[trigger] uncovered@[j].0 == d by {
                if d == c && before.is_covered(c) {
                    assert(uncovered@[uncovered@.len() - 1].0 == d);
                } else {
                    if d != c && key(d) == key(c) {
                        lemma_key_injective(d, c);
                    }
                    assert(newly_uncovered(&b0, &before, d));
                    let j = choose|j: int| 0 <= j < list_before.len() && #[trigger] list_before[j].0 == d;
                    assert(uncovered@[j] == list_before[j]);
                }
            }
            assert forall|d: Coordinates| #[trigger]
                newly_uncovered(&b0, board, d) && d != start implies reached(&b0, board, d) by {
                if d != c {
                    if key(d) == key(c) {
                        lemma_key_injective(d, c);
                    }
                    assert(newly_uncovered(&b0, &before, d));
                    lemma_reached_monotone(&b0, &before, board, d);
                }
            }
            assert forall|d: Coordinates| #[trigger]
                newly_uncovered(&b0, board, d) && d != start implies !b0.tile_map.spec_is_mine_at(d) by {
                if d != c {
                    if key(d) == key(c) {
                        lemma_key_injective(d, c);
                    }
                    assert(newly_uncovered(&b0, &before, d));
                }
            }
            assert forall|e: Coordinates, i: int|
                newly_uncovered(&b0, board, e) && b0.tile_map.tile(e) == Tile::Empty && 0 <= i < 8 implies
                !board.is_covered(#[trigger] square(e)[i]) || work@.contains(square(e)[i]) by {
                let sq = square(e)[i];
                if e == c && before.is_covered(c) {
                    assert(board.tile_map.tile(c) == Tile::Empty);
                    assert(pushed);
                    assert(work@[work_before.len() - 1 + i] == sq);
                } else {
                    if e != c && key(e) == key(c) {
                        lemma_key_injective(e, c);
                    }
                    assert(newly_uncovered(&b0, &before, e));
                    if board.is_covered(sq) {
                        assert(before.is_covered(sq));
                        if key(sq) == key(c) {
                            lemma_key_injective(sq, c);
                        }
                        assert(sq != c);
                        assert(work_before.contains(sq));
                        let j = choose|j: int| 0 <= j < work_before.len() && #[trigger] work_before[j] == sq;
                        assert(j < work_before.len() - 1);
                        assert(work@[j] == sq);
                    }
                }
            }
        }
    }
    let completed = board.is_completed();
    let r = UncoverOutcome { uncovered, mine_exploded, completed };
    proof {
        assert(board.covered_tiles@.dom().subset_of(old(board).covered_tiles@.dom())) by {
            assert forall|k: u32| board.covered_tiles@.dom().contains(k) implies old(
                board,
            ).covered_tiles@.dom().contains(k) by {
                let c = Coordinates { x: (k / 65536) as u16, y: (k % 65536) as u16 };
                assert(key(c) == k);
                assert(board.is_covered(c));
            }
        }
        vstd::set_lib::lemma_len_subset(board.covered_tiles@.dom(), old(board).covered_tiles@.dom());
        assert forall|c: Coordinates| #[trigger] newly_uncovered(old(board), board, c) implies exists|j: int|
            0 <= j < r.uncovered@.len() && #[trigger] r.uncovered@[j].0 == c by {
            assert(newly_uncovered(&b0, board, c));
            let j = choose|j: int| 0 <= j < uncovered@.len() && #[trigger] uncovered@[j].0 == c;
            assert(r.uncovered@[j].0 == c);
        }
    }
    r
}

/// A pointer button.
#[derive(Debug, Clone, Copy, PartialEq, Eq, Structural)]
pub enum MouseButton {
    Left,
    Right,
    Middle,
    Other(u16),
}

/// What a click asks of the board.
#[derive(Debug, Clone, Copy, PartialEq, Eq, Structural)]
pub enum BoardInput {
    Trigger(TileTriggerEvent),
    Mark(TileMarkEvent),
}

/// Turns a button press at a window position into a request: the primary
/// button asks to uncover the cell under the pointer, the secondary one to
/// toggle its mark. Releases, other buttons and points off the board ask for
/// nothing.
pub fn handle_mouse_input(
    board: &Board,
    window: (u32, u32),
    position: Position,
    button: MouseButton,
    pressed: bool,
) -> (r: Option<BoardInput>)
    requires
        board.wf(),
    ensures
        r == if !pressed {
            None::<BoardInput>
        } else {
            match board.spec_mouse_position(window, position) {
                None => None::<BoardInput>,
                Some(c) => match button {
                    MouseButton::Left => Some(BoardInput::Trigger(TileTriggerEvent { coordinates: c })),
                    MouseButton::Right => Some(BoardInput::Mark(TileMarkEvent(c))),
                    _ => None::<BoardInput>,
                },
            }
        },
{
    if !pressed {
        return None;
    }
    match board.mouse_position(window, position) {
        None => None,
        Some(c) => match button {
            MouseButton::Left => Some(BoardInput::Trigger(TileTriggerEvent { coordinates: c })),
            MouseButton::Right => Some(BoardInput::Mark(TileMarkEvent(c))),
            _ => None,
        },
    }
}

/// The window position of the centre of cell `c` on a 5 x 5 board of 10-pixel
/// cells centred in a window of even size. Rows are counted from the
/// bottom on screen, the pointer's `y` from the top.
pub open spec fn centred_cell_pointer(window: (u32, u32), c: Coordinates) -> (int, int) {
    (window.0 / 2 - 25 + 10 * c.x + 5, window.1 / 2 + 20 - 10 * c.y)
}

/// On a 5 x 5 board of 10-pixel cells centred in the window, a pointer at a
/// cell's visual centre maps back to that cell; row 0 is the bottom row.
pub proof fn lemma_mouse_round_trip(board: &Board, window: (u32, u32), c: Coordinates)
    requires
        board.wf(),
        board.tile_map.spec_width() == 5,
        board.tile_map.spec_height() == 5,
        board.tile_size == 10,
        board.bounds == (Bounds2 {
            position: Position { x: -25i32, y: -25i32 },
            size: Position { x: 50i32, y: 50i32 },
        }),
        window.0 % 2 == 0,
        window.1 % 2 == 0,
        window.0 <= 1_000_000,
        window.1 <= 1_000_000,
        c.x < 5,
        c.y < 5,
    ensures
        board.spec_mouse_position(
            window,
            Position {
                x: centred_cell_pointer(window, c).0 as i32,
                y: centred_cell_pointer(window, c).1 as i32,
            },
        ) == Some(c),
{
    let p = centred_cell_pointer(window, c);
    assert(2 * p.0 - window.0 == -40 + 20 * c.x);
    assert(2 * p.1 - window.1 == 40 - 20 * c.y);
    assert((10 + 20 * c.x) / 20 == c.x);
    assert((90 - 20 * c.y) / 20 == 4 - c.y);
}

/// The cell at row-major position `i` of a grid `w` cells wide.
pub open spec fn cell_at(w: int, i: int) -> Coordinates {
    Coordinates { x: (i % w) as u16, y: (i / w) as u16 }
}

pub proof fn lemma_cell_at(w: int, h: int, i: int)
    requires
        0 < w <= 65535,
        0 <= h <= 65535,
        0 <= i < w * h,
    ensures
        cell_at(w, i).x == i % w,
        cell_at(w, i).y == i / w,
        (cell_at(w, i).x as int) < w,
        (cell_at(w, i).y as int) < h,
        cell_index(w, cell_at(w, i)) == i,
{
    let q = i / w;
    let r = i % w;
    vstd::arithmetic::div_mod::lemma_fundamental_div_mod(i, w);
    assert(0 <= r < w);
    assert(0 <= q) by (nonlinear_arith)
        requires
            q * w + r == i,
            0 <= r < w,
            0 <= i,
            w > 0,
    ;
    assert(q < h) by (nonlinear_arith)
        requires
            q * w + r == i,
            0 <= r,
            i < w * h,
            w > 0,
    ;
    assert(q * w == w * q) by (nonlinear_arith);
}

/// Keys of the mined cells among the first `n` cells in row order.
pub open spec fn mine_keys(m: &TileMap, n: int) -> Set<u32>
    decreases n,
{
    if n <= 0 {
        Set::empty()
    } else if m.cells()[n - 1] == Tile::Mine {
        mine_keys(m, n - 1).insert(key(cell_at(m.spec_width(), n - 1)))
    } else {
        mine_keys(m, n - 1)
    }
}

proof fn lemma_mine_keys(m: &TileMap, n: int)
    requires
        m.wf(),
        m.spec_width() > 0,
        0 <= n <= m.cells().len(),
    ensures
        mine_keys(m, n).finite(),
        mine_keys(m, n).len() == count_mines(m.cells().take(n)),
        forall|k: u32|
            #[trigger] mine_keys(m, n).contains(k) ==> exists|i: int|
                0 <= i < n && m.cells()[i] == Tile::Mine && k == key(#[trigger] cell_at(m.spec_width(), i)),
    decreases n,
{
    let w = m.spec_width();
    let h = m.spec_height();
    m.lemma_dimensions();
    if n > 0 {
        lemma_mine_keys(m, n - 1);
        assert(m.cells().take(n).drop_last() =~= m.cells().take(n - 1));
        if m.cells()[n - 1] == Tile::Mine {
            let c = cell_at(w, n - 1);
            lemma_cell_at(w, h, n - 1);
            if mine_keys(m, n - 1).contains(key(c)) {
                let i = choose|i: int|
                    0 <= i < n - 1 && m.cells()[i] == Tile::Mine && key(c) == key(#[trigger] cell_at(w, i));
                lemma_cell_at(w, h, i);
                lemma_key_injective(c, cell_at(w, i));
                assert(false);
            }
        }
        assert forall|k: u32| #[trigger] mine_keys(m, n).contains(k) implies exists|i: int|
            0 <= i < n && m.cells()[i] == Tile::Mine && k == key(#[trigger] cell_at(w, i)) by {
            if mine_keys(m, n - 1).contains(k) {
                let i = choose|i: int|
                    0 <= i < n - 1 && m.cells()[i] == Tile::Mine && k == key(#[trigger] cell_at(w, i));
                assert(0 <= i < n);
            } else {
                assert(k == key(cell_at(w, n - 1)));
            }
        }
    }
}

/// On a won board whose mines are all still covered, no safe cell is
/// covered: clicking any safe cell then uncovers nothing, so the board stays
/// won (see `uncover_tiles`).
pub proof fn lemma_won_board_has_only_mines_covered(board: &Board, c: Coordinates)
    requires
        board.wf(),
        board.tile_map.generated(),
        forall|d: Coordinates| #[trigger] board.tile_map.spec_is_mine_at(d) ==> board.is_covered(d),
        board.covered_count() == board.tile_map.spec_mine_count(),
        !board.tile_map.spec_is_mine_at(c),
    ensures
        !board.is_covered(c),
{
    let m = &board.tile_map;
    let w = m.spec_width();
    let h = m.spec_height();
    if board.is_covered(c) {
        assert(m.in_range(c));
        assert(w > 0 && h > 0);
        m.lemma_dimensions();
        let n = m.cells().len() as int;
        lemma_mine_keys(m, n);
        assert(m.cells().take(n) =~= m.cells());
        let keys = mine_keys(m, n);
        let dom = board.covered_tiles@.dom();
        assert(!keys.contains(key(c))) by {
            if keys.contains(key(c)) {
                let i = choose|i: int| 0 <= i < n && m.cells()[i] == Tile::Mine && key(c) == key(#[trigger] cell_at(w, i));
                lemma_cell_at(w, h, i);
                lemma_key_injective(c, cell_at(w, i));
                assert(m.spec_is_mine_at(c));
            }
        }
        assert(keys.insert(key(c)).subset_of(dom)) by {
            assert forall|k: u32| keys.insert(key(c)).contains(k) implies dom.contains(k) by {
                if k != key(c) {
                    let i = choose|i: int| 0 <= i < n && m.cells()[i] == Tile::Mine && k == key(#[trigger] cell_at(w, i));
                    lemma_cell_at(w, h, i);
                    assert(m.spec_is_mine_at(cell_at(w, i)));
                    assert(board.is_covered(cell_at(w, i)));
                }
            }
        }
        vstd::set_lib::lemma_len_subset(keys.insert(key(c)), dom);
    }
}

} // verus!
