use std::collections::HashMap;

use vstd::prelude::*;

use crate::coordinates::Coordinates;
use crate::tile_map::{cell_index, in_grid, square, TileMap};

verus! {

broadcast use vstd::std_specs::hash::group_hash_axioms;

/// An opaque reference to the presentation layer's object for one cell's
/// cover; the board only stores and hands it back.
#[derive(Debug, Clone, Copy, PartialEq, Eq, Structural, Hash)]
pub struct TileHandle {
    pub id: u64,
}

/// The key under which a cell is kept in the covered-cell map.
pub open spec fn key(c: Coordinates) -> u32 {
    (c.x as int * 65536 + c.y as int) as u32
}

pub fn key_of(c: Coordinates) -> (r: u32)
    ensures
        r == key(c),
{
    c.x as u32 * 65536 + c.y as u32
}

pub proof fn lemma_key_injective(a: Coordinates, b: Coordinates)
    requires
        key(a) == key(b),
    ensures
        a == b,
{
}

/// The live game state: the field, where it is drawn, which cells are still
/// covered (with the handle of each cover) and which are marked.
#[derive(Debug)]
pub struct Board {
    pub tile_map: TileMap,
    pub bounds: Bounds2,
    pub tile_size: u32,
    pub covered_tiles: HashMap<u32, TileHandle>,
    pub entity: TileHandle,
    pub marked_tiles: Vec<Coordinates>,
}

/// A point in whole pixels.
#[derive(Debug, Clone, Copy, PartialEq, Eq, Structural)]
pub struct Position {
    pub x: i32,
    pub y: i32,
}

/// An axis-aligned rectangle: lower-left corner and extent.
#[derive(Debug, Clone, Copy, PartialEq, Eq, Structural)]
pub struct Bounds2 {
    pub position: Position,
    pub size: Position,
}

impl Bounds2 {
    pub open spec fn contains(&self, p: Position) -> bool {
        &&& p.x >= self.position.x
        &&& p.y >= self.position.y
        &&& p.x <= self.position.x + self.size.x
        &&& p.y <= self.position.y + self.size.y
    }

    /// Whether `coordinates` lies in the rectangle, edges included.
    pub fn is_in_bounds(&self, coordinates: Position) -> (r: bool)
        ensures
            r == self.contains(coordinates),
    {
        coordinates.x as i64 >= self.position.x as i64 && coordinates.y as i64 >= self.position.y as i64
            && coordinates.x as i64 <= self.position.x as i64 + self.size.x as i64
            && coordinates.y as i64 <= self.position.y as i64 + self.size.y as i64
    }
}

impl Board {
    pub open spec fn is_covered(&self, c: Coordinates) -> bool {
        self.covered_tiles@.contains_key(key(c))
    }

    pub open spec fn handle(&self, c: Coordinates) -> TileHandle {
        self.covered_tiles@[key(c)]
    }

    pub open spec fn is_marked(&self, c: Coordinates) -> bool {
        self.marked_tiles@.contains(c)
    }

    pub open spec fn covered_count(&self) -> nat {
        self.covered_tiles@.len()
    }

    /// Marks are distinct and only on covered cells.
    pub open spec fn wf(&self) -> bool {
        &&& self.tile_map.wf()
        &&& self.tile_size > 0
        &&& forall|c: Coordinates| #[trigger] self.is_covered(c) ==> self.tile_map.in_range(c)
        &&& self.marked_tiles@.no_duplicates()
        &&& forall|i: int| 0 <= i < self.marked_tiles@.len() ==> self.is_covered(#[trigger] self.marked_tiles@[i])
    }

    /// Everything but the covered cells and the marks is as in `other`.
    pub open spec fn same_layout(&self, other: &Board) -> bool {
        &&& self.tile_map == other.tile_map
        &&& self.bounds == other.bounds
        &&& self.tile_size == other.tile_size
        &&& self.entity == other.entity
    }

    /// The handles of the entries of `s` that are covered, in order; an entry
    /// given twice gives its handle twice.
    pub open spec fn covered_handles(&self, s: Seq<Coordinates>) -> Seq<TileHandle>
        decreases s.len(),
    {
        if s.len() == 0 {
            Seq::empty()
        } else if self.is_covered(s.last()) {
            self.covered_handles(s.drop_last()).push(self.handle(s.last()))
        } else {
            self.covered_handles(s.drop_last())
        }
    }

    fn covered_handle(&self, c: Coordinates) -> (r: Option<TileHandle>)
        ensures
            r == if self.is_covered(c) {
                Some(self.handle(c))
            } else {
                None::<TileHandle>
            },
    {
        let k = key_of(c);
        match self.covered_tiles.get(&k) {
            Some(h) => Some(*h),
            None => None,
        }
    }

    fn marked_position(&self, c: Coordinates) -> (r: Option<usize>)
        ensures
            match r {
                Some(i) => i < self.marked_tiles@.len() && self.marked_tiles@[i as int] == c,
                None => !self.is_marked(c),
            },
    {
        let mut i: usize = 0;
        while i < self.marked_tiles.len()
            invariant
                i <= self.marked_tiles@.len(),
                forall|j: int| 0 <= j < i ==> self.marked_tiles@[j] != c,
            decreases self.marked_tiles@.len() - i,
        {
            if self.marked_tiles[i] == c {
                return Some(i);
            }
            i = i + 1;
        }
        None
    }

    /// The handle of the cover to lift for a click on `coordinates`: none when
    /// the cell is marked or already uncovered.
    pub fn tile_to_uncover(&self, coordinates: &Coordinates) -> (r: Option<TileHandle>)
        ensures
            r == if !self.is_marked(*coordinates) && self.is_covered(*coordinates) {
                Some(self.handle(*coordinates))
            } else {
                None::<TileHandle>
            },
    {
        match self.marked_position(*coordinates) {
            Some(_) => None,
            None => self.covered_handle(*coordinates),
        }
    }

    fn unmark_tile(&mut self, coords: &Coordinates) -> (r: Option<Coordinates>)
        requires
            old(self).wf(),
        ensures
            final(self).wf(),
            final(self).same_layout(old(self)),
            final(self).covered_tiles@ == old(self).covered_tiles@,
            r == if old(self).is_marked(*coords) {
                Some(*coords)
            } else {
                None::<Coordinates>
            },
            forall|d: Coordinates| #[trigger]
                final(self).is_marked(d) <==> (old(self).is_marked(d) && d != *coords),
    {
        match self.marked_position(*coords) {
            None => None,
            Some(pos) => {
                let ghost before = self.marked_tiles@;
                let removed = self.marked_tiles.remove(pos);
                proof {
                    assert forall|c: Coordinates| #[trigger] self.is_covered(c) implies self.tile_map.in_range(c) by {
                        assert(old(self).is_covered(c));
                    }
                    assert forall|d: Coordinates| #[trigger]
                        self.is_marked(d) <==> (before.contains(d) && d != *coords) by {
                        if self.is_marked(d) {
                            let j = choose|j: int| 0 <= j < self.marked_tiles@.len() && #[trigger] self.marked_tiles@[j] == d;
                            if j < pos {
                                assert(before[j] == d);
                            } else {
                                assert(before[j + 1] == d);
                            }
                        }
                        if before.contains(d) && d != *coords {
                            let j = choose|j: int| 0 <= j < before.len() && #[trigger] before[j] == d;
                            if j < pos {
                                assert(self.marked_tiles@[j] == d);
                            } else {
                                assert(self.marked_tiles@[j - 1] == d);
                            }
                        }
                    }
                    assert forall|i: int| 0 <= i < self.marked_tiles@.len() implies self.is_covered(
                        #[trigger] self.marked_tiles@[i],
                    ) by {
                        if i < pos {
                            assert(self.marked_tiles@[i] == before[i]);
                        } else {
                            assert(self.marked_tiles@[i] == before[i + 1]);
                        }
                    }
                }
                Some(removed)
            },
        }
    }

    /// Uncovers `coordinates`, clearing its mark first: the handle of its
    /// cover, or none when it was uncovered already.
    pub fn try_uncover_tile(&mut self, coordinates: &Coordinates) -> (r: Option<TileHandle>)
        requires
            old(self).wf(),
        ensures
            final(self).wf(),
            final(self).same_layout(old(self)),
            final(self).covered_tiles@ == old(self).covered_tiles@.remove(key(*coordinates)),
            r == if old(self).is_covered(*coordinates) {
                Some(old(self).handle(*coordinates))
            } else {
                None::<TileHandle>
            },
            forall|d: Coordinates| #[trigger]
                final(self).is_marked(d) <==> (old(self).is_marked(d) && d != *coordinates),
    {
        let _ = self.unmark_tile(coordinates);
        let ghost mid = *self;
        let k = key_of(*coordinates);
        let r = self.covered_tiles.remove(&k);
        proof {
            assert forall|c: Coordinates| #[trigger] self.is_covered(c) implies self.tile_map.in_range(c) by {
                assert(old(self).is_covered(c));
            }
            assert forall|d: Coordinates| #[trigger]
                self.is_marked(d) <==> (old(self).is_marked(d) && d != *coordinates) by {
                assert(mid.is_marked(d) == self.is_marked(d));
            }
            assert forall|i: int| 0 <= i < self.marked_tiles@.len() implies self.is_covered(
                #[trigger] self.marked_tiles@[i],
            ) by {
                let d = self.marked_tiles@[i];
                assert(mid.marked_tiles@[i] == d);
                assert(mid.is_marked(d));
                if key(d) == k {
                    lemma_key_injective(d, *coordinates);
                }
            }
        }
        r
    }

    /// Handles of the covers still on the neighbour coordinates of
    /// `coordinates`.
    pub fn adjacent_covered_tiles(&self, coordinates: Coordinates) -> (r: Vec<TileHandle>)
        requires
            self.wf(),
        ensures
            r@ == self.covered_handles(square(coordinates)),
    {
        let around = self.tile_map.safe_square_at(coordinates);
        let mut r: Vec<TileHandle> = Vec::new();
        let mut i: usize = 0;
        while i < around.len()
            invariant
                i <= around@.len(),
                r@ == self.covered_handles(around@.take(i as int)),
            decreases around@.len() - i,
        {
            proof {
                assert(around@.take(i + 1).drop_last() =~= around@.take(i as int));
            }
            match self.covered_handle(around[i]) {
                Some(h) => r.push(h),
                None => {},
            }
            i = i + 1;
        }
        proof {
            assert(around@.take(around@.len() as int) =~= around@);
        }
        r
    }

    /// The game is won: as many cells are still covered as there are mines.
    pub fn is_completed(&self) -> (r: bool)
        ensures
            r == (self.covered_count() == self.tile_map.spec_mine_count()),
    {
        self.tile_map.mine_count() as usize == self.covered_tiles.len()
    }

    /// Marks a covered cell, or unmarks it when it was marked: its handle and
    /// whether it is marked now. None, and nothing changes, for a cell that is
    /// not covered.
    pub fn try_toggle_mark(&mut self, coords: &Coordinates) -> (r: Option<(TileHandle, bool)>)
        requires
            old(self).wf(),
        ensures
            final(self).wf(),
            final(self).same_layout(old(self)),
            final(self).covered_tiles@ == old(self).covered_tiles@,
            r == if old(self).is_covered(*coords) {
                Some((old(self).handle(*coords), !old(self).is_marked(*coords)))
            } else {
                None::<(TileHandle, bool)>
            },
            forall|d: Coordinates| #[trigger]
                final(self).is_marked(d) <==> if d == *coords && old(self).is_covered(d) {
                    !old(self).is_marked(d)
                } else {
                    old(self).is_marked(d)
                },
    {
        let entity = match self.covered_handle(*coords) {
            Some(h) => h,
            None => return None,
        };
        let mark = match self.marked_position(*coords) {
            Some(_) => {
                let _ = self.unmark_tile(coords);
                false
            },
            None => {
                let ghost before = self.marked_tiles@;
                self.marked_tiles.push(*coords);
                proof {
                    assert forall|i: int, j: int|
                        0 <= i < self.marked_tiles@.len() && 0 <= j < self.marked_tiles@.len() && i != j
                        implies self.marked_tiles@[i] != self.marked_tiles@[j] by {
                        assert(!before.contains(*coords));
                        if i == before.len() as int {
                            assert(before[j] == self.marked_tiles@[j]);
                        } else if j == before.len() as int {
                            assert(before[i] == self.marked_tiles@[i]);
                        }
                    }
                    assert forall|d: Coordinates| #[trigger]
                        self.is_marked(d) <==> (before.contains(d) || d == *coords) by {
                        if before.contains(d) {
                            let j = choose|j: int| 0 <= j < before.len() && #[trigger] before[j] == d;
                            assert(self.marked_tiles@[j] == d);
                        }
                        if self.is_marked(d) && d != *coords {
                            let j = choose|j: int| 0 <= j < self.marked_tiles@.len() && #[trigger] self.marked_tiles@[j] == d;
                            assert(before[j] == d);
                        }
                        if d == *coords {
                            assert(self.marked_tiles@[before.len() as int] == d);
                        }
                    }
                    assert forall|i: int| 0 <= i < self.marked_tiles@.len() implies self.is_covered(
                        #[trigger] self.marked_tiles@[i],
                    ) by {
                        if i < before.len() {
                            assert(self.marked_tiles@[i] == before[i]);
                        }
                    }
                }
                true
            },
        };
        proof {
            assert forall|c: Coordinates| #[trigger] self.is_covered(c) implies self.tile_map.in_range(c) by {
                assert(old(self).is_covered(c));
            }
        }
        Some((entity, mark))
    }

    /// The cell under a pointer at `position` in a window of `window`
    /// (width, height) pixels, measured from the window's top-left corner with
    /// `y` growing downwards. The board's bounds are taken relative to the
    /// window centre. None when the point is outside the bounds or on their
    /// far edges. Row 0 is the bottom row on screen, so the row is counted
    /// back from the last one.
    pub open spec fn spec_mouse_position(&self, window: (u32, u32), position: Position) -> Option<
        Coordinates,
    > {
        // Doubled coordinates keep the centre of an odd-sized window exact.
        let rx = 2 * position.x - window.0;
        let ry = 2 * position.y - window.1;
        let bx = 2 * self.bounds.position.x;
        let by = 2 * self.bounds.position.y;
        let inside = bx <= rx <= bx + 2 * self.bounds.size.x && by <= ry <= by + 2
            * self.bounds.size.y;
        let col = (rx - bx) / (2 * self.tile_size);
        let row = (ry - by) / (2 * self.tile_size);
        if inside && col < self.tile_map.spec_width() && row < self.tile_map.spec_height() {
            Some(
                Coordinates {
                    x: col as u16,
                    y: (self.tile_map.spec_height() - 1 - row) as u16,
                },
            )
        } else {
            None
        }
    }

    /// Translates a pointer position into the cell under it; see
    /// `spec_mouse_position`.
    pub fn mouse_position(&self, window: (u32, u32), position: Position) -> (r: Option<Coordinates>)
        requires
            self.wf(),
        ensures
            r == self.spec_mouse_position(window, position),
    {
        let rx: i64 = 2 * position.x as i64 - window.0 as i64;
        let ry: i64 = 2 * position.y as i64 - window.1 as i64;
        let bx: i64 = 2 * self.bounds.position.x as i64;
        let by: i64 = 2 * self.bounds.position.y as i64;
        if !(bx <= rx && rx <= bx + 2 * self.bounds.size.x as i64 && by <= ry && ry <= by + 2
            * self.bounds.size.y as i64) {
            return None;
        }
        let step: u64 = 2 * self.tile_size as u64;
        let col: u64 = (rx - bx) as u64 / step;
        let row: u64 = (ry - by) as u64 / step;
        if col >= self.tile_map.width() as u64 || row >= self.tile_map.height() as u64 {
            return None;
        }
        Some(Coordinates { x: col as u16, y: self.tile_map.height() - 1 - row as u16 })
    }

    /// A board on which every cell of `tile_map` is covered, the cover of the
    /// cell at row-major position `i` having handle `covers[i]`, and nothing
    /// is marked.
    pub fn new(
        tile_map: TileMap,
        bounds: Bounds2,
        tile_size: u32,
        entity: TileHandle,
        covers: &Vec<TileHandle>,
    ) -> (r: Board)
        requires
            tile_map.wf(),
            tile_size > 0,
            covers@.len() == tile_map.spec_width() * tile_map.spec_height(),
        ensures
            r.wf(),
            r.tile_map == tile_map,
            r.bounds == bounds,
            r.tile_size == tile_size,
            r.entity == entity,
            r.marked_tiles@.len() == 0,
            r.covered_count() == covers@.len(),
            forall|c: Coordinates| #[trigger]
                r.is_covered(c) <==> in_grid(tile_map.spec_width(), tile_map.spec_height(), c),
            forall|c: Coordinates|
                in_grid(tile_map.spec_width(), tile_map.spec_height(), c) ==> #[trigger] r.handle(c)
                    == covers@[cell_index(tile_map.spec_width(), c)],
    {
        let w = tile_map.width();
        let h = tile_map.height();
        let ghost wi = w as int;
        let ghost hi = h as int;
        let n: usize = covers.len();
        let mut covered_tiles: HashMap<u32, TileHandle> = HashMap::new();
        let mut y: u16 = 0;
        let mut i: usize = 0;
        while y < h
            invariant
                wi == tile_map.spec_width(),
                hi == tile_map.spec_height(),
                w == wi,
                h == hi,
                covers@.len() == wi * hi,
                n == covers@.len(),
                y <= h,
                i == y * wi,
                covered_tiles@.len() == i,
                forall|c: Coordinates| #[trigger]
                    covered_tiles@.contains_key(key(c)) <==> (in_grid(wi, hi, c) && c.y < y),
                forall|c: Coordinates|
                    in_grid(wi, hi, c) && c.y < y ==> #[trigger] covered_tiles@[key(c)] == covers@[cell_index(
                        wi,
                        c,
                    )],
            decreases hi - y,
        {
            proof {
                assert((y + 1) * wi <= hi * wi) by (nonlinear_arith)
                    requires
                        y < hi,
                        wi >= 0,
                ;
                assert((y + 1) * wi == y * wi + wi) by (nonlinear_arith);
            }
            let mut x: u16 = 0;
            while x < w
                invariant
                    wi == tile_map.spec_width(),
                    hi == tile_map.spec_height(),
                    w == wi,
                    h == hi,
                    covers@.len() == wi * hi,
                    y < h,
                    x <= w,
                    (y + 1) * wi <= hi * wi,
                    (y + 1) * wi == y * wi + wi,
                    n == covers@.len(),
                    i == y * wi + x,
                    covered_tiles@.len() == i,
                    forall|c: Coordinates| #[trigger]
                        covered_tiles@.contains_key(key(c)) <==> (in_grid(wi, hi, c) && (c.y < y || (c.y
                            == y && c.x < x))),
                    forall|c: Coordinates|
                        in_grid(wi, hi, c) && (c.y < y || (c.y == y && c.x < x)) ==> #[trigger] covered_tiles@[key(c)]
                            == covers@[cell_index(wi, c)],
                decreases wi - x,
            {
                let c = Coordinates { x, y };
                let ghost before = covered_tiles@;
                proof {
                    assert(!covered_tiles@.contains_key(key(c)));
                    assert(y * wi + x < (y + 1) * wi) by (nonlinear_arith)
                        requires
                            x < wi,
                            (y + 1) * wi == y * wi + wi,
                    ;
                    assert(hi * wi == wi * hi) by (nonlinear_arith);
                }
                covered_tiles.insert(key_of(c), covers[i]);
                proof {
                    assert forall|d: Coordinates| #[trigger]
                        covered_tiles@.contains_key(key(d)) <==> (in_grid(wi, hi, d) && (d.y < y || (d.y
                            == y && d.x < x + 1))) by {
                        if key(d) == key(c) {
                            lemma_key_injective(d, c);
                        }
                        assert(before.contains_key(key(d)) == (in_grid(wi, hi, d) && (d.y < y || (d.y
                            == y && d.x < x))));
                    }
                    assert forall|d: Coordinates|
                        in_grid(wi, hi, d) && (d.y < y || (d.y == y && d.x < x + 1)) implies #[trigger] covered_tiles@[key(d)]
                            == covers@[cell_index(wi, d)] by {
                        if key(d) == key(c) {
                            lemma_key_injective(d, c);
                        } else {
                            assert(before[key(d)] == covers@[cell_index(wi, d)]);
                        }
                    }
                }
                i = i + 1;
                x = x + 1;
            }
            y = y + 1;
        }
        proof {
            assert(hi * wi == wi * hi) by (nonlinear_arith);
        }
        let r = Board {
            tile_map,
            bounds,
            tile_size,
            covered_tiles,
            entity,
            marked_tiles: Vec::new(),
        };
        proof {
            assert forall|c: Coordinates|
                in_grid(wi, hi, c) implies #[trigger] r.handle(c) == covers@[cell_index(wi, c)] by {
                assert(covered_tiles@.contains_key(key(c)));
            }
        }
        r
    }
}

} // verus!
