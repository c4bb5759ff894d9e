use vstd::prelude::*;

use rand::Rng;
use vstd::string::StringExecFns;

use crate::coordinates::Coordinates;
use crate::text::{dashes, decimal, decimal_text};
use crate::tile::{cell_text, Tile};

verus! {

/// Relative position of the `i`-th neighbour: bottom left, bottom, bottom
/// right, left, right, top left, top, top right.
pub open spec fn spec_neighbor_offset(i: int) -> (int, int) {
    if i == 0 {
        (-1, -1)
    } else if i == 1 {
        (0, -1)
    } else if i == 2 {
        (1, -1)
    } else if i == 3 {
        (-1, 0)
    } else if i == 4 {
        (1, 0)
    } else if i == 5 {
        (-1, 1)
    } else if i == 6 {
        (0, 1)
    } else {
        (1, 1)
    }
}

fn neighbor_offset(i: usize) -> (r: (i8, i8))
    requires
        i < 8,
    ensures
        r.0 as int == spec_neighbor_offset(i as int).0,
        r.1 as int == spec_neighbor_offset(i as int).1,
{
    match i {
        0 => (-1, -1),
        1 => (0, -1),
        2 => (1, -1),
        3 => (-1, 0),
        4 => (1, 0),
        5 => (-1, 1),
        6 => (0, 1),
        _ => (1, 1),
    }
}

/// The eight neighbour coordinates of `c`, in the order of
/// `spec_neighbor_offset`, each clamped at the grid's lower edges. Near an edge
/// some of them repeat or lie outside the grid.
pub open spec fn square(c: Coordinates) -> Seq<Coordinates> {
    Seq::new(8, |i: int| c.spec_offset(spec_neighbor_offset(i).0, spec_neighbor_offset(i).1))
}

/// Whether `c` lies inside a `w` x `h` grid.
pub open spec fn in_grid(w: int, h: int, c: Coordinates) -> bool {
    c.x < w && c.y < h
}

/// Row-major position of `c` in a grid `w` cells wide.
pub open spec fn cell_index(w: int, c: Coordinates) -> int {
    c.y * w + c.x
}

/// Whether the cells `g` of a `w` x `h` grid hold a mine at `c`; false outside
/// the grid.
pub open spec fn cell_mine(g: Seq<Tile>, w: int, h: int, c: Coordinates) -> bool {
    in_grid(w, h, c) && g[cell_index(w, c)] == Tile::Mine
}

/// How many entries of `s` are mined cells, counting repeated entries again.
pub open spec fn mines_among(g: Seq<Tile>, w: int, h: int, s: Seq<Coordinates>) -> nat
    decreases s.len(),
{
    if s.len() == 0 {
        0
    } else {
        mines_among(g, w, h, s.drop_last()) + if cell_mine(g, w, h, s.last()) {
            1nat
        } else {
            0nat
        }
    }
}

/// Number of mines in a sequence of tiles.
pub open spec fn count_mines(g: Seq<Tile>) -> nat
    decreases g.len(),
{
    if g.len() == 0 {
        0
    } else {
        count_mines(g.drop_last()) + if g.last() == Tile::Mine {
            1nat
        } else {
            0nat
        }
    }
}

/// The tile a safe cell gets from the number of mines around it.
pub open spec fn tile_for_count(n: nat) -> Tile {
    if n == 0 {
        Tile::Empty
    } else {
        Tile::MineNeighbor(n as u8)
    }
}

pub proof fn lemma_mines_among_bound(g: Seq<Tile>, w: int, h: int, s: Seq<Coordinates>)
    ensures
        mines_among(g, w, h, s) <= s.len(),
    decreases s.len(),
{
    if s.len() > 0 {
        lemma_mines_among_bound(g, w, h, s.drop_last());
    }
}

/// No entry of `s` is mined when none is counted.
pub proof fn lemma_mines_among_zero(g: Seq<Tile>, w: int, h: int, s: Seq<Coordinates>)
    requires
        mines_among(g, w, h, s) == 0,
    ensures
        forall|i: int| 0 <= i < s.len() ==> !cell_mine(g, w, h, #[trigger] s[i]),
    decreases s.len(),
{
    if s.len() > 0 {
        lemma_mines_among_zero(g, w, h, s.drop_last());
        assert forall|i: int| 0 <= i < s.len() implies !cell_mine(g, w, h, #[trigger] s[i]) by {
            if i < s.len() - 1 {
                assert(s[i] == s.drop_last()[i]);
            }
        }
    }
}

/// Two grids with their mines in the same cells count the same mines.
pub proof fn lemma_mines_among_same_mines(
    g1: Seq<Tile>,
    g2: Seq<Tile>,
    w: int,
    h: int,
    s: Seq<Coordinates>,
)
    requires
        forall|c: Coordinates| cell_mine(g1, w, h, c) == cell_mine(g2, w, h, c),
    ensures
        mines_among(g1, w, h, s) == mines_among(g2, w, h, s),
    decreases s.len(),
{
    if s.len() > 0 {
        lemma_mines_among_same_mines(g1, g2, w, h, s.drop_last());
        assert(cell_mine(g1, w, h, s.last()) == cell_mine(g2, w, h, s.last()));
    }
}

/// Replacing one tile changes the mine count by what left and what came.
pub proof fn lemma_count_mines_update(g: Seq<Tile>, i: int, t: Tile)
    requires
        0 <= i < g.len(),
    ensures
        count_mines(g.update(i, t)) + (if g[i] == Tile::Mine {
            1int
        } else {
            0int
        }) == count_mines(g) + (if t == Tile::Mine {
            1int
        } else {
            0int
        }),
    decreases g.len(),
{
    let u = g.update(i, t);
    if i == g.len() - 1 {
        assert(u.drop_last() =~= g.drop_last());
    } else {
        lemma_count_mines_update(g.drop_last(), i, t);
        assert(u.drop_last() =~= g.drop_last().update(i, t));
    }
}

/// A sequence without mines counts none.
pub proof fn lemma_count_mines_none(g: Seq<Tile>)
    requires
        forall|i: int| 0 <= i < g.len() ==> g[i] != Tile::Mine,
    ensures
        count_mines(g) == 0,
    decreases g.len(),
{
    if g.len() > 0 {
        lemma_count_mines_none(g.drop_last());
    }
}

pub proof fn lemma_cell_index_bounds(w: int, h: int, c: Coordinates)
    requires
        in_grid(w, h, c),
    ensures
        0 <= cell_index(w, c) < w * h,
{
    assert(0 <= c.y * w) by (nonlinear_arith)
        requires
            c.y >= 0,
            w > c.x >= 0,
    ;
    assert(c.y * w + c.x < w * h) by (nonlinear_arith)
        requires
            0 <= c.x < w,
            0 <= c.y < h,
    ;
}

pub proof fn lemma_cell_index_injective(w: int, h: int, a: Coordinates, b: Coordinates)
    requires
        in_grid(w, h, a),
        in_grid(w, h, b),
        a != b,
    ensures
        cell_index(w, a) != cell_index(w, b),
{
    if a.y == b.y {
        assert(a.x != b.x);
    } else if a.y < b.y {
        assert(a.y * w + w <= b.y * w) by (nonlinear_arith)
            requires
                a.y < b.y,
                w >= 0,
        ;
    } else {
        assert(b.y * w + w <= a.y * w) by (nonlinear_arith)
            requires
                b.y < a.y,
                w >= 0,
        ;
    }
}

/// Relies on rand's `thread_rng` and `Rng::gen_range`: a value drawn from
/// `0..bound`, which panics on an empty range.
#[verifier::external_body]
fn random_below(bound: usize) -> (r: usize)
    requires
        bound > 0,
    ensures
        r < bound,
{
    rand::thread_rng().gen_range(0..bound)
}

/// Number of cells of a `w` x `h` grid.
pub fn cell_count(w: u16, h: u16) -> (r: usize)
    ensures
        r == w * h,
{
    proof {
        assert(w * h <= 65535 * 65535) by (nonlinear_arith)
            requires
                w <= 65535,
                h <= 65535,
        ;
    }
    (w as u32 * h as u32) as usize
}

/// The texts `t[start]`, ..., `t[start + n - 1]` one after the other.
pub open spec fn cells_text(t: Seq<Seq<char>>, start: int, n: nat) -> Seq<char>
    decreases n,
{
    if n == 0 {
        Seq::empty()
    } else {
        cells_text(t, start, (n - 1) as nat) + t[start + n - 1]
    }
}

/// One line of the dump: row `y` of a grid `w` cells wide, between `|`.
pub open spec fn row_text(t: Seq<Seq<char>>, w: int, y: int) -> Seq<char> {
    "|"@ + cells_text(t, y * w, w as nat) + "|\n"@
}

/// The dump lines of rows `top - 1` down to `y`, top row first.
pub open spec fn rows_from(t: Seq<Seq<char>>, w: int, top: int, y: int) -> Seq<char>
    decreases top - y,
{
    if top <= y {
        Seq::empty()
    } else {
        row_text(t, w, top - 1) + rows_from(t, w, top - 1, y)
    }
}

/// The dump lines of all `h` rows of a grid `w` cells wide, whose cells show
/// as `t` (row-major), top row first.
pub open spec fn rows_text(t: Seq<Seq<char>>, w: int, h: int) -> Seq<char> {
    rows_from(t, w, h, 0)
}

proof fn lemma_cells_text_frame(t1: Seq<Seq<char>>, t2: Seq<Seq<char>>, start: int, n: nat)
    requires
        forall|j: int| start <= j < start + n ==> t1[j] == t2[j],
    ensures
        cells_text(t1, start, n) == cells_text(t2, start, n),
    decreases n,
{
    if n > 0 {
        lemma_cells_text_frame(t1, t2, start, (n - 1) as nat);
    }
}

proof fn lemma_rows_from_frame(t1: Seq<Seq<char>>, t2: Seq<Seq<char>>, w: int, top: int, y: int)
    requires
        w >= 0,
        0 <= y,
        forall|j: int| y * w <= j < top * w ==> t1[j] == t2[j],
    ensures
        rows_from(t1, w, top, y) == rows_from(t2, w, top, y),
    decreases top - y,
{
    if top > y {
        assert(y * w <= (top - 1) * w && (top - 1) * w + w == top * w) by (nonlinear_arith)
            requires
                y <= top - 1,
                w >= 0,
        ;
        lemma_cells_text_frame(t1, t2, (top - 1) * w, w as nat);
        lemma_rows_from_frame(t1, t2, w, top - 1, y);
    }
}

proof fn lemma_rows_from_extend(t: Seq<Seq<char>>, w: int, top: int, y: int)
    requires
        0 < y <= top,
    ensures
        rows_from(t, w, top, y - 1) == rows_from(t, w, top, y) + row_text(t, w, y - 1),
    decreases top - y,
{
    if top == y {
        assert(rows_from(t, w, top - 1, y - 1) =~= Seq::<char>::empty());
        assert(rows_from(t, w, top, y - 1) =~= rows_from(t, w, top, y) + row_text(t, w, y - 1));
    } else {
        lemma_rows_from_extend(t, w, top - 1, y);
        assert(rows_from(t, w, top, y - 1) =~= rows_from(t, w, top, y) + row_text(t, w, y - 1));
    }
}

/// The mine field: `width` x `height` tiles stored row by row, starting with
/// row 0.
#[derive(Debug, Clone)]
pub struct TileMap {
    mine_count: u16,
    width: u16,
    height: u16,
    map: Vec<Tile>,
}

impl TileMap {
    pub closed spec fn spec_width(&self) -> int {
        self.width as int
    }

    pub closed spec fn spec_height(&self) -> int {
        self.height as int
    }

    pub closed spec fn spec_mine_count(&self) -> int {
        self.mine_count as int
    }

    /// Width, height and mine count are 16-bit quantities.
    pub proof fn lemma_dimensions(&self)
        ensures
            0 <= self.spec_width() <= 65535,
            0 <= self.spec_height() <= 65535,
            0 <= self.spec_mine_count() <= 65535,
    {
    }

    /// The tiles, row by row.
    pub closed spec fn cells(&self) -> Seq<Tile> {
        self.map@
    }

    pub open spec fn wf(&self) -> bool {
        self.cells().len() == self.spec_width() * self.spec_height()
    }

    pub open spec fn in_range(&self, c: Coordinates) -> bool {
        in_grid(self.spec_width(), self.spec_height(), c)
    }

    pub open spec fn tile(&self, c: Coordinates) -> Tile {
        self.cells()[cell_index(self.spec_width(), c)]
    }

    pub open spec fn spec_is_mine_at(&self, c: Coordinates) -> bool {
        cell_mine(self.cells(), self.spec_width(), self.spec_height(), c)
    }

    /// Mines among the eight (possibly repeated) neighbour coordinates of `c`.
    pub open spec fn neighbor_mines(&self, c: Coordinates) -> nat {
        mines_among(self.cells(), self.spec_width(), self.spec_height(), square(c))
    }

    /// What `mine_count_at` answers.
    pub open spec fn spec_mine_count_at(&self, c: Coordinates) -> nat {
        if self.spec_is_mine_at(c) {
            0
        } else {
            self.neighbor_mines(c)
        }
    }

    /// Number of cells that hold a mine.
    pub open spec fn total_mines(&self) -> nat {
        count_mines(self.cells())
    }

    /// Every safe cell shows the number of mines around it.
    pub open spec fn counts_consistent(&self) -> bool {
        forall|c: Coordinates|
            self.in_range(c) && !self.spec_is_mine_at(c) ==> #[trigger] self.tile(c)
                == tile_for_count(self.neighbor_mines(c))
    }

    /// A field as generation leaves it: the requested number of mines, and
    /// every safe cell with its count.
    pub open spec fn generated(&self) -> bool {
        &&& self.wf()
        &&& self.total_mines() == self.spec_mine_count()
        &&& self.counts_consistent()
    }

    /// Position of an in-range cell in `map`.
    fn index_of(&self, c: Coordinates) -> (r: usize)
        requires
            self.wf(),
            self.in_range(c),
        ensures
            r as int == cell_index(self.spec_width(), c),
            r < self.map@.len(),
    {
        proof {
            lemma_cell_index_bounds(self.width as int, self.height as int, c);
            assert(self.width * self.height <= 65535 * 65535) by (nonlinear_arith)
                requires
                    self.width <= 65535,
                    self.height <= 65535,
            ;
        }
        (c.y as u32 * self.width as u32 + c.x as u32) as usize
    }

    /// A grid of `width` x `height` empty cells and no mines.
    pub fn new_empty(width: u16, height: u16) -> (r: TileMap)
        ensures
            r.wf(),
            r.spec_width() == width,
            r.spec_height() == height,
            r.spec_mine_count() == 0,
            forall|i: int| 0 <= i < r.cells().len() ==> r.cells()[i] == Tile::Empty,
    {
        let n: usize = cell_count(width, height);
        let mut map: Vec<Tile> = Vec::new();
        let mut i: usize = 0;
        while i < n
            invariant
                i <= n,
                map@.len() == i,
                forall|j: int| 0 <= j < i ==> map@[j] == Tile::Empty,
            decreases n - i,
        {
            map.push(Tile::Empty);
            i = i + 1;
        }
        TileMap { mine_count: 0, width, height, map }
    }

    /// The eight neighbour coordinates of `coordinates`, clamped at the lower
    /// edges, in the fixed neighbour order.
    pub fn safe_square_at(&self, coordinates: Coordinates) -> (r: Vec<Coordinates>)
        ensures
            r@ == square(coordinates),
    {
        let mut r: Vec<Coordinates> = Vec::new();
        let mut i: usize = 0;
        while i < 8
            invariant
                i <= 8,
                r@ == square(coordinates).take(i as int),
            decreases 8 - i,
        {
            let d = neighbor_offset(i);
            r.push(coordinates.offset(d));
            proof {
                assert(square(coordinates).take(i + 1) =~= square(coordinates).take(i as int).push(
                    square(coordinates)[i as int],
                ));
            }
            i = i + 1;
        }
        proof {
            assert(square(coordinates).take(8) =~= square(coordinates));
        }
        r
    }

    /// Whether a mine lies at `coordinates`; false outside the grid.
    pub fn is_mine_at(&self, coordinates: Coordinates) -> (r: bool)
        requires
            self.wf(),
        ensures
            r == self.spec_is_mine_at(coordinates),
    {
        if coordinates.x >= self.width || coordinates.y >= self.height {
            return false;
        }
        let i = self.index_of(coordinates);
        self.map[i].is_a_mine()
    }

    /// The number of mines among the neighbour coordinates of `coordinates`,
    /// or 0 where the cell is itself a mine.
    pub fn mine_count_at(&self, coordinates: Coordinates) -> (r: u8)
        requires
            self.wf(),
        ensures
            r as nat == self.spec_mine_count_at(coordinates),
            r <= 8,
    {
        if self.is_mine_at(coordinates) {
            return 0;
        }
        let around = self.safe_square_at(coordinates);
        let mut count: u8 = 0;
        let mut i: usize = 0;
        while i < around.len()
            invariant
                self.wf(),
                around@ == square(coordinates),
                i <= around@.len(),
                count as nat == mines_among(
                    self.map@,
                    self.width as int,
                    self.height as int,
                    around@.take(i as int),
                ),
            decreases around@.len() - i,
        {
            proof {
                assert(around@.take(i + 1).drop_last() =~= around@.take(i as int));
                lemma_mines_among_bound(
                    self.map@,
                    self.width as int,
                    self.height as int,
                    around@.take(i as int),
                );
            }
            if self.is_mine_at(around[i]) {
                count = count + 1;
            }
            i = i + 1;
        }
        proof {
            assert(around@.take(8) =~= around@);
            lemma_mines_among_bound(self.map@, self.width as int, self.height as int, around@);
        }
        count
    }

    /// The tile at an in-range cell.
    pub fn tile_at(&self, coordinates: Coordinates) -> (r: Tile)
        requires
            self.wf(),
            self.in_range(coordinates),
        ensures
            r == self.tile(coordinates),
    {
        let i = self.index_of(coordinates);
        self.map[i]
    }

    pub fn width(&self) -> (r: u16)
        ensures
            r as int == self.spec_width(),
    {
        self.width
    }

    pub fn height(&self) -> (r: u16)
        ensures
            r as int == self.spec_height(),
    {
        self.height
    }

    pub fn mine_count(&self) -> (r: u16)
        ensures
            r as int == self.spec_mine_count(),
    {
        self.mine_count
    }

    /// Every cell is empty or a mine: what placing mines on an empty grid
    /// leaves.
    pub open spec fn only_mines_placed(&self) -> bool {
        forall|i: int|
            0 <= i < self.cells().len() ==> self.cells()[i] == Tile::Empty || self.cells()[i]
                == Tile::Mine
    }

    /// Places `mine_count` mines on distinct cells drawn uniformly at random,
    /// then gives every safe cell the number of mines around it.
    pub fn set_mines(&mut self, mine_count: u16)
        requires
            old(self).wf(),
            forall|i: int| 0 <= i < old(self).cells().len() ==> old(self).cells()[i] == Tile::Empty,
            mine_count <= old(self).spec_width() * old(self).spec_height(),
        ensures
            final(self).generated(),
            final(self).spec_width() == old(self).spec_width(),
            final(self).spec_height() == old(self).spec_height(),
            final(self).spec_mine_count() == mine_count,
    {
        self.mine_count = mine_count;
        let n: usize = self.map.len();
        let mut free: Vec<usize> = Vec::new();
        let mut i: usize = 0;
        while i < n
            invariant
                i <= n,
                free@.len() == i,
                forall|j: int| 0 <= j < i ==> free@[j] == j,
            decreases n - i,
        {
            free.push(i);
            i = i + 1;
        }
        proof {
            lemma_count_mines_none(self.map@);
        }
        let mut placed: u16 = 0;
        while placed < mine_count
            invariant
                self.wf(),
                n == self.map@.len(),
                mine_count <= n,
                self.width == old(self).width,
                self.height == old(self).height,
                self.mine_count == mine_count,
                placed <= mine_count,
                free@.len() + placed == n,
                self.only_mines_placed(),
                forall|j: int| 0 <= j < free@.len() ==> free@[j] < n && self.map@[free@[j] as int] == Tile::Empty,
                forall|j: int, k: int|
                    0 <= j < free@.len() && 0 <= k < free@.len() && j != k ==> free@[j] != free@[k],
                count_mines(self.map@) == placed,
            decreases mine_count - placed,
        {
            let k = random_below(free.len());
            let ghost before = free@;
            let cell = free.swap_remove(k);
            proof {
                lemma_count_mines_update(self.map@, cell as int, Tile::Mine);
                assert forall|j: int| 0 <= j < free@.len() implies free@[j] != cell by {
                    if j == k {
                        assert(free@[j] == before[before.len() - 1]);
                    } else {
                        assert(free@[j] == before[j]);
                    }
                }
            }
            self.map.set(cell, Tile::Mine);
            placed = placed + 1;
            proof {
                assert forall|j: int, l: int|
                    0 <= j < free@.len() && 0 <= l < free@.len() && j != l implies free@[j] != free@[l] by {
                    let jj = if j == k { before.len() - 1 } else { j };
                    let ll = if l == k { before.len() - 1 } else { l };
                    assert(free@[j] == before[jj]);
                    assert(free@[l] == before[ll]);
                }
            }
        }
        self.fill_counts();
    }

    /// Places a mine on each of the given cells, then gives every safe cell
    /// the number of mines around it. A cell named twice holds one mine.
    pub fn set_mines_at(&mut self, mines: &Vec<Coordinates>)
        requires
            old(self).wf(),
            forall|i: int| 0 <= i < old(self).cells().len() ==> old(self).cells()[i] == Tile::Empty,
            mines@.len() <= 65535,
            forall|i: int| 0 <= i < mines@.len() ==> old(self).in_range(#[trigger] mines@[i]),
        ensures
            final(self).generated(),
            final(self).spec_width() == old(self).spec_width(),
            final(self).spec_height() == old(self).spec_height(),
            forall|c: Coordinates|
                #[trigger] final(self).spec_is_mine_at(c) <==> mines@.contains(c),
    {
        proof {
            lemma_count_mines_none(self.map@);
            assert forall|c: Coordinates|
                !#[trigger] cell_mine(self.map@, self.width as int, self.height as int, c) by {
                if self.in_range(c) {
                    lemma_cell_index_bounds(self.width as int, self.height as int, c);
                }
            }
            assert(mines@.take(0) =~= Seq::<Coordinates>::empty());
        }
        let ghost w = self.width as int;
        let ghost h = self.height as int;
        let mut placed: u16 = 0;
        let mut i: usize = 0;
        while i < mines.len()
            invariant
                self.wf(),
                self.width == old(self).width,
                self.height == old(self).height,
                i <= mines@.len(),
                mines@.len() <= 65535,
                placed <= i,
                forall|j: int| 0 <= j < mines@.len() ==> self.in_range(#[trigger] mines@[j]),
                self.only_mines_placed(),
                count_mines(self.map@) == placed,
                w == self.width,
                h == self.height,
                forall|c: Coordinates|
                    #[trigger] cell_mine(self.map@, w, h, c) <==> mines@.take(i as int).contains(c),
            decreases mines@.len() - i,
        {
            let c = mines[i];
            let at = self.index_of(c);
            let ghost prev = self.map@;
            if !self.map[at].is_a_mine() {
                proof {
                    lemma_count_mines_update(self.map@, at as int, Tile::Mine);
                }
                self.map.set(at, Tile::Mine);
                placed = placed + 1;
            }
            proof {
                assert(mines@.take(i + 1) =~= mines@.take(i as int).push(c));
                assert forall|d: Coordinates|
                    #[trigger] cell_mine(self.map@, w, h, d) <==> mines@.take(i + 1).contains(d) by {
                    assert(cell_mine(prev, w, h, d) <==> mines@.take(i as int).contains(d));
                    if d == c {
                        assert(mines@.take(i + 1)[i as int] == c);
                    } else {
                        if self.in_range(d) {
                            lemma_cell_index_bounds(w, h, d);
                            lemma_cell_index_injective(w, h, c, d);
                            assert(self.map@[cell_index(w, d)] == prev[cell_index(w, d)]);
                        }
                        if mines@.take(i + 1).contains(d) {
                            let j = choose|j: int| 0 <= j < i + 1 && #[trigger] mines@.take(i + 1)[j] == d;
                            assert(mines@.take(i as int)[j] == d);
                        }
                        if mines@.take(i as int).contains(d) {
                            let j = choose|j: int| 0 <= j < i && #[trigger] mines@.take(i as int)[j] == d;
                            assert(mines@.take(i + 1)[j] == d);
                        }
                    }
                }
            }
            i = i + 1;
        }
        proof {
            assert(mines@.take(mines@.len() as int) =~= mines@);
        }
        self.mine_count = placed;
        self.fill_counts();
    }

    /// Gives every safe cell the number of mines among its neighbour
    /// coordinates; mines stay where they are.
    fn fill_counts(&mut self)
        requires
            old(self).wf(),
            old(self).only_mines_placed(),
        ensures
            final(self).wf(),
            final(self).width == old(self).width,
            final(self).height == old(self).height,
            final(self).mine_count == old(self).mine_count,
            final(self).total_mines() == old(self).total_mines(),
            final(self).counts_consistent(),
            forall|c: Coordinates|
                #[trigger] final(self).spec_is_mine_at(c) == old(self).spec_is_mine_at(c),
    {
        let ghost g0 = self.map@;
        let ghost w = self.width as int;
        let ghost h = self.height as int;
        let mut y: u16 = 0;
        while y < self.height
            invariant
                self.wf(),
                self.width == old(self).width,
                self.height == old(self).height,
                self.mine_count == old(self).mine_count,
                w == self.width,
                h == self.height,
                g0 == old(self).map@,
                g0.len() == w * h,
                forall|i: int| 0 <= i < g0.len() ==> g0[i] == Tile::Empty || g0[i] == Tile::Mine,
                y <= h,
                count_mines(self.map@) == count_mines(g0),
                forall|c: Coordinates| #[trigger] cell_mine(self.map@, w, h, c) == cell_mine(g0, w, h, c),
                forall|c: Coordinates|
                    self.in_range(c) && c.y >= y ==> #[trigger] self.map@[cell_index(w, c)] == g0[cell_index(w, c)],
                forall|c: Coordinates|
                    self.in_range(c) && c.y < y && !cell_mine(g0, w, h, c) ==> #[trigger] self.map@[cell_index(w, c)]
                        == tile_for_count(mines_among(g0, w, h, square(c))),
            decreases h - y,
        {
            let mut x: u16 = 0;
            while x < self.width
                invariant
                    self.wf(),
                    self.width == old(self).width,
                    self.height == old(self).height,
                    self.mine_count == old(self).mine_count,
                    w == self.width,
                    h == self.height,
                    g0 == old(self).map@,
                    g0.len() == w * h,
                    forall|i: int| 0 <= i < g0.len() ==> g0[i] == Tile::Empty || g0[i] == Tile::Mine,
                    y < h,
                    x <= w,
                    count_mines(self.map@) == count_mines(g0),
                    forall|c: Coordinates| #[trigger] cell_mine(self.map@, w, h, c) == cell_mine(g0, w, h, c),
                    forall|c: Coordinates|
                        self.in_range(c) && (c.y > y || (c.y == y && c.x >= x)) ==> #[trigger] self.map@[cell_index(w, c)]
                            == g0[cell_index(w, c)],
                    forall|c: Coordinates|
                        self.in_range(c) && (c.y < y || (c.y == y && c.x < x)) && !cell_mine(g0, w, h, c)
                            ==> #[trigger] self.map@[cell_index(w, c)] == tile_for_count(
                                mines_among(g0, w, h, square(c)),
                            ),
                decreases w - x,
            {
                let c = Coordinates { x, y };
                if !self.is_mine_at(c) {
                    let count = self.mine_count_at(c);
                    proof {
                        lemma_mines_among_same_mines(self.map@, g0, w, h, square(c));
                    }
                    if count > 0 {
                        let at = self.index_of(c);
                        let ghost prev = self.map@;
                        proof {
                            lemma_count_mines_update(self.map@, at as int, Tile::MineNeighbor(count));
                        }
                        self.map.set(at, Tile::MineNeighbor(count));
                        proof {
                            assert forall|d: Coordinates| d != c && self.in_range(d) implies
                                #[trigger] self.map@[cell_index(w, d)] == prev[cell_index(w, d)] by {
                                lemma_cell_index_bounds(w, h, d);
                                lemma_cell_index_injective(w, h, c, d);
                            }
                            assert forall|d: Coordinates|
                                #[trigger] cell_mine(self.map@, w, h, d) == cell_mine(g0, w, h, d) by {
                                assert(cell_mine(prev, w, h, d) == cell_mine(g0, w, h, d));
                                if d != c && self.in_range(d) {
                                    lemma_cell_index_bounds(w, h, d);
                                    lemma_cell_index_injective(w, h, c, d);
                                    assert(self.tile(d) == prev[cell_index(w, d)]);
                                }
                            }
                        }
                    } else {
                        proof {
                            lemma_cell_index_bounds(w, h, c);
                            assert(cell_mine(self.map@, w, h, c) == cell_mine(g0, w, h, c));
                            assert(g0[cell_index(w, c)] == Tile::Empty);
                        }
                    }
                }
                x = x + 1;
            }
            y = y + 1;
        }
        proof {
            assert forall|c: Coordinates|
                self.in_range(c) && !self.spec_is_mine_at(c) implies #[trigger] self.tile(c)
                    == tile_for_count(self.neighbor_mines(c)) by {
                assert(cell_mine(self.map@, w, h, c) == cell_mine(g0, w, h, c));
                lemma_mines_among_same_mines(self.map@, g0, w, h, square(c));
            }
        }
    }

    /// The first lines of the diagnostic dump: size and mine count, then the
    /// top border.
    pub open spec fn console_header(&self) -> Seq<char> {
        "Map ("@ + decimal(self.spec_width() as nat) + ", "@ + decimal(self.spec_height() as nat)
            + ") with "@ + decimal(self.spec_mine_count() as nat) + " mines:\n\n"@ + dashes(
            (self.spec_width() + 2) as nat,
        ) + "\n"@
    }

    /// A text picture of the field for debugging: the header, then one line
    /// per row from the top row down, each showing the row's cells as
    /// `Tile::console_output` does between `|` characters, then the bottom
    /// border.
    pub fn console_output(&self) -> (r: String)
        requires
            self.wf(),
        ensures
            exists|texts: Seq<Seq<char>>|
                {
                    &&& texts.len() == self.spec_width() * self.spec_height()
                    &&& forall|i: int|
                        0 <= i < texts.len() ==> cell_text(self.cells()[i], #[trigger] texts[i])
                    &&& r@ == self.console_header() + rows_text(
                        texts,
                        self.spec_width(),
                        self.spec_height(),
                    ) + dashes((self.spec_width() + 2) as nat)
                },
    {
        let mut buffer = String::from_str("Map (");
        buffer.append(decimal_text(self.width as u64).as_str());
        buffer.append(", ");
        buffer.append(decimal_text(self.height as u64).as_str());
        buffer.append(") with ");
        buffer.append(decimal_text(self.mine_count as u64).as_str());
        buffer.append(" mines:\n\n");
        let mut line = String::new();
        let n: u32 = self.width as u32 + 2;
        let mut k: u32 = 0;
        while k < n
            invariant
                k <= n,
                line@ == dashes(k as nat),
            decreases n - k,
        {
            line.append("-");
            k = k + 1;
        }
        buffer.append(line.as_str());
        buffer.append("\n");
        let ghost head = buffer@;
        let ghost w = self.width as int;
        let ghost h = self.height as int;
        let ghost mut texts: Seq<Seq<char>> = Seq::new((w * h) as nat, |i: int| Seq::<char>::empty());
        proof {
            assert(head =~= self.console_header());
            assert(buffer@ =~= head + rows_from(texts, w, h, h));
            assert(h * w == w * h) by (nonlinear_arith);
        }
        let mut y: u16 = self.height;
        while y > 0
            invariant
                self.wf(),
                w == self.width,
                h == self.height,
                y <= self.height,
                texts.len() == w * h,
                forall|i: int| y * w <= i < w * h ==> cell_text(self.map@[i], #[trigger] texts[i]),
                buffer@ == head + rows_from(texts, w, h, y as int),
            decreases y,
        {
            y = y - 1;
            let ghost start = buffer@;
            let ghost before = texts;
            let ghost row_start = y * w;
            proof {
                assert(y * w + w == (y + 1) * w && (y + 1) * w <= h * w && h * w == w * h) by (nonlinear_arith)
                    requires
                        y + 1 <= h,
                        w >= 0,
                ;
            }
            buffer.append("|");
            let mut x: u16 = 0;
            while x < self.width
                invariant
                    self.wf(),
                    w == self.width,
                    h == self.height,
                    y < self.height,
                    row_start == y * w,
                    row_start + w <= w * h,
                    x <= w,
                    texts.len() == w * h,
                    forall|i: int| 0 <= i < texts.len() && !(row_start <= i < row_start + x) ==> texts[i] == before[i],
                    forall|i: int| row_start <= i < row_start + x ==> cell_text(self.map@[i], #[trigger] texts[i]),
                    buffer@ == start + "|"@ + cells_text(texts, row_start, x as nat),
                decreases w - x,
            {
                let c = Coordinates { x, y };
                let tile = self.tile_at(c);
                let cell = tile.console_output();
                let ghost prev = texts;
                proof {
                    texts = texts.update(row_start + x, cell@);
                    lemma_cells_text_frame(texts, prev, row_start, x as nat);
                }
                buffer.append(cell.as_str());
                proof {
                    assert(buffer@ =~= start + "|"@ + cells_text(texts, row_start, (x + 1) as nat));
                }
                x = x + 1;
            }
            buffer.append("|\n");
            proof {
                assert(buffer@ =~= start + row_text(texts, w, y as int));
                lemma_rows_from_frame(texts, before, w, h, y + 1);
                lemma_rows_from_extend(texts, w, h, y + 1);
                assert(buffer@ =~= head + rows_from(texts, w, h, y as int));
                assert forall|i: int| y * w <= i < w * h implies cell_text(self.map@[i], #[trigger] texts[i]) by {
                    if i >= row_start + w {
                        assert(texts[i] == before[i]);
                    }
                }
            }
        }
        buffer.append(line.as_str());
        proof {
            assert(buffer@ =~= self.console_header() + rows_text(texts, w, h) + dashes((w + 2) as nat));
        }
        buffer
    }
}

} // verus!
