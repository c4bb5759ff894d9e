use vstd::prelude::*;

use crate::board::{Bounds2, Position};
use crate::coordinates::Coordinates;
use crate::tile::Tile;
use crate::tile_map::{cell_count, cell_index, TileMap};

verus! {

/// How large a cell is drawn, in whole pixels.
#[derive(Debug, Clone, Copy, PartialEq, Eq, Structural)]
pub enum TileSize {
    Fixed(u32),
    /// As large as the window allows, kept within `min..=max`.
    WindowAdaptive { min: u32, max: u32 },
}

/// Where the board's lower-left corner goes, relative to the window centre.
#[derive(Debug, Clone, Copy, PartialEq, Eq, Structural)]
pub enum BoardPosition {
    /// Board centred, then moved by `offset`.
    Centered { offset: Position },
    CustomPosition(Position),
}

/// The parameters of a game session.
#[derive(Debug, Clone, Copy)]
pub struct BoardOptions {
    pub map_size: (u16, u16),
    pub mine_count: u16,
    pub position: BoardPosition,
    pub tile_size: TileSize,
    pub tile_padding: u32,
    pub safe_start_enabled: bool,
}

impl Default for TileSize {
    fn default() -> (r: Self)
        ensures
            r == (TileSize::WindowAdaptive { min: 10, max: 50 }),
    {
        TileSize::WindowAdaptive { min: 10, max: 50 }
    }
}

impl Default for BoardPosition {
    fn default() -> (r: Self)
        ensures
            r == (BoardPosition::Centered { offset: Position { x: 0, y: 0 } }),
    {
        BoardPosition::Centered { offset: Position { x: 0, y: 0 } }
    }
}

impl Default for BoardOptions {
    fn default() -> (r: Self)
        ensures
            r.map_size == (15u16, 15u16),
            r.mine_count == 30,
            r.position == (BoardPosition::Centered { offset: Position { x: 0, y: 0 } }),
            r.tile_size == (TileSize::WindowAdaptive { min: 10, max: 50 }),
            r.tile_padding == 0,
            !r.safe_start_enabled,
    {
        BoardOptions {
            map_size: (15, 15),
            mine_count: 30,
            position: BoardPosition::Centered { offset: Position { x: 0, y: 0 } },
            tile_size: TileSize::WindowAdaptive { min: 10, max: 50 },
            tile_padding: 0,
            safe_start_enabled: false,
        }
    }
}

/// The largest whole cell size at which `cells` cells fit in `extent` pixels;
/// unbounded for no cells.
pub open spec fn fit(extent: u32, cells: u16) -> int {
    if cells == 0 {
        u32::MAX as int
    } else {
        extent as int / cells as int
    }
}

pub open spec fn spec_adaptive_tile_size(window: (u32, u32), min: u32, max: u32, size: (u16, u16)) -> int {
    let fitting = if fit(window.0, size.0) <= fit(window.1, size.1) {
        fit(window.0, size.0)
    } else {
        fit(window.1, size.1)
    };
    if fitting < min {
        min as int
    } else if fitting > max {
        max as int
    } else {
        fitting
    }
}

/// The cell size at which a `size` grid fits the window in both directions,
/// kept within `min..=max`.
pub fn adaptive_tile_size(window: (u32, u32), bounds: (u32, u32), size: (u16, u16)) -> (r: u32)
    requires
        bounds.0 <= bounds.1,
    ensures
        r == spec_adaptive_tile_size(window, bounds.0, bounds.1, size),
{
    let max_width: u32 = if size.0 == 0 {
        u32::MAX
    } else {
        window.0 / size.0 as u32
    };
    let max_height: u32 = if size.1 == 0 {
        u32::MAX
    } else {
        window.1 / size.1 as u32
    };
    let fitting = if max_width <= max_height {
        max_width
    } else {
        max_height
    };
    if fitting < bounds.0 {
        bounds.0
    } else if fitting > bounds.1 {
        bounds.1
    } else {
        fitting
    }
}

/// Whether an integer is a valid pixel coordinate.
pub open spec fn fits_i32(v: int) -> bool {
    i32::MIN <= v <= i32::MAX
}

/// The cell size the options ask for in this window, if they are coherent.
pub open spec fn spec_tile_size(options: BoardOptions, window: (u32, u32)) -> Option<int> {
    match options.tile_size {
        TileSize::Fixed(s) => Some(s as int),
        TileSize::WindowAdaptive { min, max } => if min <= max {
            Some(spec_adaptive_tile_size(window, min, max, options.map_size))
        } else {
            None
        },
    }
}

/// Cell size and screen rectangle of the board: its extent is the grid's
/// times the cell size; centred means the lower-left corner at minus half the
/// extent (rounded towards zero), plus the offset. None for an incoherent
/// size, a zero cell size, or a rectangle beyond pixel range.
pub open spec fn spec_layout(options: BoardOptions, window: (u32, u32)) -> Option<(u32, Bounds2)> {
    match spec_tile_size(options, window) {
        None => None,
        Some(ts) => {
            let sx = options.map_size.0 * ts;
            let sy = options.map_size.1 * ts;
            let (px, py) = match options.position {
                BoardPosition::Centered { offset } => (offset.x - sx / 2, offset.y - sy / 2),
                BoardPosition::CustomPosition(p) => (p.x as int, p.y as int),
            };
            if ts > 0 && fits_i32(sx) && fits_i32(sy) && fits_i32(px) && fits_i32(py) {
                Some(
                    (
                        ts as u32,
                        Bounds2 {
                            position: Position { x: px as i32, y: py as i32 },
                            size: Position { x: sx as i32, y: sy as i32 },
                        },
                    ),
                )
            } else {
                None
            }
        },
    }
}

/// Cell size and screen rectangle of the board; see `spec_layout`.
pub fn board_layout(options: &BoardOptions, window: (u32, u32)) -> (r: Option<(u32, Bounds2)>)
    ensures
        r == spec_layout(*options, window),
{
    let ts: u32 = match options.tile_size {
        TileSize::Fixed(s) => s,
        TileSize::WindowAdaptive { min, max } => {
            if min > max {
                return None;
            }
            adaptive_tile_size(window, (min, max), options.map_size)
        },
    };
    if ts == 0 {
        return None;
    }
    proof {
        assert(options.map_size.0 * ts <= 65535 * 4294967295) by (nonlinear_arith)
            requires
                options.map_size.0 <= 65535,
                ts <= 4294967295,
        ;
        assert(options.map_size.1 * ts <= 65535 * 4294967295) by (nonlinear_arith)
            requires
                options.map_size.1 <= 65535,
                ts <= 4294967295,
        ;
    }
    let sx: i64 = options.map_size.0 as i64 * ts as i64;
    let sy: i64 = options.map_size.1 as i64 * ts as i64;
    if sx > i32::MAX as i64 || sy > i32::MAX as i64 {
        return None;
    }
    let (px, py): (i64, i64) = match options.position {
        BoardPosition::Centered { offset } => (offset.x as i64 - sx / 2, offset.y as i64 - sy / 2),
        BoardPosition::CustomPosition(p) => (p.x as i64, p.y as i64),
    };
    if px < i32::MIN as i64 || px > i32::MAX as i64 || py < i32::MIN as i64 || py > i32::MAX as i64 {
        return None;
    }
    Some(
        (
            ts,
            Bounds2 {
                position: Position { x: px as i32, y: py as i32 },
                size: Position { x: sx as i32, y: sy as i32 },
            },
        ),
    )
}

/// `r` is the first empty cell in row order (bottom row first, left to
/// right), or none when no cell is empty.
pub open spec fn spec_safe_start(tile_map: &TileMap, r: Option<Coordinates>) -> bool {
    match r {
        Some(c) => {
            &&& tile_map.in_range(c)
            &&& tile_map.tile(c) == Tile::Empty
            &&& forall|d: Coordinates|
                tile_map.in_range(d) && cell_index(tile_map.spec_width(), d) < cell_index(
                    tile_map.spec_width(),
                    c,
                ) ==> #[trigger] tile_map.tile(d) != Tile::Empty
        },
        None => forall|d: Coordinates| tile_map.in_range(d) ==> #[trigger] tile_map.tile(d) != Tile::Empty,
    }
}

/// The first cell in row order (bottom row first, left to right) that is
/// empty, if any.
pub fn safe_start(tile_map: &TileMap) -> (r: Option<Coordinates>)
    requires
        tile_map.wf(),
    ensures
        spec_safe_start(tile_map, r),
{
    let width = tile_map.width();
    let height = tile_map.height();
    let ghost w = tile_map.spec_width();
    let mut y: u16 = 0;
    while y < height
        invariant
            tile_map.wf(),
            w == tile_map.spec_width(),
            y <= height,
            height == tile_map.spec_height(),
            width == w,
            forall|d: Coordinates| tile_map.in_range(d) && d.y < y ==> #[trigger] tile_map.tile(d) != Tile::Empty,
        decreases tile_map.spec_height() - y,
    {
        let mut x: u16 = 0;
        while x < width
            invariant
                tile_map.wf(),
                w == tile_map.spec_width(),
                y < tile_map.spec_height(),
                height == tile_map.spec_height(),
                width == w,
                x <= w,
                forall|d: Coordinates|
                    tile_map.in_range(d) && (d.y < y || (d.y == y && d.x < x)) ==> #[trigger] tile_map.tile(d)
                        != Tile::Empty,
            decreases w - x,
        {
            let c = Coordinates { x, y };
            if tile_map.tile_at(c) == Tile::Empty {
                proof {
                    assert forall|d: Coordinates|
                        tile_map.in_range(d) && cell_index(w, d) < cell_index(w, c) implies #[trigger] tile_map.tile(d)
                            != Tile::Empty by {
                        if d.y > y {
                            assert(d.y * w >= (y + 1) * w) by (nonlinear_arith)
                                requires
                                    d.y >= y + 1,
                                    w >= 0,
                            ;
                            assert((y + 1) * w == y * w + w) by (nonlinear_arith);
                        }
                        if d.y == y {
                            assert(d.x < x);
                        }
                    }
                }
                return Some(c);
            }
            x = x + 1;
        }
        y = y + 1;
    }
    None
}

/// A new session's field and where it is drawn, before the presentation
/// layer creates the cells' objects.
#[derive(Debug)]
pub struct BoardSetup {
    pub tile_map: TileMap,
    pub tile_size: u32,
    pub bounds: Bounds2,
    /// The cell to uncover at once when the options ask for a safe start.
    pub safe_start: Option<Coordinates>,
}

/// Generates the field the options describe and lays it out in the window.
/// None when the mine count is not below the number of cells, or the layout
/// is incoherent (see `spec_layout`).
pub fn create_board(options: &BoardOptions, window: (u32, u32)) -> (r: Option<BoardSetup>)
    ensures
        r is None <==> (options.mine_count >= options.map_size.0 * options.map_size.1 || spec_layout(
            *options,
            window,
        ) is None),
        r matches Some(s) ==> {
            &&& s.tile_map.generated()
            &&& s.tile_map.spec_width() == options.map_size.0
            &&& s.tile_map.spec_height() == options.map_size.1
            &&& s.tile_map.spec_mine_count() == options.mine_count
            &&& spec_layout(*options, window) == Some((s.tile_size, s.bounds))
            &&& (!options.safe_start_enabled ==> s.safe_start is None)
            &&& (options.safe_start_enabled ==> spec_safe_start(&s.tile_map, s.safe_start))
        },
{
    let (w, h) = options.map_size;
    if options.mine_count as usize >= cell_count(w, h) {
        return None;
    }
    let (tile_size, bounds) = match board_layout(options, window) {
        None => return None,
        Some(l) => l,
    };
    let mut tile_map = TileMap::new_empty(w, h);
    tile_map.set_mines(options.mine_count);
    let safe = if options.safe_start_enabled {
        safe_start(&tile_map)
    } else {
        None
    };
    Some(BoardSetup { tile_map, tile_size, bounds, safe_start: safe })
}

} // verus!
