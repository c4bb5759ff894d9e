//! Board-management core of a Minesweeper game: mine-field generation,
//! neighbour counts, and the uncover / mark / completion rules, with the
//! screen-to-grid translation that input goes through.
//!
//! The modules are public so that the specifications their contracts speak
//! of can be named; the main types and functions are re-exported here.

pub mod board;
pub mod coordinates;
pub mod options;
pub mod palette;
pub mod protocol;
pub mod text;
pub mod tile;
pub mod tile_map;

pub use board::{Board, Bounds2, Position, TileHandle};
pub use coordinates::Coordinates;
pub use options::{
    adaptive_tile_size, board_layout, create_board, safe_start, BoardOptions, BoardPosition,
    BoardSetup, TileSize,
};
pub use palette::mine_counter_color;
pub use protocol::{
    handle_mouse_input, mark_tiles, trigger_event_handler, uncover_tiles, BoardCompletedEvent,
    BoardInput, MineExplosionEvent, MouseButton, TileMarkEvent, TileTriggerEvent, UncoverOutcome,
};
pub use tile::{Shade, Tile};
pub use tile_map::TileMap;
