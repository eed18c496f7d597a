//! A sliding-tile merge puzzle on a four-by-four board: the board, the four
//! moves, the spawning of new tiles, the test for a finished game and the
//! session that ties them together.

pub mod custom_theme;
pub mod engine;
pub mod game;
pub mod grid;
pub mod laws;
pub mod line;
mod line_lemmas;
pub mod spawn;
pub mod terminal;
pub mod tile;

pub use custom_theme::CustomColor;
pub use engine::{
    apply_move, move_down, move_gain, move_left, move_right, move_up, Arrow, Outcome,
};
pub use game::{Game2048, Message};
pub use grid::{Grid, BOARD_LENGTH};
pub use line::{gain_of_line, slide_line};
pub use spawn::{empty_cells, place_tile, spawn_tile};
pub use terminal::{has_empty_cell, is_over};
pub use tile::TileState;
