//! A knight's random walk on a square board: the knight starts in the
//! bottom-left corner and moves at random until it reaches the top-right
//! corner (a win) or the bottom-right corner (a loss).

pub mod board;
pub mod game;
pub mod knight;
pub mod move_stats;
pub mod walk;
pub mod wasm_game;

pub use board::{Board, Cell, Status};
pub use game::{Game, GameStats};
pub use knight::{Direction, Point, BOARD_SIZE};
pub use move_stats::{summarize_moves, MoveSummary};
pub use wasm_game::WasmGame;
