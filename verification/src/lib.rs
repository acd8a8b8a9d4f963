//! Perfect-play move selection for 3x3 tic-tac-toe.
//!
//! The board is a sequence of 9 cells in row-major order, each cell holding
//! 0 (empty), 1 (one player) or -1 (the other). `best_move` returns the index
//! of the game-theoretically optimal move for the player marked -1, found by
//! a minimax search with alpha-beta pruning over the fixed 8 winning lines.

pub mod board;
pub mod laws;
pub mod search;

pub use search::best_move;
