//! A verified chess board-state core: a codec between single-bit 64-bit
//! masks and algebraic square names, a FEN reader that builds a full board
//! state, and a text renderer for the board.

pub mod board;
pub mod fen;
pub mod position;
pub mod render;
