//! A gravity-drop four-in-a-row game on a 6 by 7 grid, with a computer
//! opponent that searches the game tree by minimax with alpha-beta pruning.

pub mod grid;
pub mod board;
pub mod ai;
pub mod eval;
