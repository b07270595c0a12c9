//! Best-first search for a lights puzzle: a board of binary cells, a move that
//! flips a plus-shaped cluster of them, and a search driver that looks for a
//! sequence of moves leading to the board with every cell off.
//!
//! The search is written against the trait [`puzzle::Search`] and knows
//! nothing of the board. What it returns is stated over a state machine on
//! the contents of puzzle states, in [`machine`]; [`measure`] shows that the
//! machine comes to an end. The board is [`board::Board`]; its rules are
//! stated over a grid of cells in [`grid`].

pub mod bits;
pub mod board;
pub mod driver;
pub mod frontier;
pub mod grid;
pub mod machine;
pub mod measure;
pub mod puzzle;
pub mod random;
pub mod render;
pub mod replay;
pub mod state;
pub mod visited;
