//! Bit-packed 9×9 Sudoku boards and an iterative backtracking search over them.

pub mod board;
pub mod candidates;
pub mod coordinator;
pub mod frontier;
pub mod order;
pub mod render;
pub mod rules;
pub mod search;

pub use board::Sudoku;
pub use candidates::{CandidateSet, CandidateSetIterator};
pub use search::{search_in_order, solve, solve_single_thread, SearchOutcome};
