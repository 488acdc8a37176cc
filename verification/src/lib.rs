//! A sudoku solving library.
//!
//! A [`Puzzle`] is a sparse 9x9 grid of pinned digits; it does not have to be
//! well-posed, so it may have zero, one or many solutions.  [`Puzzle::solutions`]
//! walks through all of them lazily, in a deterministic depth-first order, and
//! [`Puzzle::possible_values`] computes, for every cell, the digits that still
//! admit at least one full solution.
//!
//! The search is a plain backtracking algorithm with naked-single constraint
//! propagation and minimum-remaining-values branching.  On adversarial sparse
//! puzzles the explored space can be large; callers that need bounded latency
//! should run the search on a worker thread and stop it through the shared
//! cancellation flag (see `SolutionIterator::with_handle`).

pub mod board;
mod counter;
mod puzzle;
mod soft;
mod solgrid;
mod solver;

pub use counter::CounterUpTo;
pub use counter::count_saturated;
pub use puzzle::Grid;
pub use puzzle::Puzzle;
pub use puzzle::Value;
pub use soft::SoftConstraint;
pub use solgrid::NoSolError;
pub use solgrid::SolutionGrid;
pub use solver::PossibleValuesFinder;
pub use solver::SolutionIterator;
