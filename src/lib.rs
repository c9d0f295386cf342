//! Move selection for a two-player territory game: a distance transform over
//! the board, candidate generation, placement legality, scoring and selection.
pub mod grid;
pub mod distance;
pub mod placement;
pub mod candidates;
pub mod select;
pub mod engine;
pub mod protocol;
