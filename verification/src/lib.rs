//! A solver for the calendar puzzle: eight polyominoes are laid on an
//! 8x8 bitboard so that they cover every cell but the month and the day.
//!
//! `piece` holds the pieces and their turns, `variants` their distinct
//! orientations, `search` the exhaustive placement search and `calendar`
//! the board, the pieces and the date cells of the puzzle itself. The
//! modules `symmetry` and `search_laws` state and prove what holds of
//! them.

pub mod bits;
pub mod calendar;
pub mod piece;
pub mod search;
pub mod search_laws;
pub mod symmetry;
pub mod variants;
