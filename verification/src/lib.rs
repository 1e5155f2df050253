//! A verified Binairo (Takuzu) puzzle solver.
//!
//! A Binairo grid is a square board whose cells hold 0, 1, or are unset
//! (stored as -1). A completed grid must obey three rules: no three equal
//! values in a row or column stand next to each other, every row and column
//! holds as many 0s as 1s, and no two complete rows (or columns) are
//! identical. [`grid::Binairo`] owns the cell state; the solver methods on it
//! decide validity and search for a completion by backtracking.

pub mod grid;
pub mod rules;
pub mod solver;

pub use grid::Binairo;
