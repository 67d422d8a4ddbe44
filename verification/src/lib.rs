//! Puzzle solvers with machine-checked contracts.
//!
//! The heart of the crate is [`linkage`], an incremental single-linkage
//! clustering engine over points in 3-D integer space. The [`days`] modules
//! hold the individual puzzles, each behind the [`solution::Solution`]
//! trait. The other modules serve them: [`text`] reads input, [`digits`]
//! and [`span`] hold arithmetic on decimal digits and ranges, [`grid`] is a
//! floor of marks that can be flooded, [`solver`] is the door to the
//! outside optimizing solver, and [`utils`] names the input files.

pub mod days;
pub mod digits;
pub mod grid;
pub mod linkage;
pub mod solution;
pub mod solver;
pub mod span;
pub mod text;
pub mod utils;
