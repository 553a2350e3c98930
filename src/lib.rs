//! Solvers for a set of small daily puzzles, each a verified computation over
//! text that the caller has already read.
pub mod text;
pub mod calories;
pub mod rps;
pub mod rucksack;
pub mod ranges;
pub mod stacks;
pub mod signal;
pub mod filesystem;
pub mod trees;
