//! Small text-driven solvers: each parses a short input and answers one or
//! two numeric questions about it. The directory-tree model in
//! [`filesystem`] is the largest of them.

pub mod calories;
pub mod crates;
pub mod filesystem;
pub mod rps;
pub mod rucksack;
pub mod sections;
pub mod signal;
pub mod text;
