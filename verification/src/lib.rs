//! Register allocation by graph coloring, searched with a genetic algorithm.
//!
//! Variable lifetimes form an interval conflict graph; a chromosome encodes a
//! visitation order of the variables, and a single-pass greedy decoder turns
//! that order into a proper coloring whose color count is the fitness value.

pub mod genalg;
pub mod graph;
pub mod lifetime;
pub mod reg_alloc;
