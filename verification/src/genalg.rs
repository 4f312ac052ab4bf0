//! The genetic search over visitation orders: chromosomes and their decoder,
//! the population operators, and the generational orchestrator.

pub mod alg;
pub mod chromo;
pub mod operators;
pub mod rng;
