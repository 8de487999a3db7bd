//! Deterministic finite automata: simulation of acceptance, pruning of
//! unreachable transitions, and Myhill-Nerode partition-refinement
//! minimization, each with a machine-checked contract.

pub mod model;
pub mod order;
pub mod automaton;
pub mod prune;
pub mod canon;
pub mod refine;
pub mod laws;
