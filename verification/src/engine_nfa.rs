//! Thompson-style NFA construction from a syntax tree, and its simulation.
pub mod nfa_builder;

pub mod simulate;
