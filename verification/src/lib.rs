//! A finite-domain constraint satisfaction engine: domains of integer
//! candidates, unary and binary constraints, arc-consistency propagation and
//! backtracking search.

pub mod constraint;
pub mod domain;
pub mod network;
pub mod problem;
pub mod propagate;
pub mod search;
