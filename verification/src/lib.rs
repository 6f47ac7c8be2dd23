//! A memoizing scalar expression graph.
//!
//! Expressions are built bottom-up as a directed acyclic graph of nodes held
//! in one arena ([`graph::Graph`]). Every node memoizes its result; mutating
//! a leaf through [`graph::Graph::set`] clears the memoized results of
//! exactly the nodes that depend on that leaf, so a later evaluation redoes
//! only the stale part of the graph.
//!
//! Scalar values are carried as IEEE-754 single-precision bit patterns
//! (`u32`). The engine never interprets them: evaluation takes the numeric
//! kernel — the function that actually adds, multiplies, takes the sine —
//! as a parameter, and the contracts pin down everything else: which nodes
//! are recomputed, in what state each cache ends up, and that an available
//! result is returned as-is without touching the operands.

pub mod graph;
pub mod node;
pub mod ops;
pub mod reach;
