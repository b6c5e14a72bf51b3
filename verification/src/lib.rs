//! Extraction of a single minimum-cost, fully vectorized expression from an
//! equality-saturation graph.
//!
//! The graph is an arena of equivalence classes addressed by index; each class
//! holds the candidate nodes that compute its value. `extractor::find_best`
//! searches exhaustively over per-class choices, rejects any choice that would
//! make a class depend on itself, and returns the cheapest acyclic expression
//! in bottom-up addressing, or an explicit error when no fully vectorized
//! expression exists.

pub mod cost;
pub mod deps;
pub mod extractor;
pub mod graph;
