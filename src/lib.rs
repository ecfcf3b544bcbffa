//! Spatial hypergraphs that evolve under local rewriting rules.
//!
//! A [`Graph`] holds an ordered list of hyperedges and a vertex allocator; a
//! [`Rule`] rewrites a set of edges that fits its input pattern into edges built
//! from its output pattern. Ball volumes describe the emergent geometry.
pub mod geometry;
pub mod graph;
pub mod laws;
pub mod pattern;

pub use graph::{Graph, Match, RewriteError};
pub use pattern::{Rule, RuleError};
