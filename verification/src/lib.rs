//! Dependency-graph and call-graph construction for Rust projects.
//!
//! The crate builds two kinds of directed graphs: a package-dependency
//! graph assembled from package facts, and a function-call graph assembled
//! from function and call facts. Both share a generic graph store with
//! idempotent node insertion and at-most-one edge per ordered pair, a
//! wildcard pattern matcher used by every filter, and a depth-bounded
//! bidirectional focus reducer.

pub mod calls;
pub mod deps;
pub mod focus;
pub mod helper;
pub mod graph;
pub mod options;
pub mod pattern;
pub mod text;
