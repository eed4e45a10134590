//! Syntax trees held as explicit directed graphs: built from a parsed tree,
//! split into independent subgraphs at chosen node kinds, flattened to and
//! rebuilt from a position-indexed record, and walked breadth-first,
//! depth-first or along shortest paths.

pub mod ast_graph;
pub mod geometry;
pub mod laws;
pub mod paths;
pub mod pgraph;
pub mod tree;

pub use ast_graph::{ASTGraph, SerializableGraph};
