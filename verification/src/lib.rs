//! An in-memory directed graph container with a line-oriented text
//! serialization format and cycle-safe depth-first traversal.
//!
//! A [`graph::Graph`] owns a sequence of nodes (each an identifier plus a
//! value) and a sequence of directed edges between node identifiers. It
//! enforces identifier uniqueness, edge validity and edge de-duplication,
//! and it can be written to and rebuilt from a simple text format.

pub mod graph;
pub mod laws;
pub mod text;
pub mod token;
pub mod traverse;

pub use graph::{Edge, Graph, GraphError, Node};
pub use token::TokenValue;

