//! Approximate counting of simple k-paths in a graph by extensor coding.
//!
//! Every vertex carries a random element of an exterior algebra; the adjacency
//! operator is lifted to act on these elements, and a walk sum over the coded
//! graph vanishes on every walk that visits a vertex twice.

pub mod algebra;
pub mod algorithm;
pub mod bitvec;
pub mod extensor;
pub mod graph;
pub mod matrix;
pub mod tsv;
pub mod utils;
