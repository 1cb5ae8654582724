//! Undirected simple graphs with sorted adjacency lists, a compressed sparse
//! row form, traversals, generators and text formats.
pub mod model;
pub mod search;
pub mod text;
pub mod simple_graph;
pub mod csr;
pub mod graph;
pub mod algo;
pub mod iter;
pub mod gen;
pub mod io;
pub mod laws;

pub use simple_graph::SimpleGraph;
pub use csr::{CsrBuilder, CsrGraph};
pub use graph::{degree_distribution, degree_sequence, Graph};
pub use iter::{edges, Edges};
