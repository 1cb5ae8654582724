//! Graph algorithms: traversals, connectivity, shortest paths.
pub mod traversal;
pub mod distance;
pub mod bfs;
pub mod dfs;
pub mod shortest_path;

pub use bfs::{bfs, connected_components, is_connected, Bfs};
pub use dfs::{dfs, Dfs};
pub use shortest_path::shortest_path_lengths;
