# simple_graph

Undirected simple graphs, written in Verus.

- `src/` is the verified library: `SimpleGraph` (sorted adjacency lists),
  `CsrGraph` and `CsrBuilder` (compressed sparse rows), the `Graph` trait,
  edge enumeration, BFS/DFS, connectivity, connected components, shortest
  path lengths, generators (complete, cycle, path, grid), and the edge-list
  and Matrix Market text formats (readers on bytes, writers to bytes).
  Every function carries a contract over a mathematical model: a graph is a
  sequence of strictly increasing, symmetric adjacency lists without
  self-loops (`model.rs`). `laws.rs` states properties that relate the
  operations, among them that reading back what a writer wrote gives the same
  graph.
- `app/` is ordinary Rust around the library: `std::io` readers and writers,
  `f64` density, the random G(n, p) generator (with `rand`) and serde support
  for `SimpleGraph`.
- `tests/` exercises the library.
