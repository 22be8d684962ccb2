# pgm_rust

Graph objects and operations on graphs, written in Verus with their
contracts proved.

- `src/types.rs`: nodes, edges and graphs, with their models (`Node@` is the
  node's identifier, `Edge@` an `EdgeView`, `Graph@` a `GraphView`).
  `Graph::new` drops repeated vertices and edges; that every graph holds each
  vertex identifier and each edge once is the type invariant of `Graph`.
- `src/misc.rs`: the operations that compute a value from a graph:
  `to_adjacencylist`, `to_adjmat`, `by_id`, `get_subgraph_by_vertices` and
  `check_isomorphism`, each with a contract over the graph's model.
- `src/laws.rs`: properties that relate these operations, such as the
  symmetry of the adjacency matrix, the agreement of the adjacency list with
  the adjacency matrix (non-empty rows, shared edge identifiers), and the
  identity, bijection, inverse and composition properties of isomorphisms,
  both over vertex maps and over the calls that `check_isomorphism` makes.
- `src/errors.rs`: the library's error type.
- `tests/`: scenario tests.
