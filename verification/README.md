# graphwalk

A depth-first search that reports edge weights and classifies every edge it
examines (tree, back, forward, cross), and the Prüfer encoding and decoding of
labelled trees, written in Verus with their contracts proved.

Layout:

- `src/` — the verified library.
  - `traversal.rs`: the search as a stepper (`DfsTraversal`), one event at a
    time, with its invariant and the laws it keeps: the parenthesis theorem,
    ancestry in the search forest, completeness, every edge reported once,
    the pairing of back edges with tree and forward edges in undirected
    graphs, and, over a run (`is_run`), that every state searches the given
    graph and the order the events come in.
  - `graph.rs`, `dfs.rs`: `depth_first_search` driving the stepper with a
    visitor; `prufer_encode`, `prufer_decode`, `arbitrary_tree`.
  - `adjacency.rs`: incidence-list graphs; `ungraph.rs`: the petgraph graphs
    trees are stored in, behind trusted wrappers.
  - `prufer_spec.rs`, `forest.rs`, `prufer_inverse.rs`: what a Prüfer
    sequence and a labelled tree are, and proofs that decoding then encoding
    and encoding then decoding give back what was started from, that the code
    depends only on the pairs a tree's edges join, and that decoding is
    injective.
- `tests/`: the tests, run against the compiled library.
- `app/`: the petgraph-facing front end (conversion from petgraph graphs and
  any petgraph `ControlFlow` answer, for both searches; the error type with
  its `Display`).
