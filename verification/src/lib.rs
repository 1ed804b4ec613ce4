//! Graph traversal and labelled-tree coding.
//!
//! - [`graph`]: a depth-first search that reports edge weights and classifies
//!   every examined edge, and the Prüfer encoding and decoding of labelled trees.
//! - [`dfs`]: the same search with forward and cross edges reported as one kind.
//! - [`traversal`]: the search as a stepper, one event at a time, with the
//!   laws it keeps (parenthesis theorem, ancestry, completeness, edge reports).
//! - [`adjacency`]: the incidence-list graphs the search runs on.
//! - [`ungraph`]: the undirected petgraph graphs trees are stored in.
//! - [`prufer_spec`] and [`forest`]: what a Prüfer sequence and a labelled
//!   tree are, and the facts the tree codes rest on; [`prufer_inverse`]:
//!   decoding the code of a tree gives the tree back; [`prufer_order`]: the
//!   codes entry by entry.
//! - [`util`]: in-place minimum and maximum updates.

pub mod util;
pub mod adjacency;
pub mod graph;
pub mod traversal;
pub mod dfs;
pub mod ungraph;
pub mod prufer_spec;
pub mod prufer_inverse;
pub mod prufer_order;
pub mod forest;
