//! Topological ordering and single-source shortest / longest paths on
//! weighted directed acyclic graphs.
//!
//! A [`DAG`] is built once from a node count and an edge list. Its
//! topological order comes from a depth-first search and depends on the
//! sources and targets of the edges alone, so the graph may carry weights of
//! any type. Path queries relax every edge once in that order; they are
//! offered for `i64` weights, with distances summed exactly in a
//! [`Distance`].
//!
//! - [`graph`]: the graph store and its mathematical model.
//! - [`walk`]: routes, reachability and acyclicity.
//! - [`order`]: the depth-first finishing order as a function of the
//!   successor lists, and why it is topological.
//! - [`sort`]: the sort itself.
//! - [`distance`]: distances with the two infinities, modes and steps.
//! - [`relax`]: relaxation and the path query.
//! - [`optimal`]: why the path query finds optimal distances.

pub mod distance;
pub mod graph;
pub mod optimal;
pub mod order;
pub mod relax;
pub mod sort;
pub mod walk;

pub use distance::{Distance, OptimalPathType, Step};
pub use graph::{WeightedEdge, DAG};
