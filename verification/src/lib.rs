//! Integer core of the spline/spectral toolkit: Fibonacci-structured spline
//! bookkeeping, knot layouts, graph index partitions, path-graph matrices and
//! curvature-ranked knot selection.

pub mod fibonacci;
pub mod graph_nodes;
pub mod path_graph;
pub mod smoothing;

pub use fibonacci::FibonacciSpline;
pub use smoothing::SmoothingToolkit;
