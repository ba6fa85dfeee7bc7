//! Shortest-path distances over the graph of a social network.
//!
//! A dataset describes one ego network: an edge list, named communities,
//! feature bits per node, the names of the features and the feature bits of
//! the ego node. [`dataset`] reads these from text, [`graph`] builds the
//! undirected graph from them, and [`engine`] computes the shortest
//! distances from one node to all others and the eccentricity of that node.
//! [`paths`] says what a shortest distance is, and states the laws that the
//! computed distances obey.

pub mod circles;
pub mod dataset;
pub mod engine;
pub mod error;
pub mod frontier;
pub mod graph;
pub mod matrix;
pub mod paths;
pub mod text;
