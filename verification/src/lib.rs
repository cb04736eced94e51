//! Core of a soft-body cell simulation: a slot-based arena with stable
//! indices, the connection graph between cells, and a connected-components
//! grouping used to partition the cell graph into independent clusters.
//!
//! Floating-point integration (springs, damping, levers) lives outside this
//! verified core; the arena is generic over the cell payload so the host can
//! store its own rigid-body state in it.

pub mod algorithms;
pub mod data;
pub mod elements;
pub mod features;
pub mod genes;
pub mod models;
pub mod sim;
