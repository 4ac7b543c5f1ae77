//! Layout decisions for drawing a river network with cairo: the keys that a
//! plot configuration accepts, the extent of the node grid, and the order in
//! which nodes, connections, labels, table cells and series are drawn.

pub mod config;
pub mod plan;
