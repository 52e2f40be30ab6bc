//! Ship routing on graphs: queues, graph representations, shortest-path searches,
//! contraction hierarchies and hub labels, plus the integer logic that closes OSM coastlines.
pub mod coastline;
pub mod routing;

