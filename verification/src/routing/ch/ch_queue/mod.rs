pub mod cost_of_queries;
pub mod deleted_neighbors;
pub mod edge_difference;
pub mod queue;
pub mod voronoi_region;
