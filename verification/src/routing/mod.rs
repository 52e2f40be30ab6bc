pub mod bucket_queue;
pub mod ch;
pub mod cost_maps;
pub mod dijkstra;
pub mod dijkstra_data;
pub mod fast_graph;
pub mod graph;
pub mod hl;
pub mod naive_graph;
pub mod queue;
pub mod random;
pub mod route;
pub mod search;
pub mod shortest;
pub mod simple_algorithms;
