pub mod a_star;
pub mod a_star_with_distance;
pub mod a_star_with_landmarks;
pub mod a_star_with_zero;
pub mod bi_a_star;
pub mod bi_a_star_with_landmarks;
pub mod bi_a_star_with_zero;
pub mod bidirectional_a_star;
pub mod bidirectional_dijkstra;
pub mod ch_bi_dijkstra;
pub mod ch_order;
pub mod dijkstra;
pub mod heuristics;
pub mod landmark;
