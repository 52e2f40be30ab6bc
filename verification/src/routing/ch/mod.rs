pub mod bounded_search;
pub mod contraction_helper;
pub mod ch_helper;
pub mod dijkstra_helper;
pub mod shortcut_generator;
pub mod witness_dijkstra;
pub mod graph_cleaner;
pub mod contrator;
pub mod lazy_queue;
pub mod ch_queue;
pub mod contractor;
