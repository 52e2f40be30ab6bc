use osm_test::routing::ch::ch_helper::ChHelper;
use osm_test::routing::ch::ch_queue::cost_of_queries::CostOfQueries;
use osm_test::routing::ch::ch_queue::deleted_neighbors::DeletedNeighbors;
use osm_test::routing::ch::ch_queue::edge_difference::EdgeDifferencePriority;
use osm_test::routing::ch::ch_queue::queue::{CHQueue, PriorityTerm};
use osm_test::routing::ch::ch_queue::voronoi_region::{integer_sqrt, VoronoiRegion};
use osm_test::routing::ch::contraction_helper::ContractionHelper;
use osm_test::routing::ch::contractor::Contractor;
use osm_test::routing::ch::contrator::Contractor as OrderContractor;
use osm_test::routing::ch::dijkstra_helper::DijkstraHelper;
use osm_test::routing::ch::graph_cleaner::{remove_edge_to_self, removing_double_edges};
use osm_test::routing::ch::shortcut_generator::ShortcutGenerator;
use osm_test::routing::ch::witness_dijkstra::WitnessDijkstra;
use osm_test::routing::graph::{Edge, Graph};
use osm_test::routing::naive_graph::NaiveGraph;

/// A path 0 -> 1 -> 2 with costs 1 and 1, a detour 0 -> 3 -> 2 with costs 5 and 5, and an edge
/// 2 -> 0 back.
fn graph() -> Graph {
    let edges = vec![
        Edge::new(0, 1, 1),
        Edge::new(1, 2, 1),
        Edge::new(0, 3, 5),
        Edge::new(3, 2, 5),
        Edge::new(2, 0, 3),
    ];
    Graph::from_naive_graph(&NaiveGraph { num_nodes: 4, edges })
}

#[test]
fn witness_searches_find_costs_that_avoid_a_node() {
    let graph = graph();
    let costs = WitnessDijkstra::new(&graph).witness_search(0, 1, 100, 5);
    assert_eq!(costs.get(&0), Some(&0));
    assert_eq!(costs.get(&2), Some(&10));
    assert_eq!(costs.get(&1), None);
    let costs = DijkstraHelper::new(&graph).witness_search(0, 99, 100, 5);
    assert_eq!(costs.get(&2), Some(&2));
    let limited = ContractionHelper::new(&graph).witness_search(0, 1, 100, 1);
    assert_eq!(limited.get(&3), Some(&5));
    assert_eq!(limited.get(&2), None);
    let capped = ChHelper::new(&graph).costs_without(0, 4, 99);
    assert_eq!(capped.get(&2), Some(&2));
    assert_eq!(capped.get(&3), None);
}

#[test]
fn shortcut_needed_without_witness() {
    let graph = graph();
    let shortcuts = ContractionHelper::new(&graph).generate_shortcuts(1, 10);
    assert_eq!(shortcuts.len(), 1);
    let (shortcut, replaced) = &shortcuts[0];
    assert_eq!((shortcut.source, shortcut.target, shortcut.cost), (0, 2, 2));
    assert_eq!(replaced.len(), 2);
    assert_eq!((replaced[0].source, replaced[0].target), (0, 1));
    assert_eq!((replaced[1].source, replaced[1].target), (1, 2));
    let naive = ShortcutGenerator::new(&graph).naive_shortcuts(1);
    assert_eq!(naive.len(), 1);
}

#[test]
fn no_shortcut_where_a_witness_is_cheaper() {
    let graph = graph();
    // Through node 3 the pair 0 -> 3 -> 2 costs 10, but 0 -> 1 -> 2 costs 2.
    let shortcuts = ContractionHelper::new(&graph).generate_shortcuts(3, 10);
    assert!(shortcuts.is_empty());
}

#[test]
fn graph_cleaner_removes_loops_and_dear_parallel_edges() {
    let edges = vec![Edge::new(0, 0, 1), Edge::new(0, 1, 5), Edge::new(0, 1, 3), Edge::new(0, 1, 3), Edge::new(1, 0, 2)];
    let mut graph = Graph::from_naive_graph(&NaiveGraph { num_nodes: 2, edges });
    remove_edge_to_self(&mut graph);
    assert_eq!(graph.forward_edges[0].len(), 3);
    assert!(graph.backward_edges[0].iter().all(|e| e.source != 0));
    removing_double_edges(&mut graph);
    let costs: Vec<u32> = graph.forward_edges[0].iter().map(|e| e.cost).collect();
    assert_eq!(costs, vec![3, 3]);
    assert_eq!(graph.backward_edges[1].len(), 2);
    assert_eq!(graph.forward_edges[1].len(), 1);
}

#[test]
fn priority_terms() {
    let graph = graph();
    let difference = EdgeDifferencePriority::new();
    assert_eq!(difference.priority(1, &graph), -1);
    let mut deleted = DeletedNeighbors::new(4);
    assert_eq!(deleted.priority(0, &graph), 0);
    deleted.update_before_contraction(1, &graph);
    assert_eq!(deleted.priority(0, &graph), 1);
    let mut queries = CostOfQueries::new(4);
    queries.update_before_contraction(0, &graph);
    assert_eq!(queries.priority(0, &graph), 1);
    assert_eq!(queries.priority(1, &graph), 1);
    assert_eq!(queries.priority(2, &graph), 0);
    let voronoi = VoronoiRegion::new();
    assert_eq!(voronoi.priority(2, &graph), 0);
    let pair = Graph::from_naive_graph(&NaiveGraph {
        num_nodes: 3,
        edges: vec![Edge::new(0, 1, 1), Edge::new(1, 0, 1), Edge::new(1, 2, 5)],
    });
    assert_eq!(voronoi.priority(0, &pair), 1);
    assert_eq!(integer_sqrt(15), 3);
    assert_eq!(integer_sqrt(16), 4);
}

#[test]
fn ch_queue_pops_every_node_once() {
    let graph = graph();
    let mut queue = CHQueue::new(&graph).unwrap();
    let mut popped = Vec::new();
    while let Some(v) = queue.lazy_pop(&graph) {
        popped.push(v);
    }
    popped.sort();
    assert_eq!(popped, vec![0, 1, 2, 3]);
}

#[test]
fn contractor_builds_upward_graph() {
    let graph = graph();
    let contracted = Contractor::get_graph_2(&graph).unwrap();
    assert_eq!(contracted.graph.forward_edges.len(), 4);
    for (pair, replaced) in contracted.map.iter() {
        assert_eq!(replaced.len(), 2);
        assert_eq!(pair.0, replaced[0].0);
        assert_eq!(pair.1, replaced[1].1);
        assert_eq!(replaced[0].1, replaced[1].0);
    }
    let mut contractor = Contractor::new(&graph).unwrap();
    contractor.disconnect(1);
    let mut other = Contractor::new(&graph).unwrap();
    other.removing_level_property();
}

#[test]
fn order_contractor_levels_follow_ids() {
    let mut contractor = OrderContractor::new(graph());
    assert_eq!(contractor.levels, vec![u32::MAX; 4]);
    contractor.contract();
    assert_eq!(contractor.levels, vec![0, 1, 2, 3]);
    // Contracting node 0 first joins 2 -> 0 with both edges leaving 0, and adds the shortcuts
    // 2 -> 1 and 2 -> 3 to the graph; the later nodes only get pairs that lead back to where they
    // start, which the witness search finds at cost 0.
    assert_eq!(contractor.shortcuts.len(), 2);
    let (shortcut, replaced) = &contractor.shortcuts[0];
    assert_eq!((shortcut.source, shortcut.target, shortcut.cost), (2, 1, 4));
    assert_eq!((replaced[0].target, replaced[1].source), (0, 0));
    let (shortcut, _) = &contractor.shortcuts[1];
    assert_eq!((shortcut.source, shortcut.target, shortcut.cost), (2, 3, 8));
    assert_eq!(contractor.graph.forward_edges[0].len(), 4);
    let fast = contractor.get_fast_graph();
    assert_eq!(fast.num_nodes, 4);
}

#[test]
fn witness_search_with_hops_for_every_node_finds_cheapest_costs() {
    let graph = graph();
    let costs = ContractionHelper::new(&graph).witness_search(0, 99, 100, 4);
    assert_eq!(costs.get(&0), Some(&0));
    assert_eq!(costs.get(&1), Some(&1));
    assert_eq!(costs.get(&2), Some(&2));
    assert_eq!(costs.get(&3), Some(&5));
    assert_eq!(costs.len(), 4);
    let costs = ContractionHelper::new(&graph).witness_search(0, 99, 4, 4);
    assert_eq!(costs.get(&3), None);
    assert_eq!(costs.len(), 3);
}
