use osm_test::routing::dijkstra::fast_dijkstra::Dijkstra as FastDijkstra;
use osm_test::routing::dijkstra::no_option_and_no_expanded_dijkstra::Dijkstra as FlaggedDijkstra;
use osm_test::routing::dijkstra_data::DijkstraData;
use osm_test::routing::fast_graph::{FastEdge, Graph as FastGraph};
use osm_test::routing::graph::Edge;
use osm_test::routing::naive_graph::NaiveGraph;
use osm_test::routing::route::{RouteRequest, Routing};
use osm_test::routing::simple_algorithms::a_star::AStar;
use osm_test::routing::simple_algorithms::a_star_with_distance::ASTarWithDistance;
use osm_test::routing::simple_algorithms::a_star_with_landmarks::AStarWithLandmarks;
use osm_test::routing::simple_algorithms::a_star_with_zero::AStarWithZero;
use osm_test::routing::simple_algorithms::bi_a_star::BiAStar;
use osm_test::routing::simple_algorithms::bi_a_star_with_landmarks::BiAStarWithLandmarks;
use osm_test::routing::simple_algorithms::bi_a_star_with_zero::BiAStarWithZero;
use osm_test::routing::simple_algorithms::bidirectional_a_star::BiAStar as EarlyBiAStar;
use osm_test::routing::simple_algorithms::bidirectional_dijkstra::BiDijkstra;
use osm_test::routing::simple_algorithms::dijkstra::Dijkstra;
use osm_test::routing::simple_algorithms::heuristics::landmark::{Landmark as HeuristicLandmark, LandmarkCollection};
use osm_test::routing::simple_algorithms::heuristics::zero::Zero;
use osm_test::routing::simple_algorithms::landmark::{Dijkstra as LandmarkDijkstra, Landmark};

/// 0 -> 1 -> 2 -> 3 costs 3 + 3 + 1, the direct 0 -> 2 costs 10, 3 -> 0 costs 2, and node 4
/// has no edges at all; the extra edges make the edge count exceed the node count.
fn graph() -> FastGraph {
    let edges = vec![
        Edge::new(0, 1, 3),
        Edge::new(1, 2, 3),
        Edge::new(0, 2, 10),
        Edge::new(2, 3, 1),
        Edge::new(3, 0, 2),
        Edge::new(1, 3, 9),
    ];
    FastGraph::new(NaiveGraph { num_nodes: 5, edges })
}

fn request(source: u32, target: u32) -> RouteRequest {
    RouteRequest { source, target }
}

#[test]
fn route_request_reversed_swaps_ends() {
    let r = request(3, 9).reversed();
    assert_eq!((r.source, r.target), (9, 3));
}

#[test]
fn dijkstra_data_update_and_route() {
    let mut data = DijkstraData::new(3, 0);
    let first = data.pop().unwrap();
    assert_eq!((first.key, first.value), (0, 0));
    data.update(0, &FastEdge { target: 1, cost: 5 }, 0);
    data.update(1, &FastEdge { target: 2, cost: 2 }, 0);
    assert_eq!(data.nodes[2].cost, 7);
    assert_eq!(data.nodes[2].predecessor, 1);
    let route = data.get_route(2).unwrap();
    assert_eq!(route.nodes, vec![0, 1, 2]);
    assert_eq!(route.cost, 7);
    assert!(DijkstraData::new(3, 0).get_route(2).is_none());
}

#[test]
fn dijkstra_finds_cheapest_route() {
    let graph = graph();
    let dijkstra = Dijkstra::new(&graph);
    let response = dijkstra.get_route(&request(0, 3));
    let route = response.route.unwrap();
    assert_eq!(route.nodes, vec![0, 1, 2, 3]);
    assert_eq!(route.cost, 7);
    assert_eq!(response.data.len(), 1);
    assert!(response.data[0].nodes.iter().take(4).all(|entry| entry.is_expanded));
}

#[test]
fn dijkstra_answers_unreachable_with_none() {
    let graph = graph();
    let dijkstra = Dijkstra::new(&graph);
    assert!(dijkstra.get_route(&request(0, 4)).route.is_none());
    let data = dijkstra.get_forward_data(4);
    assert_eq!(data.nodes[4].cost, 0);
    assert_eq!(data.nodes[0].cost, u32::MAX);
}

#[test]
fn a_star_variants_find_the_route() {
    let graph = graph();
    let zero = AStarWithZero::new(&graph).get_route(&request(0, 3)).route.unwrap();
    assert_eq!((zero.nodes.clone(), zero.cost), (vec![0, 1, 2, 3], 7));
    let distance = ASTarWithDistance::new(&graph).get_route(&request(0, 3)).route.unwrap();
    assert_eq!(distance.cost, 7);
    let plain = AStar::new(&graph).get_data(&request(2, 1), &Zero {}).route.unwrap();
    assert_eq!((plain.nodes.clone(), plain.cost), (vec![2, 3, 0, 1], 6));
    let landmarks = AStarWithLandmarks::new(&graph).get_route(&request(0, 3)).route.unwrap();
    assert_eq!(landmarks.nodes[0], 0);
    assert_eq!(*landmarks.nodes.last().unwrap(), 3);
}

#[test]
fn bidirectional_searches_meet() {
    let graph = graph();
    let response = BiAStarWithZero::new(&graph).get_route(&request(0, 3));
    let route = response.route.unwrap();
    assert_eq!(route.nodes, vec![0, 1, 2, 3]);
    assert_eq!(route.cost, 7);
    assert_eq!(response.data.len(), 2);
    let plain = BiAStar::new(&graph).get_data(&request(1, 0), Zero {}, Zero {});
    assert_eq!(plain.route.unwrap().cost, 6);
    assert!(BiAStarWithZero::new(&graph).get_route(&request(0, 4)).route.is_none());
}

#[test]
fn early_stopping_bidirectional_search() {
    let graph = graph();
    let response = BiDijkstra::new(&graph).get_route(&request(0, 3));
    let route = response.route.unwrap();
    assert_eq!(route.nodes[0], 0);
    assert_eq!(*route.nodes.last().unwrap(), 3);
    let (route, data) = EarlyBiAStar::new(&graph).get_data(&request(0, 4), Zero {}, Zero {});
    assert!(route.is_none());
    assert_eq!(data.len(), 2);
}

#[test]
fn bucket_queue_dijkstras_find_the_route() {
    let graph = graph();
    let fast = FastDijkstra::new(&graph).get_route(&request(0, 3)).route.unwrap();
    assert_eq!((fast.nodes.clone(), fast.cost), (vec![0, 1, 2, 3], 7));
    let flagged = FlaggedDijkstra::new(&graph).get_route(&request(0, 3)).route.unwrap();
    assert_eq!((flagged.nodes.clone(), flagged.cost), (vec![0, 1, 2, 3], 7));
    assert!(FastDijkstra::new(&graph).get_route(&request(0, 4)).route.is_none());
    assert!(FlaggedDijkstra::new(&graph).get_route(&request(4, 0)).route.is_none());
}

#[test]
fn landmark_bounds() {
    let graph = graph();
    let landmark = Landmark::new(0, &graph);
    assert_eq!(landmark.costs[..4].to_vec(), vec![0, 3, 6, 7]);
    assert_eq!(landmark.lower_bound(1, 3), 4);
    assert_eq!(landmark.upper_bound(1, 3), 10);
    assert_eq!(landmark.upper_bound(1, 4), u32::MAX);
    let route = LandmarkDijkstra::new(&graph).get_route(&request(0, 3)).route.unwrap();
    assert_eq!(route.nodes[0], 0);
    assert_eq!(*route.nodes.last().unwrap(), 3);
    assert!(LandmarkDijkstra::new(&graph).get_route(&request(0, 4)).route.is_none());
}

#[test]
fn heuristic_landmarks_and_tuning() {
    let graph = graph();
    let landmark = HeuristicLandmark::new(0, &graph);
    assert_eq!(landmark.costs_to[..4].to_vec(), vec![0, 3, 6, 7]);
    assert_eq!(landmark.upper_bound(0, 3), 7);
    let collection = LandmarkCollection::new(&graph, 6);
    let tuned = collection.tune(&request(0, 3), 3);
    let _ = tuned;
    let response = BiAStarWithLandmarks::new(&graph);
    let _ = response;
}

#[test]
fn dijkstra_prefers_the_cheaper_of_parallel_edges() {
    let edges = vec![Edge::new(0, 1, 9), Edge::new(0, 1, 2), Edge::new(1, 2, 2), Edge::new(0, 2, 5)];
    let graph = FastGraph::new(NaiveGraph { num_nodes: 3, edges });
    let route = Dijkstra::new(&graph).get_route(&request(0, 2)).route.unwrap();
    assert_eq!(route.nodes, vec![0, 1, 2]);
    assert_eq!(route.cost, 4);
    let to_one = Dijkstra::new(&graph).get_route(&request(0, 1)).route.unwrap();
    assert_eq!(to_one.cost, 2);
}

#[test]
fn bucket_queue_dijkstras_pass_over_stale_entries() {
    let edges = vec![
        Edge::new(0, 3, 10),
        Edge::new(0, 1, 1),
        Edge::new(1, 2, 1),
        Edge::new(2, 3, 1),
        Edge::new(3, 4, 10),
        Edge::new(0, 4, 14),
    ];
    let graph = FastGraph::new(NaiveGraph { num_nodes: 5, edges });
    for target in 0..5u32 {
        let fast = FastDijkstra::new(&graph).get_route(&request(0, target)).route.unwrap();
        let flagged = FlaggedDijkstra::new(&graph).get_route(&request(0, target)).route.unwrap();
        let expected = [0, 1, 2, 3, 13][target as usize];
        assert_eq!(fast.cost, expected);
        assert_eq!(flagged.cost, expected);
        assert_eq!(fast.nodes, flagged.nodes);
    }
    let to_four = FastDijkstra::new(&graph).get_route(&request(0, 4)).route.unwrap();
    assert_eq!(to_four.nodes, vec![0, 1, 2, 3, 4]);
}

#[test]
fn bidirectional_searches_take_the_cheaper_detour() {
    let edges = vec![
        Edge::new(0, 3, 10),
        Edge::new(0, 1, 1),
        Edge::new(1, 2, 1),
        Edge::new(2, 3, 1),
        Edge::new(3, 4, 10),
        Edge::new(0, 4, 14),
    ];
    let graph = FastGraph::new(NaiveGraph { num_nodes: 5, edges });
    let early = BiDijkstra::new(&graph).get_route(&request(0, 4)).route.unwrap();
    assert_eq!(early.cost, 13);
    assert_eq!(early.nodes, vec![0, 1, 2, 3, 4]);
    let full = BiAStarWithZero::new(&graph).get_route(&request(0, 3)).route.unwrap();
    assert_eq!(full.cost, 3);
    assert_eq!(full.nodes, vec![0, 1, 2, 3]);
}

#[test]
fn found_routes_are_valid_and_reversing_twice_is_identity() {
    let graph = graph();
    let r = request(0, 3);
    let twice = r.reversed().reversed();
    assert_eq!((twice.source, twice.target), (0, 3));
    let route = Dijkstra::new(&graph).get_route(&r).route.unwrap();
    assert!(route.is_valid(&graph, &r));
    let fast = FastDijkstra::new(&graph).get_route(&r).route.unwrap();
    assert!(fast.is_valid(&graph, &r));
}

#[test]
fn bidirectional_dijkstra_answers_none_once_a_search_runs_out() {
    let graph = FastGraph::new(NaiveGraph { num_nodes: 2, edges: vec![Edge::new(0, 1, 0), Edge::new(1, 1, 0)] });
    let response = BiDijkstra::new(&graph).get_route(&request(0, 1));
    assert!(response.route.is_none());
    let full = BiAStarWithZero::new(&graph).get_route(&request(0, 1)).route.unwrap();
    assert_eq!(full.cost, 0);
}

#[test]
fn early_stopping_searches_meet_on_a_two_node_graph_with_mirrored_edges() {
    let graph = FastGraph::new(NaiveGraph { num_nodes: 2, edges: vec![Edge::new(0, 1, 4), Edge::new(1, 0, 4)] });
    let route = BiDijkstra::new(&graph).get_route(&request(0, 1)).route.unwrap();
    assert_eq!(route.nodes, vec![0, 1]);
    assert_eq!(route.cost, 4);
    let (route, data) = EarlyBiAStar::new(&graph).get_data(&request(0, 1), Zero {}, Zero {});
    let route = route.unwrap();
    assert_eq!(route.nodes, vec![0, 1]);
    assert_eq!(route.cost, 4);
    assert_eq!(data.len(), 2);
}
