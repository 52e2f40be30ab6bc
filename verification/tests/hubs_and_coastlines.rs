use ahash::HashMapExt;
use osm_test::coastline::close_coastline;
use osm_test::routing::fast_graph::Graph as FastGraph;
use osm_test::routing::graph::Edge;
use osm_test::routing::hl::hub_graph::HubGraph;
use osm_test::routing::hl::label::Label;
use osm_test::routing::hl::label_entry::LabelEntry;
use osm_test::routing::naive_graph::NaiveGraph;
use osm_test::routing::route::RouteRequest;
use osm_test::routing::simple_algorithms::ch_bi_dijkstra::ChDijkstra;

/// An upward graph: 0 -> 2 (4), 1 -> 2 (1), 2 -> 3 (2), 0 -> 3 (9), with node 4 unconnected.
fn ch() -> ChDijkstra {
    let edges = vec![Edge::new(0, 2, 4), Edge::new(1, 2, 1), Edge::new(2, 3, 2), Edge::new(0, 3, 9), Edge::new(4, 4, 0)];
    let graph = FastGraph::new(NaiveGraph { num_nodes: 5, edges });
    ChDijkstra { graph, shortcuts: ahash::HashMap::new() }
}

#[test]
fn limited_searches_respect_depth() {
    let dijkstra = ch();
    let one = dijkstra.forward_search(0, 1);
    assert_eq!(one.get(&0), Some(&0));
    assert_eq!(one.get(&2), Some(&4));
    assert_eq!(one.get(&3), Some(&9));
    let two = dijkstra.forward_search(0, 2);
    assert_eq!(two.get(&3), Some(&6));
    let back = dijkstra.backward_search(3, 5);
    assert_eq!(back.get(&1), Some(&3));
    assert_eq!(back.get(&0), Some(&6));
}

#[test]
fn labels_hold_their_node_at_zero() {
    let dijkstra = ch();
    let forward = dijkstra.get_forward_label(0, 3);
    assert_eq!(forward.get(&0), Some(&0));
    let costs = dijkstra.get_forward_label_vec(0, 3);
    assert_eq!(costs.len(), 5);
    assert_eq!(costs[0], 0);
    assert_eq!(costs[4], u32::MAX);
    let backward = dijkstra.get_backward_label(3, 3);
    assert_eq!(backward.get(&3), Some(&0));
}

#[test]
fn bidirectional_meeting_cost_and_route() {
    let dijkstra = ch();
    assert_eq!(dijkstra.get_cost(&RouteRequest { source: 0, target: 3 }), Some(6));
    assert_eq!(dijkstra.get_cost(&RouteRequest { source: 0, target: 4 }), None);
    let route = dijkstra.get_route(&RouteRequest { source: 1, target: 3 }).unwrap();
    assert_eq!(route.cost, 3);
    assert_eq!(route.nodes.len(), 1);
    assert!(dijkstra.get_route(&RouteRequest { source: 3, target: 0 }).is_none());
}

#[test]
fn label_from_map_is_sorted() {
    let mut map = ahash::HashMap::new();
    map.insert(7u32, 1u32);
    map.insert(2, 5);
    map.insert(4, 0);
    let label = Label::new(&map);
    let ids: Vec<u32> = label.label.iter().map(|e| e.id).collect();
    assert_eq!(ids, vec![2, 4, 7]);
    assert_eq!(label.label[0].cost, 5);
}

#[test]
fn hub_graph_from_labels() {
    let dijkstra = ch();
    let hubs = HubGraph::new(&dijkstra, 3);
    assert_eq!(hubs.forward_labels.len(), 5);
    assert_eq!(hubs.backward_labels.len(), 5);
    assert_eq!(hubs.get_cost(&RouteRequest { source: 0, target: 3 }), Some(6));
    assert_eq!(hubs.get_cost(&RouteRequest { source: 1, target: 1 }), Some(0));
}

#[test]
fn coastlines_are_joined() {
    let closed = close_coastline(vec![vec![5, 6, 5], vec![5, 1], vec![1, 7], vec![3, 3, 4]]);
    assert_eq!(closed, vec![vec![5, 6, 5], vec![5, 1, 7], vec![3, 4]]);
    let joined = close_coastline(vec![vec![3, 1], vec![1, 2], vec![2, 3]]);
    assert_eq!(joined, vec![vec![3, 1, 2, 3]]);
    let apart = close_coastline(vec![vec![2, 3], vec![1, 2]]);
    assert_eq!(apart, vec![vec![2, 3], vec![1, 2]]);
}

#[test]
fn pruning_keeps_the_exact_entries() {
    let dijkstra = ch();
    let entry = |id: u32, cost: u32| LabelEntry { id, cost };
    let mut forward = Label { label: vec![entry(0, 0), entry(2, 4), entry(3, 9)] };
    forward.prune_forward(0, &dijkstra);
    let kept: Vec<(u32, u32)> = forward.label.iter().map(|e| (e.id, e.cost)).collect();
    assert_eq!(kept, vec![(0, 0), (2, 4)]);
    let mut backward = Label { label: vec![entry(0, 9), entry(2, 2), entry(3, 0)] };
    backward.prune_backward(3, &dijkstra);
    let kept: Vec<(u32, u32)> = backward.label.iter().map(|e| (e.id, e.cost)).collect();
    assert_eq!(kept, vec![(2, 2), (3, 0)]);
}

#[test]
fn label_sizes_are_summed() {
    let entry = |id: u32, cost: u32| LabelEntry { id, cost };
    let hubs = HubGraph {
        forward_labels: vec![Label { label: vec![entry(0, 0), entry(1, 3)] }, Label { label: vec![entry(1, 0)] }],
        backward_labels: vec![Label { label: vec![entry(0, 0)] }, Label { label: vec![entry(0, 3), entry(1, 0)] }],
    };
    assert_eq!(hubs.summed_label_size(), 6);
}
