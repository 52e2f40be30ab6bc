use osm_test::routing::bucket_queue::BucketQueue as CyclicQueue;
use osm_test::routing::fast_graph::{FastEdgeAccess, Graph as FastGraph};
use osm_test::routing::graph::{Edge, Graph};
use osm_test::routing::naive_graph::NaiveGraph;
use osm_test::routing::queue::bucket_queue::BucketQueue;

fn edges() -> Vec<Edge> {
    vec![
        Edge::new(0, 1, 4),
        Edge::new(1, 2, 3),
        Edge::new(0, 2, 10),
        Edge::new(2, 3, 1),
        Edge::new(3, 0, 2),
    ]
}

#[test]
fn bucket_queue_pops_smallest_key_first() {
    let mut queue = BucketQueue::new();
    queue.insert(7, 70);
    queue.insert(3, 30);
    queue.insert(5, 50);
    assert_eq!(queue.pop().map(|s| (s.key, s.value)), Some((3, 30)));
    assert_eq!(queue.pop().map(|s| (s.key, s.value)), Some((5, 50)));
    assert_eq!(queue.pop().map(|s| (s.key, s.value)), Some((7, 70)));
    assert!(queue.pop().is_none());
}

#[test]
fn bucket_queue_pops_last_inserted_of_a_bucket() {
    let mut queue = BucketQueue::new();
    queue.insert(2, 1);
    queue.insert(2, 2);
    assert_eq!(queue.pop().map(|s| s.value), Some(2));
    assert_eq!(queue.pop().map(|s| s.value), Some(1));
    assert!(queue.pop().is_none());
}

#[test]
fn cyclic_queue_walks_buckets_from_the_last_popped() {
    let mut queue = CyclicQueue::new(4);
    queue.insert(1, 10);
    queue.insert(2, 20);
    queue.insert(5, 50);
    assert_eq!(queue.pop(), Some(50));
    assert_eq!(queue.pop(), Some(10));
    assert_eq!(queue.pop(), Some(20));
    assert_eq!(queue.pop(), None);
}

#[test]
fn edge_inversion_and_fast_form() {
    let edge = Edge::new(3, 7, 11);
    let inverted = edge.get_inverted();
    assert_eq!((inverted.source, inverted.target, inverted.cost), (7, 3, 11));
    let fast = edge.make_fast();
    assert_eq!((fast.target, fast.cost), (7, 11));
}

#[test]
fn graph_from_naive_graph_groups_edges() {
    let naive = NaiveGraph { num_nodes: 4, edges: edges() };
    let graph = Graph::from_naive_graph(&naive);
    assert_eq!(graph.forward_edges.len(), 4);
    assert_eq!(graph.backward_edges.len(), 4);
    assert_eq!(graph.forward_edges[0].len(), 2);
    assert_eq!(graph.forward_edges[0][0].target, 1);
    assert_eq!(graph.forward_edges[0][1].target, 2);
    assert_eq!(graph.backward_edges[2].len(), 2);
    assert_eq!(graph.backward_edges[0][0].source, 3);
}

#[test]
fn graph_neighborhood_grows_with_hops() {
    let naive = NaiveGraph { num_nodes: 4, edges: edges() };
    let graph = Graph::from_naive_graph(&naive);
    let zero = graph.get_neighborhood(0, 0);
    assert_eq!(zero.len(), 1);
    assert!(zero.contains(&0));
    let one = graph.get_neighborhood(0, 1);
    assert_eq!(one.len(), 3);
    assert!(one.contains(&1) && one.contains(&2));
    let two = graph.get_neighborhood(0, 2);
    assert_eq!(two.len(), 4);
}

#[test]
fn graph_add_edge_appends_to_both_lists() {
    let naive = NaiveGraph { num_nodes: 4, edges: edges() };
    let mut graph = Graph::from_naive_graph(&naive);
    graph.add_edge(&Edge::new(1, 3, 9));
    assert_eq!(graph.forward_edges[1].last().map(|e| (e.target, e.cost)), Some((3, 9)));
    assert_eq!(graph.backward_edges[3].last().map(|e| (e.source, e.cost)), Some((1, 9)));
}

#[test]
fn graph_disconnect_removes_every_edge_at_the_node() {
    let naive = NaiveGraph { num_nodes: 4, edges: edges() };
    let mut graph = Graph::from_naive_graph(&naive);
    graph.disconnect(2);
    for list in graph.forward_edges.iter().chain(graph.backward_edges.iter()) {
        for edge in list {
            assert!(edge.source != 2 && edge.target != 2);
        }
    }
    assert_eq!(graph.forward_edges[0].len(), 1);
    assert_eq!(graph.forward_edges[3].len(), 1);
    assert_eq!(graph.backward_edges[0].len(), 1);
}

#[test]
fn fast_edge_access_groups_by_source() {
    let access = FastEdgeAccess::new(&edges());
    assert_eq!(access.edges_start_at[..5].to_vec(), vec![0, 2, 3, 4, 5]);
    let out = access.outgoing_edges(0);
    assert_eq!(out.len(), 2);
    assert_eq!((out[0].target, out[0].cost), (1, 4));
    assert_eq!((out[1].target, out[1].cost), (2, 10));
    assert!(access.outgoing_edges(4).is_empty());
}

#[test]
fn fast_graph_has_both_directions() {
    let graph = FastGraph::new(NaiveGraph { num_nodes: 4, edges: edges() });
    assert_eq!(graph.num_nodes, 4);
    let incoming = graph.incoming_edges(2);
    let mut sources: Vec<u32> = incoming.iter().map(|e| e.target).collect();
    sources.sort();
    assert_eq!(sources, vec![0, 1]);
    assert_eq!(graph.outgoing_edges(3).len(), 1);
}

#[test]
fn graph_disconnect_keeps_the_order_of_the_remaining_edges() {
    let edges = vec![
        Edge::new(0, 1, 1),
        Edge::new(0, 2, 2),
        Edge::new(0, 3, 3),
        Edge::new(2, 3, 4),
        Edge::new(1, 3, 5),
    ];
    let mut graph = Graph::from_naive_graph(&NaiveGraph { num_nodes: 4, edges });
    graph.disconnect(2);
    assert_eq!(graph.forward_edges[0], vec![Edge::new(0, 1, 1), Edge::new(0, 3, 3)]);
    assert_eq!(graph.backward_edges[3], vec![Edge::new(0, 3, 3), Edge::new(1, 3, 5)]);
    assert!(graph.forward_edges[2].is_empty());
    assert!(graph.backward_edges[2].is_empty());
}
