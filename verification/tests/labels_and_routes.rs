use osm_test::routing::fast_graph::Graph as FastGraph;
use osm_test::routing::graph::Edge;
use osm_test::routing::hl::hub_graph::HubGraph;
use osm_test::routing::hl::label::Label;
use osm_test::routing::hl::label_entry::LabelEntry;
use osm_test::routing::naive_graph::{parse_edge_line, NaiveGraph};
use osm_test::routing::route::{Route, RouteRequest, RouteValidationRequest};

fn label(entries: &[(u32, u32)]) -> Label {
    Label { label: entries.iter().map(|&(id, cost)| LabelEntry { id, cost }).collect() }
}

#[test]
fn label_cost_is_cheapest_common_hub() {
    let forward = label(&[(0, 0), (2, 5), (4, 1)]);
    let backward = label(&[(1, 0), (2, 1), (4, 7)]);
    assert_eq!(forward.get_cost(&backward), Some(6));
    let other = label(&[(1, 0), (3, 1)]);
    assert_eq!(forward.get_cost(&other), None);
    let dear = label(&[(0, u32::MAX)]);
    assert_eq!(forward.get_cost(&dear), None);
}

#[test]
fn hub_graph_cost_and_pruning() {
    let mut hubs = HubGraph {
        forward_labels: vec![label(&[(0, 0), (1, 9)]), label(&[(1, 0)])],
        backward_labels: vec![label(&[(0, 0)]), label(&[(0, 2), (1, 0)])],
    };
    assert_eq!(hubs.get_cost(&RouteRequest { source: 0, target: 1 }), Some(2));
    assert_eq!(hubs.get_cost(&RouteRequest { source: 2, target: 1 }), None);
    assert_eq!(hubs.get_cost(&RouteRequest { source: 1, target: 0 }), None);
    hubs.prune();
    // The entry (1, 9) of node 0 costs more than the route over hub 0.
    assert_eq!(hubs.forward_labels[0].label.len(), 1);
    assert_eq!(hubs.forward_labels[0].label[0].id, 0);
    assert_eq!(hubs.backward_labels[1].label.len(), 2);
    assert_eq!(hubs.get_cost(&RouteRequest { source: 0, target: 1 }), Some(2));
}

#[test]
fn validation_request_from_str() {
    let r = RouteValidationRequest::from_str("12,34,56").unwrap();
    assert_eq!((r.request.source, r.request.target, r.cost), (12, 34, Some(56)));
    let r = RouteValidationRequest::from_str("12,+34,").unwrap();
    assert_eq!((r.request.source, r.request.target, r.cost), (12, 34, None));
    let r = RouteValidationRequest::from_str("1,2,none,extra").unwrap();
    assert_eq!(r.cost, None);
    assert!(RouteValidationRequest::from_str("x,2,3").is_none());
    assert!(RouteValidationRequest::from_str("1,4294967296,3").is_none());
    assert!(RouteValidationRequest::from_str("1,,3").is_none());
    let r = RouteValidationRequest::from_str("4294967295,0,007").unwrap();
    assert_eq!((r.request.source, r.cost), (u32::MAX, Some(7)));
}

#[test]
fn route_validity() {
    let edges = vec![Edge::new(0, 1, 3), Edge::new(1, 2, 4), Edge::new(1, 2, 1), Edge::new(2, 0, 1)];
    let graph = FastGraph::new(NaiveGraph { num_nodes: 3, edges });
    let request = RouteRequest { source: 0, target: 2 };
    let route = Route { nodes: vec![0, 1, 2], cost: 7 };
    assert!(route.is_valid(&graph, &request));
    let wrong_cost = Route { nodes: vec![0, 1, 2], cost: 4 };
    assert!(!wrong_cost.is_valid(&graph, &request));
    let wrong_end = Route { nodes: vec![0, 1], cost: 3 };
    assert!(!wrong_end.is_valid(&graph, &request));
    let single = Route { nodes: vec![0], cost: 0 };
    assert!(single.is_valid(&graph, &RouteRequest { source: 0, target: 0 }));
}

#[test]
fn edge_lines_give_their_first_three_numbers() {
    assert_eq!(parse_edge_line("3 7 12 0 50"), Some((3, 7, 12)));
    assert_eq!(parse_edge_line("  1\t2   +3\r\n"), Some((1, 2, 3)));
    assert_eq!(parse_edge_line("1 2"), None);
    assert_eq!(parse_edge_line("1 x 3"), None);
    assert_eq!(parse_edge_line("1 2 4294967296"), None);
    assert_eq!(parse_edge_line(""), None);
}

#[test]
fn label_cost_of_unsorted_labels_is_the_sum_at_a_common_hub() {
    let forward = label(&[(2, 5), (1, 0)]);
    let backward = label(&[(1, 0), (2, 5)]);
    assert_eq!(forward.get_cost(&backward), Some(10));
}
