use std::collections::HashMap;

use geo::{Distance, Haversine, Point};
use nice_bike_roundtrips::graph::{Coord, Edge as GraphEdge, EdgeId, Graph, Node as GraphNode, NodeId};
use nice_bike_roundtrips::router::{a_star, closest_intersection, closest_point, nearest_graph_nodes, unoptimized};

/// A point given in degrees as (x = longitude, y = latitude).
fn at(x: f64, y: f64) -> Coord {
    Coord::new((y * 1e7).round() as i32, (x * 1e7).round() as i32)
}

fn to_point(c: &Coord) -> Point {
    Point::new(c.lon as f64 / 1e7, c.lat as f64 / 1e7)
}

fn metres_mm(a: &Coord, b: &Coord) -> u64 {
    (Haversine.distance(to_point(a), to_point(b)) * 1000.0) as u64
}

/// The great-circle heuristic in millimetres over the given graph.
fn great_circle(graph: &Graph) -> impl Fn(NodeId, NodeId) -> u64 + '_ {
    move |a: NodeId, b: NodeId| {
        let pa = graph.nodes().get(&a).unwrap().point();
        let pb = graph.nodes().get(&b).unwrap().point();
        metres_mm(pa, pb)
    }
}

#[test]
fn a_star_no_path() {
    // start: {1, 2}
    // end: 0
    //
    // 0--->1<-->2

    const DISTANCE: u64 = 1000;
    let mut graph_nodes: HashMap<NodeId, GraphNode> = HashMap::new();
    graph_nodes.insert(0, GraphNode::new(0, at(0.0, 0.0)));
    graph_nodes.insert(1, GraphNode::new(1, at(1.0, 0.0)));
    graph_nodes.insert(2, GraphNode::new(2, at(2.0, 0.0)));

    let mut graph_edges: HashMap<EdgeId, GraphEdge> = HashMap::new();
    graph_edges.insert(0, GraphEdge::new(0, DISTANCE, true, vec![0, 1]));
    graph_nodes.get_mut(&0).unwrap().insert_edge(0);
    graph_nodes.get_mut(&1).unwrap().insert_edge(0);
    graph_edges.insert(1, GraphEdge::new(1, DISTANCE, false, vec![1, 2]));
    graph_nodes.get_mut(&1).unwrap().insert_edge(1);
    graph_nodes.get_mut(&2).unwrap().insert_edge(1);

    let graph = Graph::new(graph_nodes, graph_edges);
    let h = great_circle(&graph);

    let result = a_star(&graph, &1, &0, &h);
    assert_eq!(None, result);

    let result = a_star(&graph, &2, &0, &h);
    assert_eq!(None, result);
}

fn nine_node_graph() -> Graph {
    // 0--->1<-->2--->3<-->8
    // |    |         |
    // |    |         |
    // 4<---5<---6<-->7
    let mut graph_nodes: HashMap<NodeId, GraphNode> = HashMap::new();
    graph_nodes.insert(0, GraphNode::new(0, at(0.0, 1.0)));
    graph_nodes.insert(1, GraphNode::new(1, at(1.0, 1.0)));
    graph_nodes.insert(2, GraphNode::new(2, at(2.0, 1.0)));
    graph_nodes.insert(3, GraphNode::new(3, at(3.0, 1.0)));
    graph_nodes.insert(8, GraphNode::new(8, at(4.0, 1.0)));
    graph_nodes.insert(4, GraphNode::new(4, at(0.0, 0.0)));
    graph_nodes.insert(5, GraphNode::new(5, at(1.0, 0.0)));
    graph_nodes.insert(6, GraphNode::new(6, at(2.0, 0.0)));
    graph_nodes.insert(7, GraphNode::new(7, at(3.0, 0.0)));

    let mut graph_edges: HashMap<EdgeId, GraphEdge> = HashMap::new();
    graph_edges.insert(0, GraphEdge::new(0, 1000, true, vec![0, 1]));
    graph_nodes.get_mut(&0).unwrap().insert_edge(0);
    graph_nodes.get_mut(&1).unwrap().insert_edge(0);
    graph_edges.insert(1, GraphEdge::new(1, 1000, false, vec![1, 2]));
    graph_nodes.get_mut(&1).unwrap().insert_edge(1);
    graph_nodes.get_mut(&2).unwrap().insert_edge(1);
    graph_edges.insert(2, GraphEdge::new(2, 1000, true, vec![2, 3]));
    graph_nodes.get_mut(&2).unwrap().insert_edge(2);
    graph_nodes.get_mut(&3).unwrap().insert_edge(2);
    graph_edges.insert(3, GraphEdge::new(3, 1000, false, vec![3, 8]));
    graph_nodes.get_mut(&3).unwrap().insert_edge(3);
    graph_nodes.get_mut(&8).unwrap().insert_edge(3);
    graph_edges.insert(4, GraphEdge::new(4, 1000, false, vec![0, 4]));
    graph_nodes.get_mut(&0).unwrap().insert_edge(4);
    graph_nodes.get_mut(&4).unwrap().insert_edge(4);
    graph_edges.insert(5, GraphEdge::new(5, 1000, false, vec![1, 5]));
    graph_nodes.get_mut(&1).unwrap().insert_edge(1);
    graph_nodes.get_mut(&5).unwrap().insert_edge(5);
    graph_edges.insert(6, GraphEdge::new(6, 1000, false, vec![7, 3])); // logical s, t are reversed
    graph_nodes.get_mut(&7).unwrap().insert_edge(6);
    graph_nodes.get_mut(&3).unwrap().insert_edge(6);
    graph_edges.insert(7, GraphEdge::new(7, 1000, true, vec![5, 4]));
    graph_nodes.get_mut(&5).unwrap().insert_edge(7);
    graph_nodes.get_mut(&4).unwrap().insert_edge(7);
    graph_edges.insert(8, GraphEdge::new(8, 1000, true, vec![6, 5]));
    graph_nodes.get_mut(&6).unwrap().insert_edge(8);
    graph_nodes.get_mut(&5).unwrap().insert_edge(8);
    graph_edges.insert(9, GraphEdge::new(9, 1000, false, vec![6, 7]));
    graph_nodes.get_mut(&6).unwrap().insert_edge(9);
    graph_nodes.get_mut(&7).unwrap().insert_edge(9);

    Graph::new(graph_nodes, graph_edges)
}

#[test]
fn a_star_simple_path() {
    let graph = nine_node_graph();
    let h = great_circle(&graph);

    let result = a_star(&graph, &0, &6, &h).unwrap();
    let should_be = vec![0, 1, 2, 3, 7, 6];

    assert_eq!(should_be, result);
}

#[test]
fn a_star_same_result_without_heuristic() {
    let graph = nine_node_graph();
    let result = a_star(&graph, &0, &6, &|_a: NodeId, _b: NodeId| 0u64).unwrap();
    assert_eq!(vec![0, 1, 2, 3, 7, 6], result);
}

#[test]
fn a_star_start_is_goal() {
    let graph = nine_node_graph();
    let result = a_star(&graph, &3, &3, &|_a: NodeId, _b: NodeId| 0u64);
    assert_eq!(Some(vec![3]), result);
}

#[test]
fn a_star_one_way_forces_detour() {
    // edge 8 runs 6 -> 5 only, so 5 reaches 6 the long way round
    let graph = nine_node_graph();
    assert_eq!(Some(vec![5, 1, 2, 3, 7, 6]), a_star(&graph, &5, &6, &|_a: NodeId, _b: NodeId| 0u64));
    assert_eq!(Some(vec![6, 5]), a_star(&graph, &6, &5, &|_a: NodeId, _b: NodeId| 0u64));
}

#[test]
fn a_star_prefers_shorter_chain() {
    // 0 -- 1 -- 2 costs 2 m, 0 -- 2 directly costs 5 m
    let mut nodes: HashMap<NodeId, GraphNode> = HashMap::new();
    for id in 0..3u64 {
        nodes.insert(id, GraphNode::new(id, at(id as f64 * 0.001, 0.0)));
    }
    let mut edges: HashMap<EdgeId, GraphEdge> = HashMap::new();
    edges.insert(10, GraphEdge::new(10, 1000, false, vec![0, 1]));
    edges.insert(11, GraphEdge::new(11, 1000, false, vec![1, 2]));
    edges.insert(12, GraphEdge::new(12, 5000, false, vec![0, 2]));
    for (e, a, b) in [(10u64, 0u64, 1u64), (11, 1, 2), (12, 0, 2)] {
        nodes.get_mut(&a).unwrap().insert_edge(e);
        nodes.get_mut(&b).unwrap().insert_edge(e);
    }
    let graph = Graph::new(nodes, edges);
    let result = a_star(&graph, &0, &2, &|_a: NodeId, _b: NodeId| 0u64).unwrap();
    assert_eq!(vec![0, 1, 2], result);
}

/// One-way 0 -> 1, two-way 1 -- 2, one-way 1 -> 0.
fn three_way_graph() -> Graph {
    let mut nodes: HashMap<NodeId, GraphNode> = HashMap::new();
    nodes.insert(0, GraphNode::new(0, at(0.0, 0.0)));
    nodes.insert(1, GraphNode::new(1, at(0.001, 0.0)));
    nodes.insert(2, GraphNode::new(2, at(0.002, 0.0)));
    let mut edges: HashMap<EdgeId, GraphEdge> = HashMap::new();
    edges.insert(0, GraphEdge::new(0, 111_000, true, vec![0, 1]));
    edges.insert(1, GraphEdge::new(1, 111_000, false, vec![1, 2]));
    edges.insert(2, GraphEdge::new(2, 111_000, true, vec![1, 0]));
    for (e, a, b) in [(0u64, 0u64, 1u64), (1, 1, 2), (2, 1, 0)] {
        nodes.get_mut(&a).unwrap().insert_edge(e);
        nodes.get_mut(&b).unwrap().insert_edge(e);
    }
    Graph::new(nodes, edges)
}

#[test]
fn route_closes_through_one_way_detour() {
    let graph = three_way_graph();
    let h = great_circle(&graph);
    // 2 -> 0 has no direct edge but leads over 1
    assert_eq!(Some(vec![2, 1, 0]), a_star(&graph, &2, &0, &h));
    let route = unoptimized(&graph, &vec![1, 2], &0, &h);
    assert_eq!(vec![0, 1, 2, 1, 0], route);
    assert_eq!(route.first(), route.last());
    // the same input gives the same route
    assert_eq!(route, unoptimized(&graph, &vec![1, 2], &0, &h));
}

#[test]
fn route_skips_unreachable_leg() {
    // 0--->1<-->2: from 0 the network reaches 2 but nothing leads back to 0
    let mut nodes: HashMap<NodeId, GraphNode> = HashMap::new();
    nodes.insert(0, GraphNode::new(0, at(0.0, 0.0)));
    nodes.insert(1, GraphNode::new(1, at(1.0, 0.0)));
    nodes.insert(2, GraphNode::new(2, at(2.0, 0.0)));
    let mut edges: HashMap<EdgeId, GraphEdge> = HashMap::new();
    edges.insert(0, GraphEdge::new(0, 1000, true, vec![0, 1]));
    edges.insert(1, GraphEdge::new(1, 1000, false, vec![1, 2]));
    for (e, a, b) in [(0u64, 0u64, 1u64), (1, 1, 2)] {
        nodes.get_mut(&a).unwrap().insert_edge(e);
        nodes.get_mut(&b).unwrap().insert_edge(e);
    }
    let graph = Graph::new(nodes, edges);
    let zero = |_a: NodeId, _b: NodeId| 0u64;
    let route = unoptimized(&graph, &vec![2], &0, &zero);
    assert_eq!(vec![0, 1, 2], route);
    assert_ne!(route.first(), route.last());
}

#[test]
fn snapping_picks_nearest() {
    let graph = nine_node_graph();
    let dist = |a: Coord, b: Coord| metres_mm(&a, &b);
    // node 8 has a single edge: not an intersection
    assert_eq!(Some(8), closest_point(&graph, &at(4.1, 1.0), &dist));
    assert_eq!(Some(3), closest_intersection(&graph, &at(4.1, 1.0), &dist));
    assert_eq!(vec![3, 4], nearest_graph_nodes(&graph, &vec![at(4.1, 1.0), at(-0.2, -0.1)], &dist));
}

#[test]
fn snapping_on_empty_graph() {
    let graph = Graph::new(HashMap::new(), HashMap::new());
    let dist = |a: Coord, b: Coord| metres_mm(&a, &b);
    assert_eq!(None, closest_point(&graph, &at(0.0, 0.0), &dist));
    assert_eq!(None, closest_intersection(&graph, &at(0.0, 0.0), &dist));
    assert!(nearest_graph_nodes(&graph, &vec![at(0.0, 0.0)], &dist).is_empty());
}
