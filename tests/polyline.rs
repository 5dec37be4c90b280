use std::collections::HashMap;

use nice_bike_roundtrips::acceptance::{accept_route, choose_waypoints, dedup_len, waypoint_budget, Attempts, Verdict};
use nice_bike_roundtrips::graph::{Coord, Edge, EdgeId, Graph, Node, NodeId};
use nice_bike_roundtrips::network::{edge_id, weave, Way};
use nice_bike_roundtrips::postprocessor::{dense_route, edges_to_hs, intermediary_points, position_in_edge};

fn c(n: i32) -> Coord {
    Coord::new(n, n * 2)
}

/// Two ways crossing at 5 and 9; way 7 carries shape points 3 and 4.
fn crossing() -> Graph {
    let ways = vec![
        Way { id: 7, nodes: vec![1, 2, 5, 3, 4, 9], lengths: vec![1000; 5], directed: false },
        Way { id: 8, nodes: vec![6, 5, 9, 8], lengths: vec![1000; 3], directed: false },
    ];
    let coords: HashMap<NodeId, Coord> = [1, 2, 3, 4, 5, 6, 8, 9].iter().map(|&n| (n as NodeId, c(n))).collect();
    weave(&ways, &coords).unwrap()
}

#[test]
fn position_is_first_occurrence() {
    let edge = Edge::new(1, 10, false, vec![4, 5, 6, 5]);
    assert_eq!(1, position_in_edge(&edge, &5));
    assert_eq!(2, position_in_edge(&edge, &6));
    assert_eq!(0, position_in_edge(&edge, &4));
}

#[test]
fn incident_edges_as_set() {
    let graph = crossing();
    let set = edges_to_hs(&graph, &5);
    assert_eq!(2, set.len());
    assert!(set.contains(&edge_id(7, 0)));
    assert!(set.contains(&edge_id(8, 0)));
}

#[test]
fn shape_points_follow_travel_direction() {
    let graph = crossing();
    // both edges join 5 and 9; the first of 5's incident edges is way 7's
    assert_eq!(vec![c(3), c(4)], intermediary_points(&graph, &5, &9));
    assert_eq!(vec![c(4), c(3)], intermediary_points(&graph, &9, &5));
}

#[test]
fn no_shared_edge_gives_nothing() {
    let mut nodes: HashMap<NodeId, Node> = HashMap::new();
    nodes.insert(1, Node::new(1, c(1)));
    nodes.insert(2, Node::new(2, c(2)));
    let edges: HashMap<EdgeId, Edge> = HashMap::new();
    let graph = Graph::new(nodes, edges);
    assert!(intermediary_points(&graph, &1, &2).is_empty());
}

#[test]
fn dense_route_reinserts_shape_points() {
    let graph = crossing();
    let points = dense_route(&graph, &vec![5, 9, 5]);
    assert_eq!(vec![c(5), c(3), c(4), c(9), c(4), c(3), c(5)], points);
    assert_eq!(points.first(), points.last());
    assert!(dense_route(&graph, &vec![]).is_empty());
    assert_eq!(vec![c(9)], dense_route(&graph, &vec![9]));
}

#[test]
fn accepted_route_is_closed_and_in_length() {
    let route = vec![c(1), c(2), c(3), c(4), c(1)];
    // target 10 km: 9 km to 11 km inclusive
    assert!(accept_route(&route, 9_000_000, 10));
    assert!(accept_route(&route, 11_000_000, 10));
    assert!(accept_route(&route, 10_000_000, 10));
    assert!(!accept_route(&route, 8_999_999, 10));
    assert!(!accept_route(&route, 11_000_001, 10));
}

#[test]
fn open_route_is_rejected() {
    let route = vec![c(1), c(2), c(3)];
    assert!(!accept_route(&route, 10_000_000, 10));
    assert!(!accept_route(&vec![], 0, 0));
}

#[test]
fn repeated_points_are_rejected() {
    // 8 points, 5 left after collapsing runs: 62.5% < 75%
    let route = vec![c(1), c(1), c(2), c(2), c(3), c(3), c(4), c(1)];
    assert_eq!(5, dedup_len(&route));
    assert!(!accept_route(&route, 10_000_000, 10));
    // 4 points, 3 left: exactly 75%
    let route = vec![c(1), c(2), c(2), c(1)];
    assert_eq!(3, dedup_len(&route));
    assert!(accept_route(&route, 10_000_000, 10));
}

#[test]
fn attempts_run_out() {
    let bad = vec![c(1), c(2)];
    let good = vec![c(1), c(2), c(1)];
    let mut attempts = Attempts::new(2);
    assert_eq!(Verdict::Retry, attempts.judge(&bad, 0, 1));
    assert_eq!(Verdict::Exhausted, attempts.judge(&bad, 0, 1));
    assert_eq!(2, attempts.made);
    let mut attempts = Attempts::new(1);
    assert_eq!(Verdict::Accepted, attempts.judge(&good, 1_000_000, 1));
}

#[test]
fn waypoint_budget_scales_with_distance() {
    // radius 10 km / 6.28 = 1592 m; 0.5% of it is 7
    assert_eq!(7, waypoint_budget(10));
    assert_eq!(0, waypoint_budget(1));
    assert_eq!(203, waypoint_budget(255));
}

#[test]
fn waypoints_are_a_seeded_sample() {
    let pool: Vec<Coord> = (0..20).map(c).collect();
    // 10 km keeps 7 of them
    let a = choose_waypoints(pool.clone(), 42, 10);
    assert_eq!(7, a.len());
    for p in &a {
        assert!(pool.contains(p));
    }
    let mut distinct = a.clone();
    distinct.sort_by_key(|p| p.lat);
    distinct.dedup();
    assert_eq!(7, distinct.len());
    // the same seed draws the same sample, not merely the first points
    assert_eq!(a, choose_waypoints(pool.clone(), 42, 10));
    assert_ne!(pool[..7].to_vec(), a);
    // a small pool is kept whole
    assert_eq!(3, choose_waypoints(vec![c(1), c(2), c(3)], 7, 10).len());
    assert!(choose_waypoints(pool, 1, 1).is_empty());
}
