use std::collections::HashMap;

use nice_bike_roundtrips::graph::{Coord, NodeId};
use nice_bike_roundtrips::router::a_star;
use nice_bike_roundtrips::network::{
    chunk_of, chunk_up, cut_positions, detect_intersections, edge_id, way_of, weave, BuildError, Way,
};

fn way(id: u64, nodes: Vec<NodeId>, directed: bool) -> Way {
    let lengths = if nodes.is_empty() { Vec::new() } else { vec![1000; nodes.len() - 1] };
    Way { id, nodes, lengths, directed }
}

fn coords_for(ids: &[NodeId]) -> HashMap<NodeId, Coord> {
    ids.iter().map(|&n| (n, Coord::new(n as i32 * 10, -(n as i32)))).collect()
}

#[test]
fn edge_id_round_trip() {
    // the second chunk of way 910466050 and the seventh of way 37179867
    assert_eq!(9007200165207042, edge_id(910466050, 1));
    assert_eq!(910466050, way_of(9007200165207042));
    assert_eq!(1, chunk_of(9007200165207042));
    assert_eq!(37179867, way_of(54043195565625819));
    assert_eq!(6, chunk_of(54043195565625819));
    // the first chunk keeps the way id unchanged
    assert_eq!(910466050, edge_id(910466050, 0));
    let largest = (1u64 << 53) - 1;
    assert_eq!(largest, way_of(edge_id(largest, 2047)));
    assert_eq!(2047, chunk_of(edge_id(largest, 2047)));
}

#[test]
fn shared_and_repeated_nodes_are_intersections() {
    let ways = vec![way(1, vec![10, 11, 12], false), way(2, vec![20, 11, 21, 20], false)];
    let flags = detect_intersections(&ways);
    assert_eq!(Some(&true), flags.get(&11));
    assert_eq!(Some(&true), flags.get(&20));
    assert_eq!(Some(&false), flags.get(&10));
    assert_eq!(Some(&false), flags.get(&21));
    assert_eq!(None, flags.get(&99));
    assert_eq!(5, flags.len());
}

#[test]
fn chunk_counts_follow_intersections() {
    let mut flags: HashMap<NodeId, bool> = HashMap::new();
    for n in 0..10u64 {
        flags.insert(n, n % 3 == 0);
    }
    // no intersection
    assert_eq!(None, chunk_up(&flags, &way(1, vec![1, 2, 4], false)));
    // one intersection
    assert_eq!(None, chunk_up(&flags, &way(1, vec![1, 3, 4], false)));
    // two: one chunk with both ends
    assert_eq!(Some(vec![vec![3, 4, 6]]), chunk_up(&flags, &way(1, vec![1, 3, 4, 6, 7], false)));
    // three, at the very ends too
    let chunks = chunk_up(&flags, &way(1, vec![0, 1, 3, 4, 5, 6], false)).unwrap();
    assert_eq!(vec![vec![0, 1, 3], vec![3, 4, 5, 6]], chunks);
    assert_eq!(vec![0, 2, 5], cut_positions(&flags, &way(1, vec![0, 1, 3, 4, 5, 6], false)));
}

#[test]
fn weave_builds_edges_between_intersections() {
    // a cross of two ways meeting at 5, each with dangling ends, plus a loop
    let ways = vec![
        way(7, vec![1, 2, 5, 3, 4, 9], true),
        way(8, vec![6, 5, 9, 8], false),
    ];
    let coords = coords_for(&[1, 2, 3, 4, 5, 6, 8, 9]);
    let graph = weave(&ways, &coords).unwrap();
    // way 7: cuts at 5 and 9 give one edge; way 8: cuts at 5 and 9 give one edge
    assert_eq!(2, graph.edges().len());
    let e7 = graph.edges().get(&edge_id(7, 0)).unwrap();
    assert_eq!(&vec![5, 3, 4, 9], e7.nodes());
    assert!(*e7.directed());
    assert_eq!(3000, *e7.distance());
    assert_eq!(5, *e7.s());
    assert_eq!(9, *e7.t());
    assert_eq!(vec![3, 4], e7.intermediary());
    let e8 = graph.edges().get(&edge_id(8, 0)).unwrap();
    assert_eq!(&vec![5, 9], e8.nodes());
    assert!(!*e8.directed());
    assert_eq!(1000, *e8.distance());
    // dangling ends are gone
    assert_eq!(4, graph.nodes().len());
    assert!(graph.nodes().get(&1).is_none());
    assert!(graph.nodes().get(&6).is_none());
    let n5 = graph.nodes().get(&5).unwrap();
    assert_eq!(&vec![edge_id(7, 0), edge_id(8, 0)], n5.edges());
    assert_eq!(&Coord::new(50, -5), n5.point());
    assert_eq!(0, *n5.greatness());
    assert_eq!(&vec![edge_id(7, 0)], graph.nodes().get(&3).unwrap().edges());
}

#[test]
fn weave_numbers_chunks_of_one_way() {
    let ways = vec![way(3, vec![1, 2, 3, 4], false), way(4, vec![2, 3, 4], false)];
    let graph = weave(&ways, &coords_for(&[1, 2, 3, 4])).unwrap();
    assert!(graph.edges().contains_key(&edge_id(3, 0)));
    assert!(graph.edges().contains_key(&edge_id(3, 1)));
    assert!(graph.edges().contains_key(&edge_id(4, 0)));
    assert!(graph.edges().contains_key(&edge_id(4, 1)));
    assert_eq!(4, graph.edges().len());
    assert_eq!(&vec![3, 4], graph.edges().get(&edge_id(3, 1)).unwrap().nodes());
}

#[test]
fn weave_is_deterministic() {
    let ways = vec![way(3, vec![1, 2, 3, 4], false), way(4, vec![2, 3, 4], true), way(5, vec![4, 1], false)];
    let coords = coords_for(&[1, 2, 3, 4]);
    let a = weave(&ways, &coords).unwrap();
    let b = weave(&ways, &coords).unwrap();
    let mut ka: Vec<u64> = a.edges().keys().copied().collect();
    let mut kb: Vec<u64> = b.edges().keys().copied().collect();
    ka.sort();
    kb.sort();
    assert_eq!(ka, kb);
    for k in ka {
        assert_eq!(a.edges().get(&k).unwrap().nodes(), b.edges().get(&k).unwrap().nodes());
    }
    let mut na: Vec<u64> = a.nodes().keys().copied().collect();
    let mut nb: Vec<u64> = b.nodes().keys().copied().collect();
    na.sort();
    nb.sort();
    assert_eq!(na, nb);
}

#[test]
fn weave_rejects_large_way_id() {
    let ways = vec![way(1u64 << 53, vec![1, 2], false)];
    assert_eq!(Some(BuildError::WayIdTooLarge(1u64 << 53)), weave(&ways, &coords_for(&[1, 2])).err());
}

#[test]
fn weave_rejects_missing_coordinate() {
    let ways = vec![way(1, vec![1, 2, 3], false), way(2, vec![1, 3], false)];
    assert_eq!(Some(BuildError::MissingNode(2)), weave(&ways, &coords_for(&[1, 3])).err());
    // a node on a dangling end needs a coordinate too
    let ways = vec![way(1, vec![7, 1, 3], false), way(2, vec![1, 3], false)];
    assert_eq!(Some(BuildError::MissingNode(7)), weave(&ways, &coords_for(&[1, 3])).err());
    assert!(weave(&ways, &coords_for(&[1, 3, 7])).is_ok());
}

#[test]
fn weave_rejects_too_many_chunks() {
    let mut nodes: Vec<NodeId> = Vec::new();
    for i in 0..2050u64 {
        nodes.push(i);
    }
    let mut again = nodes.clone();
    again.reverse();
    let ways = vec![way(1, nodes.clone(), false), way(2, again, false)];
    let coords = coords_for(&nodes);
    assert_eq!(Some(BuildError::TooManyChunks(1)), weave(&ways, &coords).err());
}

#[test]
fn weave_saturates_long_edges() {
    let ways = vec![
        Way { id: 1, nodes: vec![1, 2, 3], lengths: vec![u64::MAX, 5], directed: false },
        way(2, vec![1, 3], false),
    ];
    let graph = weave(&ways, &coords_for(&[1, 2, 3])).unwrap();
    assert_eq!(u64::MAX, *graph.edges().get(&edge_id(1, 0)).unwrap().distance());
}

#[test]
fn woven_graph_is_searchable() {
    // a square 1-2-3-4 of two-way streets with a one-way diagonal 1 -> 3
    let ways = vec![
        way(1, vec![1, 2, 3], false),
        way(2, vec![3, 4, 1], false),
        way(3, vec![1, 3], true),
    ];
    let graph = weave(&ways, &coords_for(&[1, 2, 3, 4])).unwrap();
    let zero = |_a: NodeId, _b: NodeId| 0u64;
    assert_eq!(Some(vec![1, 3]), a_star(&graph, &1, &3, &zero));
    // the diagonal is one-way: back from 3 takes a side of the square
    assert_eq!(Some(vec![3, 1]), a_star(&graph, &3, &1, &zero));
    let e = nice_bike_roundtrips::network::edge_id(3, 0);
    assert!(*graph.edges().get(&e).unwrap().directed());
}
