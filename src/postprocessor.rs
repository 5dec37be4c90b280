//! Expanding an intersection-level route into the dense polyline of every
//! point along it.

use std::collections::HashSet;
use vstd::prelude::*;

use crate::graph::{Coord, Edge, EdgeId, Graph, NodeId};

verus! {

/// The first position of `x` in `c`.
pub open spec fn first_pos(c: Seq<NodeId>, x: NodeId) -> int {
    choose|r: int| 0 <= r < c.len() && c[r] == x && forall|j: int| 0 <= j < r ==> c[j] != x
}

/// `s` back to front.
pub open spec fn reversed(s: Seq<NodeId>) -> Seq<NodeId> {
    Seq::new(s.len(), |i: int| s[s.len() - 1 - i])
}

/// The first edge of `from`'s incident list that `to` lists as well.
pub open spec fn first_shared(a: Seq<EdgeId>, b: Set<EdgeId>) -> Option<EdgeId>
    decreases a.len(),
{
    if a.len() == 0 {
        None
    } else if b.contains(a[0]) {
        Some(a[0])
    } else {
        first_shared(a.drop_first(), b)
    }
}

/// The shape points strictly between `from` and `to` on the edge they share,
/// in travel order; nothing when they share no edge.
pub open spec fn interior(graph: Graph, from: NodeId, to: NodeId) -> Seq<NodeId> {
    match first_shared(graph.incident(from), graph.incident(to).to_set()) {
        None => Seq::empty(),
        Some(e) => {
            let c = graph.chain_of(e);
            let a = first_pos(c, from);
            let b = first_pos(c, to);
            if a > b {
                reversed(c.subrange(b + 1, a))
            } else if a < b {
                c.subrange(a + 1, b)
            } else {
                Seq::empty()
            }
        },
    }
}

/// The coordinates of a sequence of nodes.
pub open spec fn coords_of(graph: Graph, s: Seq<NodeId>) -> Seq<Coord> {
    s.map_values(|n: NodeId| graph.coord_of(n))
}

/// The dense polyline of a route: its first node, then for each hop the
/// shape points in between and the node reached.
pub open spec fn dense(graph: Graph, m: Seq<NodeId>) -> Seq<Coord>
    decreases m.len(),
{
    if m.len() == 0 {
        Seq::empty()
    } else if m.len() == 1 {
        seq![graph.coord_of(m[0])]
    } else {
        dense(graph, m.drop_last()) + coords_of(graph, interior(graph, m[m.len() - 2], m.last()))
            + seq![graph.coord_of(m.last())]
    }
}

/// The index of the first occurrence of `target` in the edge's chain.
pub fn position_in_edge(edge: &Edge, target: &NodeId) -> (r: usize)
    requires
        edge.chain().contains(*target),
    ensures
        r < edge.chain().len(),
        edge.chain()[r as int] == *target,
        forall|j: int| 0 <= j < r ==> edge.chain()[j] != *target,
        r as int == first_pos(edge.chain(), *target),
{
    let nodes = edge.nodes();
    let mut i: usize = 0;
    while i < nodes.len()
        invariant
            nodes@ == edge.chain(),
            edge.chain().contains(*target),
            0 <= i <= nodes@.len(),
            forall|j: int| 0 <= j < i ==> nodes@[j] != *target,
        decreases nodes.len() - i,
    {
        if nodes[i] == *target {
            proof {
                lemma_first_pos(edge.chain(), *target, i as int);
            }
            return i;
        }
        i += 1;
    }
    assert(false);
    0
}

/// The first position is the one with no earlier occurrence.
pub proof fn lemma_first_pos(c: Seq<NodeId>, x: NodeId, r: int)
    requires
        0 <= r < c.len(),
        c[r] == x,
        forall|j: int| 0 <= j < r ==> c[j] != x,
    ensures
        first_pos(c, x) == r,
{
    let f = first_pos(c, x);
    assert(0 <= f < c.len() && c[f] == x && forall|j: int| 0 <= j < f ==> c[j] != x);
    if f < r {
        assert(c[f] != x);
    }
    if r < f {
        assert(c[r] != x);
    }
}

/// The incident edges of `node`, as a set.
pub fn edges_to_hs(graph: &Graph, node: &NodeId) -> (r: HashSet<EdgeId>)
    requires
        graph.has_node(*node),
    ensures
        r@ == graph.incident(*node).to_set(),
{
    let list = graph.nodes().get(node).unwrap().edges();
    let mut r: HashSet<EdgeId> = HashSet::new();
    let mut i: usize = 0;
    while i < list.len()
        invariant
            list@ == graph.incident(*node),
            0 <= i <= list@.len(),
            r@ == list@.subrange(0, i as int).to_set(),
        decreases list.len() - i,
    {
        proof {
            assert(list@.subrange(0, i + 1) == list@.subrange(0, i as int).push(list@[i as int]));
            list@.subrange(0, i as int).lemma_push_to_set_commute(list@[i as int]);
        }
        r.insert(list[i]);
        i += 1;
    }
    assert(list@.subrange(0, i as int) == list@);
    r
}

/// The coordinates of the shape points strictly between `from` and `to` on
/// an edge they share, in travel order. When more than one edge joins them,
/// the first of `from`'s incident edges is taken; when none does, nothing.
pub fn intermediary_points(graph: &Graph, from: &NodeId, to: &NodeId) -> (r: Vec<Coord>)
    requires
        graph.wf(),
        graph.has_node(*from),
        graph.has_node(*to),
    ensures
        r@ == coords_of(*graph, interior(*graph, *from, *to)),
{
    let to_edges = edges_to_hs(graph, to);
    let from_list = graph.nodes().get(from).unwrap().edges();
    let mut i: usize = 0;
    assert(from_list@.subrange(0, from_list@.len() as int) == from_list@);
    while i < from_list.len() && !to_edges.contains(&from_list[i])
        invariant
            from_list@ == graph.incident(*from),
            to_edges@ == graph.incident(*to).to_set(),
            0 <= i <= from_list@.len(),
            first_shared(from_list@, to_edges@) == first_shared(
                from_list@.subrange(i as int, from_list@.len() as int),
                to_edges@,
            ),
        decreases from_list.len() - i,
    {
        let ghost rest = from_list@.subrange(i as int, from_list@.len() as int);
        assert(rest.drop_first() == from_list@.subrange(i + 1, from_list@.len() as int));
        i += 1;
    }
    let mut r: Vec<Coord> = Vec::new();
    if i == from_list.len() {
        return r;
    }
    let e = from_list[i];
    proof {
        assert(graph.incident(*from)[i as int] == e);
        assert(graph.incident(*to).to_set().contains(e));
    }
    let edge = graph.edges().get(&e).unwrap();
    let from_index = position_in_edge(edge, from);
    let to_index = position_in_edge(edge, to);
    let chain = edge.nodes();
    assert(from_index < chain.len());
    let ghost want = interior(*graph, *from, *to);
    if from_index > to_index {
        let mut k: usize = from_index;
        while k > to_index + 1
            invariant
                chain@ == graph.chain_of(e),
                to_index < k <= from_index < chain@.len(),
                want == reversed(chain@.subrange(to_index + 1, from_index as int)),
                forall|j: int| 0 <= j < chain@.len() ==> graph.has_node(#[trigger] chain@[j]),
                r@ == coords_of(*graph, want.subrange(0, (from_index - k) as int)),
            decreases k,
        {
            k -= 1;
            let n = chain[k];
            let p = *graph.nodes().get(&n).unwrap().point();
            proof {
                assert(want.subrange(0, (from_index - k) as int) == want.subrange(0, (from_index - k - 1) as int).push(n));
            }
            r.push(p);
        }
        assert(want.subrange(0, (from_index - k) as int) == want);
    } else {
        let mut k: usize = from_index + 1;
        while k < to_index
            invariant
                chain@ == graph.chain_of(e),
                from_index < k,
                from_index < to_index ==> k <= to_index,
                from_index == to_index ==> k == from_index + 1,
                to_index < chain@.len(),
                from_index < to_index ==> want == chain@.subrange(from_index + 1, to_index as int),
                from_index == to_index ==> want.len() == 0,
                forall|j: int| 0 <= j < chain@.len() ==> graph.has_node(#[trigger] chain@[j]),
                r@ == coords_of(*graph, chain@.subrange(from_index + 1, k as int)),
            decreases to_index - k,
        {
            let n = chain[k];
            let p = *graph.nodes().get(&n).unwrap().point();
            proof {
                assert(chain@.subrange(from_index + 1, k + 1) == chain@.subrange(from_index + 1, k as int).push(n));
            }
            r.push(p);
            k += 1;
        }
        if from_index == to_index {
            assert(r@ =~= coords_of(*graph, want));
        } else {
            assert(chain@.subrange(from_index + 1, k as int) == want);
        }
    }
    r
}


/// The dense polyline of an intersection-level route: the first node's
/// coordinate, then per hop the shape points between the two nodes and the
/// coordinate of the node reached.
pub fn dense_route(graph: &Graph, main_nodes: &Vec<NodeId>) -> (r: Vec<Coord>)
    requires
        graph.wf(),
        forall|k: int| 0 <= k < main_nodes@.len() ==> graph.has_node(#[trigger] main_nodes@[k]),
    ensures
        r@ == dense(*graph, main_nodes@),
{
    let mut r: Vec<Coord> = Vec::new();
    if main_nodes.len() == 0 {
        return r;
    }
    let first = *graph.nodes().get(&main_nodes[0]).unwrap().point();
    r.push(first);
    proof {
        assert(main_nodes@.subrange(0, 1).drop_last().len() == 0);
        assert(r@ =~= dense(*graph, main_nodes@.subrange(0, 1)));
    }
    let mut i: usize = 1;
    while i < main_nodes.len()
        invariant
            graph.wf(),
            forall|k: int| 0 <= k < main_nodes@.len() ==> graph.has_node(#[trigger] main_nodes@[k]),
            1 <= i <= main_nodes@.len(),
            r@ == dense(*graph, main_nodes@.subrange(0, i as int)),
        decreases main_nodes.len() - i,
    {
        let points = intermediary_points(graph, &main_nodes[i - 1], &main_nodes[i]);
        let mut j: usize = 0;
        let ghost before = r@;
        while j < points.len()
            invariant
                0 <= j <= points@.len(),
                r@ == before + points@.subrange(0, j as int),
            decreases points.len() - j,
        {
            r.push(points[j]);
            j += 1;
        }
        let here = *graph.nodes().get(&main_nodes[i]).unwrap().point();
        r.push(here);
        proof {
            let m = main_nodes@.subrange(0, i + 1);
            assert(m.drop_last() == main_nodes@.subrange(0, i as int));
            assert(m[m.len() - 2] == main_nodes@[i - 1]);
            assert(points@.subrange(0, j as int) == points@);
            assert(r@ =~= dense(*graph, m));
        }
        i += 1;
    }
    assert(main_nodes@.subrange(0, i as int) == main_nodes@);
    r
}

/// The polyline starts at the route's first node and ends at its last one;
/// so a route that returns to its start gives a closed polyline.
pub proof fn lemma_dense_ends(graph: Graph, m: Seq<NodeId>)
    requires
        m.len() > 0,
    ensures
        dense(graph, m).len() > 0,
        dense(graph, m)[0] == graph.coord_of(m[0]),
        dense(graph, m).last() == graph.coord_of(m.last()),
        m[0] == m.last() ==> dense(graph, m)[0] == dense(graph, m).last(),
    decreases m.len(),
{
    if m.len() > 1 {
        lemma_dense_ends(graph, m.drop_last());
    }
}

} // verus!
