//! Nodes, edges and the graph that owns them, all cross-referenced by id.

use std::collections::HashMap;
use vstd::prelude::*;

verus! {

/// Identifier of a node, as given by the source map.
pub type NodeId = u64;

/// Identifier of an edge: way id in the low 53 bits, chunk index above.
pub type EdgeId = u64;

/// A geographic position in decimicro-degrees (1e-7 degree), the unit the
/// source map stores.
#[derive(Clone, Copy, Debug, PartialEq, Eq, Structural)]
pub struct Coord {
    pub lat: i32,
    pub lon: i32,
}

impl Coord {
    pub fn new(lat: i32, lon: i32) -> (r: Coord)
        ensures
            r.lat == lat,
            r.lon == lon,
    {
        Coord { lat, lon }
    }
}

/// A node of the graph.
pub struct Node {
    id: NodeId,
    point: Coord,
    /// Incident edges, in the order they were discovered.
    edges: Vec<EdgeId>,
    /// Reserved desirability rating, 0 (unrated) to 255.
    greatness: u8,
}

impl Node {
    pub closed spec fn spec_id(&self) -> NodeId {
        self.id
    }

    pub closed spec fn spec_point(&self) -> Coord {
        self.point
    }

    pub closed spec fn spec_edges(&self) -> Seq<EdgeId> {
        self.edges@
    }

    pub closed spec fn spec_greatness(&self) -> u8 {
        self.greatness
    }

    /// A node at `point` with no incident edges yet.
    pub fn new(id: NodeId, point: Coord) -> (r: Node)
        ensures
            r.spec_id() == id,
            r.spec_point() == point,
            r.spec_edges() == Seq::<EdgeId>::empty(),
            r.spec_greatness() == 0,
    {
        Node { id, point, edges: Vec::new(), greatness: 0 }
    }

    pub fn id(&self) -> (r: &NodeId)
        ensures
            *r == self.spec_id(),
    {
        &self.id
    }

    pub fn point(&self) -> (r: &Coord)
        ensures
            *r == self.spec_point(),
    {
        &self.point
    }

    pub fn edges(&self) -> (r: &Vec<EdgeId>)
        ensures
            r@ == self.spec_edges(),
    {
        &self.edges
    }

    pub fn greatness(&self) -> (r: &u8)
        ensures
            *r == self.spec_greatness(),
    {
        &self.greatness
    }

    /// Appends `edge` to the incident-edge list.
    pub fn insert_edge(&mut self, edge: EdgeId)
        ensures
            final(self).spec_edges() == old(self).spec_edges().push(edge),
            final(self).spec_id() == old(self).spec_id(),
            final(self).spec_point() == old(self).spec_point(),
            final(self).spec_greatness() == old(self).spec_greatness(),
    {
        self.edges.push(edge);
    }
}

/// An edge: a chain of node ids from one intersection to the next.
pub struct Edge {
    id: EdgeId,
    /// Length along the whole chain, in millimetres.
    distance: u64,
    /// When set, the edge is traversable only from the first to the last node.
    directed: bool,
    nodes: Vec<NodeId>,
}

impl Edge {
    pub closed spec fn spec_id(&self) -> EdgeId {
        self.id
    }

    pub closed spec fn spec_distance(&self) -> u64 {
        self.distance
    }

    pub closed spec fn spec_directed(&self) -> bool {
        self.directed
    }

    pub closed spec fn chain(&self) -> Seq<NodeId> {
        self.nodes@
    }

    pub closed spec fn spec_s(&self) -> NodeId {
        self.nodes@[0]
    }

    pub closed spec fn spec_t(&self) -> NodeId {
        self.nodes@.last()
    }

    pub fn new(id: EdgeId, distance: u64, directed: bool, nodes: Vec<NodeId>) -> (r: Edge)
        ensures
            r.spec_id() == id,
            r.spec_distance() == distance,
            r.spec_directed() == directed,
            r.chain() == nodes@,
            nodes@.len() > 0 ==> r.spec_s() == nodes@[0] && r.spec_t() == nodes@.last(),
    {
        Edge { id, distance, directed, nodes }
    }

    /// The ends of an edge are the first and last node of its chain.
    pub proof fn lemma_ends(&self)
        ensures
            self.chain().len() > 0 ==> self.spec_s() == self.chain()[0] && self.spec_t()
                == self.chain().last(),
    {
    }

    pub fn id(&self) -> (r: &EdgeId)
        ensures
            *r == self.spec_id(),
    {
        &self.id
    }

    pub fn distance(&self) -> (r: &u64)
        ensures
            *r == self.spec_distance(),
    {
        &self.distance
    }

    pub fn directed(&self) -> (r: &bool)
        ensures
            *r == self.spec_directed(),
    {
        &self.directed
    }

    /// The first node; the tail of a directed edge.
    pub fn s(&self) -> (r: &NodeId)
        requires
            self.chain().len() > 0,
        ensures
            *r == self.spec_s(),
    {
        &self.nodes[0]
    }

    /// The last node; the head of a directed edge.
    pub fn t(&self) -> (r: &NodeId)
        requires
            self.chain().len() > 0,
        ensures
            *r == self.spec_t(),
    {
        &self.nodes[self.nodes.len() - 1]
    }

    /// The shape points strictly between the two ends.
    pub fn intermediary(&self) -> (r: Vec<NodeId>)
        ensures
            self.chain().len() < 2 ==> r@ == Seq::<NodeId>::empty(),
            self.chain().len() >= 2 ==> r@ == self.chain().subrange(1, self.chain().len() - 1),
    {
        let mut r: Vec<NodeId> = Vec::new();
        let n = self.nodes.len();
        if n < 2 {
            return r;
        }
        let mut i: usize = 1;
        while i + 1 < n
            invariant
                n == self.chain().len(),
                n >= 2,
                1 <= i <= n - 1,
                r@ == self.chain().subrange(1, i as int),
            decreases n - i,
        {
            r.push(self.nodes[i]);
            i += 1;
        }
        r
    }

    pub fn nodes(&self) -> (r: &Vec<NodeId>)
        ensures
            r@ == self.chain(),
    {
        &self.nodes
    }
}

/// The routable graph: nodes and edges in two id-keyed tables.
pub struct Graph {
    nodes: HashMap<NodeId, Node>,
    edges: HashMap<EdgeId, Edge>,
}

impl Graph {
    pub closed spec fn node_map(&self) -> Map<NodeId, Node> {
        self.nodes@
    }

    pub closed spec fn edge_map(&self) -> Map<EdgeId, Edge> {
        self.edges@
    }

    pub open spec fn has_node(&self, n: NodeId) -> bool {
        self.node_map().contains_key(n)
    }

    pub open spec fn has_edge(&self, e: EdgeId) -> bool {
        self.edge_map().contains_key(e)
    }

    /// Incident edges of node `n`.
    pub open spec fn incident(&self, n: NodeId) -> Seq<EdgeId> {
        self.node_map()[n].spec_edges()
    }

    pub open spec fn chain_of(&self, e: EdgeId) -> Seq<NodeId> {
        self.edge_map()[e].chain()
    }

    pub open spec fn coord_of(&self, n: NodeId) -> Coord {
        self.node_map()[n].spec_point()
    }

    /// Whether edge `e` may be left from node `n`: not when it is directed
    /// and `n` is its head.
    pub open spec fn usable(&self, e: EdgeId, n: NodeId) -> bool {
        !(self.edge_map()[e].spec_directed() && self.edge_map()[e].spec_t() == n)
    }

    /// Where edge `e` leads from node `n`: the tail when `n` is the head of an
    /// undirected edge, the head otherwise.
    pub open spec fn other_end(&self, e: EdgeId, n: NodeId) -> NodeId {
        let edge = self.edge_map()[e];
        if edge.spec_t() == n && !edge.spec_directed() {
            edge.spec_s()
        } else {
            edge.spec_t()
        }
    }

    /// One hop from `n` to `m` along an incident edge, respecting direction.
    pub open spec fn step(&self, n: NodeId, m: NodeId) -> bool {
        exists|i: int|
            0 <= i < self.incident(n).len() && self.has_edge(#[trigger] self.incident(n)[i])
                && self.usable(self.incident(n)[i], n) && self.other_end(self.incident(n)[i], n)
                == m
    }

    /// A non-empty sequence of nodes, each a hop from the one before.
    pub open spec fn is_walk(&self, p: Seq<NodeId>) -> bool {
        &&& p.len() > 0
        &&& self.has_node(p[0])
        &&& forall|i: int| 0 <= i < p.len() - 1 ==> #[trigger] self.step(p[i], p[i + 1])
    }

    pub open spec fn reachable(&self, a: NodeId, b: NodeId) -> bool {
        exists|p: Seq<NodeId>| self.is_walk(p) && p[0] == a && p.last() == b
    }

    /// What a search needs: incident edges exist, chains are non-empty and
    /// their ends are nodes.
    pub open spec fn searchable(&self) -> bool {
        &&& forall|n: NodeId, i: int|
            self.has_node(n) && 0 <= i < self.incident(n).len() ==> self.has_edge(
                #[trigger] self.incident(n)[i],
            )
        &&& forall|e: EdgeId| #[trigger]
            self.has_edge(e) ==> self.chain_of(e).len() > 0 && self.has_node(
                self.edge_map()[e].spec_s(),
            ) && self.has_node(self.edge_map()[e].spec_t())
    }

    /// The graph invariant: every chain holds at least two nodes, all of them
    /// nodes of the graph; a node lists only edges whose chain holds it; and
    /// every node of a chain lists that edge.
    pub open spec fn wf(&self) -> bool {
        &&& forall|e: EdgeId| #[trigger]
            self.has_edge(e) ==> self.chain_of(e).len() >= 2
        &&& forall|e: EdgeId, j: int|
            self.has_edge(e) && 0 <= j < self.chain_of(e).len() ==> self.has_node(
                #[trigger] self.chain_of(e)[j],
            )
        &&& forall|n: NodeId, i: int|
            self.has_node(n) && 0 <= i < self.incident(n).len() ==> self.has_edge(
                #[trigger] self.incident(n)[i],
            ) && self.chain_of(self.incident(n)[i]).contains(n)
        &&& forall|e: EdgeId, j: int|
            self.has_edge(e) && 0 <= j < self.chain_of(e).len() ==> self.incident(
                #[trigger] self.chain_of(e)[j],
            ).contains(e)
    }

    /// A well-formed graph can be searched.
    pub proof fn lemma_wf_searchable(&self)
        requires
            self.wf(),
        ensures
            self.searchable(),
    {
        assert forall|e: EdgeId| #[trigger] self.has_edge(e) implies self.chain_of(e).len() > 0
            && self.has_node(self.edge_map()[e].spec_s()) && self.has_node(self.edge_map()[e].spec_t()) by {
            let c = self.chain_of(e);
            assert(self.has_node(c[0]));
            assert(self.has_node(c[c.len() - 1]));
        }
    }

    pub proof fn lemma_finite(&self)
        ensures
            self.node_map().dom().finite(),
            self.edge_map().dom().finite(),
    {
        vstd::std_specs::hash::axiom_hashmap_view_finite_dom(self.nodes);
        vstd::std_specs::hash::axiom_hashmap_view_finite_dom(self.edges);
    }

    pub fn new(nodes: HashMap<NodeId, Node>, edges: HashMap<EdgeId, Edge>) -> (r: Graph)
        ensures
            r.node_map() == nodes@,
            r.edge_map() == edges@,
    {
        Graph { nodes, edges }
    }

    pub fn nodes(&self) -> (r: &HashMap<NodeId, Node>)
        ensures
            r@ == self.node_map(),
    {
        &self.nodes
    }

    pub fn edges(&self) -> (r: &HashMap<EdgeId, Edge>)
        ensures
            r@ == self.edge_map(),
    {
        &self.edges
    }
}

} // verus!
