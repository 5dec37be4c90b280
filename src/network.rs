//! Compiling a routable graph out of classified ways: intersection detection,
//! chunking at intersections and edge materialisation.

use std::collections::HashMap;
use vstd::prelude::*;

use crate::graph::{Coord, Edge, EdgeId, Graph, Node, NodeId};

verus! {

/// The largest way id an edge id can carry (2^53 - 1).
pub const MAX_WAY_ID: u64 = 0x1F_FFFF_FFFF_FFFF;

/// How many edges one way may yield (2^11).
pub const MAX_CHUNKS: u64 = 2048;

/// A way already classified as bikeable, with its measured geometry.
pub struct Way {
    pub id: u64,
    /// Member nodes, from the way's start to its end.
    pub nodes: Vec<NodeId>,
    /// `lengths[i]` is the distance in millimetres from `nodes[i]` to `nodes[i + 1]`.
    pub lengths: Vec<u64>,
    /// One-way: traversable only in the order of `nodes`.
    pub directed: bool,
}

/// Why a graph could not be built.
#[derive(Clone, Copy, Debug, PartialEq, Eq, Structural)]
pub enum BuildError {
    /// A way id does not fit in 53 bits.
    WayIdTooLarge(u64),
    /// A way yields more edges than an edge id can number.
    TooManyChunks(u64),
    /// A node of a retained chunk has no coordinate.
    MissingNode(NodeId),
}

pub open spec fn spec_edge_id(way: u64, index: u64) -> u64 {
    (index << 53u64) | way
}

pub open spec fn spec_way_of(e: EdgeId) -> u64 {
    e & 0x1F_FFFF_FFFF_FFFFu64
}

pub open spec fn spec_chunk_of(e: EdgeId) -> u64 {
    e >> 53u64
}

/// The id of the `index`-th retained chunk of way `way`.
pub fn edge_id(way: u64, index: u64) -> (r: EdgeId)
    requires
        way <= MAX_WAY_ID,
        index < MAX_CHUNKS,
    ensures
        r == spec_edge_id(way, index),
        spec_way_of(r) == way,
        spec_chunk_of(r) == index,
{
    proof {
        lemma_edge_id_round_trip(way, index);
    }
    (index << 53u64) | way
}

/// The way an edge was cut from.
pub fn way_of(e: EdgeId) -> (r: u64)
    ensures
        r == spec_way_of(e),
        r <= MAX_WAY_ID,
{
    assert(e & 0x1F_FFFF_FFFF_FFFFu64 <= 0x1F_FFFF_FFFF_FFFFu64) by (bit_vector);
    e & 0x1F_FFFF_FFFF_FFFFu64
}

/// The position of an edge among its way's retained chunks.
pub fn chunk_of(e: EdgeId) -> (r: u64)
    ensures
        r == spec_chunk_of(e),
        r < MAX_CHUNKS,
{
    assert(e >> 53u64 < 2048u64) by (bit_vector);
    e >> 53u64
}

/// Decoding an edge id gives back the way id and the chunk index it was made of.
pub proof fn lemma_edge_id_round_trip(way: u64, index: u64)
    requires
        way <= MAX_WAY_ID,
        index < MAX_CHUNKS,
    ensures
        spec_way_of(spec_edge_id(way, index)) == way,
        spec_chunk_of(spec_edge_id(way, index)) == index,
{
    assert(((index << 53u64) | way) & 0x1F_FFFF_FFFF_FFFFu64 == way) by (bit_vector)
        requires
            way <= 0x1F_FFFF_FFFF_FFFFu64,
            index < 2048u64,
    ;
    assert(((index << 53u64) | way) >> 53u64 == index) by (bit_vector)
        requires
            way <= 0x1F_FFFF_FFFF_FFFFu64,
            index < 2048u64,
    ;
}

/// How often `n` occurs in `s`.
pub open spec fn count_in(s: Seq<NodeId>, n: NodeId) -> nat
    decreases s.len(),
{
    if s.len() == 0 {
        0
    } else {
        count_in(s.drop_last(), n) + if s.last() == n {
            1nat
        } else {
            0nat
        }
    }
}

/// The member lists of all ways, one after the other.
pub open spec fn flat(ways: Seq<Way>) -> Seq<NodeId>
    decreases ways.len(),
{
    if ways.len() == 0 {
        Seq::empty()
    } else {
        flat(ways.drop_last()) + ways.last().nodes@
    }
}

/// Every referenced node, flagged as an intersection when it occurs more
/// than once over all ways.
pub open spec fn intersection_flags(ways: Seq<Way>) -> Map<NodeId, bool> {
    Map::new(|n: NodeId| flat(ways).contains(n), |n: NodeId| count_in(flat(ways), n) > 1)
}

/// Detects intersections: a node seen a second time, in the same way or
/// another, is an intersection.
pub fn detect_intersections(ways: &Vec<Way>) -> (r: HashMap<NodeId, bool>)
    ensures
        r@ == intersection_flags(ways@),
{
    let mut r: HashMap<NodeId, bool> = HashMap::new();
    let mut i: usize = 0;
    while i < ways.len()
        invariant
            0 <= i <= ways.len(),
            forall|n: NodeId| #[trigger]
                r@.contains_key(n) <==> flat(ways@.subrange(0, i as int)).contains(n),
            forall|n: NodeId| #[trigger]
                r@.contains_key(n) ==> r@[n] == (count_in(flat(ways@.subrange(0, i as int)), n)
                    > 1),
        decreases ways.len() - i,
    {
        let nodes = &ways[i].nodes;
        let ghost before = flat(ways@.subrange(0, i as int));
        let mut j: usize = 0;
        while j < nodes.len()
            invariant
                0 <= j <= nodes.len(),
                nodes@ == ways@[i as int].nodes@,
                forall|n: NodeId| #[trigger]
                    r@.contains_key(n) <==> (before + nodes@.subrange(0, j as int)).contains(n),
                forall|n: NodeId| #[trigger]
                    r@.contains_key(n) ==> r@[n] == (count_in(
                        before + nodes@.subrange(0, j as int),
                        n,
                    ) > 1),
            decreases nodes.len() - j,
        {
            let n = nodes[j];
            let ghost p = before + nodes@.subrange(0, j as int);
            let ghost q = before + nodes@.subrange(0, j + 1);
            assert(q.drop_last() == p);
            assert(q.last() == n);
            proof {
                assert forall|x: NodeId| q.contains(x) <==> (p.contains(x) || x == n) by {
                    if q.contains(x) {
                        let k = choose|k: int| 0 <= k < q.len() && q[k] == x;
                        if k < p.len() {
                            assert(p[k] == x);
                        }
                    }
                    if p.contains(x) {
                        let k = choose|k: int| 0 <= k < p.len() && p[k] == x;
                        assert(q[k] == x);
                    }
                    if x == n {
                        assert(q[q.len() - 1] == x);
                    }
                }
                lemma_count_positive(p, n);
            }
            if r.contains_key(&n) {
                r.insert(n, true);
            } else {
                r.insert(n, false);
            }
            j += 1;
        }
        assert(ways@.subrange(0, i + 1).drop_last() == ways@.subrange(0, i as int));
        assert(nodes@.subrange(0, j as int) == nodes@);
        i += 1;
    }
    assert(ways@.subrange(0, i as int) == ways@);
    assert(r@ == intersection_flags(ways@));
    r
}

/// Whether `flags` marks `n` as an intersection.
pub open spec fn is_cut(flags: Map<NodeId, bool>, n: NodeId) -> bool {
    flags.contains_key(n) && flags[n]
}

/// The positions in `s` of intersection nodes, in ascending order.
pub open spec fn cuts(flags: Map<NodeId, bool>, s: Seq<NodeId>) -> Seq<int>
    decreases s.len(),
{
    if s.len() == 0 {
        Seq::empty()
    } else if is_cut(flags, s.last()) {
        cuts(flags, s.drop_last()).push(s.len() - 1)
    } else {
        cuts(flags, s.drop_last())
    }
}

/// The chunks of `s` between consecutive intersections, each holding both of
/// its bounding intersections; the dangling ends before the first and after
/// the last intersection are left out.
pub open spec fn interior_chunks(flags: Map<NodeId, bool>, s: Seq<NodeId>) -> Seq<Seq<NodeId>> {
    let c = cuts(flags, s);
    if c.len() < 2 {
        Seq::empty()
    } else {
        Seq::new((c.len() - 1) as nat, |m: int| s.subrange(c[m], c[m + 1] + 1))
    }
}

/// Cut positions are ascending indices into `s`.
pub proof fn lemma_cuts_sorted(flags: Map<NodeId, bool>, s: Seq<NodeId>)
    ensures
        forall|m: int| 0 <= m < cuts(flags, s).len() ==> 0 <= #[trigger] cuts(flags, s)[m] < s.len(),
        forall|m: int|
            0 <= m < cuts(flags, s).len() ==> is_cut(flags, s[#[trigger] cuts(flags, s)[m]]),
        forall|a: int, b: int|
            0 <= a < b < cuts(flags, s).len() ==> #[trigger] cuts(flags, s)[a]
                < #[trigger] cuts(flags, s)[b],
    decreases s.len(),
{
    if s.len() > 0 {
        let t = s.drop_last();
        lemma_cuts_sorted(flags, t);
        let c = cuts(flags, s);
        let ct = cuts(flags, t);
        assert forall|m: int| 0 <= m < c.len() implies 0 <= #[trigger] c[m] < s.len() && is_cut(
            flags,
            s[c[m]],
        ) by {
            if m < ct.len() {
                assert(c[m] == ct[m]);
                assert(s[ct[m]] == t[ct[m]]);
            }
        }
    }
}

/// The cut positions of a prefix one longer than `s.subrange(0, j)`.
pub proof fn lemma_cuts_extend(flags: Map<NodeId, bool>, s: Seq<NodeId>, j: int)
    requires
        0 <= j < s.len(),
    ensures
        cuts(flags, s.subrange(0, j + 1)) == if is_cut(flags, s[j]) {
            cuts(flags, s.subrange(0, j)).push(j)
        } else {
            cuts(flags, s.subrange(0, j))
        },
{
    assert(s.subrange(0, j + 1).drop_last() == s.subrange(0, j));
}

/// A copy of `v[a..b]`.
fn copy_range(v: &Vec<NodeId>, a: usize, b: usize) -> (r: Vec<NodeId>)
    requires
        a <= b <= v@.len(),
    ensures
        r@ == v@.subrange(a as int, b as int),
{
    let mut r: Vec<NodeId> = Vec::new();
    let mut k: usize = a;
    while k < b
        invariant
            a <= k <= b <= v@.len(),
            r@ == v@.subrange(a as int, k as int),
        decreases b - k,
    {
        r.push(v[k]);
        k += 1;
    }
    r
}

/// Splits a way at every intersection and keeps the chunks between two
/// intersections; `None` when the way has fewer than two intersection
/// occurrences and so contributes nothing.
pub fn chunk_up(flags: &HashMap<NodeId, bool>, way: &Way) -> (r: Option<Vec<Vec<NodeId>>>)
    requires
        forall|k: int| 0 <= k < way.nodes@.len() ==> flags@.contains_key(#[trigger] way.nodes@[k]),
    ensures
        r is None <==> cuts(flags@, way.nodes@).len() < 2,
        r matches Some(cs) ==> cs@.len() == interior_chunks(flags@, way.nodes@).len() && forall|
            m: int,
        |
            0 <= m < cs@.len() ==> #[trigger] cs@[m]@ == interior_chunks(flags@, way.nodes@)[m],
{
    let nodes = &way.nodes;
    let ghost s = nodes@;
    let mut chunks: Vec<Vec<NodeId>> = Vec::new();
    let mut last: Option<usize> = None;
    let mut j: usize = 0;
    while j < nodes.len()
        invariant
            0 <= j <= nodes.len(),
            s == nodes@,
            s == way.nodes@,
            forall|k: int| 0 <= k < s.len() ==> flags@.contains_key(#[trigger] s[k]),
            ({
                let c = cuts(flags@, s.subrange(0, j as int));
                &&& (last is None <==> c.len() == 0)
                &&& (last matches Some(a) ==> a == c.last())
                &&& chunks@.len() == if c.len() == 0 {
                    0
                } else {
                    c.len() - 1
                }
                &&& forall|m: int|
                    0 <= m < chunks@.len() ==> #[trigger] chunks@[m]@ == s.subrange(
                        c[m],
                        c[m + 1] + 1,
                    )
            }),
        decreases nodes.len() - j,
    {
        let ghost c0 = cuts(flags@, s.subrange(0, j as int));
        proof {
            lemma_cuts_extend(flags@, s, j as int);
            lemma_cuts_sorted(flags@, s.subrange(0, j as int));
        }
        let n = nodes[j];
        let cut = *flags.get(&n).unwrap();
        if cut {
            match last {
                Some(a) => {
                    proof {
                        assert(c0.len() > 0);
                        assert(0 <= c0[c0.len() - 1] < j);
                    }
                    let chunk = copy_range(nodes, a, j + 1);
                    chunks.push(chunk);
                },
                None => {},
            }
            last = Some(j);
        }
        proof {
            let c1 = cuts(flags@, s.subrange(0, j + 1));
            assert forall|m: int| 0 <= m < chunks@.len() implies #[trigger] chunks@[m]@
                == s.subrange(c1[m], c1[m + 1] + 1) by {
                if cut && m == chunks@.len() - 1 && c0.len() > 0 {
                } else {
                    assert(c1[m] == c0[m]);
                    assert(c1[m + 1] == c0[m + 1]);
                }
            }
        }
        j += 1;
    }
    assert(s.subrange(0, j as int) == s);
    if chunks.len() == 0 {
        None
    } else {
        Some(chunks)
    }
}

/// Sum of a sequence of lengths.
pub open spec fn seq_sum(s: Seq<u64>) -> int
    decreases s.len(),
{
    if s.len() == 0 {
        0
    } else {
        seq_sum(s.drop_last()) + s.last()
    }
}

/// `x`, saturated at `u64::MAX`.
pub open spec fn capped(x: int) -> u64 {
    if x > u64::MAX {
        u64::MAX
    } else if x < 0 {
        0
    } else {
        x as u64
    }
}

/// Member and length lists agree: one length per consecutive pair.
pub open spec fn way_shaped(w: Way) -> bool {
    (w.nodes@.len() == 0 && w.lengths@.len() == 0) || w.lengths@.len() + 1 == w.nodes@.len()
}

/// What `weave` asks of its input: measured ways with distinct ids.
pub open spec fn ways_valid(ways: Seq<Way>) -> bool {
    &&& forall|i: int| 0 <= i < ways.len() ==> way_shaped(#[trigger] ways[i])
    &&& forall|i: int, j: int|
        0 <= i < j < ways.len() ==> #[trigger] ways[i].id != #[trigger] ways[j].id
}

/// The retained chunks of the `i`-th way.
pub open spec fn way_chunks(ways: Seq<Way>, i: int) -> Seq<Seq<NodeId>> {
    interior_chunks(intersection_flags(ways), ways[i].nodes@)
}

pub open spec fn is_chunk(ways: Seq<Way>, i: int, m: int) -> bool {
    0 <= i < ways.len() && 0 <= m < way_chunks(ways, i).len()
}

/// The id of the edge made of chunk `m` of way `i`.
pub open spec fn chunk_edge(ways: Seq<Way>, i: int, m: int) -> EdgeId {
    spec_edge_id(ways[i].id, m as u64)
}

/// The length of chunk `m` of way `i`: its segment lengths summed, saturating.
pub open spec fn chunk_length(ways: Seq<Way>, i: int, m: int) -> u64 {
    let c = cuts(intersection_flags(ways), ways[i].nodes@);
    capped(seq_sum(ways[i].lengths@.subrange(c[m], c[m + 1])))
}

/// `edge` is the one made of chunk `m` of way `i`.
pub open spec fn edge_is(edge: Edge, ways: Seq<Way>, i: int, m: int) -> bool {
    &&& edge.spec_id() == chunk_edge(ways, i, m)
    &&& edge.chain() == way_chunks(ways, i)[m]
    &&& edge.spec_directed() == ways[i].directed
    &&& edge.spec_distance() == chunk_length(ways, i, m)
}

pub open spec fn ids_fit(ways: Seq<Way>) -> bool {
    forall|i: int| 0 <= i < ways.len() ==> (#[trigger] ways[i]).id <= MAX_WAY_ID
}

pub open spec fn chunks_fit(ways: Seq<Way>) -> bool {
    forall|i: int| 0 <= i < ways.len() ==> #[trigger] way_chunks(ways, i).len() <= MAX_CHUNKS
}

/// Node `n` lies on some retained chunk.
pub open spec fn on_chunk(ways: Seq<Way>, n: NodeId) -> bool {
    exists|i: int, m: int, k: int|
        is_chunk(ways, i, m) && 0 <= k < way_chunks(ways, i)[m].len() && #[trigger] way_chunks(
            ways,
            i,
        )[m][k] == n
}

pub open spec fn coords_cover(ways: Seq<Way>, coords: Map<NodeId, Coord>) -> bool {
    forall|n: NodeId| on_chunk(ways, n) ==> coords.contains_key(n)
}

/// `g` is the graph compiled from `ways` and `coords`: one edge per retained
/// chunk and nothing else, one node per node of a retained chunk, placed at
/// its coordinate.
pub open spec fn built_from(g: Graph, ways: Seq<Way>, coords: Map<NodeId, Coord>) -> bool {
    &&& g.wf()
    &&& forall|i: int, m: int| #[trigger]
        is_chunk(ways, i, m) ==> g.has_edge(chunk_edge(ways, i, m)) && edge_is(
            g.edge_map()[chunk_edge(ways, i, m)],
            ways,
            i,
            m,
        )
    &&& forall|e: EdgeId| #[trigger]
        g.has_edge(e) ==> exists|i: int, m: int| is_chunk(ways, i, m) && e == chunk_edge(ways, i, m)
    &&& forall|n: NodeId| #[trigger] g.has_node(n) <==> on_chunk(ways, n)
    &&& forall|n: NodeId| #[trigger]
        g.has_node(n) ==> g.node_map()[n].spec_id() == n && g.coord_of(n) == coords[n]
            && g.node_map()[n].spec_greatness() == 0
}

/// Every member node of every way has a coordinate.
pub open spec fn members_covered(ways: Seq<Way>, coords: Map<NodeId, Coord>) -> bool {
    forall|i: int, k: int|
        0 <= i < ways.len() && 0 <= k < ways[i].nodes@.len() ==> coords.contains_key(
            #[trigger] ways[i].nodes@[k],
        )
}

/// A node of a retained chunk is a member node of its way.
pub proof fn lemma_on_chunk_member(ways: Seq<Way>, n: NodeId)
    requires
        on_chunk(ways, n),
    ensures
        exists|i: int, k: int|
            0 <= i < ways.len() && 0 <= k < ways[i].nodes@.len() && #[trigger] ways[i].nodes@[k] == n,
{
    let (i, m, k) = choose|i: int, m: int, k: int|
        is_chunk(ways, i, m) && 0 <= k < way_chunks(ways, i)[m].len() && #[trigger] way_chunks(ways, i)[m][k] == n;
    let s = ways[i].nodes@;
    let c = cuts(intersection_flags(ways), s);
    lemma_cuts_sorted(intersection_flags(ways), s);
    assert(c[m] < c[m + 1]);
    assert(s[c[m] + k] == n);
}

pub proof fn lemma_flat_contains(ways: Seq<Way>, i: int, k: int)
    requires
        0 <= i < ways.len(),
        0 <= k < ways[i].nodes@.len(),
    ensures
        flat(ways).contains(ways[i].nodes@[k]),
    decreases ways.len(),
{
    let f = flat(ways);
    let f0 = flat(ways.drop_last());
    if i == ways.len() - 1 {
        assert(f[f0.len() + k] == ways[i].nodes@[k]);
    } else {
        lemma_flat_contains(ways.drop_last(), i, k);
        let q = choose|q: int| 0 <= q < f0.len() && f0[q] == ways[i].nodes@[k];
        assert(f[q] == f0[q]);
    }
}

pub proof fn lemma_capped_add(x: int, y: int)
    requires
        x >= 0,
        0 <= y <= u64::MAX,
    ensures
        capped(capped(x) + y) == capped(x + y),
{
}

/// The cut positions of a way, as indices.
pub fn cut_positions(flags: &HashMap<NodeId, bool>, way: &Way) -> (r: Vec<usize>)
    requires
        forall|k: int| 0 <= k < way.nodes@.len() ==> flags@.contains_key(#[trigger] way.nodes@[k]),
    ensures
        r@.len() == cuts(flags@, way.nodes@).len(),
        forall|m: int| 0 <= m < r@.len() ==> r@[m] as int == #[trigger] cuts(flags@, way.nodes@)[m],
{
    let nodes = &way.nodes;
    let ghost s = nodes@;
    let mut r: Vec<usize> = Vec::new();
    let mut j: usize = 0;
    while j < nodes.len()
        invariant
            0 <= j <= nodes.len(),
            s == nodes@,
            s == way.nodes@,
            forall|k: int| 0 <= k < s.len() ==> flags@.contains_key(#[trigger] s[k]),
            r@.len() == cuts(flags@, s.subrange(0, j as int)).len(),
            forall|m: int|
                0 <= m < r@.len() ==> r@[m] as int == #[trigger] cuts(
                    flags@,
                    s.subrange(0, j as int),
                )[m],
        decreases nodes.len() - j,
    {
        proof {
            lemma_cuts_extend(flags@, s, j as int);
        }
        if *flags.get(&nodes[j]).unwrap() {
            r.push(j);
        }
        j += 1;
    }
    assert(s.subrange(0, j as int) == s);
    r
}

/// The summed lengths `lengths[a..b]`, saturating.
fn span_length(lengths: &Vec<u64>, a: usize, b: usize) -> (r: u64)
    requires
        a <= b <= lengths@.len(),
    ensures
        r == capped(seq_sum(lengths@.subrange(a as int, b as int))),
{
    let mut acc: u64 = 0;
    let mut t: usize = a;
    while t < b
        invariant
            a <= t <= b <= lengths@.len(),
            acc == capped(seq_sum(lengths@.subrange(a as int, t as int))),
        decreases b - t,
    {
        proof {
            let p = lengths@.subrange(a as int, t + 1);
            assert(p.drop_last() == lengths@.subrange(a as int, t as int));
            lemma_seq_sum_nonneg(lengths@.subrange(a as int, t as int));
            lemma_capped_add(seq_sum(lengths@.subrange(a as int, t as int)), lengths@[t as int] as int);
        }
        acc = acc.saturating_add(lengths[t]);
        t += 1;
    }
    acc
}

pub proof fn lemma_seq_sum_nonneg(s: Seq<u64>)
    ensures
        seq_sum(s) >= 0,
    decreases s.len(),
{
    if s.len() > 0 {
        lemma_seq_sum_nonneg(s.drop_last());
    }
}

/// Creates node `n` at `point` unless it exists, then appends `e` to its
/// incident edges.
fn register(nodes: &mut HashMap<NodeId, Node>, n: NodeId, point: Coord, e: EdgeId)
    ensures
        final(nodes)@.dom() == old(nodes)@.dom().insert(n),
        forall|x: NodeId|
            x != n && old(nodes)@.contains_key(x) ==> final(nodes)@[x] == old(nodes)@[x],
        old(nodes)@.contains_key(n) ==> {
            &&& final(nodes)@[n].spec_id() == old(nodes)@[n].spec_id()
            &&& final(nodes)@[n].spec_point() == old(nodes)@[n].spec_point()
            &&& final(nodes)@[n].spec_edges() == old(nodes)@[n].spec_edges().push(e)
            &&& final(nodes)@[n].spec_greatness() == old(nodes)@[n].spec_greatness()
        },
        !old(nodes)@.contains_key(n) ==> {
            &&& final(nodes)@[n].spec_id() == n
            &&& final(nodes)@[n].spec_point() == point
            &&& final(nodes)@[n].spec_edges() == seq![e]
            &&& final(nodes)@[n].spec_greatness() == 0
        },
{
    match nodes.remove(&n) {
        Some(node) => {
            let mut node = node;
            node.insert_edge(e);
            nodes.insert(n, node);
        },
        None => {
            let mut node = Node::new(n, point);
            node.insert_edge(e);
            nodes.insert(n, node);
        },
    }
}

/// Chunk `(i, m)` comes before the position `(i0, m0)` of the build.
pub open spec fn done(i0: int, m0: int, i: int, m: int) -> bool {
    i < i0 || (i == i0 && m < m0)
}

/// The index of the way with id `id`.
pub open spec fn way_index(ways: Seq<Way>, id: u64) -> int {
    choose|i: int| 0 <= i < ways.len() && ways[i].id == id
}

/// The chunk an edge id was made of.
pub open spec fn origin(ways: Seq<Way>, e: EdgeId) -> (int, int) {
    (way_index(ways, spec_way_of(e)), spec_chunk_of(e) as int)
}

/// Position `j` of edge `e`'s chain is not registered yet.
pub open spec fn exempt(pending: Option<(EdgeId, int)>, e: EdgeId, j: int) -> bool {
    match pending {
        Some(p) => e == p.0 && j >= p.1,
        None => false,
    }
}

/// The state of a build that has materialised every chunk before `(i0, m0)`;
/// `pending` names an edge whose chain is registered only up to a position.
pub open spec fn partial(
    ways: Seq<Way>,
    coords: Map<NodeId, Coord>,
    nodes: Map<NodeId, Node>,
    edges: Map<EdgeId, Edge>,
    i0: int,
    m0: int,
    pending: Option<(EdgeId, int)>,
) -> bool {
    &&& forall|e: EdgeId| #[trigger]
        edges.contains_key(e) ==> {
            let o = origin(ways, e);
            &&& is_chunk(ways, o.0, o.1)
            &&& done(i0, m0, o.0, o.1)
            &&& e == chunk_edge(ways, o.0, o.1)
            &&& edge_is(edges[e], ways, o.0, o.1)
        }
    &&& forall|i: int, m: int| #[trigger]
        is_chunk(ways, i, m) && done(i0, m0, i, m) ==> edges.contains_key(chunk_edge(ways, i, m))
    &&& forall|e: EdgeId, j: int|
        edges.contains_key(e) && 0 <= j < edges[e].chain().len() && !exempt(pending, e, j)
            ==> nodes.contains_key(#[trigger] edges[e].chain()[j]) && nodes[edges[e].chain()[j]].spec_edges().contains(e)
    &&& forall|n: NodeId| #[trigger]
        nodes.contains_key(n) ==> {
            &&& nodes[n].spec_id() == n
            &&& coords.contains_key(n)
            &&& nodes[n].spec_point() == coords[n]
            &&& nodes[n].spec_edges().len() > 0
            &&& nodes[n].spec_greatness() == 0
        }
    &&& forall|n: NodeId, q: int|
        nodes.contains_key(n) && 0 <= q < nodes[n].spec_edges().len() ==> edges.contains_key(
            #[trigger] nodes[n].spec_edges()[q],
        ) && edges[nodes[n].spec_edges()[q]].chain().contains(n)
}

/// The edge id of chunk `(i, m)` leads back to that chunk.
pub proof fn lemma_origin(ways: Seq<Way>, i: int, m: int)
    requires
        ways_valid(ways),
        ids_fit(ways),
        0 <= i < ways.len(),
        0 <= m < MAX_CHUNKS,
    ensures
        origin(ways, chunk_edge(ways, i, m)) == (i, m),
{
    lemma_edge_id_round_trip(ways[i].id, m as u64);
    let e = chunk_edge(ways, i, m);
    assert(0 <= i < ways.len() && ways[i].id == spec_way_of(e));
    let w = way_index(ways, spec_way_of(e));
    if w != i {
        if w < i {
            assert(ways[w].id != ways[i].id);
        } else {
            assert(ways[i].id != ways[w].id);
        }
    }
}

/// Materialises chunk `m` of way `i` as an edge and registers its nodes.
fn add_chunk(
    ways: &Vec<Way>,
    coords: &HashMap<NodeId, Coord>,
    nodes: &mut HashMap<NodeId, Node>,
    edges: &mut HashMap<EdgeId, Edge>,
    i: usize,
    m: usize,
    chunk: &Vec<NodeId>,
    a: usize,
    b: usize,
) -> (r: Result<(), BuildError>)
    requires
        ways_valid(ways@),
        ids_fit(ways@),
        is_chunk(ways@, i as int, m as int),
        m < MAX_CHUNKS,
        chunk@ == way_chunks(ways@, i as int)[m as int],
        a == cuts(intersection_flags(ways@), ways@[i as int].nodes@)[m as int],
        b == cuts(intersection_flags(ways@), ways@[i as int].nodes@)[m + 1],
        partial(ways@, coords@, old(nodes)@, old(edges)@, i as int, m as int, None),
    ensures
        r is Ok ==> partial(ways@, coords@, final(nodes)@, final(edges)@, i as int, m + 1, None),
        r matches Err(err) ==> (err matches BuildError::MissingNode(n) && on_chunk(ways@, n)
            && !coords@.contains_key(n)),
{
    let way = &ways[i];
    let ghost ws = ways@;
    let ghost flags = intersection_flags(ws);
    let ghost c = cuts(flags, way.nodes@);
    proof {
        lemma_cuts_sorted(flags, way.nodes@);
        assert(c[m as int] < c[m + 1]);
        assert(ws[i as int] == *way);
        assert(way_shaped(ws[i as int]));
    }
    let d = span_length(&way.lengths, a, b);
    let e = edge_id(way.id, m as u64);
    proof {
        lemma_origin(ws, i as int, m as int);
        assert(!old(edges)@.contains_key(e));
    }
    let copy = copy_range(chunk, 0, chunk.len());
    assert(copy@ == chunk@);
    let edge = Edge::new(e, d, way.directed, copy);
    edges.insert(e, edge);
    proof {
        assert forall|i2: int, m2: int| #[trigger]
            is_chunk(ws, i2, m2) && done(i as int, m + 1, i2, m2) implies edges@.contains_key(
            chunk_edge(ws, i2, m2),
        ) by {
            if i2 == i && m2 == m {
            } else {
                assert(done(i as int, m as int, i2, m2));
            }
        }
    }
    let mut k: usize = 0;
    while k < chunk.len()
        invariant
            ways_valid(ws),
            ws == ways@,
            0 <= k <= chunk@.len(),
            edges@.contains_key(e),
            edges@[e].chain() == chunk@,
            chunk@ == way_chunks(ws, i as int)[m as int],
            is_chunk(ws, i as int, m as int),
            partial(ws, coords@, nodes@, edges@, i as int, m + 1, Some((e, k as int))),
        decreases chunk@.len() - k,
    {
        let n = chunk[k];
        let point = match coords.get(&n) {
            Some(p) => *p,
            None => {
                proof {
                    assert(way_chunks(ws, i as int)[m as int][k as int] == n);
                }
                return Err(BuildError::MissingNode(n));
            },
        };
        let ghost before = nodes@;
        register(nodes, n, point, e);
        proof {
            let pend = Some((e, k + 1));
            assert forall|e2: EdgeId, j: int|
                edges@.contains_key(e2) && 0 <= j < edges@[e2].chain().len() && !exempt(
                    pend,
                    e2,
                    j,
                ) implies nodes@.contains_key(#[trigger] edges@[e2].chain()[j])
                && nodes@[edges@[e2].chain()[j]].spec_edges().contains(e2) by {
                let x = edges@[e2].chain()[j];
                if e2 == e && j == k {
                    if before.contains_key(n) {
                        assert(nodes@[n].spec_edges().last() == e);
                    } else {
                        assert(nodes@[n].spec_edges()[0] == e);
                    }
                } else {
                    assert(before.contains_key(x) && before[x].spec_edges().contains(e2));
                    if x == n {
                        let q = choose|q: int|
                            0 <= q < before[x].spec_edges().len() && before[x].spec_edges()[q]
                                == e2;
                        assert(nodes@[x].spec_edges()[q] == e2);
                    }
                }
            }
            assert forall|n2: NodeId, q: int|
                nodes@.contains_key(n2) && 0 <= q < nodes@[n2].spec_edges().len()
                    implies edges@.contains_key(#[trigger] nodes@[n2].spec_edges()[q])
                && edges@[nodes@[n2].spec_edges()[q]].chain().contains(n2) by {
                if n2 == n {
                    if before.contains_key(n) && q < before[n].spec_edges().len() {
                        assert(nodes@[n2].spec_edges()[q] == before[n2].spec_edges()[q]);
                    } else {
                        assert(nodes@[n2].spec_edges()[q] == e);
                        assert(chunk@[k as int] == n);
                    }
                }
            }
        }
        k += 1;
    }
    proof {
        assert forall|e2: EdgeId, j: int|
            edges@.contains_key(e2) && 0 <= j < edges@[e2].chain().len() && !exempt(None, e2, j)
                implies nodes@.contains_key(#[trigger] edges@[e2].chain()[j])
            && nodes@[edges@[e2].chain()[j]].spec_edges().contains(e2) by {
            assert(!exempt(Some((e, k as int)), e2, j));
        }
    }
    Ok(())
}

/// Builds the routable graph: detects intersections over all ways, cuts each
/// way into chunks between intersections, drops the dangling ends, and makes
/// each retained chunk an edge whose nodes are registered at their
/// coordinates. Fails on a way id beyond 53 bits, on a way with more chunks
/// than an edge id can number, and on a chunk node without a coordinate.
pub fn weave(ways: &Vec<Way>, coords: &HashMap<NodeId, Coord>) -> (r: Result<Graph, BuildError>)
    requires
        ways_valid(ways@),
    ensures
        r is Ok <==> ids_fit(ways@) && members_covered(ways@, coords@) && chunks_fit(ways@),
        r matches Ok(g) ==> built_from(g, ways@, coords@) && g.searchable(),
        r matches Err(BuildError::WayIdTooLarge(id)) ==> exists|i: int|
            0 <= i < ways@.len() && (#[trigger] ways@[i]).id == id && id > MAX_WAY_ID,
        r matches Err(BuildError::TooManyChunks(id)) ==> ids_fit(ways@) && members_covered(ways@, coords@) && exists|i: int|
            0 <= i < ways@.len() && (#[trigger] ways@[i]).id == id && way_chunks(ways@, i).len()
                > MAX_CHUNKS,
        r matches Err(BuildError::MissingNode(n)) ==> ids_fit(ways@) && !coords@.contains_key(n)
            && exists|i: int, k: int|
            0 <= i < ways@.len() && 0 <= k < ways@[i].nodes@.len() && #[trigger] ways@[i].nodes@[k] == n,
{
    let ghost ws = ways@;
    let mut i: usize = 0;
    while i < ways.len()
        invariant
            0 <= i <= ways@.len(),
            forall|k: int| 0 <= k < i ==> (#[trigger] ways@[k]).id <= MAX_WAY_ID,
        decreases ways.len() - i,
    {
        if ways[i].id > MAX_WAY_ID {
            return Err(BuildError::WayIdTooLarge(ways[i].id));
        }
        i += 1;
    }
    assert(ids_fit(ways@));
    let mut i: usize = 0;
    while i < ways.len()
        invariant
            0 <= i <= ways@.len(),
            ids_fit(ways@),
            forall|i2: int, k: int|
                0 <= i2 < i && 0 <= k < ways@[i2].nodes@.len() ==> coords@.contains_key(
                    #[trigger] ways@[i2].nodes@[k],
                ),
        decreases ways.len() - i,
    {
        let members = &ways[i].nodes;
        let mut k: usize = 0;
        while k < members.len()
            invariant
                0 <= i < ways@.len(),
                ids_fit(ways@),
                0 <= k <= members@.len(),
                members@ == ways@[i as int].nodes@,
                forall|i2: int, k2: int|
                    0 <= i2 < i && 0 <= k2 < ways@[i2].nodes@.len() ==> coords@.contains_key(
                        #[trigger] ways@[i2].nodes@[k2],
                    ),
                forall|k2: int| 0 <= k2 < k ==> coords@.contains_key(#[trigger] members@[k2]),
            decreases members.len() - k,
        {
            if !coords.contains_key(&members[k]) {
                assert(ways@[i as int].nodes@[k as int] == members@[k as int]);
                return Err(BuildError::MissingNode(members[k]));
            }
            k += 1;
        }
        i += 1;
    }
    let flags = detect_intersections(ways);
    let mut nodes: HashMap<NodeId, Node> = HashMap::new();
    let mut edges: HashMap<EdgeId, Edge> = HashMap::new();
    let mut i: usize = 0;
    while i < ways.len()
        invariant
            0 <= i <= ways@.len(),
            ws == ways@,
            ways_valid(ws),
            ids_fit(ws),
            members_covered(ws, coords@),
            flags@ == intersection_flags(ws),
            forall|k: int| 0 <= k < i ==> #[trigger] way_chunks(ws, k).len() <= MAX_CHUNKS,
            partial(ws, coords@, nodes@, edges@, i as int, 0, None),
        decreases ways.len() - i,
    {
        let way = &ways[i];
        proof {
            assert(ws[i as int] == *way);
            assert forall|k: int| 0 <= k < way.nodes@.len() implies flags@.contains_key(
                #[trigger] way.nodes@[k],
            ) by {
                lemma_flat_contains(ws, i as int, k);
            }
        }
        let ghost wc = way_chunks(ws, i as int);
        match chunk_up(&flags, way) {
            None => {
                assert(wc.len() == 0);
            },
            Some(chunks) => {
                if chunks.len() > 2048 {
                    return Err(BuildError::TooManyChunks(way.id));
                }
                let cutv = cut_positions(&flags, way);
                let mut m: usize = 0;
                while m < chunks.len()
                    invariant
                        0 <= i < ways@.len(),
                        ws == ways@,
                        ways_valid(ws),
                        ids_fit(ws),
                        members_covered(ws, coords@),
                        flags@ == intersection_flags(ws),
                        wc == way_chunks(ws, i as int),
                        chunks@.len() == wc.len(),
                        chunks@.len() <= MAX_CHUNKS,
                        forall|m2: int| 0 <= m2 < chunks@.len() ==> #[trigger] chunks@[m2]@ == wc[m2],
                        cutv@.len() == cuts(flags@, ws[i as int].nodes@).len(),
                        cutv@.len() == chunks@.len() + 1,
                        forall|m2: int|
                            0 <= m2 < cutv@.len() ==> cutv@[m2] as int == #[trigger] cuts(
                                flags@,
                                ws[i as int].nodes@,
                            )[m2],
                        0 <= m <= chunks@.len(),
                        partial(ws, coords@, nodes@, edges@, i as int, m as int, None),
                    decreases chunks.len() - m,
                {
                    let res = add_chunk(ways, coords, &mut nodes, &mut edges, i, m, &chunks[m], cutv[m], cutv[m + 1]);
                    match res {
                        Ok(()) => {},
                        Err(err) => {
                            proof {
                                if let BuildError::MissingNode(n) = err {
                                    lemma_on_chunk_member(ws, n);
                                }
                            }
                            return Err(err);
                        },
                    }
                    m += 1;
                }
                proof {
                    assert forall|i2: int, m2: int| #[trigger]
                        is_chunk(ws, i2, m2) && done(i + 1, 0, i2, m2) implies edges@.contains_key(
                        chunk_edge(ws, i2, m2),
                    ) by {
                        assert(done(i as int, m as int, i2, m2));
                    }
                }
            },
        }
        i += 1;
    }
    let g = Graph::new(nodes, edges);
    proof {
        lemma_built(g, ws, coords@);
        g.lemma_wf_searchable();
    }
    Ok(g)
}

/// A finished build state is the graph the input describes.
proof fn lemma_built(g: Graph, ways: Seq<Way>, coords: Map<NodeId, Coord>)
    requires
        ways_valid(ways),
        ids_fit(ways),
        chunks_fit(ways),
        partial(ways, coords, g.node_map(), g.edge_map(), ways.len() as int, 0, None),
    ensures
        built_from(g, ways, coords),
        coords_cover(ways, coords),
{
    assert forall|e: EdgeId| #[trigger] g.has_edge(e) implies g.chain_of(e).len() >= 2 by {
        let o = origin(ways, e);
        lemma_cuts_sorted(intersection_flags(ways), ways[o.0].nodes@);
    }
    assert forall|i: int, m: int| #[trigger] is_chunk(ways, i, m) implies g.has_edge(
        chunk_edge(ways, i, m),
    ) && edge_is(g.edge_map()[chunk_edge(ways, i, m)], ways, i, m) by {
        assert(done(ways.len() as int, 0, i, m));
        lemma_origin(ways, i, m);
    }
    assert forall|e: EdgeId| #[trigger] g.has_edge(e) implies exists|i: int, m: int|
        is_chunk(ways, i, m) && e == chunk_edge(ways, i, m) by {
        let o = origin(ways, e);
        assert(is_chunk(ways, o.0, o.1) && e == chunk_edge(ways, o.0, o.1));
    }
    assert forall|n: NodeId| #[trigger] g.has_node(n) <==> on_chunk(ways, n) by {
        if g.has_node(n) {
            let e = g.incident(n)[0];
            let o = origin(ways, e);
            let ch = g.chain_of(e);
            let k = choose|k: int| 0 <= k < ch.len() && ch[k] == n;
            assert(way_chunks(ways, o.0)[o.1][k] == n);
        }
        if on_chunk(ways, n) {
            let (i, m, k) = choose|i: int, m: int, k: int|
                is_chunk(ways, i, m) && 0 <= k < way_chunks(ways, i)[m].len() && #[trigger] way_chunks(ways, i)[m][k] == n;
            assert(done(ways.len() as int, 0, i, m));
            let e = chunk_edge(ways, i, m);
            assert(g.has_edge(e));
            assert(g.chain_of(e)[k] == n);
        }
    }
}

pub proof fn lemma_count_concat(a: Seq<NodeId>, b: Seq<NodeId>, n: NodeId)
    ensures
        count_in(a + b, n) == count_in(a, n) + count_in(b, n),
    decreases b.len(),
{
    if b.len() > 0 {
        assert((a + b).drop_last() == a + b.drop_last());
        lemma_count_concat(a, b.drop_last(), n);
    }
}

/// Occurrences over all ways bound those within two distinct ways.
proof fn lemma_count_two_ways(ways: Seq<Way>, i: int, j: int, n: NodeId)
    requires
        0 <= i < j < ways.len(),
    ensures
        count_in(flat(ways), n) >= count_in(ways[i].nodes@, n) + count_in(ways[j].nodes@, n),
    decreases ways.len(),
{
    let d = ways.drop_last();
    lemma_count_concat(flat(d), ways.last().nodes@, n);
    if j == ways.len() - 1 {
        lemma_count_one_way(d, i, n);
    } else {
        lemma_count_two_ways(d, i, j, n);
    }
}

proof fn lemma_count_one_way(ways: Seq<Way>, i: int, n: NodeId)
    requires
        0 <= i < ways.len(),
    ensures
        count_in(flat(ways), n) >= count_in(ways[i].nodes@, n),
    decreases ways.len(),
{
    let d = ways.drop_last();
    lemma_count_concat(flat(d), ways.last().nodes@, n);
    if i < ways.len() - 1 {
        lemma_count_one_way(d, i, n);
    }
}

/// When only way `i` references `n`, all occurrences of `n` are in way `i`.
proof fn lemma_count_only_way(ways: Seq<Way>, i: int, n: NodeId)
    requires
        0 <= i < ways.len(),
        forall|j: int| 0 <= j < ways.len() && j != i ==> !(#[trigger] ways[j]).nodes@.contains(n),
    ensures
        count_in(flat(ways), n) == count_in(ways[i].nodes@, n),
    decreases ways.len(),
{
    let d = ways.drop_last();
    lemma_count_concat(flat(d), ways.last().nodes@, n);
    if i < ways.len() - 1 {
        lemma_count_only_way(d, i, n);
        lemma_count_positive(ways.last().nodes@, n);
    } else {
        lemma_count_none(d, n);
    }
}

proof fn lemma_count_none(ways: Seq<Way>, n: NodeId)
    requires
        forall|j: int| 0 <= j < ways.len() ==> !(#[trigger] ways[j]).nodes@.contains(n),
    ensures
        count_in(flat(ways), n) == 0,
    decreases ways.len(),
{
    if ways.len() > 0 {
        let d = ways.drop_last();
        lemma_count_concat(flat(d), ways.last().nodes@, n);
        lemma_count_none(d, n);
        lemma_count_positive(ways.last().nodes@, n);
    }
}

/// A node shared by two distinct ways is an intersection; a node that one
/// way references exactly once, and no other way references, is not.
pub proof fn lemma_intersection_detection(ways: Seq<Way>, n: NodeId)
    ensures
        forall|i: int, j: int|
            0 <= i < ways.len() && 0 <= j < ways.len() && i != j && (#[trigger] ways[i]).nodes@.contains(n)
                && (#[trigger] ways[j]).nodes@.contains(n) ==> intersection_flags(ways).contains_key(n)
                && intersection_flags(ways)[n],
        forall|i: int|
            0 <= i < ways.len() && count_in((#[trigger] ways[i]).nodes@, n) == 1 && (forall|j: int|
                0 <= j < ways.len() && j != i ==> !(#[trigger] ways[j]).nodes@.contains(n))
                ==> intersection_flags(ways).contains_key(n) && !intersection_flags(ways)[n],
{
    assert forall|i: int, j: int|
        0 <= i < ways.len() && 0 <= j < ways.len() && i != j && (#[trigger] ways[i]).nodes@.contains(n)
            && (#[trigger] ways[j]).nodes@.contains(n) implies intersection_flags(ways).contains_key(n)
        && intersection_flags(ways)[n] by {
        lemma_count_positive(ways[i].nodes@, n);
        lemma_count_positive(ways[j].nodes@, n);
        if i < j {
            lemma_count_two_ways(ways, i, j, n);
        } else {
            lemma_count_two_ways(ways, j, i, n);
        }
        lemma_count_positive(flat(ways), n);
    }
    assert forall|i: int|
        0 <= i < ways.len() && count_in((#[trigger] ways[i]).nodes@, n) == 1 && (forall|j: int|
            0 <= j < ways.len() && j != i ==> !(#[trigger] ways[j]).nodes@.contains(n))
            implies intersection_flags(ways).contains_key(n) && !intersection_flags(ways)[n] by {
        lemma_count_only_way(ways, i, n);
        lemma_count_positive(flat(ways), n);
    }
}

/// A way with `k` intersection occurrences yields `k - 1` chunks, and none
/// when `k` is 0 or 1.
pub proof fn lemma_chunk_count(flags: Map<NodeId, bool>, s: Seq<NodeId>)
    ensures
        cuts(flags, s).len() == s.filter(|n: NodeId| is_cut(flags, n)).len(),
        s.filter(|n: NodeId| is_cut(flags, n)).len() < 2 ==> interior_chunks(flags, s).len() == 0,
        s.filter(|n: NodeId| is_cut(flags, n)).len() >= 2 ==> interior_chunks(flags, s).len()
            == s.filter(|n: NodeId| is_cut(flags, n)).len() - 1,
    decreases s.len(),
{
    reveal(Seq::filter);
    if s.len() > 0 {
        lemma_chunk_count(flags, s.drop_last());
    }
}

/// Two builds from the same input have the same nodes, at the same places,
/// and the same edges.
pub proof fn lemma_weave_deterministic(
    ways: Seq<Way>,
    coords: Map<NodeId, Coord>,
    g1: Graph,
    g2: Graph,
)
    requires
        built_from(g1, ways, coords),
        built_from(g2, ways, coords),
    ensures
        g1.node_map().dom() == g2.node_map().dom(),
        g1.edge_map().dom() == g2.edge_map().dom(),
        forall|n: NodeId| #[trigger]
            g1.has_node(n) ==> g1.coord_of(n) == g2.coord_of(n) && g1.node_map()[n].spec_id()
                == g2.node_map()[n].spec_id(),
        forall|e: EdgeId| #[trigger]
            g1.has_edge(e) ==> {
                let a = g1.edge_map()[e];
                let b = g2.edge_map()[e];
                &&& a.spec_id() == b.spec_id()
                &&& a.chain() == b.chain()
                &&& a.spec_directed() == b.spec_directed()
                &&& a.spec_distance() == b.spec_distance()
            },
{
    assert forall|n: NodeId| g1.node_map().dom().contains(n) <==> g2.node_map().dom().contains(n) by {
        assert(g1.has_node(n) <==> on_chunk(ways, n));
        assert(g2.has_node(n) <==> on_chunk(ways, n));
    }
    assert(g1.node_map().dom() == g2.node_map().dom());
    assert forall|e: EdgeId| #[trigger] g1.has_edge(e) implies g2.has_edge(e) && {
        let a = g1.edge_map()[e];
        let b = g2.edge_map()[e];
        &&& a.spec_id() == b.spec_id()
        &&& a.chain() == b.chain()
        &&& a.spec_directed() == b.spec_directed()
        &&& a.spec_distance() == b.spec_distance()
    } by {
        let (i, m) = choose|i: int, m: int| is_chunk(ways, i, m) && e == chunk_edge(ways, i, m);
        assert(is_chunk(ways, i, m));
    }
    assert forall|e: EdgeId| g2.edge_map().dom().contains(e) implies g1.edge_map().dom().contains(e) by {
        assert(g2.has_edge(e));
        let (i, m) = choose|i: int, m: int| is_chunk(ways, i, m) && e == chunk_edge(ways, i, m);
        assert(is_chunk(ways, i, m));
    }
    assert forall|e: EdgeId| g1.edge_map().dom().contains(e) implies g2.edge_map().dom().contains(e) by {
        assert(g1.has_edge(e));
    }
    assert(g1.edge_map().dom() =~= g2.edge_map().dom());
}

/// A node occurs in `s` exactly when it is counted there.
pub proof fn lemma_count_positive(s: Seq<NodeId>, n: NodeId)
    ensures
        s.contains(n) <==> count_in(s, n) > 0,
    decreases s.len(),
{
    if s.len() > 0 {
        lemma_count_positive(s.drop_last(), n);
        if s.drop_last().contains(n) {
            let k = choose|k: int| 0 <= k < s.drop_last().len() && s.drop_last()[k] == n;
            assert(s[k] == n);
        }
        if s.contains(n) && s.last() != n {
            let k = choose|k: int| 0 <= k < s.len() && s[k] == n;
            assert(s.drop_last()[k] == n);
        }
    }
}


/// Every intersection position of `s` is a cut position.
pub proof fn lemma_cuts_complete(flags: Map<NodeId, bool>, s: Seq<NodeId>, j: int)
    requires
        0 <= j < s.len(),
        is_cut(flags, s[j]),
    ensures
        exists|x: int| 0 <= x < cuts(flags, s).len() && #[trigger] cuts(flags, s)[x] == j,
    decreases s.len(),
{
    let c = cuts(flags, s);
    if j == s.len() - 1 {
        assert(c[c.len() - 1] == j);
    } else {
        let d = s.drop_last();
        assert(d[j] == s[j]);
        lemma_cuts_complete(flags, d, j);
        let x = choose|x: int| 0 <= x < cuts(flags, d).len() && #[trigger] cuts(flags, d)[x] == j;
        assert(c[x] == j);
    }
}

/// A node that two distinct ways share is never a shape point inside an
/// edge of the built graph: wherever an edge holds it, it is that edge's
/// first or last node.
pub proof fn lemma_shared_node_at_ends(
    g: Graph,
    ways: Seq<Way>,
    coords: Map<NodeId, Coord>,
    n: NodeId,
    i1: int,
    i2: int,
)
    requires
        built_from(g, ways, coords),
        0 <= i1 < ways.len(),
        0 <= i2 < ways.len(),
        i1 != i2,
        ways[i1].nodes@.contains(n),
        ways[i2].nodes@.contains(n),
    ensures
        forall|e: EdgeId|
            g.has_edge(e) && #[trigger] g.chain_of(e).contains(n) ==> n == g.edge_map()[e].spec_s()
                || n == g.edge_map()[e].spec_t(),
{
    lemma_intersection_detection(ways, n);
    let flags = intersection_flags(ways);
    assert(flags.contains_key(n) && flags[n]);
    assert forall|e: EdgeId|
        g.has_edge(e) && #[trigger] g.chain_of(e).contains(n) implies n == g.edge_map()[e].spec_s()
            || n == g.edge_map()[e].spec_t() by {
        let (i, m) = choose|i: int, m: int| is_chunk(ways, i, m) && e == chunk_edge(ways, i, m);
        let ch = g.chain_of(e);
        g.edge_map()[e].lemma_ends();
        let s = ways[i].nodes@;
        let c = cuts(flags, s);
        lemma_cuts_sorted(flags, s);
        assert(ch == s.subrange(c[m], c[m + 1] + 1));
        let k = choose|k: int| 0 <= k < ch.len() && ch[k] == n;
        if 0 < k < ch.len() - 1 {
            let p = c[m] + k;
            assert(s[p] == n);
            lemma_cuts_complete(flags, s, p);
            let x = choose|x: int| 0 <= x < c.len() && #[trigger] c[x] == p;
            if x <= m {
                if x < m {
                    assert(c[x] < c[m]);
                }
            } else if x >= m + 1 {
                if x > m + 1 {
                    assert(c[m + 1] < c[x]);
                }
            }
        }
    }
}

} // verus!
