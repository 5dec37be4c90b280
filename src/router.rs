//! A* search over the graph, chaining searches along a tour, and snapping
//! points to the nearest nodes.

use priority_queue::PriorityQueue;
use std::collections::HashMap;
use vstd::prelude::*;
use vstd::std_specs::hash::spec_hash_map_iter;
use vstd::std_specs::iter::IteratorSpec;

use crate::graph::{Coord, EdgeId, Graph, NodeId};
use crate::network::capped;

verus! {

/// The priority queue of the `priority_queue` crate, held opaquely.
#[verifier::external_type_specification]
#[verifier::external_body]
#[verifier::reject_recursive_types(I)]
#[verifier::reject_recursive_types(P)]
#[verifier::reject_recursive_types(H)]
pub struct ExPriorityQueue<I, P, H>(PriorityQueue<I, P, H>);

/// What an open set holds: each queued node with its priority.
pub uninterp spec fn queue_items(q: PriorityQueue<u64, u64>) -> Map<u64, u64>;

/// The contents of an empty queue.
pub open spec fn no_items() -> Map<u64, u64> {
    Map::empty()
}

/// Relies on `PriorityQueue::new`: the queue starts empty.
#[verifier::external_body]
pub(crate) fn queue_new() -> (q: PriorityQueue<u64, u64>)
    ensures
        queue_items(q) == no_items(),
{
    PriorityQueue::new()
}

/// Relies on `PriorityQueue::is_empty`: true exactly when no item is queued.
#[verifier::external_body]
pub(crate) fn queue_is_empty(q: &PriorityQueue<u64, u64>) -> (r: bool)
    ensures
        r <==> queue_items(*q) == no_items(),
{
    q.is_empty()
}

/// Relies on `PriorityQueue::push`: inserts the item, or sets the priority of
/// the item already queued.
#[verifier::external_body]
pub(crate) fn queue_push(q: &mut PriorityQueue<u64, u64>, item: u64, priority: u64)
    ensures
        queue_items(*final(q)) == queue_items(*old(q)).insert(item, priority),
{
    q.push(item, priority);
}

/// Relies on `PriorityQueue::pop`: removes and returns an item of greatest
/// priority, or `None` on an empty queue.
#[verifier::external_body]
pub(crate) fn queue_pop(q: &mut PriorityQueue<u64, u64>) -> (r: Option<(u64, u64)>)
    ensures
        r is None <==> queue_items(*old(q)) == no_items(),
        r is None ==> queue_items(*final(q)) == queue_items(*old(q)),
        r matches Some(p) ==> {
            &&& queue_items(*old(q)).contains_key(p.0)
            &&& queue_items(*old(q))[p.0] == p.1
            &&& queue_items(*final(q)) == queue_items(*old(q)).remove(p.0)
            &&& forall|i: u64| #[trigger]
                queue_items(*old(q)).contains_key(i) ==> queue_items(*old(q))[i] <= p.1
        },
{
    q.pop()
}

/// The score of `n`, or one past the largest score when `n` has none.
pub open spec fn score_or_top(g: Map<NodeId, u64>, n: NodeId) -> int {
    if g.contains_key(n) {
        g[n] as int
    } else {
        u64::MAX as int + 1
    }
}

/// The scores over a finite set of nodes, summed: each improvement lowers it.
pub open spec fn potential(s: Set<NodeId>, g: Map<NodeId, u64>) -> int
    decreases s.len(),
{
    if !s.finite() || s.len() == 0 {
        0
    } else {
        let x = s.choose();
        score_or_top(g, x) + potential(s.remove(x), g)
    }
}

pub proof fn lemma_potential_nonneg(s: Set<NodeId>, g: Map<NodeId, u64>)
    ensures
        potential(s, g) >= 0,
    decreases s.len(),
{
    if s.finite() && s.len() > 0 {
        lemma_potential_nonneg(s.remove(s.choose()), g);
    }
}

pub proof fn lemma_potential_other(s: Set<NodeId>, g: Map<NodeId, u64>, v: NodeId, y: u64)
    requires
        !s.contains(v),
    ensures
        potential(s, g.insert(v, y)) == potential(s, g),
    decreases s.len(),
{
    if s.finite() && s.len() > 0 {
        let x = s.choose();
        lemma_potential_other(s.remove(x), g, v, y);
    }
}

/// Lowering the score of a member of `s` lowers the potential by as much.
pub proof fn lemma_potential_lower(s: Set<NodeId>, g: Map<NodeId, u64>, v: NodeId, y: u64)
    requires
        s.finite(),
        s.contains(v),
    ensures
        potential(s, g.insert(v, y)) == potential(s, g) - score_or_top(g, v) + y,
    decreases s.len(),
{
    let x = s.choose();
    if x == v {
        lemma_potential_other(s.remove(x), g, v, y);
    } else {
        lemma_potential_lower(s.remove(x), g, v, y);
    }
}

/// Every hop out of `n` lands on a scored node.
pub open spec fn closed(graph: Graph, g: Map<NodeId, u64>, n: NodeId) -> bool {
    forall|m: NodeId| #[trigger] graph.step(n, m) ==> g.contains_key(m)
}

/// A walk from inside a set closed under hops stays inside it.
pub proof fn lemma_closed_walk(graph: Graph, g: Map<NodeId, u64>, p: Seq<NodeId>, i: int)
    requires
        graph.is_walk(p),
        g.contains_key(p[0]),
        forall|n: NodeId| #[trigger] g.contains_key(n) ==> closed(graph, g, n),
        0 <= i < p.len(),
    ensures
        g.contains_key(p[i]),
    decreases i,
{
    if i > 0 {
        lemma_closed_walk(graph, g, p, i - 1);
        assert(graph.step(p[i - 1], p[(i - 1) + 1]));
    }
}

/// The length of edge `e`.
pub open spec fn dist(graph: Graph, e: EdgeId) -> int {
    graph.edge_map()[e].spec_distance() as int
}

/// Total length of a sequence of edges.
pub open spec fn cost(graph: Graph, es: Seq<EdgeId>) -> int
    decreases es.len(),
{
    if es.len() == 0 {
        0
    } else {
        dist(graph, es[0]) + cost(graph, es.drop_first())
    }
}

/// `q` is a walk and `es` the edges it takes, one per hop.
pub open spec fn is_trail(graph: Graph, q: Seq<NodeId>, es: Seq<EdgeId>) -> bool {
    &&& q.len() == es.len() + 1
    &&& graph.has_node(q[0])
    &&& forall|i: int|
        0 <= i < es.len() ==> {
            &&& graph.incident(q[i]).contains(#[trigger] es[i])
            &&& graph.has_edge(es[i])
            &&& graph.usable(es[i], q[i])
            &&& graph.other_end(es[i], q[i]) == q[i + 1]
        }
}

/// The heuristic never claims more than the length, saturated, of a trail to
/// `end`.
pub open spec fn admissible<H: Fn(NodeId, NodeId) -> u64>(
    graph: Graph,
    heuristic: H,
    end: NodeId,
) -> bool {
    forall|n: NodeId, hv: u64, q: Seq<NodeId>, es: Seq<EdgeId>|
        #![trigger heuristic.ensures((n, end), hv), is_trail(graph, q, es)]
        heuristic.ensures((n, end), hv) && is_trail(graph, q, es) && q[0] == n && q.last() == end
            ==> hv <= capped(cost(graph, es))
}

pub proof fn lemma_cost_push(graph: Graph, es: Seq<EdgeId>, e: EdgeId)
    ensures
        cost(graph, es.push(e)) == cost(graph, es) + dist(graph, e),
    decreases es.len(),
{
    if es.len() > 0 {
        assert(es.push(e).drop_first() == es.drop_first().push(e));
        lemma_cost_push(graph, es.drop_first(), e);
    } else {
        assert(es.push(e).drop_first().len() == 0);
        assert(cost(graph, es.push(e).drop_first()) == 0);
    }
    assert(es.push(e)[0] == if es.len() > 0 { es[0] } else { e });
}

proof fn lemma_capped_sum(x: int, y: int)
    requires
        x >= 0,
        y >= 0,
    ensures
        capped(capped(x) + y) == capped(x + y),
{
}

pub proof fn lemma_cost_nonneg(graph: Graph, es: Seq<EdgeId>)
    ensures
        cost(graph, es) >= 0,
    decreases es.len(),
{
    if es.len() > 0 {
        lemma_cost_nonneg(graph, es.drop_first());
    }
}

/// The length of a trail is that of its first `k` edges plus that of the rest.
pub proof fn lemma_cost_split(graph: Graph, es: Seq<EdgeId>, k: int)
    requires
        0 <= k <= es.len(),
    ensures
        cost(graph, es) == cost(graph, es.subrange(0, k)) + cost(graph, es.subrange(k, es.len() as int)),
    decreases k,
{
    if k > 0 {
        lemma_cost_split(graph, es, k - 1);
        assert(es.subrange(0, k) == es.subrange(0, k - 1).push(es[k - 1]));
        lemma_cost_push(graph, es.subrange(0, k - 1), es[k - 1]);
        assert(es.subrange(k - 1, es.len() as int).drop_first() == es.subrange(k, es.len() as int));
    } else {
        assert(es.subrange(0, es.len() as int) == es);
    }
}

/// Every usable edge out of `n` has been relaxed against the current score
/// of `n`.
pub open spec fn relaxed(graph: Graph, g: Map<NodeId, u64>, n: NodeId) -> bool {
    forall|i: int|
        0 <= i < graph.incident(n).len() && graph.has_edge(#[trigger] graph.incident(n)[i])
            && graph.usable(graph.incident(n)[i], n) ==> g.contains_key(
            graph.other_end(graph.incident(n)[i], n),
        ) && g[graph.other_end(graph.incident(n)[i], n)] <= capped(
            g[n] + dist(graph, graph.incident(n)[i]),
        )
}

/// The state of an A* search from `start` towards `end`: scores `g`,
/// predecessor links `cf` along edges `via`, a tie-breaking rank, and the
/// open set `q`. A score is at least that of the predecessor plus the edge;
/// following a link never raises the score, and where it keeps it the rank
/// falls, so links lead back to `start`. Every scored node is open, relaxed,
/// or the node under expansion.
pub open spec fn search_state(
    graph: Graph,
    start: NodeId,
    end: NodeId,
    g: Map<NodeId, u64>,
    cf: Map<NodeId, NodeId>,
    via: Map<NodeId, EdgeId>,
    rank: Map<NodeId, nat>,
    q: Map<u64, u64>,
    expanding: Option<NodeId>,
) -> bool {
    &&& g.contains_key(start)
    &&& g[start] == 0
    &&& !cf.contains_key(start)
    &&& forall|n: NodeId| #[trigger]
        g.contains_key(n) ==> graph.has_node(n) && rank.contains_key(n) && (n == start
            || cf.contains_key(n))
    &&& forall|n: NodeId| #[trigger]
        cf.contains_key(n) ==> {
            &&& g.contains_key(n)
            &&& g.contains_key(cf[n])
            &&& graph.step(cf[n], n)
            &&& via.contains_key(n)
            &&& graph.incident(cf[n]).contains(via[n])
            &&& graph.has_edge(via[n])
            &&& graph.usable(via[n], cf[n])
            &&& graph.other_end(via[n], cf[n]) == n
            &&& g[n] >= capped(g[cf[n]] + dist(graph, via[n]))
            &&& (g[cf[n]] < g[n] || (g[cf[n]] == g[n] && rank[cf[n]] < rank[n]))
        }
    &&& q.dom().finite()
    &&& forall|n: NodeId| #[trigger] q.contains_key(n) ==> g.contains_key(n)
    &&& forall|n: NodeId| #[trigger]
        g.contains_key(n) ==> q.contains_key(n) || relaxed(graph, g, n) || expanding == Some(n)
    &&& g.contains_key(end) ==> q.contains_key(end)
}

/// Open priorities are the score plus the heuristic, saturated, subtracted
/// from the largest priority.
pub open spec fn priorities<H: Fn(NodeId, NodeId) -> u64>(
    g: Map<NodeId, u64>,
    q: Map<u64, u64>,
    heuristic: H,
    end: NodeId,
) -> bool {
    forall|x: NodeId| #[trigger]
        q.contains_key(x) ==> exists|hv: u64|
            heuristic.ensures((x, end), hv) && q[x] == u64::MAX - capped(g[x] + hv)
}

proof fn lemma_capped_mono(a: int, b: int)
    requires
        a <= b,
    ensures
        capped(a) <= capped(b),
{
}

/// Along any trail from `start` to `end`, with `end` open, some node is open
/// with a score no greater than the length of the trail up to it.
proof fn lemma_frontier(
    graph: Graph,
    start: NodeId,
    end: NodeId,
    g: Map<NodeId, u64>,
    cf: Map<NodeId, NodeId>,
    via: Map<NodeId, EdgeId>,
    rank: Map<NodeId, nat>,
    q: Map<u64, u64>,
    p: Seq<NodeId>,
    es: Seq<EdgeId>,
    j: int,
) -> (k: int)
    requires
        search_state(graph, start, end, g, cf, via, rank, q, None),
        q.contains_key(end),
        is_trail(graph, p, es),
        p.last() == end,
        0 <= j < p.len(),
        g.contains_key(p[j]),
        g[p[j]] <= capped(cost(graph, es.subrange(0, j))),
    ensures
        j <= k < p.len(),
        q.contains_key(p[k]),
        g[p[k]] <= capped(cost(graph, es.subrange(0, k))),
    decreases p.len() - j,
{
    if q.contains_key(p[j]) {
        j
    } else {
        assert(j < es.len());
        assert(relaxed(graph, g, p[j]));
        let e = es[j];
        assert(graph.incident(p[j]).contains(e));
        let i = choose|i: int| 0 <= i < graph.incident(p[j]).len() && graph.incident(p[j])[i] == e;
        assert(graph.has_edge(graph.incident(p[j])[i]));
        assert(es.subrange(0, j + 1) == es.subrange(0, j).push(e));
        lemma_cost_push(graph, es.subrange(0, j), e);
        lemma_cost_nonneg(graph, es.subrange(0, j));
        lemma_capped_sum(cost(graph, es.subrange(0, j)), dist(graph, e));
        lemma_capped_mono(g[p[j]] + dist(graph, e), capped(cost(graph, es.subrange(0, j))) + dist(graph, e));
        lemma_frontier(graph, start, end, g, cf, via, rank, q, p, es, j + 1)
    }
}

/// Node `a` comes before node `b` on a predecessor chain: a lower score, or
/// an equal score and a lower rank.
pub open spec fn earlier(g: Map<NodeId, u64>, rank: Map<NodeId, nat>, a: NodeId, b: NodeId) -> bool {
    g[a] < g[b] || (g[a] == g[b] && rank[a] < rank[b])
}

/// Follows predecessor links from `end` back to `start` and returns the path
/// in travel order, with the edges it takes; its length, saturated, is at
/// most the score of `end`.
fn reconstruct(
    graph: &Graph,
    came_from: &HashMap<NodeId, NodeId>,
    start: NodeId,
    end: NodeId,
    Ghost(g): Ghost<Map<NodeId, u64>>,
    Ghost(via): Ghost<Map<NodeId, EdgeId>>,
    Ghost(rank): Ghost<Map<NodeId, nat>>,
    Ghost(q): Ghost<Map<u64, u64>>,
) -> (r: (Vec<NodeId>, Ghost<Seq<EdgeId>>))
    requires
        search_state(*graph, start, end, g, came_from@, via, rank, q, None),
        g.contains_key(end),
    ensures
        graph.is_walk(r.0@),
        is_trail(*graph, r.0@, r.1@),
        r.0@[0] == start,
        r.0@.last() == end,
        capped(cost(*graph, r.1@)) <= g[end],
        r.0@.no_duplicates(),
        start == end ==> r.0@ == seq![start],
{
    let mut back: Vec<NodeId> = Vec::new();
    let ghost mut bes: Seq<EdgeId> = Seq::empty();
    let mut current = end;
    back.push(current);
    proof {
        lemma_capped_mono(g[end] as int, g[end] as int);
    }
    while came_from.contains_key(&current)
        invariant
            search_state(*graph, start, end, g, came_from@, via, rank, q, None),
            g.contains_key(current),
            g.contains_key(end),
            back@.len() >= 1,
            back@.len() == bes.len() + 1,
            back@[0] == end,
            back@.last() == current,
            forall|i: int| 0 <= i < back@.len() - 1 ==> #[trigger] graph.step(back@[i + 1], back@[i]),
            forall|i: int|
                0 <= i < bes.len() ==> {
                    &&& graph.incident(back@[i + 1]).contains(#[trigger] bes[i])
                    &&& graph.has_edge(bes[i])
                    &&& graph.usable(bes[i], back@[i + 1])
                    &&& graph.other_end(bes[i], back@[i + 1]) == back@[i]
                },
            capped(g[current] + cost(*graph, bes)) <= g[end],
            forall|i: int| 0 <= i < back@.len() ==> g.contains_key(#[trigger] back@[i]),
            forall|i: int, j: int|
                0 <= i < j < back@.len() ==> earlier(g, rank, #[trigger] back@[j], #[trigger] back@[i]),
            start == end ==> back@.len() == 1,
        decreases g[current] as int, rank[current],
    {
        let prev = *came_from.get(&current).unwrap();
        proof {
            assert forall|i: int| 0 <= i < back@.len() implies earlier(g, rank, prev, #[trigger] back@[i]) by {
                if i < back@.len() - 1 {
                    assert(earlier(g, rank, back@[back@.len() - 1], back@[i]));
                }
            }
            let e = via[current];
            lemma_cost_push(*graph, bes, e);
            lemma_cost_nonneg(*graph, bes);
            lemma_capped_sum(g[prev] + dist(*graph, e), cost(*graph, bes));
            assert(capped(g[prev] + dist(*graph, e) + cost(*graph, bes)) <= capped(g[current] + cost(*graph, bes))) by {
                lemma_capped_sum(g[prev] + dist(*graph, e), cost(*graph, bes));
                lemma_capped_mono(capped(g[prev] + dist(*graph, e)) + cost(*graph, bes), g[current] + cost(*graph, bes));
            }
            bes = bes.push(e);
        }
        back.push(prev);
        current = prev;
    }
    assert(current == start);
    proof {
        assert forall|i: int, j: int| 0 <= i < back@.len() && 0 <= j < back@.len() && i != j implies back@[i] != back@[j] by {
            if i < j {
                assert(earlier(g, rank, back@[j], back@[i]));
            } else {
                assert(earlier(g, rank, back@[i], back@[j]));
            }
        }
    }
    let mut p: Vec<NodeId> = Vec::new();
    let ghost mut es: Seq<EdgeId> = Seq::empty();
    let ghost n = back@.len();
    let mut k: usize = back.len();
    while k > 0
        invariant
            n == back@.len(),
            n == bes.len() + 1,
            0 <= k <= n,
            p@.len() == n - k,
            es.len() == if k == n { 0 } else { n - k - 1 },
            forall|j: int| 0 <= j < p@.len() ==> #[trigger] p@[j] == back@[n - 1 - j],
            forall|j: int| 0 <= j < es.len() ==> #[trigger] es[j] == bes[n - 2 - j],
            k < n ==> cost(*graph, es) == cost(*graph, bes.subrange(k as int, bes.len() as int)),
        decreases k,
    {
        k -= 1;
        proof {
            if k < n - 1 {
                lemma_cost_push(*graph, es, bes[k as int]);
                assert(bes.subrange(k as int, bes.len() as int).drop_first() == bes.subrange(k + 1, bes.len() as int));
                es = es.push(bes[k as int]);
            } else {
                assert(bes.subrange(k as int, bes.len() as int).len() == 0);
            }
        }
        p.push(back[k]);
    }
    proof {
        assert(bes.subrange(0, bes.len() as int) == bes);
        assert forall|j: int| 0 <= j < p@.len() - 1 implies #[trigger] graph.step(p@[j], p@[j + 1]) by {
            let i = n - 2 - j;
            assert(graph.step(back@[i + 1], back@[i]));
        }
        assert forall|j: int| 0 <= j < es.len() implies {
            &&& graph.incident(p@[j]).contains(#[trigger] es[j])
            &&& graph.has_edge(es[j])
            &&& graph.usable(es[j], p@[j])
            &&& graph.other_end(es[j], p@[j]) == p@[j + 1]
        } by {
            let i = n - 2 - j;
            assert(es[j] == bes[i]);
        }
        assert forall|i: int, j: int| 0 <= i < p@.len() && 0 <= j < p@.len() && i != j implies p@[i] != p@[j] by {
            assert(p@[i] == back@[n - 1 - i]);
            assert(p@[j] == back@[n - 1 - j]);
        }
        if start == end {
            assert(p@ =~= seq![start]);
        }
    }
    (p, Ghost(es))
}

/// `p` takes the edges `es`, and when the heuristic never overestimates no
/// trail from `start` to `end` is shorter.
pub open spec fn optimal_trail<H: Fn(NodeId, NodeId) -> u64>(
    graph: Graph,
    heuristic: H,
    start: NodeId,
    end: NodeId,
    p: Seq<NodeId>,
    es: Seq<EdgeId>,
) -> bool {
    &&& is_trail(graph, p, es)
    &&& admissible(graph, heuristic, end) ==> forall|q: Seq<NodeId>, fs: Seq<EdgeId>|
        #![trigger is_trail(graph, q, fs)]
        is_trail(graph, q, fs) && q[0] == start && q.last() == end ==> capped(cost(graph, es))
            <= capped(cost(graph, fs))
}

/// A* search from `start` to `end`. Scores are accumulated edge lengths;
/// the open set is ordered by score plus `heuristic(node, end)`. An edge is
/// left from its head only when it is undirected. Returns the node sequence
/// from `start` to `end` inclusive, or `None` when `end` cannot be reached.
/// When the heuristic never overestimates, no trail from `start` to `end` is
/// shorter than the one returned.
pub fn a_star<H: Fn(NodeId, NodeId) -> u64>(
    graph: &Graph,
    start: &NodeId,
    end: &NodeId,
    heuristic: &H,
) -> (r: Option<Vec<NodeId>>)
    requires
        graph.searchable(),
        graph.has_node(*start),
        graph.has_node(*end),
        forall|a: NodeId, b: NodeId| heuristic.requires((a, b)),
    ensures
        r matches Some(p) ==> graph.is_walk(p@) && p@[0] == *start && p@.last() == *end,
        r matches Some(p) ==> p@.no_duplicates(),
        *start == *end ==> (r matches Some(p) && p@ == seq![*start]),
        r matches Some(p) ==> exists|w: Seq<EdgeId>|
            optimal_trail(*graph, *heuristic, *start, *end, p@, w),
        r is None <==> !graph.reachable(*start, *end),
{
    let from = *start;
    let goal = *end;
    let mut came_from: HashMap<NodeId, NodeId> = HashMap::new();
    let mut g_score: HashMap<NodeId, u64> = HashMap::new();
    g_score.insert(from, 0);
    let ghost mut rank: Map<NodeId, nat> = Map::empty().insert(from, 0nat);
    let ghost mut via: Map<NodeId, EdgeId> = Map::empty();
    let h = heuristic(from, goal);
    let mut open_set = queue_new();
    queue_push(&mut open_set, from, u64::MAX - h);
    let ghost univ = graph.node_map().dom();
    proof {
        graph.lemma_finite();
        lemma_potential_nonneg(univ, g_score@);
        assert(queue_items(open_set).contains_key(from));
        assert forall|x: NodeId| #[trigger]
            queue_items(open_set).contains_key(x) implies exists|hv: u64|
            heuristic.ensures((x, goal), hv) && queue_items(open_set)[x] == u64::MAX - capped(
                g_score@[x] + hv,
            ) by {
            assert(heuristic.ensures((x, goal), h));
        }
    }
    while !queue_is_empty(&open_set)
        invariant
            graph.searchable(),
            graph.has_node(goal),
            from == *start,
            goal == *end,
            forall|a: NodeId, b: NodeId| heuristic.requires((a, b)),
            univ == graph.node_map().dom(),
            univ.finite(),
            search_state(*graph, from, goal, g_score@, came_from@, via, rank, queue_items(open_set), None),
            priorities(g_score@, queue_items(open_set), *heuristic, goal),
        decreases potential(univ, g_score@), queue_items(open_set).dom().len(),
    {
        let ghost q0 = queue_items(open_set).dom().len();
        let ghost phi0 = potential(univ, g_score@);
        let ghost open_before = open_set;
        let popped = queue_pop(&mut open_set);
        let node_id = popped.unwrap().0;
        proof {
            assert(queue_items(open_set).dom() == queue_items(open_before).dom().remove(node_id));
            assert(queue_items(open_set).dom().len() < q0);
        }
        if node_id == goal {
            let (path, es) = reconstruct(graph, &came_from, from, goal, Ghost(g_score@), Ghost(via), Ghost(rank), Ghost(queue_items(open_before)));
            proof {
                assert(graph.is_walk(path@) && path@[0] == from && path@.last() == goal);
                assert(graph.reachable(from, goal));
                lemma_optimal(*graph, from, goal, g_score@, came_from@, via, rank, queue_items(open_before), *heuristic, es@);
            }
            let ghost walk = path@;
            let result = Some(path);
            proof {
                let p = result->0;
                assert(p@ == walk);
                assert(p@.no_duplicates());
                assert(optimal_trail(*graph, *heuristic, *start, *end, p@, es@));
            }
            return result;
        }
        let node = graph.nodes().get(&node_id).unwrap();
        let incident = node.edges();
        let ghost g_node = g_score@[node_id];
        let mut idx: usize = 0;
        while idx < incident.len()
            invariant
                graph.searchable(),
                graph.has_node(goal),
                graph.has_node(node_id),
                node_id != goal,
                incident@ == graph.incident(node_id),
                forall|a: NodeId, b: NodeId| heuristic.requires((a, b)),
                univ == graph.node_map().dom(),
                univ.finite(),
                g_score@.contains_key(node_id),
                g_score@[node_id] == g_node,
                search_state(*graph, from, goal, g_score@, came_from@, via, rank, queue_items(open_set), Some(node_id)),
                priorities(g_score@, queue_items(open_set), *heuristic, goal),
                0 <= idx <= incident@.len(),
                forall|i: int|
                    0 <= i < idx && graph.has_edge(#[trigger] incident@[i]) && graph.usable(incident@[i], node_id)
                        ==> g_score@.contains_key(graph.other_end(incident@[i], node_id))
                        && g_score@[graph.other_end(incident@[i], node_id)] <= capped(
                        g_node + dist(*graph, incident@[i]),
                    ),
                potential(univ, g_score@) < phi0 || (potential(univ, g_score@) == phi0
                    && queue_items(open_set).dom().len() < q0),
            decreases incident.len() - idx,
        {
            let edge_id = incident[idx];
            let edge = graph.edges().get(&edge_id).unwrap();
            if *edge.directed() && *edge.t() == node_id {
                idx += 1;
                continue;
            }
            let neighbour = if *edge.t() == node_id {
                *edge.s()
            } else {
                *edge.t()
            };
            let tentative = g_score.get(&node_id).unwrap().saturating_add(*edge.distance());
            let better = match g_score.get(&neighbour) {
                None => true,
                Some(known) => tentative < *known,
            };
            if better {
                proof {
                    lemma_potential_lower(univ, g_score@, neighbour, tentative);
                    lemma_potential_nonneg(univ, g_score@.insert(neighbour, tentative));
                    assert(incident@[idx as int] == edge_id);
                    assert(graph.incident(node_id).contains(edge_id));
                }
                came_from.insert(neighbour, node_id);
                g_score.insert(neighbour, tentative);
                proof {
                    rank = rank.insert(neighbour, rank[node_id] + 1);
                    via = via.insert(neighbour, edge_id);
                }
                let hv = heuristic(neighbour, goal);
                let f = tentative.saturating_add(hv);
                queue_push(&mut open_set, neighbour, u64::MAX - f);
                proof {
                    assert forall|x: NodeId| #[trigger]
                        queue_items(open_set).contains_key(x) implies exists|hw: u64|
                        heuristic.ensures((x, goal), hw) && queue_items(open_set)[x] == u64::MAX
                            - capped(g_score@[x] + hw) by {
                        if x == neighbour {
                            assert(heuristic.ensures((x, goal), hv));
                        }
                    }
                }
            }
            idx += 1;
        }
        proof {
            lemma_potential_nonneg(univ, g_score@);
            assert(relaxed(*graph, g_score@, node_id));
        }
    }
    proof {
        if from == goal {
            assert(graph.is_walk(seq![from]));
            assert(seq![from][0] == from && seq![from].last() == goal);
        }
        if graph.reachable(from, goal) {
            let p = choose|p: Seq<NodeId>| graph.is_walk(p) && p[0] == from && p.last() == goal;
            assert forall|n: NodeId| #[trigger] g_score@.contains_key(n) implies closed(*graph, g_score@, n) by {
                lemma_relaxed_closed(*graph, g_score@, n);
            }
            lemma_closed_walk(*graph, g_score@, p, p.len() - 1);
        }
    }
    None
}

/// A relaxed node is closed: every hop out of it lands on a scored node.
proof fn lemma_relaxed_closed(graph: Graph, g: Map<NodeId, u64>, n: NodeId)
    requires
        relaxed(graph, g, n),
    ensures
        closed(graph, g, n),
{
    assert forall|m: NodeId| #[trigger] graph.step(n, m) implies g.contains_key(m) by {
        let i = choose|i: int|
            0 <= i < graph.incident(n).len() && graph.has_edge(#[trigger] graph.incident(n)[i])
                && graph.usable(graph.incident(n)[i], n) && graph.other_end(graph.incident(n)[i], n)
                == m;
    }
}

/// When `end` is taken off the open set, no trail to it is shorter than the
/// score it holds, provided the heuristic never overestimates.
proof fn lemma_optimal<H: Fn(NodeId, NodeId) -> u64>(
    graph: Graph,
    start: NodeId,
    end: NodeId,
    g: Map<NodeId, u64>,
    cf: Map<NodeId, NodeId>,
    via: Map<NodeId, EdgeId>,
    rank: Map<NodeId, nat>,
    q: Map<u64, u64>,
    heuristic: H,
    es: Seq<EdgeId>,
)
    requires
        search_state(graph, start, end, g, cf, via, rank, q, None),
        priorities(g, q, heuristic, end),
        q.contains_key(end),
        forall|i: u64| #[trigger] q.contains_key(i) ==> q[i] <= q[end],
        capped(cost(graph, es)) <= g[end],
    ensures
        admissible(graph, heuristic, end) ==> forall|p: Seq<NodeId>, fs: Seq<EdgeId>|
            #![trigger is_trail(graph, p, fs)]
            is_trail(graph, p, fs) && p[0] == start && p.last() == end ==> capped(cost(graph, es))
                <= capped(cost(graph, fs)),
{
    if admissible(graph, heuristic, end) {
        assert forall|p: Seq<NodeId>, fs: Seq<EdgeId>|
            #![trigger is_trail(graph, p, fs)]
            is_trail(graph, p, fs) && p[0] == start && p.last() == end implies capped(cost(graph, es))
                <= capped(cost(graph, fs)) by {
            assert(fs.subrange(0, 0).len() == 0);
            let k = lemma_frontier(graph, start, end, g, cf, via, rank, q, p, fs, 0);
            let x = p[k];
            let he = choose|hv: u64| heuristic.ensures((end, end), hv) && q[end] == u64::MAX - capped(g[end] + hv);
            let hx = choose|hv: u64| heuristic.ensures((x, end), hv) && q[x] == u64::MAX - capped(g[x] + hv);
            let tail = fs.subrange(k, fs.len() as int);
            let ptail = p.subrange(k, p.len() as int);
            assert forall|i: int| 0 <= i < tail.len() implies {
                &&& graph.incident(ptail[i]).contains(#[trigger] tail[i])
                &&& graph.has_edge(tail[i])
                &&& graph.usable(tail[i], ptail[i])
                &&& graph.other_end(tail[i], ptail[i]) == ptail[i + 1]
            } by {
                assert(tail[i] == fs[k + i]);
                assert(ptail[i] == p[k + i]);
                assert(ptail[i + 1] == p[k + i + 1]);
            }
            assert(is_trail(graph, ptail, tail));
            assert(hx <= capped(cost(graph, tail)));
            lemma_cost_split(graph, fs, k);
            lemma_cost_nonneg(graph, fs.subrange(0, k));
            lemma_cost_nonneg(graph, tail);
            lemma_capped_sum(cost(graph, fs.subrange(0, k)), hx as int);
            lemma_capped_mono(g[x] + hx, capped(cost(graph, fs.subrange(0, k))) + hx);
            lemma_capped_mono(cost(graph, fs.subrange(0, k)) + hx, cost(graph, fs));
            lemma_capped_mono(g[end] as int, g[end] + he);
        }
    }
}

/// Gluing a walk that starts where another ends gives a walk.
pub proof fn lemma_walk_append(graph: Graph, a: Seq<NodeId>, b: Seq<NodeId>)
    requires
        graph.is_walk(a),
        graph.is_walk(b),
        a.last() == b[0],
    ensures
        graph.is_walk(a + b.subrange(1, b.len() as int)),
        (a + b.subrange(1, b.len() as int)).last() == b.last(),
        (a + b.subrange(1, b.len() as int))[0] == a[0],
{
    let c = a + b.subrange(1, b.len() as int);
    assert forall|i: int| 0 <= i < c.len() - 1 implies #[trigger] graph.step(c[i], c[i + 1]) by {
        if i < a.len() - 1 {
            assert(graph.step(a[i], a[i + 1]));
        } else {
            let j = i - (a.len() - 1);
            assert(graph.step(b[j], b[j + 1]));
        }
    }
}

/// Every node of a walk is a node of the graph.
pub proof fn lemma_walk_nodes(graph: Graph, p: Seq<NodeId>, i: int)
    requires
        graph.searchable(),
        graph.is_walk(p),
        0 <= i < p.len(),
    ensures
        graph.has_node(p[i]),
{
    if i > 0 {
        assert(graph.step(p[i - 1], p[(i - 1) + 1]));
        let n = p[i - 1];
        let j = choose|j: int|
            0 <= j < graph.incident(n).len() && graph.has_edge(#[trigger] graph.incident(n)[j])
                && graph.usable(graph.incident(n)[j], n) && graph.other_end(graph.incident(n)[j], n)
                == p[i];
        assert(graph.has_edge(graph.incident(n)[j]));
    }
}

/// The leg from position `a` to position `b` of `route` towards `target`:
/// either it ends at `target` and is a simple A* path there, or it adds
/// nothing (`a == b`) because `target` cannot be reached from `route[a]`.
pub open spec fn leg_ok<H: Fn(NodeId, NodeId) -> u64>(
    graph: Graph,
    heuristic: H,
    route: Seq<NodeId>,
    target: NodeId,
    a: int,
    b: int,
) -> bool {
    &&& 0 <= a <= b < route.len()
    &&& (a == b && !graph.reachable(route[a], target)) || {
        let part = route.subrange(a, b + 1);
        &&& route[b] == target
        &&& part.no_duplicates()
        &&& graph.is_walk(part)
        &&& exists|es: Seq<EdgeId>| optimal_trail(graph, heuristic, route[a], target, part, es)
    }
}

/// `route` is its legs joined end to end: leg `j` runs from position
/// `bounds[j]` to `bounds[j + 1]` towards `targets[j]`.
pub open spec fn legs_joined<H: Fn(NodeId, NodeId) -> u64>(
    graph: Graph,
    heuristic: H,
    route: Seq<NodeId>,
    targets: Seq<NodeId>,
    bounds: Seq<int>,
) -> bool {
    &&& bounds.len() == targets.len() + 1
    &&& bounds[0] == 0
    &&& bounds.last() == route.len() - 1
    &&& forall|j: int|
        0 <= j < targets.len() ==> leg_ok(graph, heuristic, route, #[trigger] targets[j], bounds[j], bounds[j + 1])
}

/// No node follows itself on `route`.
pub open spec fn no_repeat(route: Seq<NodeId>) -> bool {
    forall|i: int| 0 <= i < route.len() - 1 ==> #[trigger] route[i] != route[i + 1]
}

/// A leg stays what it was when the route grows past it.
pub proof fn lemma_leg_kept<H: Fn(NodeId, NodeId) -> u64>(
    graph: Graph,
    heuristic: H,
    route: Seq<NodeId>,
    longer: Seq<NodeId>,
    target: NodeId,
    a: int,
    b: int,
)
    requires
        leg_ok(graph, heuristic, route, target, a, b),
        route.len() <= longer.len(),
        longer.subrange(0, route.len() as int) == route,
    ensures
        leg_ok(graph, heuristic, longer, target, a, b),
{
    assert(longer[a] == route[a]);
    assert(longer[b] == route[b]);
    assert(longer.subrange(a, b + 1) == route.subrange(a, b + 1));
}

/// Extends `route` by an A* path from where it stands to `to`, or leaves it
/// as it is when `to` cannot be reached.
fn leg<H: Fn(NodeId, NodeId) -> u64>(
    graph: &Graph,
    route: &mut Vec<NodeId>,
    to: NodeId,
    heuristic: &H,
)
    requires
        graph.searchable(),
        graph.has_node(to),
        graph.is_walk(old(route)@),
        no_repeat(old(route)@),
        forall|a: NodeId, b: NodeId| heuristic.requires((a, b)),
    ensures
        graph.is_walk(final(route)@),
        no_repeat(final(route)@),
        final(route)@.len() >= old(route)@.len(),
        final(route)@.subrange(0, old(route)@.len() as int) == old(route)@,
        leg_ok(*graph, *heuristic, final(route)@, to, old(route)@.len() - 1, final(route)@.len() - 1),
        final(route)@.last() == to || (final(route)@ == old(route)@ && !graph.reachable(
            old(route)@.last(),
            to,
        )),
{
    let from = route[route.len() - 1];
    proof {
        lemma_walk_nodes(*graph, route@, route@.len() - 1);
    }
    match a_star(graph, &from, &to, heuristic) {
        Some(part) => {
            let ghost before = route@;
            let mut i: usize = 1;
            while i < part.len()
                invariant
                    1 <= i <= part@.len(),
                    route@ == before + part@.subrange(1, i as int),
                decreases part.len() - i,
            {
                route.push(part[i]);
                i += 1;
            }
            proof {
                assert(part@.subrange(1, i as int) == part@.subrange(1, part@.len() as int));
                lemma_walk_append(*graph, before, part@);
                assert(route@.subrange(0, before.len() as int) == before);
                let a = before.len() - 1;
                assert(route@.subrange(a, route@.len() as int) =~= part@);
                assert(route@.len() - 1 + 1 == route@.len());
                assert forall|k: int| 0 <= k < route@.len() - 1 implies #[trigger] route@[k] != route@[k + 1] by {
                    if k < a {
                        assert(before[k] != before[k + 1]);
                    } else {
                        assert(route@[k] == part@[k - a]);
                        assert(route@[k + 1] == part@[k - a + 1]);
                    }
                }
            }
        },
        None => {},
    }
    assert(route@.subrange(0, old(route)@.len() as int) == old(route)@);
}

/// Chains A* paths from `start` through the waypoints of `visit`, in
/// order, and back to `start`. A leg whose target cannot be reached adds
/// nothing and the next leg starts where the route stands.
pub fn unoptimized<H: Fn(NodeId, NodeId) -> u64>(
    graph: &Graph,
    visit: &Vec<NodeId>,
    start: &NodeId,
    heuristic: &H,
) -> (route: Vec<NodeId>)
    requires
        graph.searchable(),
        graph.has_node(*start),
        forall|k: int| 0 <= k < visit@.len() ==> graph.has_node(#[trigger] visit@[k]),
        forall|a: NodeId, b: NodeId| heuristic.requires((a, b)),
    ensures
        graph.is_walk(route@),
        route@[0] == *start,
        route@.last() == *start || !graph.reachable(route@.last(), *start),
        no_repeat(route@),
        exists|bounds: Seq<int>| legs_joined(*graph, *heuristic, route@, visit@.push(*start), bounds),
{
    let mut route: Vec<NodeId> = Vec::new();
    route.push(*start);
    let ghost mut bounds: Seq<int> = seq![0int];
    let mut k: usize = 0;
    while k < visit.len()
        invariant
            graph.searchable(),
            graph.has_node(*start),
            forall|j: int| 0 <= j < visit@.len() ==> graph.has_node(#[trigger] visit@[j]),
            forall|a: NodeId, b: NodeId| heuristic.requires((a, b)),
            0 <= k <= visit@.len(),
            graph.is_walk(route@),
            no_repeat(route@),
            route@[0] == *start,
            legs_joined(*graph, *heuristic, route@, visit@.subrange(0, k as int), bounds),
        decreases visit.len() - k,
    {
        let ghost before = route@;
        leg(graph, &mut route, visit[k], heuristic);
        proof {
            let t = visit@.subrange(0, k + 1);
            assert forall|j: int| 0 <= j < k implies leg_ok(*graph, *heuristic, route@, #[trigger] t[j], bounds[j], bounds[j + 1]) by {
                assert(t[j] == visit@.subrange(0, k as int)[j]);
                lemma_leg_kept(*graph, *heuristic, before, route@, t[j], bounds[j], bounds[j + 1]);
            }
            bounds = bounds.push(route@.len() - 1);
            assert(legs_joined(*graph, *heuristic, route@, t, bounds));
        }
        k += 1;
    }
    let ghost before = route@;
    leg(graph, &mut route, *start, heuristic);
    proof {
        let t = visit@.push(*start);
        assert(visit@.subrange(0, k as int) == visit@);
        assert forall|j: int| 0 <= j < visit@.len() implies leg_ok(*graph, *heuristic, route@, #[trigger] t[j], bounds[j], bounds[j + 1]) by {
            assert(t[j] == visit@[j]);
            lemma_leg_kept(*graph, *heuristic, before, route@, t[j], bounds[j], bounds[j + 1]);
        }
        bounds = bounds.push(route@.len() - 1);
        assert(legs_joined(*graph, *heuristic, route@, t, bounds));
    }
    route
}

/// The distance function gives one answer per pair of places.
pub open spec fn deterministic<F: Fn(Coord, Coord) -> u64>(distance: F) -> bool {
    forall|p: Coord, c: Coord, a: u64, b: u64|
        distance.ensures((p, c), a) && distance.ensures((p, c), b) ==> a == b
}

/// A node counts as an intersection of the network when at least two edges
/// meet there.
pub open spec fn is_junction(graph: Graph, n: NodeId) -> bool {
    graph.has_node(n) && graph.incident(n).len() >= 2
}

/// Node `id` is, among the nodes that qualify, one nearest to `p`.
pub open spec fn is_closest<F: Fn(Coord, Coord) -> u64>(
    graph: Graph,
    p: Coord,
    id: NodeId,
    distance: F,
    junctions_only: bool,
) -> bool {
    &&& graph.has_node(id)
    &&& junctions_only ==> is_junction(graph, id)
    &&& forall|n: NodeId, dn: u64, di: u64|
        graph.has_node(n) && (junctions_only ==> is_junction(graph, n)) && distance.ensures(
            (p, graph.coord_of(n)),
            dn,
        ) && distance.ensures((p, graph.coord_of(id)), di) ==> di <= dn
}

/// The node nearest to `p`, among intersections only when `junctions_only`;
/// `None` when no node qualifies.
fn nearest<F: Fn(Coord, Coord) -> u64>(
    graph: &Graph,
    p: &Coord,
    distance: &F,
    junctions_only: bool,
) -> (r: Option<NodeId>)
    requires
        forall|a: Coord, b: Coord| distance.requires((a, b)),
        deterministic(*distance),
    ensures
        r is None <==> forall|n: NodeId|
            graph.has_node(n) ==> (junctions_only && !is_junction(*graph, n)),
        r matches Some(id) ==> is_closest(*graph, *p, id, *distance, junctions_only),
{
    let nodes = graph.nodes();
    let mut best: Option<(NodeId, u64)> = None;
    let items = nodes.iter();
    let ghost all = items.remaining();
    proof {
        assert(all == spec_hash_map_iter(nodes).remaining());
    }
    for pair in it: items
        invariant
            nodes@ == graph.node_map(),
            it.seq() == all,
            forall|n: NodeId| #[trigger] nodes@.contains_key(n) ==> all.contains((&n, &nodes@[n])),
            forall|a: Coord, b: Coord| distance.requires((a, b)),
            deterministic(*distance),
            forall|j: int| 0 <= j < it.seq().len() ==> {
                &&& nodes@.contains_key(*(#[trigger] it.seq()[j]).0)
                &&& nodes@[*it.seq()[j].0] == *it.seq()[j].1
            },
            best matches Some(b) ==> {
                &&& graph.has_node(b.0)
                &&& (junctions_only ==> is_junction(*graph, b.0))
                &&& distance.ensures((*p, graph.coord_of(b.0)), b.1)
            },
            forall|j: int|
                0 <= j < it.index() && (junctions_only ==> is_junction(
                    *graph,
                    *(#[trigger] it.seq()[j]).0,
                )) ==> (best matches Some(b) && forall|dn: u64|
                    distance.ensures((*p, graph.coord_of(*it.seq()[j].0)), dn) ==> b.1 <= dn),
    {
        let id = *pair.0;
        let node = pair.1;
        if !junctions_only || node.edges().len() >= 2 {
            let d = distance(*p, *node.point());
            let replace = match best {
                None => true,
                Some(b) => d < b.1,
            };
            if replace {
                best = Some((id, d));
            }
        }
    }
    match best {
        None => {
            proof {
                assert forall|n: NodeId| graph.has_node(n) implies (junctions_only && !is_junction(*graph, n)) by {
                    let pr = (&n, &nodes@[n]);
                    assert(all.contains(pr));
                    let j = choose|j: int| 0 <= j < all.len() && all[j] == pr;
                    assert(*all[j].0 == n);
                }
            }
            None
        },
        Some(b) => {
            proof {
                assert forall|n: NodeId, dn: u64, di: u64|
                    #![trigger distance.ensures((*p, graph.coord_of(n)), dn), distance.ensures((*p, graph.coord_of(b.0)), di)]
                    graph.has_node(n) && (junctions_only ==> is_junction(*graph, n))
                        && distance.ensures((*p, graph.coord_of(n)), dn) && distance.ensures(
                        (*p, graph.coord_of(b.0)),
                        di,
                    ) implies di <= dn by {
                    let pr = (&n, &nodes@[n]);
                    assert(all.contains(pr));
                    let j = choose|j: int| 0 <= j < all.len() && all[j] == pr;
                    assert(*all[j].0 == n);
                }
            }
            Some(b.0)
        },
    }
}

/// The graph node nearest to `p`; `None` only for an empty graph.
pub fn closest_point<F: Fn(Coord, Coord) -> u64>(graph: &Graph, p: &Coord, distance: &F) -> (r:
    Option<NodeId>)
    requires
        forall|a: Coord, b: Coord| distance.requires((a, b)),
        deterministic(*distance),
    ensures
        r is None <==> forall|n: NodeId| !graph.has_node(n),
        r matches Some(id) ==> is_closest(*graph, *p, id, *distance, false),
{
    nearest(graph, p, distance, false)
}

/// The intersection nearest to `p`; `None` when the graph has none.
pub fn closest_intersection<F: Fn(Coord, Coord) -> u64>(
    graph: &Graph,
    p: &Coord,
    distance: &F,
) -> (r: Option<NodeId>)
    requires
        forall|a: Coord, b: Coord| distance.requires((a, b)),
        deterministic(*distance),
    ensures
        r is None <==> forall|n: NodeId| !is_junction(*graph, n),
        r matches Some(id) ==> is_closest(*graph, *p, id, *distance, true),
{
    let r = nearest(graph, p, distance, true);
    proof {
        if r is None {
            assert forall|n: NodeId| !is_junction(*graph, n) by {
                if graph.has_node(n) {
                }
            }
        }
    }
    r
}

/// Snaps each point to its nearest intersection, skipping points for which
/// the graph has no intersection at all.
pub fn nearest_graph_nodes<F: Fn(Coord, Coord) -> u64>(
    graph: &Graph,
    points: &Vec<Coord>,
    distance: &F,
) -> (r: Vec<NodeId>)
    requires
        forall|a: Coord, b: Coord| distance.requires((a, b)),
        deterministic(*distance),
    ensures
        (exists|n: NodeId| is_junction(*graph, n)) ==> r@.len() == points@.len() && forall|k: int|
            0 <= k < points@.len() ==> is_closest(*graph, points@[k], #[trigger] r@[k], *distance, true),
        !(exists|n: NodeId| is_junction(*graph, n)) ==> r@.len() == 0,
{
    let mut r: Vec<NodeId> = Vec::new();
    let mut k: usize = 0;
    while k < points.len()
        invariant
            forall|a: Coord, b: Coord| distance.requires((a, b)),
            deterministic(*distance),
            0 <= k <= points@.len(),
            (exists|n: NodeId| is_junction(*graph, n)) ==> r@.len() == k && forall|j: int|
                0 <= j < k ==> is_closest(*graph, points@[j], #[trigger] r@[j], *distance, true),
            !(exists|n: NodeId| is_junction(*graph, n)) ==> r@.len() == 0,
        decreases points.len() - k,
    {
        match closest_intersection(graph, &points[k], distance) {
            Some(id) => {
                r.push(id);
            },
            None => {},
        }
        k += 1;
    }
    r
}

} // verus!
