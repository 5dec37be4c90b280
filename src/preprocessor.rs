//! Ordering waypoints into a loop: the ring of their concave hull, with the
//! legs out of and back to the start leaving in different quadrants.

use priority_queue::PriorityQueue;
use vstd::prelude::*;

use crate::graph::{Coord, NodeId};
use crate::router::{queue_is_empty, queue_items, queue_new, queue_pop, queue_push};

verus! {

/// A 90-degree compass sector.
#[derive(Clone, Copy, Debug, PartialEq, Eq, Structural)]
pub enum Quadrant {
    NE,
    SE,
    SW,
    NW,
}

/// A quarter turn: 90 degrees in microdegrees.
pub const QUARTER: i64 = 90_000_000;

impl Quadrant {
    /// The sector's bearing range in degrees, lower bound included.
    pub fn value(&self) -> (r: (u64, u64))
        ensures
            r.1 == r.0 + 90,
            *self == Quadrant::NE ==> r.0 == 0,
            *self == Quadrant::SE ==> r.0 == 90,
            *self == Quadrant::SW ==> r.0 == 180,
            *self == Quadrant::NW ==> r.0 == 270,
    {
        match *self {
            Quadrant::NE => (0, 90),
            Quadrant::SE => (90, 180),
            Quadrant::SW => (180, 270),
            Quadrant::NW => (270, 360),
        }
    }

    pub open spec fn of_bearing(micro: i64) -> Quadrant {
        if 0 <= micro < QUARTER {
            Quadrant::NE
        } else if QUARTER <= micro < 2 * QUARTER {
            Quadrant::SE
        } else if 2 * QUARTER <= micro < 3 * QUARTER {
            Quadrant::SW
        } else {
            Quadrant::NW
        }
    }

    /// The sector of a bearing given in microdegrees; bearings outside
    /// [0, 270) degrees that fall in no lower sector, negative ones included,
    /// count as north-west.
    pub fn to_quadrant(micro: i64) -> (r: Quadrant)
        ensures
            r == Quadrant::of_bearing(micro),
    {
        if micro >= 0 && micro < QUARTER {
            Quadrant::NE
        } else if micro >= QUARTER && micro < 2 * QUARTER {
            Quadrant::SE
        } else if micro >= 2 * QUARTER && micro < 3 * QUARTER {
            Quadrant::SW
        } else {
            Quadrant::NW
        }
    }

    pub open spec fn ccw(self) -> Quadrant {
        match self {
            Quadrant::NE => Quadrant::NW,
            Quadrant::SE => Quadrant::NE,
            Quadrant::SW => Quadrant::SE,
            Quadrant::NW => Quadrant::SW,
        }
    }

    pub open spec fn cw(self) -> Quadrant {
        match self {
            Quadrant::NE => Quadrant::SE,
            Quadrant::SE => Quadrant::SW,
            Quadrant::SW => Quadrant::NW,
            Quadrant::NW => Quadrant::NE,
        }
    }

    /// The counter-clockwise neighbouring sector.
    pub fn neighbour_ccw(&self) -> (r: Quadrant)
        ensures
            r == self.ccw(),
            r != *self,
            r.cw() == *self,
    {
        match *self {
            Quadrant::NE => Quadrant::NW,
            Quadrant::SE => Quadrant::NE,
            Quadrant::SW => Quadrant::SE,
            Quadrant::NW => Quadrant::SW,
        }
    }

    /// The clockwise neighbouring sector.
    pub fn neighbour_cw(&self) -> (r: Quadrant)
        ensures
            r == self.cw(),
            r != *self,
            r.ccw() == *self,
    {
        match *self {
            Quadrant::NE => Quadrant::SE,
            Quadrant::SE => Quadrant::SW,
            Quadrant::SW => Quadrant::NW,
            Quadrant::NW => Quadrant::NE,
        }
    }
}

/// The sectors of the outbound and the inbound leg, from the bearings (in
/// microdegrees) of the ring's first and last point as seen from the start.
pub open spec fn spec_select_quadrants(first: i64, last: i64) -> (Quadrant, Quadrant) {
    let qf = Quadrant::of_bearing(first);
    let ql = Quadrant::of_bearing(last);
    if qf != ql {
        (qf, ql)
    } else if first < last {
        (qf, ql.cw())
    } else {
        (qf, ql.ccw())
    }
}

/// Picks the sectors of the outbound and inbound legs; when both fall in the
/// same sector the inbound one moves to a neighbour, clockwise when the last
/// point's bearing is the larger, counter-clockwise otherwise.
pub fn select_quadrants(first: i64, last: i64) -> (r: (Quadrant, Quadrant))
    ensures
        r == spec_select_quadrants(first, last),
        r.0 != r.1,
{
    let quadrant_first = Quadrant::to_quadrant(first);
    let mut quadrant_last = Quadrant::to_quadrant(last);
    if quadrant_first == quadrant_last {
        if first < last {
            quadrant_last = quadrant_last.neighbour_cw();
        } else {
            quadrant_last = quadrant_last.neighbour_ccw();
        }
    }
    (quadrant_first, quadrant_last)
}

/// The id of the first waypoint placed at `point`.
pub open spec fn id_at(v: Seq<(NodeId, Coord)>, point: Coord) -> NodeId {
    let k = choose|k: int|
        0 <= k < v.len() && v[k].1 == point && forall|j: int| 0 <= j < k ==> v[j].1 != point;
    v[k].0
}

pub open spec fn placed(v: Seq<(NodeId, Coord)>, point: Coord) -> bool {
    exists|k: int| 0 <= k < v.len() && v[k].1 == point
}

/// Finds the waypoint a hull point came from: the first one at that place.
pub fn back_to_id(v: &Vec<(NodeId, Coord)>, point: &Coord) -> (r: NodeId)
    requires
        placed(v@, *point),
    ensures
        r == id_at(v@, *point),
{
    let mut i: usize = 0;
    while i < v.len()
        invariant
            0 <= i <= v@.len(),
            placed(v@, *point),
            forall|j: int| 0 <= j < i ==> v@[j].1 != *point,
        decreases v.len() - i,
    {
        if v[i].1 == *point {
            proof {
                let k = choose|k: int|
                    0 <= k < v@.len() && v@[k].1 == *point && forall|j: int|
                        0 <= j < k ==> v@[j].1 != *point;
                assert(0 <= i < v@.len() && v@[i as int].1 == *point && forall|j: int|
                    0 <= j < i ==> v@[j].1 != *point);
                if k < i {
                    assert(v@[k].1 != *point);
                }
                if i < k {
                    assert(v@[i as int].1 != *point);
                }
            }
            return v[i].0;
        }
        i += 1;
    }
    assert(false);
    0
}

/// `s` with runs of equal neighbours collapsed to one.
pub open spec fn dedup(s: Seq<Coord>) -> Seq<Coord>
    decreases s.len(),
{
    if s.len() <= 1 {
        s
    } else if s.last() == s[s.len() - 2] {
        dedup(s.drop_last())
    } else {
        dedup(s.drop_last()).push(s.last())
    }
}

pub proof fn lemma_dedup_last(s: Seq<Coord>)
    requires
        s.len() > 0,
    ensures
        dedup(s).len() > 0,
        dedup(s).last() == s.last(),
        dedup(s).len() <= s.len(),
    decreases s.len(),
{
    if s.len() > 1 {
        lemma_dedup_last(s.drop_last());
    }
}

/// Whether `s` holds three pairwise different places, so that a hull can be
/// formed.
pub open spec fn three_distinct(s: Seq<Coord>) -> bool {
    exists|i: int, j: int, k: int|
        0 <= i < s.len() && 0 <= j < s.len() && 0 <= k < s.len() && s[i] != s[j] && s[i] != s[k]
            && s[j] != s[k]
}

/// The waypoint order: the ids of the hull ring's points (runs of equal
/// neighbours collapsed), in ring order; the input order when fewer than
/// three distinct places make a hull impossible.
pub open spec fn tour_order(visit: Seq<(NodeId, Coord)>, ring: Seq<Coord>) -> Seq<NodeId> {
    if !three_distinct(visit.map_values(|p: (NodeId, Coord)| p.1)) {
        visit.map_values(|p: (NodeId, Coord)| p.0)
    } else {
        dedup(ring).map_values(|c: Coord| id_at(visit, c))
    }
}

/// Whether the waypoints hold three pairwise different places.
pub fn has_three_distinct(visit: &Vec<(NodeId, Coord)>) -> (r: bool)
    ensures
        r == three_distinct(visit@.map_values(|p: (NodeId, Coord)| p.1)),
{
    let ghost s = visit@.map_values(|p: (NodeId, Coord)| p.1);
    if visit.len() == 0 {
        return false;
    }
    let a = visit[0].1;
    let mut j: usize = 0;
    while j < visit.len() && visit[j].1 == a
        invariant
            0 <= j <= visit@.len(),
            s == visit@.map_values(|p: (NodeId, Coord)| p.1),
            a == s[0],
            visit@.len() > 0,
            forall|x: int| 0 <= x < j ==> s[x] == a,
        decreases visit.len() - j,
    {
        j += 1;
    }
    if j == visit.len() {
        assert(!three_distinct(s)) by {
            if three_distinct(s) {
                let (x, y, z) = choose|x: int, y: int, z: int|
                    0 <= x < s.len() && 0 <= y < s.len() && 0 <= z < s.len() && s[x] != s[y] && s[x]
                        != s[z] && s[y] != s[z];
                assert(s[x] == a && s[y] == a);
            }
        }
        return false;
    }
    let b = visit[j].1;
    let mut k: usize = j;
    while k < visit.len() && (visit[k].1 == a || visit[k].1 == b)
        invariant
            j <= k <= visit@.len(),
            j < visit@.len(),
            s == visit@.map_values(|p: (NodeId, Coord)| p.1),
            a == s[0],
            b == s[j as int],
            a != b,
            forall|x: int| 0 <= x < j ==> s[x] == a,
            forall|x: int| j <= x < k ==> s[x] == a || s[x] == b,
        decreases visit.len() - k,
    {
        k += 1;
    }
    if k == visit.len() {
        assert(!three_distinct(s)) by {
            if three_distinct(s) {
                let (x, y, z) = choose|x: int, y: int, z: int|
                    0 <= x < s.len() && 0 <= y < s.len() && 0 <= z < s.len() && s[x] != s[y] && s[x]
                        != s[z] && s[y] != s[z];
                assert(s[x] == a || s[x] == b);
                assert(s[y] == a || s[y] == b);
                assert(s[z] == a || s[z] == b);
            }
        }
        return false;
    }
    assert(s[0] != s[j as int] && s[0] != s[k as int] && s[j as int] != s[k as int]);
    true
}

/// Orders waypoints along the ring of their concave hull. `visit` pairs each
/// waypoint with its place; `ring` is the hull's exterior, every point of
/// which is a waypoint's place. With fewer than three distinct places the
/// waypoints keep their input order.
pub fn order_with_concave_hull(visit: &Vec<(NodeId, Coord)>, ring: &Vec<Coord>) -> (r: Vec<NodeId>)
    requires
        forall|k: int| 0 <= k < ring@.len() ==> placed(visit@, #[trigger] ring@[k]),
    ensures
        r@ == tour_order(visit@, ring@),
{
    let mut r: Vec<NodeId> = Vec::new();
    if !has_three_distinct(visit) {
        let mut i: usize = 0;
        while i < visit.len()
            invariant
                0 <= i <= visit@.len(),
                r@ == visit@.subrange(0, i as int).map_values(|p: (NodeId, Coord)| p.0),
            decreases visit.len() - i,
        {
            proof {
                assert(visit@.subrange(0, i + 1).map_values(|p: (NodeId, Coord)| p.0)
                    == visit@.subrange(0, i as int).map_values(|p: (NodeId, Coord)| p.0).push(visit@[i as int].0));
            }
            r.push(visit[i].0);
            i += 1;
        }
        assert(visit@.subrange(0, i as int) == visit@);
        return r;
    }
    let mut i: usize = 0;
    let ghost mut kept: Seq<Coord> = Seq::empty();
    while i < ring.len()
        invariant
            0 <= i <= ring@.len(),
            forall|k: int| 0 <= k < ring@.len() ==> placed(visit@, #[trigger] ring@[k]),
            kept == dedup(ring@.subrange(0, i as int)),
            r@ == kept.map_values(|c: Coord| id_at(visit@, c)),
            i > 0 ==> kept.len() > 0 && kept.last() == ring@[i - 1],
        decreases ring.len() - i,
    {
        let ghost pre = ring@.subrange(0, i + 1);
        assert(pre.drop_last() == ring@.subrange(0, i as int));
        if i == 0 || ring[i] != ring[i - 1] {
            let id = back_to_id(visit, &ring[i]);
            r.push(id);
            proof {
                kept = kept.push(ring@[i as int]);
                assert(r@ == kept.map_values(|c: Coord| id_at(visit@, c)));
            }
        }
        proof {
            lemma_dedup_last(pre);
        }
        i += 1;
    }
    assert(ring@.subrange(0, i as int) == ring@);
    r
}


/// The queue an inner waypoint sector fills: each waypoint of `inner`
/// (id, bearing in microdegrees, distance from the start) whose bearing
/// falls in the sector joins it; nearest first when `nearest_first`, else
/// farthest first. A waypoint listed twice keeps its later distance.
pub open spec fn sector_queue(
    inner: Seq<(NodeId, i64, u64)>,
    first: Quadrant,
    last: Quadrant,
    nearest_first: bool,
) -> Map<u64, u64>
    decreases inner.len(),
{
    if inner.len() == 0 {
        Map::empty()
    } else {
        let m = sector_queue(inner.drop_last(), first, last, nearest_first);
        let (id, bearing, d) = inner.last();
        let q = Quadrant::of_bearing(bearing);
        if nearest_first && q == first {
            m.insert(id, (u64::MAX - d) as u64)
        } else if !nearest_first && q == last && q != first {
            m.insert(id, d)
        } else {
            m
        }
    }
}

/// `r` lists the items of `m` once each, greatest priority first.
pub open spec fn drained(m: Map<u64, u64>, r: Seq<u64>) -> bool {
    &&& r.no_duplicates()
    &&& r.to_set() == m.dom()
    &&& forall|i: int, j: int| 0 <= i < j < r.len() ==> #[trigger] m[r[i]] >= #[trigger] m[r[j]]
}

/// Empties a queue, greatest priority first.
fn drain(q: PriorityQueue<u64, u64>) -> (r: Vec<u64>)
    requires
        queue_items(q).dom().finite(),
    ensures
        drained(queue_items(q), r@),
{
    let ghost m = queue_items(q);
    let mut q = q;
    let mut r: Vec<u64> = Vec::new();
    while !queue_is_empty(&q)
        invariant
            queue_items(q).dom().finite(),
            r@.no_duplicates(),
            forall|x: u64| #[trigger] queue_items(q).contains_key(x) ==> m.contains_key(x) && m[x] == queue_items(q)[x],
            forall|x: u64| #[trigger] m.contains_key(x) <==> (queue_items(q).contains_key(x) || r@.contains(x)),
            forall|i: int| 0 <= i < r@.len() ==> !queue_items(q).contains_key(#[trigger] r@[i]),
            forall|i: int, x: u64| 0 <= i < r@.len() && queue_items(q).contains_key(x) ==> m[#[trigger] r@[i]] >= #[trigger] queue_items(q)[x],
            forall|i: int, j: int| 0 <= i < j < r@.len() ==> #[trigger] m[r@[i]] >= #[trigger] m[r@[j]],
        decreases queue_items(q).dom().len(),
    {
        let ghost before = queue_items(q);
        let (item, _) = queue_pop(&mut q).unwrap();
        proof {
            assert(queue_items(q).dom() == before.dom().remove(item));
            assert forall|x: u64| #[trigger] m.contains_key(x) <==> (queue_items(q).contains_key(x) || r@.push(item).contains(x)) by {
                if r@.contains(x) {
                    let i = choose|i: int| 0 <= i < r@.len() && r@[i] == x;
                    assert(r@.push(item)[i] == x);
                }
                if r@.push(item).contains(x) && x != item {
                    let i = choose|i: int| 0 <= i < r@.len() + 1 && r@.push(item)[i] == x;
                    assert(r@[i] == x);
                }
                if x == item {
                    assert(r@.push(item)[r@.len() as int] == x);
                }
            }
        }
        r.push(item);
    }
    proof {
        assert(r@.to_set() =~= m.dom());
    }
    r
}

/// Sorts the inner waypoints (those off the hull ring) into the two legs'
/// sectors: those in the outbound sector nearest first, those in the inbound
/// sector farthest first. Each entry is (id, bearing from the start in
/// microdegrees, distance from the start).
pub fn order_inner(inner: &Vec<(NodeId, i64, u64)>, first: Quadrant, last: Quadrant) -> (r: (Vec<NodeId>, Vec<NodeId>))
    ensures
        drained(sector_queue(inner@, first, last, true), r.0@),
        drained(sector_queue(inner@, first, last, false), r.1@),
{
    let mut before_first = queue_new();
    let mut after_last = queue_new();
    let mut i: usize = 0;
    while i < inner.len()
        invariant
            0 <= i <= inner@.len(),
            queue_items(before_first) == sector_queue(inner@.subrange(0, i as int), first, last, true),
            queue_items(after_last) == sector_queue(inner@.subrange(0, i as int), first, last, false),
            queue_items(before_first).dom().finite(),
            queue_items(after_last).dom().finite(),
        decreases inner.len() - i,
    {
        let (id, bearing, distance) = inner[i];
        proof {
            assert(inner@.subrange(0, i + 1).drop_last() == inner@.subrange(0, i as int));
        }
        let quadrant = Quadrant::to_quadrant(bearing);
        if quadrant == first || quadrant == last {
            if quadrant == first {
                queue_push(&mut before_first, id, u64::MAX - distance);
            } else {
                queue_push(&mut after_last, id, distance);
            }
        }
        i += 1;
    }
    assert(inner@.subrange(0, i as int) == inner@);
    (drain(before_first), drain(after_last))
}

} // verus!
