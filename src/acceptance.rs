//! Deciding whether a generated route is acceptable, and when to stop
//! generating.

use rand::seq::SliceRandom;
use rand::SeedableRng;
use vstd::prelude::*;

use crate::graph::Coord;
use crate::preprocessor::dedup;

verus! {

/// Millimetres in 90% of a kilometre.
pub const LOWER_PER_KM: u64 = 900_000;

/// Millimetres in 110% of a kilometre.
pub const UPPER_PER_KM: u64 = 1_100_000;

/// The route starts and ends at the same point.
pub open spec fn is_closed(points: Seq<Coord>) -> bool {
    points.len() > 0 && points[0] == points.last()
}

/// At least three quarters of the points remain once runs of equal
/// neighbours are collapsed.
pub open spec fn little_repetition(points: Seq<Coord>) -> bool {
    4 * dedup(points).len() >= 3 * points.len()
}

/// The length in millimetres is within 10% of the target in kilometres.
pub open spec fn length_fits(length_mm: u64, target_km: u8) -> bool {
    LOWER_PER_KM * target_km <= length_mm <= UPPER_PER_KM * target_km
}

/// The number of points left once runs of equal neighbours are collapsed.
pub fn dedup_len(points: &Vec<Coord>) -> (r: usize)
    ensures
        r == dedup(points@).len(),
{
    if points.len() <= 1 {
        return points.len();
    }
    let mut r: usize = 1;
    let mut i: usize = 1;
    while i < points.len()
        invariant
            1 <= i <= points@.len(),
            r == dedup(points@.subrange(0, i as int)).len(),
            r <= i,
        decreases points.len() - i,
    {
        let ghost pre = points@.subrange(0, i + 1);
        proof {
            assert(pre.drop_last() == points@.subrange(0, i as int));
            crate::preprocessor::lemma_dedup_last(points@.subrange(0, i as int));
        }
        if points[i] != points[i - 1] {
            r += 1;
        }
        i += 1;
    }
    assert(points@.subrange(0, i as int) == points@);
    r
}

/// Accepts a route exactly when it is closed, repeats itself little, and
/// its length (in millimetres) lies within 10% of the target (in kilometres).
pub fn accept_route(points: &Vec<Coord>, length_mm: u64, target_km: u8) -> (r: bool)
    ensures
        r <==> is_closed(points@) && little_repetition(points@) && length_fits(length_mm, target_km),
        r ==> points@[0] == points@.last(),
        r ==> 4 * dedup(points@).len() >= 3 * points@.len(),
        r ==> LOWER_PER_KM * target_km <= length_mm <= UPPER_PER_KM * target_km,
{
    if points.len() == 0 || points[0] != points[points.len() - 1] {
        return false;
    }
    let kept = dedup_len(points);
    proof {
        crate::preprocessor::lemma_dedup_last(points@);
    }
    if (kept as u128) * 4 < (points.len() as u128) * 3 {
        return false;
    }
    let lower = LOWER_PER_KM * (target_km as u64);
    let upper = UPPER_PER_KM * (target_km as u64);
    lower <= length_mm && length_mm <= upper
}

/// What to do after judging a candidate route.
#[derive(Clone, Copy, Debug, PartialEq, Eq, Structural)]
pub enum Verdict {
    /// The route meets every constraint: emit it.
    Accepted,
    /// Generate a fresh candidate.
    Retry,
    /// The attempt budget is spent: no feasible route was found.
    Exhausted,
}

/// The state of the generate-and-check loop: attempts made, and how many
/// are allowed.
pub struct Attempts {
    pub made: u64,
    pub limit: u64,
}

impl Attempts {
    pub fn new(limit: u64) -> (r: Attempts)
        ensures
            r.made == 0,
            r.limit == limit,
    {
        Attempts { made: 0, limit }
    }

    /// Counts one attempt and judges its route: accepted when it passes
    /// `accept_route`; otherwise exhausted once the budget is spent, and a
    /// retry before that.
    pub fn judge(&mut self, points: &Vec<Coord>, length_mm: u64, target_km: u8) -> (v: Verdict)
        ensures
            final(self).limit == old(self).limit,
            final(self).made == if old(self).made == u64::MAX {
                u64::MAX
            } else {
                (old(self).made + 1) as u64
            },
            v == Verdict::Accepted <==> is_closed(points@) && little_repetition(points@)
                && length_fits(length_mm, target_km),
            v == Verdict::Exhausted <==> !(is_closed(points@) && little_repetition(points@)
                && length_fits(length_mm, target_km)) && final(self).made >= final(self).limit,
    {
        self.made = self.made.saturating_add(1);
        if accept_route(points, length_mm, target_km) {
            Verdict::Accepted
        } else if self.made >= self.limit {
            Verdict::Exhausted
        } else {
            Verdict::Retry
        }
    }
}

/// 0.5% of the search radius in metres, the radius being the target
/// distance over 2 * 3.14.
pub open spec fn waypoint_budget_spec(target_km: u8) -> int {
    (target_km as int * 1000 * 100 / 628) * 5 / 1000
}

/// How many waypoints to keep out of a shuffled candidate pool: 0.5% of the
/// search radius in metres, where the radius is the target distance over
/// 2 * 3.14.
pub fn waypoint_budget(target_km: u8) -> (r: usize)
    ensures
        r as int == waypoint_budget_spec(target_km),
{
    let radius: usize = (target_km as usize) * 1000 * 100 / 628;
    radius * 5 / 1000
}

/// Relies on `SliceRandom::shuffle` driven by a `StdRng` seeded with
/// `seed`: the points come back in some order, each as often as given.
#[verifier::external_body]
fn shuffled(points: Vec<Coord>, seed: u64) -> (r: Vec<Coord>)
    ensures
        r@.to_multiset() == points@.to_multiset(),
{
    let mut points = points;
    let mut rng = rand::rngs::StdRng::seed_from_u64(seed);
    points.shuffle(&mut rng);
    points
}

/// The waypoints of one attempt: the candidates in an order drawn from
/// `seed`, cut to the budget for the target distance.
pub fn choose_waypoints(candidates: Vec<Coord>, seed: u64, target_km: u8) -> (r: Vec<Coord>)
    ensures
        r@.len() == if candidates@.len() < waypoint_budget_spec(target_km) {
            candidates@.len() as int
        } else {
            waypoint_budget_spec(target_km)
        },
        exists|order: Seq<Coord>|
            order.to_multiset() == candidates@.to_multiset() && r@ == order.subrange(0, r@.len() as int),
{
    let ghost given = candidates@;
    let order = shuffled(candidates, seed);
    let budget = waypoint_budget(target_km);
    proof {
        order@.to_multiset_ensures();
        given.to_multiset_ensures();
    }
    let mut r: Vec<Coord> = Vec::new();
    let mut i: usize = 0;
    while i < order.len() && i < budget
        invariant
            0 <= i <= order@.len(),
            i <= budget,
            r@ == order@.subrange(0, i as int),
        decreases order.len() - i,
    {
        r.push(order[i]);
        i += 1;
    }
    assert(order@.to_multiset() == given.to_multiset() && r@ == order@.subrange(0, r@.len() as int));
    r
}

} // verus!
