use nice_bike_roundtrips::graph::{Coord, NodeId};
use nice_bike_roundtrips::preprocessor::{
    back_to_id, has_three_distinct, order_inner, order_with_concave_hull, select_quadrants, Quadrant,
};

const DEG: i64 = 1_000_000;

#[test]
fn quadrant_ranges() {
    assert_eq!((0, 90), Quadrant::NE.value());
    assert_eq!((90, 180), Quadrant::SE.value());
    assert_eq!((180, 270), Quadrant::SW.value());
    assert_eq!((270, 360), Quadrant::NW.value());
    assert_eq!(Quadrant::NE, Quadrant::to_quadrant(0));
    assert_eq!(Quadrant::NE, Quadrant::to_quadrant(90 * DEG - 1));
    assert_eq!(Quadrant::SE, Quadrant::to_quadrant(90 * DEG));
    assert_eq!(Quadrant::SW, Quadrant::to_quadrant(180 * DEG));
    assert_eq!(Quadrant::NW, Quadrant::to_quadrant(270 * DEG));
    assert_eq!(Quadrant::NW, Quadrant::to_quadrant(-1));
}

#[test]
fn quadrant_neighbours() {
    assert_eq!(Quadrant::NW, Quadrant::NE.neighbour_ccw());
    assert_eq!(Quadrant::SE, Quadrant::NE.neighbour_cw());
    assert_eq!(Quadrant::NE, Quadrant::NW.neighbour_cw());
    assert_eq!(Quadrant::SW, Quadrant::NW.neighbour_ccw());
}

#[test]
fn legs_leave_in_different_quadrants() {
    assert_eq!((Quadrant::NE, Quadrant::SW), select_quadrants(10 * DEG, 200 * DEG));
    // same quadrant, last bearing larger: rotate clockwise
    assert_eq!((Quadrant::NE, Quadrant::SE), select_quadrants(10 * DEG, 80 * DEG));
    // same quadrant, last bearing smaller or equal: rotate counter-clockwise
    assert_eq!((Quadrant::NE, Quadrant::NW), select_quadrants(80 * DEG, 10 * DEG));
    assert_eq!((Quadrant::SW, Quadrant::SE), select_quadrants(200 * DEG, 200 * DEG));
}

fn p(lat: i32, lon: i32) -> Coord {
    Coord::new(lat, lon)
}

#[test]
fn ring_points_map_back_to_ids() {
    let visit: Vec<(NodeId, Coord)> = vec![(11, p(0, 0)), (12, p(0, 10)), (13, p(10, 10)), (14, p(10, 0)), (15, p(5, 5))];
    assert_eq!(13, back_to_id(&visit, &p(10, 10)));
    let ring = vec![p(0, 0), p(0, 10), p(0, 10), p(10, 10), p(10, 0), p(0, 0)];
    assert_eq!(vec![11, 12, 13, 14, 11], order_with_concave_hull(&visit, &ring));
}

#[test]
fn first_waypoint_at_a_place_wins() {
    let visit: Vec<(NodeId, Coord)> = vec![(1, p(0, 0)), (2, p(3, 3)), (3, p(0, 0))];
    assert_eq!(1, back_to_id(&visit, &p(0, 0)));
}

#[test]
fn degenerate_hull_keeps_input_order() {
    let visit: Vec<(NodeId, Coord)> = vec![(4, p(1, 1)), (2, p(2, 2)), (9, p(1, 1))];
    assert!(!has_three_distinct(&visit));
    assert_eq!(vec![4, 2, 9], order_with_concave_hull(&visit, &vec![p(1, 1), p(2, 2)]));
    assert!(order_with_concave_hull(&vec![], &vec![]).is_empty());
    let visit: Vec<(NodeId, Coord)> = vec![(4, p(1, 1)), (2, p(2, 2)), (9, p(3, 1))];
    assert!(has_three_distinct(&visit));
}

#[test]
fn inner_points_sorted_into_leg_sectors() {
    let inner: Vec<(NodeId, i64, u64)> = vec![
        (1, 10 * DEG, 500),
        (2, 100 * DEG, 300),
        (3, 20 * DEG, 100),
        (4, 200 * DEG, 50),
        (5, 120 * DEG, 900),
        (6, 80 * DEG, 300),
    ];
    let (near, far) = order_inner(&inner, Quadrant::NE, Quadrant::SE);
    // outbound sector NE, nearest first
    assert_eq!(vec![3, 6, 1], near);
    // inbound sector SE, farthest first; SW points are left out
    assert_eq!(vec![5, 2], far);
}
