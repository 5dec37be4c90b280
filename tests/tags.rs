use nice_bike_roundtrips::classify::{
    bikeable_ways, is_bikeable_way, is_directed, is_interesting_node, is_interesting_relation, way_interest, Interest,
};

fn tags(pairs: &[(&str, &str)]) -> Vec<(String, String)> {
    pairs.iter().map(|(k, v)| (k.to_string(), v.to_string())).collect()
}

#[test]
fn primary_with_sidepath_is_not_bikeable() {
    assert!(!is_bikeable_way(&tags(&[("highway", "primary"), ("bicycle", "use_sidepath")])));
    assert!(!is_bikeable_way(&tags(&[("bicycle", "no"), ("highway", "primary_link")])));
    assert!(is_bikeable_way(&tags(&[("highway", "primary"), ("bicycle", "yes")])));
}

#[test]
fn plain_track_is_bikeable() {
    assert!(is_bikeable_way(&tags(&[("highway", "track")])));
    assert!(!is_bikeable_way(&tags(&[("highway", "track"), ("tracktype", "grade5")])));
    assert!(!is_bikeable_way(&tags(&[("highway", "track"), ("surface", "mud")])));
}

#[test]
fn first_highway_tag_decides() {
    assert!(!is_bikeable_way(&tags(&[("highway", "motorway"), ("highway", "residential")])));
    assert!(is_bikeable_way(&tags(&[("name", "x"), ("highway", "residential"), ("highway", "motorway")])));
    assert!(!is_bikeable_way(&tags(&[("building", "yes")])));
    assert!(!is_bikeable_way(&tags(&[])));
    assert!(!is_bikeable_way(&tags(&[("highway", "service"), ("access", "private")])));
    assert!(!is_bikeable_way(&tags(&[("highway", "path"), ("smoothness", "horrible")])));
    assert!(!is_bikeable_way(&tags(&[("highway", "cycleway"), ("motorroad", "yes")])));
}

#[test]
fn bikeable_ids_keep_order() {
    let ways = vec![
        (5u64, tags(&[("highway", "track")])),
        (3u64, tags(&[("highway", "motorway")])),
        (9u64, tags(&[("highway", "footway")])),
    ];
    assert_eq!(vec![5, 9], bikeable_ways(&ways));
}

#[test]
fn one_way_values() {
    assert!(is_directed(&tags(&[("oneway", "yes")])));
    assert!(is_directed(&tags(&[("highway", "path"), ("oneway", "1")])));
    assert!(is_directed(&tags(&[("oneway", "true")])));
    assert!(!is_directed(&tags(&[("oneway", "no")])));
    assert!(!is_directed(&tags(&[("oneway", "-1")])));
    assert!(!is_directed(&tags(&[])));
}

#[test]
fn points_of_interest_by_tags() {
    assert!(is_interesting_node(&tags(&[("tourism", "viewpoint")])));
    assert!(is_interesting_node(&tags(&[("name", "x"), ("historic", "wayside_cross")])));
    assert!(!is_interesting_node(&tags(&[("tourism", "hotel")])));
    assert_eq!(Interest::Always, way_interest(&tags(&[("natural", "wood"), ("historic", "castle")])));
    assert_eq!(Interest::IfLarge, way_interest(&tags(&[("landuse", "meadow")])));
    assert_eq!(Interest::Never, way_interest(&tags(&[("landuse", "industrial")])));
    assert!(is_interesting_relation(&tags(&[("natural", "water"), ("type", "multipolygon")])));
    assert!(!is_interesting_relation(&tags(&[("natural", "water")])));
    assert!(!is_interesting_relation(&tags(&[("type", "multipolygon"), ("building", "yes")])));
}
