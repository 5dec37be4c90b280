//! Tag rules: which ways are bikeable, which are one-way, and which map
//! objects are points of interest.

use vstd::prelude::*;

verus! {

/// Whether `s` spells `lit`.
fn is(s: &String, lit: &str) -> (r: bool)
    ensures
        r == (s@ == lit@),
{
    let owned = lit.to_owned();
    *s == owned
}

/// Value of `oneway` that makes a way one-way.
pub open spec fn oneway_value(v: Seq<char>) -> bool {
    v == "yes"@ || v == "1"@ || v == "true"@
}

/// A way is one-way when some `oneway` tag says so.
pub fn is_directed(tags: &Vec<(String, String)>) -> (r: bool)
    ensures
        r == exists|i: int|
            0 <= i < tags@.len() && (#[trigger] tags@[i]).0@ == "oneway"@ && oneway_value(tags@[i].1@),
{
    let mut i: usize = 0;
    while i < tags.len()
        invariant
            0 <= i <= tags@.len(),
            forall|j: int|
                0 <= j < i ==> !((#[trigger] tags@[j]).0@ == "oneway"@ && oneway_value(tags@[j].1@)),
        decreases tags.len() - i,
    {
        let k = &tags[i].0;
        let v = &tags[i].1;
        if is(k, "oneway") && (is(v, "yes") || is(v, "1") || is(v, "true")) {
            return true;
        }
        i += 1;
    }
    false
}


/// Kinds of highway a bicycle may use.
pub open spec fn highway_ok(v: Seq<char>) -> bool {
    v == "primary"@ || v == "primary_link"@ || v == "secondary"@ || v == "secondary_link"@ || v
        == "tertiary"@ || v == "tertiary_link"@ || v == "unclassified"@ || v == "residential"@ || v
        == "living_street"@ || v == "service"@ || v == "path"@ || v == "track"@ || v == "cycleway"@
        || v == "footway"@ || v == "pedestrian"@
}

fn highway_allowed(v: &String) -> (r: bool)
    ensures
        r == highway_ok(v@),
{
    is(v, "primary") || is(v, "primary_link") || is(v, "secondary") || is(v, "secondary_link") || is(
        v,
        "tertiary",
    ) || is(v, "tertiary_link") || is(v, "unclassified") || is(v, "residential") || is(
        v,
        "living_street",
    ) || is(v, "service") || is(v, "path") || is(v, "track") || is(v, "cycleway") || is(
        v,
        "footway",
    ) || is(v, "pedestrian")
}

/// A tag that rules a way out for bicycles.
pub open spec fn blocks(k: Seq<char>, v: Seq<char>) -> bool {
    (k == "access"@ && v == "private"@) || (k == "bicycle"@ && (v == "no"@ || v == "use_sidepath"@))
        || (k == "motorroad"@ && v == "yes"@) || (k == "tracktype"@ && v == "grade5"@) || (k
        == "smoothness"@ && (v == "very_bad"@ || v == "horrible"@ || v == "very_horrible"@ || v
        == "impassable"@)) || (k == "surface"@ && (v == "stepping_stones"@ || v == "gravel"@ || v
        == "rock"@ || v == "pebblestone"@ || v == "mud"@ || v == "sand"@ || v == "woodclips"@))
}

fn blocking(k: &String, v: &String) -> (r: bool)
    ensures
        r == blocks(k@, v@),
{
    (is(k, "access") && is(v, "private")) || (is(k, "bicycle") && (is(v, "no") || is(
        v,
        "use_sidepath",
    ))) || (is(k, "motorroad") && is(v, "yes")) || (is(k, "tracktype") && is(v, "grade5")) || (is(
        k,
        "smoothness",
    ) && (is(v, "very_bad") || is(v, "horrible") || is(v, "very_horrible") || is(v, "impassable")))
        || (is(k, "surface") && (is(v, "stepping_stones") || is(v, "gravel") || is(v, "rock") || is(
        v,
        "pebblestone",
    ) || is(v, "mud") || is(v, "sand") || is(v, "woodclips")))
}

/// A way is bikeable when its first `highway` tag names a kind bicycles may
/// use and no tag rules it out.
pub open spec fn bikeable(tags: Seq<(String, String)>) -> bool {
    &&& exists|i: int|
        0 <= i < tags.len() && (#[trigger] tags[i]).0@ == "highway"@ && highway_ok(tags[i].1@)
            && forall|j: int| 0 <= j < i ==> (#[trigger] tags[j]).0@ != "highway"@
    &&& forall|i: int| 0 <= i < tags.len() ==> !blocks((#[trigger] tags[i]).0@, tags[i].1@)
}

/// Decides from its tags whether a way is routable by bicycle.
pub fn is_bikeable_way(tags: &Vec<(String, String)>) -> (r: bool)
    ensures
        r == bikeable(tags@),
{
    let mut i: usize = 0;
    let mut found = false;
    while i < tags.len() && !found
        invariant
            0 <= i <= tags@.len(),
            forall|j: int| 0 <= j < i ==> (#[trigger] tags@[j]).0@ != "highway"@,
            found ==> i < tags@.len() && tags@[i as int].0@ == "highway"@ && highway_ok(
                tags@[i as int].1@,
            ),
        decreases tags.len() - i + if found {
            0int
        } else {
            1int
        },
    {
        if is(&tags[i].0, "highway") {
            if highway_allowed(&tags[i].1) {
                found = true;
            } else {
                proof {
                    assert forall|x: int|
                        0 <= x < tags@.len() && (#[trigger] tags@[x]).0@ == "highway"@ && highway_ok(
                            tags@[x].1@,
                        ) implies !(forall|j: int| 0 <= j < x ==> (#[trigger] tags@[j]).0@ != "highway"@) by {
                        if x > i {
                            assert(tags@[i as int].0@ == "highway"@);
                        }
                    }
                }
                return false;
            }
        } else {
            i += 1;
        }
    }
    if !found {
        return false;
    }
    assert(tags@[i as int].0@ == "highway"@ && highway_ok(tags@[i as int].1@));
    let mut j: usize = 0;
    while j < tags.len()
        invariant
            0 <= j <= tags@.len(),
            forall|x: int| 0 <= x < j ==> !blocks((#[trigger] tags@[x]).0@, tags@[x].1@),
        decreases tags.len() - j,
    {
        if blocking(&tags[j].0, &tags[j].1) {
            return false;
        }
        j += 1;
    }
    true
}

/// Node tags that mark a point of interest.
pub open spec fn node_attraction(k: Seq<char>, v: Seq<char>) -> bool {
    (k == "tourism"@ && (v == "viewpoint"@ || v == "alpine_hut"@ || v == "attraction"@ || v
        == "picnic_site"@)) || (k == "man_made"@ && (v == "cairn"@ || v == "cross"@ || v
        == "lighthouse"@ || v == "mineshaft"@ || v == "obelisk"@ || v == "observatory"@ || v
        == "watermill"@ || v == "windmill"@)) || (k == "historic"@ && (v == "memorial"@ || v
        == "archaeological_site"@ || v == "wayside_cross"@ || v == "ruins"@ || v == "wayside_shrine"@
        || v == "monument"@ || v == "building"@ || v == "castle"@ || v == "heritage"@ || v
        == "chruch"@ || v == "fort"@ || v == "city_gate"@ || v == "house"@ || v == "wreck"@ || v
        == "cannon"@ || v == "aircraft"@ || v == "farm"@ || v == "tower"@ || v == "monastery"@ || v
        == "locomotive"@ || v == "ship"@ || v == "tank"@ || v == "railway_car"@))
}

fn node_attracts(k: &String, v: &String) -> (r: bool)
    ensures
        r == node_attraction(k@, v@),
{
    (is(k, "tourism") && (is(v, "viewpoint") || is(v, "alpine_hut") || is(v, "attraction") || is(
        v,
        "picnic_site",
    ))) || (is(k, "man_made") && (is(v, "cairn") || is(v, "cross") || is(v, "lighthouse") || is(
        v,
        "mineshaft",
    ) || is(v, "obelisk") || is(v, "observatory") || is(v, "watermill") || is(v, "windmill"))) || (
    is(k, "historic") && (is(v, "memorial") || is(v, "archaeological_site") || is(v, "wayside_cross")
        || is(v, "ruins") || is(v, "wayside_shrine") || is(v, "monument") || is(v, "building") || is(
        v,
        "castle",
    ) || is(v, "heritage") || is(v, "chruch") || is(v, "fort") || is(v, "city_gate") || is(
        v,
        "house",
    ) || is(v, "wreck") || is(v, "cannon") || is(v, "aircraft") || is(v, "farm") || is(v, "tower")
        || is(v, "monastery") || is(v, "locomotive") || is(v, "ship") || is(v, "tank") || is(
        v,
        "railway_car",
    )))
}

/// A node is a point of interest when one of its tags marks it so.
pub fn is_interesting_node(tags: &Vec<(String, String)>) -> (r: bool)
    ensures
        r == exists|i: int|
            0 <= i < tags@.len() && node_attraction((#[trigger] tags@[i]).0@, tags@[i].1@),
{
    let mut i: usize = 0;
    while i < tags.len()
        invariant
            0 <= i <= tags@.len(),
            forall|j: int| 0 <= j < i ==> !node_attraction((#[trigger] tags@[j]).0@, tags@[j].1@),
        decreases tags.len() - i,
    {
        if node_attracts(&tags[i].0, &tags[i].1) {
            return true;
        }
        i += 1;
    }
    false
}

/// Natural or land-use areas, interesting only when large enough.
pub open spec fn area_feature(k: Seq<char>, v: Seq<char>) -> bool {
    (k == "natural"@ && (v == "water"@ || v == "grassland"@ || v == "heath"@ || v == "wood"@ || v
        == "bay"@ || v == "beach"@ || v == "coastline"@ || v == "dune"@)) || (k == "landuse"@ && (v
        == "farmland"@ || v == "forest"@ || v == "flowerbed"@ || v == "meadow"@ || v == "orchard"@
        || v == "plant_nursery"@ || v == "vineyard"@ || v == "grass"@))
}

fn is_area_feature(k: &String, v: &String) -> (r: bool)
    ensures
        r == area_feature(k@, v@),
{
    (is(k, "natural") && (is(v, "water") || is(v, "grassland") || is(v, "heath") || is(v, "wood")
        || is(v, "bay") || is(v, "beach") || is(v, "coastline") || is(v, "dune"))) || (is(
        k,
        "landuse",
    ) && (is(v, "farmland") || is(v, "forest") || is(v, "flowerbed") || is(v, "meadow") || is(
        v,
        "orchard",
    ) || is(v, "plant_nursery") || is(v, "vineyard") || is(v, "grass")))
}

/// Way tags that make the way's centre a point of interest whatever its size.
pub open spec fn way_attraction(k: Seq<char>, v: Seq<char>) -> bool {
    (k == "tourism"@ && (v == "alpine_hut"@ || v == "attraction"@ || v == "picnic_site"@)) || (k
        == "man_made"@ && (v == "cairn"@ || v == "obelisk"@ || v == "observatory"@ || v
        == "watermill"@ || v == "windmill"@)) || (k == "historic"@ && (v == "memorial"@ || v
        == "archaeological_site"@ || v == "ruins"@ || v == "wayside_shrine"@ || v == "monument"@ || v
        == "building"@ || v == "castle"@ || v == "heriage"@ || v == "church"@ || v == "fort"@ || v
        == "city_gate"@ || v == "house"@ || v == "hollow_way"@ || v == "wreck"@ || v == "aircraft"@
        || v == "farm"@ || v == "tower"@ || v == "monastery"@ || v == "bridge"@ || v == "aqueduct"@
        || v == "locomotive"@ || v == "ship"@ || v == "tank"@ || v == "railway_car"@))
}

fn way_attracts(k: &String, v: &String) -> (r: bool)
    ensures
        r == way_attraction(k@, v@),
{
    (is(k, "tourism") && (is(v, "alpine_hut") || is(v, "attraction") || is(v, "picnic_site"))) || (
    is(k, "man_made") && (is(v, "cairn") || is(v, "obelisk") || is(v, "observatory") || is(
        v,
        "watermill",
    ) || is(v, "windmill"))) || (is(k, "historic") && (is(v, "memorial") || is(
        v,
        "archaeological_site",
    ) || is(v, "ruins") || is(v, "wayside_shrine") || is(v, "monument") || is(v, "building") || is(
        v,
        "castle",
    ) || is(v, "heriage") || is(v, "church") || is(v, "fort") || is(v, "city_gate") || is(
        v,
        "house",
    ) || is(v, "hollow_way") || is(v, "wreck") || is(v, "aircraft") || is(v, "farm") || is(
        v,
        "tower",
    ) || is(v, "monastery") || is(v, "bridge") || is(v, "aqueduct") || is(v, "locomotive") || is(
        v,
        "ship",
    ) || is(v, "tank") || is(v, "railway_car")))
}

/// Whether a way's centre is a point of interest.
#[derive(Clone, Copy, Debug, PartialEq, Eq, Structural)]
pub enum Interest {
    /// Not a point of interest.
    Never,
    /// A point of interest when its area exceeds 100 square metres.
    IfLarge,
    /// A point of interest whatever its size.
    Always,
}

pub open spec fn spec_way_interest(tags: Seq<(String, String)>) -> Interest {
    if exists|i: int| 0 <= i < tags.len() && way_attraction((#[trigger] tags[i]).0@, tags[i].1@) {
        Interest::Always
    } else if exists|i: int| 0 <= i < tags.len() && area_feature((#[trigger] tags[i]).0@, tags[i].1@) {
        Interest::IfLarge
    } else {
        Interest::Never
    }
}

/// Classifies a way's tags: an attraction always counts, a natural or
/// land-use area counts when large enough.
pub fn way_interest(tags: &Vec<(String, String)>) -> (r: Interest)
    ensures
        r == spec_way_interest(tags@),
{
    let mut area = false;
    let mut i: usize = 0;
    while i < tags.len()
        invariant
            0 <= i <= tags@.len(),
            forall|j: int| 0 <= j < i ==> !way_attraction((#[trigger] tags@[j]).0@, tags@[j].1@),
            area == exists|j: int| 0 <= j < i && area_feature((#[trigger] tags@[j]).0@, tags@[j].1@),
        decreases tags.len() - i,
    {
        if way_attracts(&tags[i].0, &tags[i].1) {
            return Interest::Always;
        }
        if is_area_feature(&tags[i].0, &tags[i].1) {
            area = true;
        }
        i += 1;
    }
    if area {
        Interest::IfLarge
    } else {
        Interest::Never
    }
}

/// A relation is a candidate when it is a multipolygon tagged as a natural
/// or land-use area.
pub fn is_interesting_relation(tags: &Vec<(String, String)>) -> (r: bool)
    ensures
        r == ((exists|i: int|
            0 <= i < tags@.len() && (#[trigger] tags@[i]).0@ == "type"@ && tags@[i].1@
                == "multipolygon"@) && exists|i: int|
            0 <= i < tags@.len() && area_feature((#[trigger] tags@[i]).0@, tags@[i].1@)),
{
    let mut multi = false;
    let mut area = false;
    let mut i: usize = 0;
    while i < tags.len()
        invariant
            0 <= i <= tags@.len(),
            multi == exists|j: int|
                0 <= j < i && (#[trigger] tags@[j]).0@ == "type"@ && tags@[j].1@ == "multipolygon"@,
            area == exists|j: int| 0 <= j < i && area_feature((#[trigger] tags@[j]).0@, tags@[j].1@),
        decreases tags.len() - i,
    {
        if is(&tags[i].0, "type") && is(&tags[i].1, "multipolygon") {
            multi = true;
        }
        if is_area_feature(&tags[i].0, &tags[i].1) {
            area = true;
        }
        i += 1;
    }
    multi && area
}


/// The ids of the bikeable ways, in input order.
pub fn bikeable_ways(ways: &Vec<(u64, Vec<(String, String)>)>) -> (r: Vec<u64>)
    ensures
        r@ == ways@.filter(|w: (u64, Vec<(String, String)>)| bikeable(w.1@)).map_values(
            |w: (u64, Vec<(String, String)>)| w.0,
        ),
{
    let mut r: Vec<u64> = Vec::new();
    let mut i: usize = 0;
    while i < ways.len()
        invariant
            0 <= i <= ways@.len(),
            r@ == ways@.subrange(0, i as int).filter(
                |w: (u64, Vec<(String, String)>)| bikeable(w.1@),
            ).map_values(|w: (u64, Vec<(String, String)>)| w.0),
        decreases ways.len() - i,
    {
        proof {
            let pre = ways@.subrange(0, i + 1);
            assert(pre.drop_last() == ways@.subrange(0, i as int));
            reveal(Seq::filter);
        }
        if is_bikeable_way(&ways[i].1) {
            r.push(ways[i].0);
        }
        proof {
            let f = |w: (u64, Vec<(String, String)>)| bikeable(w.1@);
            let g = |w: (u64, Vec<(String, String)>)| w.0;
            assert(r@ =~= ways@.subrange(0, i + 1).filter(f).map_values(g));
        }
        i += 1;
    }
    assert(ways@.subrange(0, i as int) == ways@);
    r
}

} // verus!
