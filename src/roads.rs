//! Turning routing-data elements into a graph store: drivable ways only,
//! one link per consecutive pair of points, reverse links unless one-way.
use crate::network::{Link, Node, OrientedGraph};
use crate::overpass::{OverpassElement, OverpassResponse};
use std::collections::HashMap;
use vstd::prelude::*;

verus! {

/// The value of the first tag whose key is `key`. A way's tags come from a
/// key-to-value map, so each key appears at most once and the first match
/// is the only one; on a list with a repeated key the earliest pair wins.
pub open spec fn tag_value(tags: Seq<(String, String)>, key: Seq<char>) -> Option<Seq<char>>
    decreases tags.len(),
{
    if tags.len() == 0 {
        None
    } else if tags[0].0@ == key {
        Some(tags[0].1@)
    } else {
        tag_value(tags.drop_first(), key)
    }
}

/// No key occurs twice among the tags, as in the key-to-value map they
/// come from.
pub open spec fn keys_unique(tags: Seq<(String, String)>) -> bool {
    forall|i: int, j: int| 0 <= i < j < tags.len() ==> #[trigger] tags[i].0@ != #[trigger] tags[j].0@
}

/// With unique keys, the value found for a key is the value of the one tag
/// carrying it.
pub proof fn lemma_tag_value_unique(tags: Seq<(String, String)>, i: int)
    requires
        keys_unique(tags),
        0 <= i < tags.len(),
    ensures
        tag_value(tags, tags[i].0@) == Some(tags[i].1@),
    decreases tags.len(),
{
    if i > 0 {
        let rest = tags.drop_first();
        assert(tags[0].0@ != tags[i].0@);
        assert(rest[i - 1] == tags[i]);
        assert forall|a: int, b: int| 0 <= a < b < rest.len() implies #[trigger] rest[a].0@ != #[trigger] rest[b].0@ by {
            assert(rest[a] == tags[a + 1] && rest[b] == tags[b + 1]);
        }
        lemma_tag_value_unique(rest, i - 1);
    }
}

/// The road classes that motor vehicles may use.
pub open spec fn drivable_classes() -> Seq<Seq<char>> {
    seq![
        "motorway"@,
        "trunk"@,
        "primary"@,
        "secondary"@,
        "tertiary"@,
        "unclassified"@,
        "residential"@,
        "motorway_link"@,
        "trunk_link"@,
        "primary_link"@,
        "secondary_link"@,
        "tertiary_link"@,
        "living_street"@,
        "service"@,
        "road"@,
    ]
}

/// A one-way tag value that counts as true.
pub open spec fn truthy(v: Seq<char>) -> bool {
    v == "yes"@ || v == "1"@ || v == "true"@
}

/// The tags mark a one-way road.
pub open spec fn one_way(tags: Seq<(String, String)>) -> bool {
    match tag_value(tags, "oneway"@) {
        Some(v) => truthy(v),
        None => false,
    }
}

/// The first tag with key `key`, if any.
pub fn find_tag<'a>(tags: &'a Vec<(String, String)>, key: &String) -> (r: Option<&'a String>)
    ensures
        match r {
            Some(v) => tag_value(tags@, key@) == Some(v@),
            None => tag_value(tags@, key@) is None,
        },
{
    let mut t: usize = 0;
    assert(tags@.subrange(0, tags@.len() as int) == tags@);
    while t < tags.len()
        invariant
            t <= tags@.len(),
            tag_value(tags@, key@) == tag_value(tags@.subrange(t as int, tags@.len() as int), key@),
        decreases tags@.len() - t,
    {
        let ghost rest = tags@.subrange(t as int, tags@.len() as int);
        assert(rest.drop_first() == tags@.subrange(t + 1, tags@.len() as int));
        assert(rest[0] == tags@[t as int]);
        if tags[t].0 == *key {
            return Some(&tags[t].1);
        }
        t = t + 1;
    }
    None
}

/// The allow-list of drivable road classes.
pub fn drivable_highways() -> (r: Vec<String>)
    ensures
        r@.map_values(|s: String| s@) == drivable_classes(),
{
    let mut r: Vec<String> = Vec::new();
    r.push("motorway".to_owned());
    r.push("trunk".to_owned());
    r.push("primary".to_owned());
    r.push("secondary".to_owned());
    r.push("tertiary".to_owned());
    r.push("unclassified".to_owned());
    r.push("residential".to_owned());
    r.push("motorway_link".to_owned());
    r.push("trunk_link".to_owned());
    r.push("primary_link".to_owned());
    r.push("secondary_link".to_owned());
    r.push("tertiary_link".to_owned());
    r.push("living_street".to_owned());
    r.push("service".to_owned());
    r.push("road".to_owned());
    assert(r@.map_values(|s: String| s@) =~= drivable_classes());
    r
}

/// Whether `class` is one of `classes`.
pub fn class_allowed(classes: &Vec<String>, class: &String) -> (r: bool)
    ensures
        r == classes@.map_values(|s: String| s@).contains(class@),
{
    let ghost views = classes@.map_values(|s: String| s@);
    let mut t: usize = 0;
    while t < classes.len()
        invariant
            t <= classes@.len(),
            views == classes@.map_values(|s: String| s@),
            forall|q: int| 0 <= q < t ==> views[q] != class@,
        decreases classes@.len() - t,
    {
        if classes[t] == *class {
            assert(views[t as int] == class@);
            return true;
        }
        t = t + 1;
    }
    false
}

/// Whether `highway_type` is a drivable road class.
pub fn is_drivable(highway_type: &str) -> (r: bool)
    ensures
        r == drivable_classes().contains(highway_type@),
{
    let classes = drivable_highways();
    class_allowed(&classes, &highway_type.to_owned())
}

/// Whether the tags mark a one-way road: a `oneway` tag whose value is
/// "yes", "1" or "true".
pub fn is_oneway(tags: &Vec<(String, String)>) -> (r: bool)
    ensures
        r == one_way(tags@),
{
    let key = "oneway".to_owned();
    match find_tag(tags, &key) {
        Some(v) => {
            let yes = "yes".to_owned();
            let one = "1".to_owned();
            let tru = "true".to_owned();
            *v == yes || *v == one || *v == tru
        },
        None => false,
    }
}

/// The element is a point.
pub open spec fn is_point(e: OverpassElement) -> bool {
    e.element_type@ == "node"@
}

/// Coordinates of point `id`: those of the last point element with that id,
/// if it has both; `None` if it lacks one or there is no such element.
pub open spec fn point_coords(els: Seq<OverpassElement>, id: i64) -> Option<(i64, i64)>
    decreases els.len(),
{
    if els.len() == 0 {
        None
    } else {
        let e = els.last();
        if is_point(e) && e.id == id {
            if e.lat is Some && e.lon is Some {
                Some((e.lat.unwrap(), e.lon.unwrap()))
            } else {
                None
            }
        } else {
            point_coords(els.drop_last(), id)
        }
    }
}

/// The point ids of `e` when it is a way whose highway class is in `classes`.
pub open spec fn way_points(e: OverpassElement, classes: Seq<Seq<char>>) -> Option<Seq<i64>> {
    match e.tags {
        Some(tags) => match tag_value(tags@, "highway"@) {
            Some(h) => if classes.contains(h) {
                match e.nodes {
                    Some(ns) => Some(ns@),
                    None => None,
                }
            } else {
                None
            },
            None => None,
        },
        None => None,
    }
}

/// What a link records: origin, destination, way and tags.
pub type LinkRecord = (i64, i64, i64, Seq<(String, String)>);

/// Links (origin, destination, way, tags) made from the first `upto` consecutive
/// pairs of `ns`: a pair whose two points both have coordinates gives the
/// forward link and, unless `oneway`, the reverse link right after it.
pub open spec fn pair_links(
    els: Seq<OverpassElement>,
    ns: Seq<i64>,
    oneway: bool,
    way: i64,
    tags: Seq<(String, String)>,
    upto: int,
) -> Seq<LinkRecord>
    decreases upto,
{
    if upto <= 0 {
        Seq::empty()
    } else {
        let prev = pair_links(els, ns, oneway, way, tags, upto - 1);
        let a = ns[upto - 1];
        let b = ns[upto];
        if point_coords(els, a) is Some && point_coords(els, b) is Some {
            if oneway {
                prev.push((a, b, way, tags))
            } else {
                prev.push((a, b, way, tags)).push((b, a, way, tags))
            }
        } else {
            prev
        }
    }
}

/// Which of the links of `pair_links` are reverse links: each is the
/// same pair as the forward link right before it, turned around.
pub open spec fn pair_flags(els: Seq<OverpassElement>, ns: Seq<i64>, oneway: bool, upto: int) -> Seq<bool>
    decreases upto,
{
    if upto <= 0 {
        Seq::empty()
    } else {
        let prev = pair_flags(els, ns, oneway, upto - 1);
        if point_coords(els, ns[upto - 1]) is Some && point_coords(els, ns[upto]) is Some {
            if oneway {
                prev.push(false)
            } else {
                prev.push(false).push(true)
            }
        } else {
            prev
        }
    }
}

/// Reverse-link flags of the links contributed by element `e`.
pub open spec fn way_flags(els: Seq<OverpassElement>, e: OverpassElement, classes: Seq<Seq<char>>) -> Seq<bool> {
    match way_points(e, classes) {
        Some(ns) => pair_flags(els, ns, one_way(e.tags.unwrap()@), ns.len() - 1),
        None => Seq::empty(),
    }
}

/// Reverse-link flags of the links contributed by the first `upto` elements.
pub open spec fn road_flags(els: Seq<OverpassElement>, classes: Seq<Seq<char>>, upto: int) -> Seq<bool>
    decreases upto,
{
    if upto <= 0 {
        Seq::empty()
    } else {
        road_flags(els, classes, upto - 1) + way_flags(els, els[upto - 1], classes)
    }
}

pub proof fn lemma_pair_flags_len(
    els: Seq<OverpassElement>,
    ns: Seq<i64>,
    oneway: bool,
    way: i64,
    tags: Seq<(String, String)>,
    upto: int,
)
    ensures
        pair_flags(els, ns, oneway, upto).len() == pair_links(els, ns, oneway, way, tags, upto).len(),
    decreases upto,
{
    if upto > 0 {
        lemma_pair_flags_len(els, ns, oneway, way, tags, upto - 1);
    }
}

/// Links contributed by element `e`.
pub open spec fn way_links(els: Seq<OverpassElement>, e: OverpassElement, classes: Seq<Seq<char>>) -> Seq<LinkRecord> {
    match way_points(e, classes) {
        Some(ns) => pair_links(els, ns, one_way(e.tags.unwrap()@), e.id, e.tags.unwrap()@, ns.len() - 1),
        None => Seq::empty(),
    }
}

/// Links contributed by the first `upto` elements, in order.
pub open spec fn road_links(els: Seq<OverpassElement>, classes: Seq<Seq<char>>, upto: int) -> Seq<LinkRecord>
    decreases upto,
{
    if upto <= 0 {
        Seq::empty()
    } else {
        road_links(els, classes, upto - 1) + way_links(els, els[upto - 1], classes)
    }
}

/// `id` is a point of one of the first `upto` elements that are drivable ways.
pub open spec fn referenced(els: Seq<OverpassElement>, classes: Seq<Seq<char>>, upto: int, id: i64) -> bool {
    exists|q: int| 0 <= q < upto && #[trigger] way_points(els[q], classes) is Some && way_points(els[q], classes).unwrap().contains(id)
}

pub open spec fn link_record(l: Link) -> LinkRecord {
    (l.origin_id, l.dest_id, l.way_id, l.tags@)
}

/// Every node of `g` is a point of `els`, stored with that point's coordinates.
pub open spec fn nodes_from(g: OrientedGraph, els: Seq<OverpassElement>) -> bool {
    forall|id: i64| #[trigger] g.node_map().contains_key(id) ==> {
        &&& point_coords(els, id) is Some
        &&& g.node_map()[id] == (Node { id, lat: point_coords(els, id).unwrap().0, lon: point_coords(els, id).unwrap().1 })
    }
}

/// Both ends of every link are nodes. A forward link weighs what
/// `distance` returned for its two nodes; a reverse link (flagged in
/// `reverse`) weighs the same as the link right before it.
pub open spec fn weighed_by<F: Fn(Node, Node) -> u64>(g: OrientedGraph, reverse: Seq<bool>, distance: F) -> bool {
    &&& reverse.len() == g.link_seq().len()
    &&& forall|p: int| 0 <= p < g.link_seq().len() ==> {
        &&& g.node_map().contains_key(#[trigger] g.link_seq()[p].origin_id)
        &&& g.node_map().contains_key(g.link_seq()[p].dest_id)
        &&& !reverse[p] ==> distance.ensures(
            (g.node_map()[g.link_seq()[p].origin_id], g.node_map()[g.link_seq()[p].dest_id]),
            g.link_seq()[p].distance,
        )
        &&& reverse[p] ==> p > 0 && g.link_seq()[p].distance == g.link_seq()[p - 1].distance
    }
}

pub proof fn lemma_pair_links_grow(
    els: Seq<OverpassElement>,
    ns: Seq<i64>,
    oneway: bool,
    way: i64,
    tags: Seq<(String, String)>,
    a: int,
    b: int,
)
    requires
        a <= b,
    ensures
        pair_links(els, ns, oneway, way, tags, a).len() <= pair_links(els, ns, oneway, way, tags, b).len(),
    decreases b - a,
{
    if a < b {
        lemma_pair_links_grow(els, ns, oneway, way, tags, a, b - 1);
    }
}

pub proof fn lemma_road_links_grow(els: Seq<OverpassElement>, classes: Seq<Seq<char>>, a: int, b: int)
    requires
        a <= b,
    ensures
        road_links(els, classes, a).len() <= road_links(els, classes, b).len(),
    decreases b - a,
{
    if a < b {
        lemma_road_links_grow(els, classes, a, b - 1);
    }
}

/// The forward link from the `i`-th point of `ns` to the next one.
pub open spec fn step(ns: Seq<i64>, i: int, way: i64, tags: Seq<(String, String)>) -> LinkRecord {
    (ns[i], ns[i + 1], way, tags)
}

/// The reverse link from the `i + 1`-th point of `ns` back to the `i`-th.
pub open spec fn back_step(ns: Seq<i64>, i: int, way: i64, tags: Seq<(String, String)>) -> LinkRecord {
    (ns[i + 1], ns[i], way, tags)
}

/// The `i`-th and the next point of `ns` both have coordinates.
pub open spec fn pair_known(els: Seq<OverpassElement>, ns: Seq<i64>, i: int) -> bool {
    point_coords(els, ns[i]) is Some && point_coords(els, ns[i + 1]) is Some
}

/// Every entry of `links` is the forward link of one of the first `upto`
/// consecutive pairs of `ns`.
pub open spec fn forward_only(links: Seq<LinkRecord>, ns: Seq<i64>, way: i64, tags: Seq<(String, String)>, upto: int) -> bool {
    forall|q: int| 0 <= q < links.len() ==> #[trigger] in_steps(links[q], ns, way, tags, upto)
}

/// `link` is the forward link of one of the first `upto` pairs of `ns`.
pub open spec fn in_steps(link: LinkRecord, ns: Seq<i64>, way: i64, tags: Seq<(String, String)>, upto: int) -> bool {
    exists|i: int| 0 <= i < upto && link == #[trigger] step(ns, i, way, tags)
}

/// On a one-way way every link runs forward, from a point to the next one in
/// the way's list.
pub proof fn lemma_one_way_forward_only(els: Seq<OverpassElement>, ns: Seq<i64>, way: i64, tags: Seq<(String, String)>, upto: int)
    requires
        upto < ns.len(),
    ensures
        forward_only(pair_links(els, ns, true, way, tags, upto), ns, way, tags, upto),
    decreases upto,
{
    if upto > 0 {
        lemma_one_way_forward_only(els, ns, way, tags, upto - 1);
        let prev = pair_links(els, ns, true, way, tags, upto - 1);
        let cur = pair_links(els, ns, true, way, tags, upto);
        assert(cur == if pair_known(els, ns, upto - 1) { prev.push(step(ns, upto - 1, way, tags)) } else { prev });
        assert forall|q: int| 0 <= q < cur.len() implies #[trigger] in_steps(cur[q], ns, way, tags, upto) by {
            if q < prev.len() {
                assert(cur[q] == prev[q]);
                assert(in_steps(prev[q], ns, way, tags, upto - 1));
                let i = choose|i: int| 0 <= i < upto - 1 && prev[q] == #[trigger] step(ns, i, way, tags);
                assert(cur[q] == step(ns, i, way, tags));
            } else {
                assert(cur[q] == step(ns, upto - 1, way, tags));
            }
        }
    }
}

/// On a one-way way each consecutive pair of points with coordinates has
/// its forward link.
pub proof fn lemma_one_way_links_present(els: Seq<OverpassElement>, ns: Seq<i64>, way: i64, tags: Seq<(String, String)>, upto: int)
    requires
        upto < ns.len(),
    ensures
        forall|i: int|
            0 <= i < upto && pair_known(els, ns, i) ==> pair_links(els, ns, true, way, tags, upto).contains(#[trigger] step(ns, i, way, tags)),
    decreases upto,
{
    if upto > 0 {
        lemma_one_way_links_present(els, ns, way, tags, upto - 1);
        let prev = pair_links(els, ns, true, way, tags, upto - 1);
        let cur = pair_links(els, ns, true, way, tags, upto);
        assert(cur == if pair_known(els, ns, upto - 1) { prev.push(step(ns, upto - 1, way, tags)) } else { prev });
        assert forall|i: int| 0 <= i < upto && pair_known(els, ns, i) implies cur.contains(#[trigger] step(ns, i, way, tags)) by {
            if i < upto - 1 {
                let r = choose|r: int| 0 <= r < prev.len() && prev[r] == step(ns, i, way, tags);
                assert(cur[r] == prev[r]);
            } else {
                assert(cur[prev.len() as int] == step(ns, i, way, tags));
            }
        }
    }
}

/// On a two-way way each consecutive pair of points with coordinates has
/// both its forward and its reverse link.
pub proof fn lemma_two_way_both_directions(els: Seq<OverpassElement>, ns: Seq<i64>, way: i64, tags: Seq<(String, String)>, upto: int)
    requires
        upto < ns.len(),
    ensures
        forall|i: int|
            0 <= i < upto && pair_known(els, ns, i) ==> {
                &&& pair_links(els, ns, false, way, tags, upto).contains(#[trigger] step(ns, i, way, tags))
                &&& pair_links(els, ns, false, way, tags, upto).contains(back_step(ns, i, way, tags))
            },
    decreases upto,
{
    if upto > 0 {
        lemma_two_way_both_directions(els, ns, way, tags, upto - 1);
        let prev = pair_links(els, ns, false, way, tags, upto - 1);
        let cur = pair_links(els, ns, false, way, tags, upto);
        assert(cur == if pair_known(els, ns, upto - 1) {
            prev.push(step(ns, upto - 1, way, tags)).push(back_step(ns, upto - 1, way, tags))
        } else {
            prev
        });
        assert forall|i: int| 0 <= i < upto && pair_known(els, ns, i) implies cur.contains(#[trigger] step(ns, i, way, tags))
            && cur.contains(back_step(ns, i, way, tags)) by {
            if i < upto - 1 {
                let r = choose|r: int| 0 <= r < prev.len() && prev[r] == step(ns, i, way, tags);
                assert(cur[r] == prev[r]);
                let s = choose|s: int| 0 <= s < prev.len() && prev[s] == back_step(ns, i, way, tags);
                assert(cur[s] == prev[s]);
            } else {
                assert(cur[prev.len() as int] == step(ns, i, way, tags));
                assert(cur[prev.len() as int + 1] == back_step(ns, i, way, tags));
            }
        }
    }
}

/// A copy of `tags`, pair for pair.
pub fn copy_tags(tags: &Vec<(String, String)>) -> (r: Vec<(String, String)>)
    ensures
        r@ == tags@,
{
    let mut r: Vec<(String, String)> = Vec::new();
    let mut t: usize = 0;
    while t < tags.len()
        invariant
            t <= tags@.len(),
            r@ == tags@.subrange(0, t as int),
        decreases tags@.len() - t,
    {
        let k = tags[t].0.clone();
        let v = tags[t].1.clone();
        r.push((k, v));
        proof {
            assert(r@ =~= tags@.subrange(0, t + 1));
        }
        t = t + 1;
    }
    assert(tags@.subrange(0, tags@.len() as int) =~= tags@);
    r
}

/// Indexes the point elements by id; a later element with the same id
/// replaces an earlier one. The value holds both coordinates, or `None`.
fn point_index(els: &Vec<OverpassElement>) -> (m: HashMap<i64, Option<(i64, i64)>>)
    ensures
        forall|id: i64| #[trigger] m@.contains_key(id) ==> m@[id] == point_coords(els@, id),
        forall|id: i64| !(#[trigger] m@.contains_key(id)) ==> point_coords(els@, id) is None,
{
    let mut m: HashMap<i64, Option<(i64, i64)>> = HashMap::new();
    let node_type = "node".to_owned();
    let mut q: usize = 0;
    while q < els.len()
        invariant
            q <= els@.len(),
            node_type@ == "node"@,
            forall|id: i64| #[trigger] m@.contains_key(id) ==> m@[id] == point_coords(els@.subrange(0, q as int), id),
            forall|id: i64| !(#[trigger] m@.contains_key(id)) ==> point_coords(els@.subrange(0, q as int), id) is None,
        decreases els@.len() - q,
    {
        let e = &els[q];
        let ghost pre = els@.subrange(0, q as int);
        let ghost cur = els@.subrange(0, q as int + 1);
        assert(cur.drop_last() == pre);
        assert(cur.last() == *e);
        if e.element_type == node_type {
            let c = match (e.lat, e.lon) {
                (Some(lat), Some(lon)) => Some((lat, lon)),
                _ => None,
            };
            m.insert(e.id, c);
        }
        q = q + 1;
    }
    assert(els@.subrange(0, els@.len() as int) == els@);
    m
}

/// Coordinates of point `id` from the index.
fn known_coords(index: &HashMap<i64, Option<(i64, i64)>>, els: Ghost<Seq<OverpassElement>>, id: i64) -> (r: Option<(i64, i64)>)
    requires
        forall|x: i64| #[trigger] index@.contains_key(x) ==> index@[x] == point_coords(els@, x),
        forall|x: i64| !(#[trigger] index@.contains_key(x)) ==> point_coords(els@, x) is None,
    ensures
        r == point_coords(els@, id),
{
    match index.get(&id) {
        Some(c) => *c,
        None => None,
    }
}

/// Adds the points of one drivable way that have coordinates, then a link
/// for each consecutive pair of them (and the reverse link unless `oneway`).
fn add_way<F: Fn(Node, Node) -> u64>(
    g: &mut OrientedGraph,
    index: &HashMap<i64, Option<(i64, i64)>>,
    els: Ghost<Seq<OverpassElement>>,
    rev: Ghost<Seq<bool>>,
    ns: &Vec<i64>,
    oneway: bool,
    way_id: i64,
    tags: &Vec<(String, String)>,
    distance: &F,
)
    requires
        old(g).wf(),
        forall|x: i64| #[trigger] index@.contains_key(x) ==> index@[x] == point_coords(els@, x),
        forall|x: i64| !(#[trigger] index@.contains_key(x)) ==> point_coords(els@, x) is None,
        nodes_from(*old(g), els@),
        weighed_by(*old(g), rev@, *distance),
        forall|a: Node, b: Node| distance.requires((a, b)),
        old(g).link_seq().len() + pair_links(els@, ns@, oneway, way_id, tags@, ns@.len() - 1).len() < usize::MAX,
    ensures
        final(g).wf(),
        nodes_from(*final(g), els@),
        weighed_by(*final(g), rev@ + pair_flags(els@, ns@, oneway, ns@.len() - 1), *distance),
        final(g).link_seq().map_values(|l: Link| link_record(l)) == old(g).link_seq().map_values(|l: Link| link_record(l))
            + pair_links(els@, ns@, oneway, way_id, tags@, ns@.len() - 1),
        forall|id: i64|
            #[trigger] final(g).node_map().contains_key(id) <==> (old(g).node_map().contains_key(id) || (ns@.contains(id)
                && point_coords(els@, id) is Some)),
{
    let mut t: usize = 0;
    while t < ns.len()
        invariant
            t <= ns@.len(),
            g.wf(),
            forall|x: i64| #[trigger] index@.contains_key(x) ==> index@[x] == point_coords(els@, x),
            forall|x: i64| !(#[trigger] index@.contains_key(x)) ==> point_coords(els@, x) is None,
            nodes_from(*g, els@),
            weighed_by(*g, rev@, *distance),
            g.link_seq() == old(g).link_seq(),
            forall|id: i64|
                #[trigger] g.node_map().contains_key(id) <==> (old(g).node_map().contains_key(id) || (ns@.subrange(
                    0,
                    t as int,
                ).contains(id) && point_coords(els@, id) is Some)),
        decreases ns@.len() - t,
    {
        let id = ns[t];
        let ghost before = *g;
        match known_coords(index, els, id) {
            Some((lat, lon)) => {
                g.add_node(Node::new(id, lat, lon));
            },
            None => {},
        }
        proof {
            assert forall|x: i64| #[trigger] g.node_map().contains_key(x) implies {
                &&& point_coords(els@, x) is Some
                &&& g.node_map()[x] == (Node { id: x, lat: point_coords(els@, x).unwrap().0, lon: point_coords(els@, x).unwrap().1 })
            } by {
                if x != id {
                    assert(before.node_map().contains_key(x));
                }
            }
            assert forall|x: i64| before.node_map().contains_key(x) implies #[trigger] g.node_map()[x] == before.node_map()[x] by {}
            assert forall|p: int| 0 <= p < g.link_seq().len() implies {
                &&& g.node_map().contains_key(#[trigger] g.link_seq()[p].origin_id)
                &&& g.node_map().contains_key(g.link_seq()[p].dest_id)
                &&& !rev@[p] ==> distance.ensures(
                    (g.node_map()[g.link_seq()[p].origin_id], g.node_map()[g.link_seq()[p].dest_id]),
                    g.link_seq()[p].distance,
                )
                &&& rev@[p] ==> p > 0 && g.link_seq()[p].distance == g.link_seq()[p - 1].distance
            } by {
                assert(before.node_map().contains_key(before.link_seq()[p].origin_id));
                assert(before.node_map().contains_key(before.link_seq()[p].dest_id));
            }
            let pre = ns@.subrange(0, t as int);
            let cur = ns@.subrange(0, t as int + 1);
            assert forall|x: i64| cur.contains(x) <==> (pre.contains(x) || x == id) by {
                if cur.contains(x) {
                    let r = choose|r: int| 0 <= r < cur.len() && cur[r] == x;
                    if r < t {
                        assert(pre[r] == x);
                    }
                }
                if pre.contains(x) {
                    let r = choose|r: int| 0 <= r < pre.len() && pre[r] == x;
                    assert(cur[r] == x);
                }
                if x == id {
                    assert(cur[t as int] == x);
                }
            }
        }
        t = t + 1;
    }
    assert(ns@.subrange(0, ns@.len() as int) == ns@);
    let ghost nodes_done = g.node_map();
    let ghost base = old(g).link_seq().map_values(|l: Link| link_record(l));
    let pairs: usize = if ns.len() > 0 {
        ns.len() - 1
    } else {
        0
    };
    assert(g.link_seq().map_values(|l: Link| link_record(l)) =~= base + pair_links(els@, ns@, oneway, way_id, tags@, 0));
    assert(rev@ + pair_flags(els@, ns@, oneway, 0) =~= rev@);
    let mut i: usize = 0;
    while i < pairs
        invariant
            i <= pairs,
            pairs == if ns@.len() > 0 { ns@.len() - 1 } else { 0 },
            g.wf(),
            nodes_from(*g, els@),
            weighed_by(*g, rev@ + pair_flags(els@, ns@, oneway, i as int), *distance),
            forall|a: Node, b: Node| distance.requires((a, b)),
            g.node_map() == nodes_done,
            forall|id: i64|
                #[trigger] g.node_map().contains_key(id) <==> (old(g).node_map().contains_key(id) || (ns@.contains(id)
                    && point_coords(els@, id) is Some)),
            g.link_seq().map_values(|l: Link| link_record(l)) == base + pair_links(els@, ns@, oneway, way_id, tags@, i as int),
            base.len() == old(g).link_seq().len(),
            old(g).link_seq().len() + pair_links(els@, ns@, oneway, way_id, tags@, ns@.len() - 1).len() < usize::MAX,
        decreases pairs - i,
    {
        let a = ns[i];
        let b = ns[i + 1];
        let oa = match g.get_node(a) {
            Some(n) => Some(*n),
            None => None,
        };
        let ob = match g.get_node(b) {
            Some(n) => Some(*n),
            None => None,
        };
        proof {
            assert(ns@[i as int] == a);
            assert(ns@[i + 1] == b);
            assert(ns@.contains(a));
            assert(ns@.contains(b));
            if old(g).node_map().contains_key(a) {
                assert(point_coords(els@, a) is Some);
            }
            if old(g).node_map().contains_key(b) {
                assert(point_coords(els@, b) is Some);
            }
            lemma_pair_links_grow(els@, ns@, oneway, way_id, tags@, i + 1, ns@.len() - 1);
            assert(g.link_seq().map_values(|l: Link| link_record(l)).len() == g.link_seq().len());
            assert(g.link_seq().len() == base.len() + pair_links(els@, ns@, oneway, way_id, tags@, i as int).len());
            lemma_pair_flags_len(els@, ns@, oneway, way_id, tags@, i as int);
            lemma_pair_flags_len(els@, ns@, oneway, way_id, tags@, i + 1);
        }
        let ghost prev_links = g.link_seq();
        let ghost mut weighed_k = false;
        match (oa, ob) {
            (Some(o), Some(d)) => {
                let w = distance(o, d);
                g.add_link(Link::with_fixed_distance(&o, &d, way_id, copy_tags(tags), w));
                if !oneway {
                    g.add_link(Link::with_fixed_distance(&d, &o, way_id, copy_tags(tags), w));
                }
                proof {
                    let k = prev_links.len() as int;
                    assert(g.link_seq()[k].distance == w);
                    assert(distance.ensures((o, d), g.link_seq()[k].distance));
                    assert(g.node_map()[a] == o);
                    assert(g.node_map()[b] == d);
                    assert(distance.ensures(
                        (g.node_map()[g.link_seq()[k].origin_id], g.node_map()[g.link_seq()[k].dest_id]),
                        g.link_seq()[k].distance,
                    ));
                    weighed_k = distance.ensures(
                        (g.node_map()[g.link_seq()[k].origin_id], g.node_map()[g.link_seq()[k].dest_id]),
                        g.link_seq()[k].distance,
                    ) && (!oneway ==> g.link_seq()[k + 1].distance == g.link_seq()[k].distance);
                }
            },
            _ => {},
        }
        proof {
            let pl = pair_links(els@, ns@, oneway, way_id, tags@, i as int);
            let pl1 = pair_links(els@, ns@, oneway, way_id, tags@, i + 1);
            let now = g.link_seq().map_values(|l: Link| link_record(l));
            let want = base + pl1;
            let k = prev_links.len() as int;
            assert(prev_links.map_values(|l: Link| link_record(l)) == base + pl);
            if oa is Some && ob is Some {
                assert(oa.unwrap().id == a);
                assert(ob.unwrap().id == b);
                assert(g.link_seq()[k].origin_id == a && g.link_seq()[k].dest_id == b && g.link_seq()[k].way_id == way_id);
                assert(g.link_seq()[k].tags@ == tags@);
                if !oneway {
                    assert(g.link_seq()[k + 1].origin_id == b && g.link_seq()[k + 1].dest_id == a);
                    assert(g.link_seq()[k + 1].tags@ == tags@);
                }
            }
            assert(now.len() == want.len());
            assert forall|t: int| 0 <= t < now.len() implies now[t] == want[t] by {
                if t < k {
                    assert(g.link_seq()[t] == prev_links[t]);
                    assert(prev_links.map_values(|l: Link| link_record(l))[t] == (base + pl)[t]);
                }
            }
            assert(now =~= want);
            let pf = pair_flags(els@, ns@, oneway, i as int);
            let fl = rev@ + pf;
            let fl1 = rev@ + pair_flags(els@, ns@, oneway, i + 1);
            let known = point_coords(els@, ns@[i as int]) is Some && point_coords(els@, ns@[i + 1]) is Some;
            assert(pair_flags(els@, ns@, oneway, i + 1) == if known {
                if oneway {
                    pf.push(false)
                } else {
                    pf.push(false).push(true)
                }
            } else {
                pf
            });
            assert(known == (oa is Some && ob is Some));
            assert((oa is Some && ob is Some) ==> weighed_k);
            assert(k == rev@.len() + pf.len());
            assert(fl1.len() == g.link_seq().len());
            assert forall|p: int| 0 <= p < g.link_seq().len() implies {
                &&& g.node_map().contains_key(#[trigger] g.link_seq()[p].origin_id)
                &&& g.node_map().contains_key(g.link_seq()[p].dest_id)
                &&& !fl1[p] ==> distance.ensures(
                    (g.node_map()[g.link_seq()[p].origin_id], g.node_map()[g.link_seq()[p].dest_id]),
                    g.link_seq()[p].distance,
                )
                &&& fl1[p] ==> p > 0 && g.link_seq()[p].distance == g.link_seq()[p - 1].distance
            } by {
                if p < prev_links.len() {
                    assert(g.link_seq()[p] == prev_links[p]);
                    if p < rev@.len() {
                        assert(fl1[p] == rev@[p] && fl[p] == rev@[p]);
                    } else {
                        assert(fl1[p] == pair_flags(els@, ns@, oneway, i + 1)[p - rev@.len()]);
                        assert(fl[p] == pf[p - rev@.len()]);
                    }
                    assert(fl1[p] == fl[p]);
                    assert(g.node_map().contains_key(prev_links[p].origin_id));
                    assert(g.node_map().contains_key(prev_links[p].dest_id));
                    if p > 0 {
                        assert(g.link_seq()[p - 1] == prev_links[p - 1]);
                    }
                } else if p == k {
                    assert(fl1[p] == pair_flags(els@, ns@, oneway, i + 1)[p - rev@.len()]);
                    assert(fl1[p] == false);
                    assert(weighed_k);
                } else {
                    assert(fl1[p] == pair_flags(els@, ns@, oneway, i + 1)[p - rev@.len()]);
                    assert(fl1[p] == true);
                    assert(!oneway && p == k + 1);
                    assert(weighed_k);
                }
            }
        }
        i = i + 1;
    }
    assert(pairs as int == ns@.len() - 1 || (ns@.len() == 0 && pair_links(els@, ns@, oneway, way_id, tags@, ns@.len() - 1) == Seq::<LinkRecord>::empty()));
}

/// Builds the graph store from `roads`. Each element whose `highway` tag is
/// one of `classes` and that lists points is a way: every listed point with
/// coordinates becomes a node, and each consecutive pair of such points a
/// link weighed by `distance`, with the reverse link too unless the way is
/// one-way. Other elements add nothing; missing fields are skipped.
/// Each way's links are its `pair_links`, carrying the way's tags, so
/// `lemma_one_way_forward_only`, `lemma_one_way_links_present` and
/// `lemma_two_way_both_directions` describe them; a reverse link weighs
/// what the forward link before it weighs.
pub fn roads_to_graph_with<F: Fn(Node, Node) -> u64>(
    roads: &OverpassResponse,
    classes: &Vec<String>,
    distance: &F,
) -> (g: OrientedGraph)
    requires
        forall|a: Node, b: Node| distance.requires((a, b)),
        road_links(
            roads.elements@,
            classes@.map_values(|s: String| s@),
            roads.elements@.len() as int,
        ).len() < usize::MAX,
    ensures
        g.wf(),
        g.link_seq().map_values(|l: Link| link_record(l)) == road_links(
            roads.elements@,
            classes@.map_values(|s: String| s@),
            roads.elements@.len() as int,
        ),
        forall|id: i64|
            #[trigger] g.node_map().contains_key(id) <==> (point_coords(roads.elements@, id) is Some && referenced(
                roads.elements@,
                classes@.map_values(|s: String| s@),
                roads.elements@.len() as int,
                id,
            )),
        nodes_from(g, roads.elements@),
        weighed_by(
            g,
            road_flags(roads.elements@, classes@.map_values(|s: String| s@), roads.elements@.len() as int),
            *distance,
        ),
{
    let els = &roads.elements;
    let ghost cv = classes@.map_values(|s: String| s@);
    let index = point_index(els);
    let highway = "highway".to_owned();
    let mut g = OrientedGraph::new();
    proof {
        assert(g.link_seq().map_values(|l: Link| link_record(l)) =~= road_links(els@, cv, 0));
    }
    let mut q: usize = 0;
    while q < els.len()
        invariant
            q <= els@.len(),
            cv == classes@.map_values(|s: String| s@),
            highway@ == "highway"@,
            forall|a: Node, b: Node| distance.requires((a, b)),
            forall|x: i64| #[trigger] index@.contains_key(x) ==> index@[x] == point_coords(els@, x),
            forall|x: i64| !(#[trigger] index@.contains_key(x)) ==> point_coords(els@, x) is None,
            road_links(els@, cv, els@.len() as int).len() < usize::MAX,
            g.wf(),
            nodes_from(g, els@),
            weighed_by(g, road_flags(els@, cv, q as int), *distance),
            g.link_seq().map_values(|l: Link| link_record(l)) == road_links(els@, cv, q as int),
            forall|id: i64|
                #[trigger] g.node_map().contains_key(id) <==> (point_coords(els@, id) is Some && referenced(els@, cv, q as int, id)),
        decreases els@.len() - q,
    {
        let e = &els[q];
        let ghost before = g;
        proof {
            lemma_road_links_grow(els@, cv, q + 1, els@.len() as int);
            assert(road_links(els@, cv, q + 1) == road_links(els@, cv, q as int) + way_links(els@, els@[q as int], cv));
            assert(road_flags(els@, cv, q + 1) == road_flags(els@, cv, q as int) + way_flags(els@, els@[q as int], cv));
            assert(road_flags(els@, cv, q as int) + Seq::<bool>::empty() =~= road_flags(els@, cv, q as int));
            assert(g.link_seq().map_values(|l: Link| link_record(l)).len() == g.link_seq().len());
        }
        match &e.tags {
            Some(tags) => match find_tag(tags, &highway) {
                Some(h) => {
                    if class_allowed(classes, h) {
                        let oneway = is_oneway(tags);
                        match &e.nodes {
                            Some(ns) => {
                                add_way(&mut g, &index, Ghost(els@), Ghost(road_flags(els@, cv, q as int)), ns, oneway, e.id, tags, distance);
                            },
                            None => {},
                        }
                    }
                },
                None => {},
            },
            None => {},
        }
        proof {
            assert forall|id: i64| #[trigger] g.node_map().contains_key(id) <==> (point_coords(els@, id) is Some && referenced(els@, cv, q + 1, id)) by {
                if referenced(els@, cv, q + 1, id) && !referenced(els@, cv, q as int, id) {
                    let r = choose|r: int| 0 <= r < q + 1 && #[trigger] way_points(els@[r], cv) is Some && way_points(els@[r], cv).unwrap().contains(id);
                    assert(r == q);
                }
                if referenced(els@, cv, q as int, id) {
                    let r = choose|r: int| 0 <= r < q && #[trigger] way_points(els@[r], cv) is Some && way_points(els@[r], cv).unwrap().contains(id);
                    assert(0 <= r < q + 1 && way_points(els@[r], cv) is Some && way_points(els@[r], cv).unwrap().contains(id));
                }
                if way_points(els@[q as int], cv) is Some && way_points(els@[q as int], cv).unwrap().contains(id) {
                    assert(0 <= q < q + 1 && way_points(els@[q as int], cv) is Some && way_points(els@[q as int], cv).unwrap().contains(id));
                }
            }
        }
        q = q + 1;
    }
    g
}

/// Builds the graph store from `roads` with the drivable road classes.
pub fn roads_to_graph<F: Fn(Node, Node) -> u64>(roads: &OverpassResponse, distance: &F) -> (g: OrientedGraph)
    requires
        forall|a: Node, b: Node| distance.requires((a, b)),
        road_links(roads.elements@, drivable_classes(), roads.elements@.len() as int).len() < usize::MAX,
    ensures
        g.wf(),
        g.link_seq().map_values(|l: Link| link_record(l)) == road_links(
            roads.elements@,
            drivable_classes(),
            roads.elements@.len() as int,
        ),
        forall|id: i64|
            #[trigger] g.node_map().contains_key(id) <==> (point_coords(roads.elements@, id) is Some && referenced(
                roads.elements@,
                drivable_classes(),
                roads.elements@.len() as int,
                id,
            )),
        nodes_from(g, roads.elements@),
        weighed_by(g, road_flags(roads.elements@, drivable_classes(), roads.elements@.len() as int), *distance),
{
    let classes = drivable_highways();
    roads_to_graph_with(roads, &classes, distance)
}

} // verus!
