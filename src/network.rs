//! The graph store: nodes keyed by id, an append-only list of directed
//! links and an index from node id to the positions of its outgoing links.
use std::collections::HashMap;
use vstd::prelude::*;

verus! {

broadcast use vstd::std_specs::hash::group_hash_axioms;

/// A point of the network. Coordinates are fixed-point degrees: the
/// stored integer is the angle multiplied by ten million.
#[derive(Clone, Copy, Debug, PartialEq, Eq)]
pub struct Node {
    pub id: i64,
    pub lat: i64,
    pub lon: i64,
}

impl Node {
    pub fn new(id: i64, lat: i64, lon: i64) -> (r: Node)
        ensures
            r == (Node { id, lat, lon }),
    {
        Node { id, lat, lon }
    }
}

/// A directed, weighted link between two node ids. `distance` is in the
/// network's integer length unit; `tags` are the key/value pairs of the
/// way it was made from.
#[derive(Debug)]
pub struct Link {
    pub origin_id: i64,
    pub dest_id: i64,
    pub distance: u64,
    pub way_id: i64,
    pub tags: Vec<(String, String)>,
}

impl Link {
    /// A link from `origin` to `dest` whose weight is given rather than derived.
    pub fn with_fixed_distance(
        origin: &Node,
        dest: &Node,
        way_id: i64,
        tags: Vec<(String, String)>,
        distance: u64,
    ) -> (r: Link)
        ensures
            r.origin_id == origin.id,
            r.dest_id == dest.id,
            r.distance == distance,
            r.way_id == way_id,
            r.tags == tags,
    {
        Link { origin_id: origin.id, dest_id: dest.id, distance, way_id, tags }
    }
}

/// Positions (ascending) of the links of `links` whose origin is `id`.
pub open spec fn out_positions(links: Seq<Link>, id: i64) -> Seq<usize>
    decreases links.len(),
{
    if links.len() == 0 {
        Seq::empty()
    } else {
        let rest = out_positions(links.drop_last(), id);
        if links.last().origin_id == id {
            rest.push((links.len() - 1) as usize)
        } else {
            rest
        }
    }
}

/// The graph store. Node ids are also kept in the order in which each was
/// first added, which fixes the enumeration used by the solvers.
pub struct OrientedGraph {
    pub(crate) nodes: HashMap<i64, Node>,
    pub(crate) order: Vec<i64>,
    pub(crate) links: Vec<Link>,
    pub(crate) adjacency: HashMap<i64, Vec<usize>>,
}

/// The graph store under the name the road-data front end uses.
pub type RoadGraph = OrientedGraph;

impl OrientedGraph {
    /// Node ids in enumeration order.
    pub closed spec fn node_ids(&self) -> Seq<i64> {
        self.order@
    }

    /// Nodes by id.
    pub closed spec fn node_map(&self) -> Map<i64, Node> {
        self.nodes@
    }

    /// All links, in insertion order.
    pub closed spec fn link_seq(&self) -> Seq<Link> {
        self.links@
    }

    pub closed spec fn wf(&self) -> bool {
        &&& self.order@.no_duplicates()
        &&& self.links@.len() <= usize::MAX
        &&& forall|t: int| 0 <= t < self.order@.len() ==> self.nodes@.contains_key(#[trigger] self.order@[t])
        &&& forall|id: i64| #[trigger] self.nodes@.contains_key(id) ==> self.order@.contains(id)
        &&& forall|id: i64| #[trigger] self.nodes@.contains_key(id) ==> self.nodes@[id].id == id
        &&& forall|id: i64| #[trigger] self.adjacency@.contains_key(id) ==> self.adjacency@[id]@ == out_positions(self.links@, id)
        &&& forall|id: i64| !(#[trigger] self.adjacency@.contains_key(id)) ==> out_positions(self.links@, id).len() == 0
    }

    pub fn new() -> (g: OrientedGraph)
        ensures
            g.wf(),
            g.node_ids() == Seq::<i64>::empty(),
            g.node_map() == Map::<i64, Node>::empty(),
            g.link_seq().len() == 0,
    {
        let g = OrientedGraph {
            nodes: HashMap::new(),
            order: Vec::new(),
            links: Vec::new(),
            adjacency: HashMap::new(),
        };
        assert forall|id: i64| !(#[trigger] g.adjacency@.contains_key(id)) implies out_positions(g.links@, id).len() == 0 by {
            reveal_with_fuel(out_positions, 1);
        }
        g
    }

    /// Inserts `node`, replacing any node with the same id. A new id goes to
    /// the end of the enumeration order; a known id keeps its place.
    pub fn add_node(&mut self, node: Node)
        requires
            old(self).wf(),
        ensures
            final(self).wf(),
            final(self).node_map() == old(self).node_map().insert(node.id, node),
            final(self).node_ids() == if old(self).node_map().contains_key(node.id) {
                old(self).node_ids()
            } else {
                old(self).node_ids().push(node.id)
            },
            final(self).link_seq() == old(self).link_seq(),
    {
        let known = self.nodes.contains_key(&node.id);
        if !known {
            proof {
                assert(!self.order@.contains(node.id));
            }
            self.order.push(node.id);
        }
        self.nodes.insert(node.id, node);
        assert forall|t: int| 0 <= t < self.order@.len() implies self.nodes@.contains_key(#[trigger] self.order@[t]) by {
            if t < old(self).order@.len() {
                assert(old(self).order@[t] == self.order@[t]);
            }
        }
        assert forall|id: i64| #[trigger] self.nodes@.contains_key(id) implies self.order@.contains(id) by {
            if id != node.id {
                let t = choose|t: int| 0 <= t < old(self).order@.len() && old(self).order@[t] == id;
                assert(self.order@[t] == id);
            } else if !known {
                assert(self.order@[self.order@.len() - 1] == id);
            }
        }
    }

    /// Appends `link` and records its position under its origin id.
    pub fn add_link(&mut self, link: Link)
        requires
            old(self).wf(),
            old(self).link_seq().len() < usize::MAX,
        ensures
            final(self).wf(),
            final(self).link_seq() == old(self).link_seq().push(link),
            final(self).node_map() == old(self).node_map(),
            final(self).node_ids() == old(self).node_ids(),
    {
        let link_idx = self.links.len();
        let origin_id = link.origin_id;
        let ghost old_links = self.links@;
        self.links.push(link);
        proof {
            assert(self.links@.drop_last() == old_links);
        }
        let mut indices = match self.adjacency.remove(&origin_id) {
            Some(v) => v,
            None => Vec::new(),
        };
        indices.push(link_idx);
        self.adjacency.insert(origin_id, indices);
        assert forall|id: i64| #[trigger] self.adjacency@.contains_key(id) implies self.adjacency@[id]@ == out_positions(self.links@, id) by {
            if id != origin_id {
                assert(old(self).adjacency@.contains_key(id));
            }
        }
    }

    /// The links leaving `node_id`, in insertion order; empty if there are none.
    pub fn get_outgoing_links(&self, node_id: i64) -> (r: Vec<&Link>)
        requires
            self.wf(),
        ensures
            r@.len() == out_positions(self.link_seq(), node_id).len(),
            forall|t: int| 0 <= t < r@.len() ==> *(#[trigger] r@[t]) == self.link_seq()[out_positions(self.link_seq(), node_id)[t] as int],
    {
        let mut r: Vec<&Link> = Vec::new();
        match self.adjacency.get(&node_id) {
            Some(indices) => {
                proof {
                    lemma_out_positions_bounded(self.links@, node_id);
                }
                let mut t: usize = 0;
                while t < indices.len()
                    invariant
                        indices@ == out_positions(self.links@, node_id),
                        forall|q: int| 0 <= q < indices@.len() ==> #[trigger] indices@[q] < self.links@.len(),
                        t <= indices@.len(),
                        r@.len() == t,
                        forall|q: int| 0 <= q < t ==> *(#[trigger] r@[q]) == self.links@[indices@[q] as int],
                    decreases indices@.len() - t,
                {
                    r.push(&self.links[indices[t]]);
                    t = t + 1;
                }
            },
            None => {},
        }
        r
    }

    /// Node ids in enumeration order.
    pub fn node_id_list(&self) -> (r: &Vec<i64>)
        ensures
            r@ == self.node_ids(),
    {
        &self.order
    }

    /// All links, in insertion order.
    pub fn link_list(&self) -> (r: &Vec<Link>)
        ensures
            r@ == self.link_seq(),
    {
        &self.links
    }

    /// What a well-formed store guarantees about its nodes and links.
    pub proof fn lemma_wf(&self)
        requires
            self.wf(),
        ensures
            self.node_ids().no_duplicates(),
            self.link_seq().len() <= usize::MAX,
            forall|id: i64| #[trigger] self.node_map().contains_key(id) <==> self.node_ids().contains(id),
            forall|id: i64| #[trigger] self.node_map().contains_key(id) ==> self.node_map()[id].id == id,
    {
        assert forall|id: i64| #[trigger] self.node_ids().contains(id) implies self.node_map().contains_key(id) by {
            let t = choose|t: int| 0 <= t < self.order@.len() && self.order@[t] == id;
            assert(self.nodes@.contains_key(self.order@[t]));
        }
    }

    /// Number of distinct node ids.
    pub fn node_count(&self) -> (r: usize)
        requires
            self.wf(),
        ensures
            r == self.node_ids().len(),
    {
        self.order.len()
    }

    /// Number of links.
    pub fn link_count(&self) -> (r: usize)
        ensures
            r == self.link_seq().len(),
    {
        self.links.len()
    }

    /// The node with id `id`, if any.
    pub fn get_node(&self, id: i64) -> (r: Option<&Node>)
        ensures
            r.is_some() == self.node_map().contains_key(id),
            r.is_some() ==> *r.unwrap() == self.node_map()[id],
    {
        self.nodes.get(&id)
    }
}

impl OrientedGraph {
    /// The positions of the links leaving `id`; empty when there are none.
    pub(crate) fn outgoing_positions<'a>(&'a self, id: i64, empty: &'a Vec<usize>) -> (r: &'a Vec<usize>)
        requires
            self.wf(),
            empty@.len() == 0,
        ensures
            r@ == out_positions(self.link_seq(), id),
    {
        match self.adjacency.get(&id) {
            Some(l) => l,
            None => empty,
        }
    }
}

/// Every link leaving `id` is recorded among its positions.
pub proof fn lemma_out_positions_complete(links: Seq<Link>, id: i64, p: int)
    requires
        links.len() <= usize::MAX,
        0 <= p < links.len(),
        links[p].origin_id == id,
    ensures
        out_positions(links, id).contains(p as usize),
    decreases links.len(),
{
    let rest = links.drop_last();
    let r = out_positions(rest, id);
    if p == links.len() - 1 {
        assert(out_positions(links, id).last() == p as usize);
    } else {
        assert(rest[p] == links[p]);
        lemma_out_positions_complete(rest, id, p);
        let q = choose|q: int| 0 <= q < r.len() && r[q] == p as usize;
        if links.last().origin_id == id {
            assert(out_positions(links, id)[q] == p as usize);
        } else {
            assert(out_positions(links, id) == r);
        }
    }
}

/// Every recorded position is a valid position of a link with that origin.
pub proof fn lemma_out_positions_bounded(links: Seq<Link>, id: i64)
    requires
        links.len() <= usize::MAX,
    ensures
        forall|q: int| 0 <= q < out_positions(links, id).len() ==> {
            &&& #[trigger] out_positions(links, id)[q] < links.len()
            &&& links[out_positions(links, id)[q] as int].origin_id == id
        },
    decreases links.len(),
{
    if links.len() > 0 {
        let rest = links.drop_last();
        lemma_out_positions_bounded(rest, id);
        let r = out_positions(rest, id);
        let all = out_positions(links, id);
        assert forall|q: int| 0 <= q < all.len() implies {
            &&& #[trigger] all[q] < links.len()
            &&& links[all[q] as int].origin_id == id
        } by {
            if q < r.len() {
                assert(all[q] == r[q]);
                assert(rest[r[q] as int] == links[r[q] as int]);
            }
        }
    }
}

} // verus!
