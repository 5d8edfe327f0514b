//! Strongly connected components: the node ids grouped by mutual
//! reachability along links, found by a depth-first search from each node
//! with an explicit work-list.
use crate::network::{lemma_out_positions_bounded, lemma_out_positions_complete, out_positions, Link, OrientedGraph};
use crate::shortest_paths::indexes;
use std::collections::HashMap;
use vstd::arithmetic::div_mod::{lemma_mod_self_0, lemma_small_mod};
use vstd::prelude::*;
use vstd::set_lib::{lemma_int_range, lemma_len_subset, set_int_range};

verus! {

broadcast use vstd::std_specs::hash::group_hash_axioms;

/// Some link goes from `a` to `b`.
pub open spec fn link_edge(links: Seq<Link>, a: i64, b: i64) -> bool {
    exists|p: int| 0 <= p < links.len() && #[trigger] links[p].origin_id == a && links[p].dest_id == b
}

/// `w` is a non-empty walk along links.
pub open spec fn is_walk(links: Seq<Link>, w: Seq<i64>) -> bool {
    &&& w.len() > 0
    &&& forall|i: int| 0 <= i < w.len() - 1 ==> #[trigger] link_edge(links, w[i], w[i + 1])
}

/// Some walk along links leads from `a` to `b`.
pub open spec fn reaches(links: Seq<Link>, a: i64, b: i64) -> bool {
    exists|w: Seq<i64>| #[trigger] is_walk(links, w) && w[0] == a && w.last() == b
}

pub proof fn lemma_reaches_self(links: Seq<Link>, a: i64)
    ensures
        reaches(links, a, a),
{
    let w = seq![a];
    assert(is_walk(links, w));
}

pub proof fn lemma_reaches_link(links: Seq<Link>, a: i64, b: i64)
    requires
        link_edge(links, a, b),
    ensures
        reaches(links, a, b),
{
    let w = seq![a, b];
    assert forall|i: int| 0 <= i < w.len() - 1 implies #[trigger] link_edge(links, w[i], w[i + 1]) by {
        assert(i == 0);
    }
    assert(is_walk(links, w));
}

pub proof fn lemma_reaches_trans(links: Seq<Link>, a: i64, b: i64, c: i64)
    requires
        reaches(links, a, b),
        reaches(links, b, c),
    ensures
        reaches(links, a, c),
{
    let w1 = choose|w: Seq<i64>| #[trigger] is_walk(links, w) && w[0] == a && w.last() == b;
    let w2 = choose|w: Seq<i64>| #[trigger] is_walk(links, w) && w[0] == b && w.last() == c;
    let w = w1 + w2.drop_first();
    assert forall|i: int| 0 <= i < w.len() - 1 implies #[trigger] link_edge(links, w[i], w[i + 1]) by {
        if i < w1.len() - 1 {
            assert(w[i] == w1[i] && w[i + 1] == w1[i + 1]);
            assert(link_edge(links, w1[i], w1[i + 1]));
        } else {
            let k = i - (w1.len() - 1);
            assert(w[i] == w2[k]);
            assert(w[i + 1] == w2[k + 1]);
            assert(link_edge(links, w2[k], w2[k + 1]));
        }
    }
    assert(is_walk(links, w));
    if w2.len() == 1 {
        assert(w.last() == w1.last());
    } else {
        assert(w.last() == w2.last());
    }
}

/// `a` and `b` reach each other.
pub open spec fn mutual(links: Seq<Link>, a: i64, b: i64) -> bool {
    reaches(links, a, b) && reaches(links, b, a)
}

pub proof fn lemma_mutual_trans(links: Seq<Link>, a: i64, b: i64, c: i64)
    requires
        mutual(links, a, b),
        mutual(links, b, c),
    ensures
        mutual(links, a, c),
{
    lemma_reaches_trans(links, a, b, c);
    lemma_reaches_trans(links, c, b, a);
}

/// Each node id links to the next one in enumeration order, and the last
/// to the first: the nodes lie on one directed cycle.
pub open spec fn on_one_cycle(g: OrientedGraph) -> bool {
    let ids = g.node_ids();
    forall|i: int| 0 <= i < ids.len() ==> #[trigger] link_edge(g.link_seq(), ids[i], ids[(i + 1) % (ids.len() as int)])
}

/// No two distinct ids reach each other: the links form no cycle.
pub open spec fn acyclic(links: Seq<Link>) -> bool {
    forall|a: i64, b: i64| #[trigger] mutual(links, a, b) ==> a == b
}

/// On one directed cycle every node reaches every later node.
proof fn lemma_cycle_reaches_forward(g: OrientedGraph, i: int, j: int)
    requires
        on_one_cycle(g),
        0 <= i <= j < g.node_ids().len(),
    ensures
        reaches(g.link_seq(), g.node_ids()[i], g.node_ids()[j]),
    decreases j - i,
{
    let ids = g.node_ids();
    let n = ids.len() as int;
    if i == j {
        lemma_reaches_self(g.link_seq(), ids[i]);
    } else {
        lemma_cycle_reaches_forward(g, i, j - 1);
        lemma_small_mod(j as nat, n as nat);
        assert(link_edge(g.link_seq(), ids[j - 1], ids[((j - 1) + 1) % n]));
        lemma_reaches_link(g.link_seq(), ids[j - 1], ids[j]);
        lemma_reaches_trans(g.link_seq(), ids[i], ids[j - 1], ids[j]);
    }
}

/// On one directed cycle through all nodes, any two node ids reach each other.
pub proof fn lemma_cycle_mutual(g: OrientedGraph, i: int, j: int)
    requires
        on_one_cycle(g),
        0 <= i < g.node_ids().len(),
        0 <= j < g.node_ids().len(),
    ensures
        mutual(g.link_seq(), g.node_ids()[i], g.node_ids()[j]),
{
    let ids = g.node_ids();
    let n = ids.len() as int;
    assert forall|a: int, b: int| 0 <= a < n && 0 <= b < n implies reaches(g.link_seq(), ids[a], ids[b]) by {
        if a <= b {
            lemma_cycle_reaches_forward(g, a, b);
        } else {
            lemma_cycle_reaches_forward(g, a, n - 1);
            lemma_mod_self_0(n);
            assert(link_edge(g.link_seq(), ids[n - 1], ids[((n - 1) + 1) % n]));
            lemma_reaches_link(g.link_seq(), ids[n - 1], ids[0]);
            lemma_cycle_reaches_forward(g, 0, b);
            lemma_reaches_trans(g.link_seq(), ids[a], ids[n - 1], ids[0]);
            lemma_reaches_trans(g.link_seq(), ids[a], ids[0], ids[b]);
        }
    }
}

/// No link leaves `a`.
pub open spec fn no_exit(links: Seq<Link>, a: i64) -> bool {
    forall|p: int| 0 <= p < links.len() ==> #[trigger] links[p].origin_id != a
}

/// From an id that no link leaves, only that id itself is reached.
pub proof fn lemma_no_exit_reaches(links: Seq<Link>, a: i64, b: i64)
    requires
        no_exit(links, a),
        reaches(links, a, b),
    ensures
        b == a,
{
    let w = choose|w: Seq<i64>| #[trigger] is_walk(links, w) && w[0] == a && w.last() == b;
    if w.len() > 1 {
        let z: int = 0;
        assert(link_edge(links, w[z], w[z + 1]));
        let p = choose|p: int| 0 <= p < links.len() && #[trigger] links[p].origin_id == w[z] && links[p].dest_id == w[z + 1];
    }
}

/// The numbering used by the searches: node ids first, in enumeration
/// order, then the other link destinations.
spec fn universe_ok(g: OrientedGraph, verts: Seq<i64>, pos: Map<i64, usize>) -> bool {
    &&& verts.no_duplicates()
    &&& verts.len() <= usize::MAX
    &&& indexes(pos, verts)
    &&& g.node_ids().len() <= verts.len()
    &&& forall|t: int| 0 <= t < g.node_ids().len() ==> #[trigger] verts[t] == g.node_ids()[t]
    &&& forall|p: int| 0 <= p < g.link_seq().len() ==> #[trigger] pos.contains_key(g.link_seq()[p].dest_id)
}

/// Every link leaving vertex `x` ends at a marked vertex.
spec fn closed_at(g: OrientedGraph, verts: Seq<i64>, pos: Map<i64, usize>, marks: Seq<bool>, x: int) -> bool {
    forall|p: int|
        0 <= p < g.link_seq().len() && #[trigger] g.link_seq()[p].origin_id == verts[x] ==> marks[pos[g.link_seq()[p].dest_id] as int]
}

proof fn lemma_closed_grows(g: OrientedGraph, verts: Seq<i64>, pos: Map<i64, usize>, m1: Seq<bool>, m2: Seq<bool>, x: int)
    requires
        universe_ok(g, verts, pos),
        m1.len() == verts.len(),
        m2.len() == verts.len(),
        forall|y: int| 0 <= y < verts.len() && #[trigger] m1[y] ==> m2[y],
        closed_at(g, verts, pos, m1, x),
    ensures
        closed_at(g, verts, pos, m2, x),
{
    assert forall|p: int|
        0 <= p < g.link_seq().len() && #[trigger] g.link_seq()[p].origin_id == verts[x] implies m2[pos[g.link_seq()[p].dest_id] as int] by {
        let d = g.link_seq()[p].dest_id;
        assert(pos.contains_key(d));
        let t = choose|t: int| 0 <= t < verts.len() && verts[t] == d;
        assert(pos[verts[t]] == t);
    }
}

/// A marked set that contains `root` and is closed at each of its vertices
/// contains every vertex that `root` reaches.
proof fn lemma_closed_reaches(g: OrientedGraph, verts: Seq<i64>, pos: Map<i64, usize>, marks: Seq<bool>, root: int, w: Seq<i64>)
    requires
        universe_ok(g, verts, pos),
        marks.len() == verts.len(),
        0 <= root < verts.len(),
        marks[root],
        forall|x: int| 0 <= x < verts.len() && #[trigger] marks[x] ==> closed_at(g, verts, pos, marks, x),
        is_walk(g.link_seq(), w),
        w[0] == verts[root],
    ensures
        pos.contains_key(w.last()),
        marks[pos[w.last()] as int],
    decreases w.len(),
{
    if w.len() == 1 {
        assert(indexes(pos, verts));
        assert(pos.contains_key(verts[root]));
        assert(pos[verts[root]] as int == root);
        assert(w.last() == verts[root]);
    } else {
        let w0 = w.drop_last();
        assert forall|i: int| 0 <= i < w0.len() - 1 implies #[trigger] link_edge(g.link_seq(), w0[i], w0[i + 1]) by {
            assert(link_edge(g.link_seq(), w[i], w[i + 1]));
        }
        lemma_closed_reaches(g, verts, pos, marks, root, w0);
        let a = w0.last();
        let k = w.len() - 2;
        assert(link_edge(g.link_seq(), w[k], w[k + 1]));
        let p = choose|p: int| 0 <= p < g.link_seq().len() && #[trigger] g.link_seq()[p].origin_id == a && g.link_seq()[p].dest_id == w.last();
        let t = choose|t: int| 0 <= t < verts.len() && verts[t] == a;
        assert(pos[verts[t]] == t);
        assert(marks[t]);
        assert(closed_at(g, verts, pos, marks, t));
        assert(pos.contains_key(g.link_seq()[p].dest_id));
    }
}

/// Distinct sequences map to distinct sequences under a one-to-one lookup.
proof fn lemma_map_no_duplicates(s: Seq<int>, verts: Seq<i64>)
    requires
        s.no_duplicates(),
        verts.no_duplicates(),
        forall|q: int| 0 <= q < s.len() ==> 0 <= #[trigger] s[q] < verts.len(),
    ensures
        s.map_values(|u: int| verts[u]).no_duplicates(),
{
    let m = s.map_values(|u: int| verts[u]);
    assert forall|x: int, y: int| 0 <= x < m.len() && 0 <= y < m.len() && x != y implies m[x] != m[y] by {
        assert(s[x] != s[y]);
        assert(0 <= s[x] < verts.len() && 0 <= s[y] < verts.len());
    }
}

impl OrientedGraph {
    /// Depth-first search from `root` with an explicit work-list: marks
    /// `root` and every vertex it reaches through vertices not yet marked.
    /// Each newly marked vertex is reached from `root`, and every link
    /// leaving it ends at a marked vertex.
    fn strongconnect(&self, verts: &Vec<i64>, pos: &HashMap<i64, usize>, visited: &mut Vec<bool>, root: usize)
        requires
            self.wf(),
            universe_ok(*self, verts@, pos@),
            old(visited)@.len() == verts@.len(),
            root < verts@.len(),
            !old(visited)@[root as int],
        ensures
            final(visited)@.len() == old(visited)@.len(),
            final(visited)@[root as int],
            forall|x: int| 0 <= x < verts@.len() && #[trigger] old(visited)@[x] ==> final(visited)@[x],
            forall|x: int|
                0 <= x < verts@.len() && #[trigger] final(visited)@[x] && !old(visited)@[x] ==> reaches(
                    self.link_seq(),
                    verts@[root as int],
                    verts@[x],
                ) && closed_at(*self, verts@, pos@, final(visited)@, x),
    {
        let links = self.link_list();
        proof {
            self.lemma_wf();
        }
        let ghost nv = verts@.len() as int;
        let ghost old_marks = visited@;
        let ghost mut seen: Set<int> = Set::new(|x: int| 0 <= x < nv && visited@[x]);
        proof {
            lemma_int_range(0, nv);
            assert(seen.subset_of(set_int_range(0, nv)));
            lemma_len_subset(seen, set_int_range(0, nv));
            assert(!seen.contains(root as int));
            assert(seen.insert(root as int).subset_of(set_int_range(0, nv)));
            lemma_len_subset(seen.insert(root as int), set_int_range(0, nv));
        }
        visited.set(root, true);
        proof {
            seen = seen.insert(root as int);
            assert(seen =~= Set::new(|x: int| 0 <= x < nv && visited@[x]));
            lemma_reaches_self(links@, verts@[root as int]);
        }
        let mut work: Vec<usize> = Vec::new();
        work.push(root);
        let empty: Vec<usize> = Vec::new();
        proof {
            assert forall|x: int|
                0 <= x < nv && #[trigger] visited@[x] && !old_marks[x] && !work@.contains(x as usize) implies closed_at(
                *self,
                verts@,
                pos@,
                visited@,
                x,
            ) by {
                if x == root as int {
                    assert(work@[0] == root);
                }
            }
        }
        while work.len() > 0
            invariant
                self.wf(),
                links@ == self.link_seq(),
                links@.len() <= usize::MAX,
                universe_ok(*self, verts@, pos@),
                empty@.len() == 0,
                nv == verts@.len(),
                old_marks == old(visited)@,
                visited@.len() == nv,
                root < nv,
                visited@[root as int],
                forall|x: int| 0 <= x < nv && #[trigger] old_marks[x] ==> visited@[x],
                seen == Set::new(|x: int| 0 <= x < nv && visited@[x]),
                seen.finite(),
                seen.len() <= nv,
                work@.no_duplicates(),
                forall|q: int| 0 <= q < work@.len() ==> #[trigger] work@[q] < nv && visited@[work@[q] as int] && !old_marks[work@[q] as int],
                forall|x: int|
                    0 <= x < nv && #[trigger] visited@[x] && !old_marks[x] ==> reaches(links@, verts@[root as int], verts@[x]),
                forall|x: int|
                    0 <= x < nv && #[trigger] visited@[x] && !old_marks[x] && !work@.contains(x as usize) ==> closed_at(
                        *self,
                        verts@,
                        pos@,
                        visited@,
                        x,
                    ),
            decreases nv - seen.len() + work@.len(),
        {
            let ghost measure = nv - seen.len() + work@.len();
            let ghost w0 = work@;
            let u = work.pop().unwrap();
            proof {
                assert(w0[w0.len() - 1] == u);
                assert(work@ == w0.drop_last());
                assert(!work@.contains(u)) by {
                    if work@.contains(u) {
                        let q = choose|q: int| 0 <= q < work@.len() && work@[q] == u;
                        assert(w0[q] == w0[w0.len() - 1]);
                    }
                }
            }
            let list = self.outgoing_positions(verts[u], &empty);
            proof {
                lemma_out_positions_bounded(links@, verts@[u as int]);
            }
            proof {
                assert forall|x: int|
                    0 <= x < nv && #[trigger] visited@[x] && !old_marks[x] && !work@.contains(x as usize) && x != u implies closed_at(
                    *self,
                    verts@,
                    pos@,
                    visited@,
                    x,
                ) by {
                    assert(!w0.contains(x as usize)) by {
                        if w0.contains(x as usize) {
                            let q = choose|q: int| 0 <= q < w0.len() && w0[q] == x as usize;
                            if q < w0.len() - 1 {
                                assert(work@[q] == x as usize);
                            }
                        }
                    }
                }
            }
            let mut e: usize = 0;
            while e < list.len()
                invariant
                    self.wf(),
                    links@ == self.link_seq(),
                    links@.len() <= usize::MAX,
                    universe_ok(*self, verts@, pos@),
                    nv == verts@.len(),
                    old_marks == old(visited)@,
                    visited@.len() == nv,
                    root < nv,
                    visited@[root as int],
                    u < nv,
                    visited@[u as int],
                    !old_marks[u as int],
                    !work@.contains(u),
                    list@ == out_positions(links@, verts@[u as int]),
                    forall|q: int|
                        0 <= q < list@.len() ==> #[trigger] list@[q] < links@.len() && links@[list@[q] as int].origin_id
                            == verts@[u as int],
                    e <= list@.len(),
                    forall|q: int| 0 <= q < e ==> visited@[pos@[links@[#[trigger] list@[q] as int].dest_id] as int],
                    forall|x: int| 0 <= x < nv && #[trigger] old_marks[x] ==> visited@[x],
                    seen == Set::new(|x: int| 0 <= x < nv && visited@[x]),
                    seen.finite(),
                    seen.len() <= nv,
                    nv - seen.len() + work@.len() == measure - 1,
                    work@.no_duplicates(),
                    forall|q: int| 0 <= q < work@.len() ==> #[trigger] work@[q] < nv && visited@[work@[q] as int] && !old_marks[work@[q] as int],
                    forall|x: int|
                        0 <= x < nv && #[trigger] visited@[x] && !old_marks[x] ==> reaches(links@, verts@[root as int], verts@[x]),
                    forall|x: int|
                        0 <= x < nv && #[trigger] visited@[x] && !old_marks[x] && !work@.contains(x as usize) && x != u ==> closed_at(
                            *self,
                            verts@,
                            pos@,
                            visited@,
                            x,
                        ),
                decreases list@.len() - e,
            {
                let p = list[e];
                let d = links[p].dest_id;
                proof {
                    assert(pos@.contains_key(links@[p as int].dest_id));
                }
                let w = match pos.get(&d) {
                    Some(w) => *w,
                    None => 0,
                };
                proof {
                    let t = choose|t: int| 0 <= t < verts@.len() && verts@[t] == d;
                    assert(pos@[verts@[t]] == t);
                    assert(verts@[w as int] == d);
                }
                if !visited[w] {
                    let ghost before = visited@;
                    proof {
                        assert(!seen.contains(w as int));
                        assert(seen.insert(w as int).subset_of(set_int_range(0, nv)));
                        lemma_int_range(0, nv);
                        lemma_len_subset(seen.insert(w as int), set_int_range(0, nv));
                        assert(!work@.contains(w)) by {
                            if work@.contains(w) {
                                let q = choose|q: int| 0 <= q < work@.len() && work@[q] == w;
                                assert(visited@[work@[q] as int]);
                            }
                        }
                    }
                    visited.set(w, true);
                    let ghost wk = work@;
                    work.push(w);
                    proof {
                        seen = seen.insert(w as int);
                        assert(seen =~= Set::new(|x: int| 0 <= x < nv && visited@[x]));
                        assert(link_edge(links@, verts@[u as int], verts@[w as int]));
                        lemma_reaches_link(links@, verts@[u as int], verts@[w as int]);
                        lemma_reaches_trans(links@, verts@[root as int], verts@[u as int], verts@[w as int]);
                        assert forall|x: int|
                            0 <= x < nv && #[trigger] visited@[x] && !old_marks[x] && !work@.contains(x as usize) && x != u implies closed_at(
                            *self,
                            verts@,
                            pos@,
                            visited@,
                            x,
                        ) by {
                            assert(x != w as int) by {
                                if x == w as int {
                                    assert(work@[work@.len() - 1] == w);
                                }
                            }
                            assert(!wk.contains(x as usize)) by {
                                if wk.contains(x as usize) {
                                    let q = choose|q: int| 0 <= q < wk.len() && wk[q] == x as usize;
                                    assert(work@[q] == x as usize);
                                }
                            }
                            lemma_closed_grows(*self, verts@, pos@, before, visited@, x);
                        }
                        assert forall|q: int| 0 <= q < work@.len() implies #[trigger] work@[q] < nv && visited@[work@[q] as int]
                            && !old_marks[work@[q] as int] by {
                            if q < wk.len() {
                                assert(work@[q] == wk[q]);
                            }
                        }
                        assert forall|q: int| 0 <= q < e + 1 implies visited@[pos@[links@[#[trigger] list@[q] as int].dest_id] as int] by {
                            if q < e {
                                let dq = links@[list@[q] as int].dest_id;
                                assert(pos@.contains_key(dq));
                                let tq = choose|tq: int| 0 <= tq < verts@.len() && verts@[tq] == dq;
                                assert(pos@[verts@[tq]] == tq);
                            }
                        }
                    }
                }
                e = e + 1;
            }
            proof {
                assert(closed_at(*self, verts@, pos@, visited@, u as int)) by {
                    assert forall|p: int|
                        0 <= p < self.link_seq().len() && #[trigger] self.link_seq()[p].origin_id == verts@[u as int] implies visited@[pos@[self.link_seq()[p].dest_id] as int] by {
                        lemma_out_positions_complete(links@, verts@[u as int], p);
                        let q = choose|q: int| 0 <= q < list@.len() && list@[q] == p as usize;
                        assert(visited@[pos@[links@[list@[q] as int].dest_id] as int]);
                    }
                }
            }
        }
    }
}

impl OrientedGraph {
    /// Marks of the vertices that vertex `root` reaches.
    fn reach_row(&self, verts: &Vec<i64>, pos: &HashMap<i64, usize>, root: usize) -> (r: Vec<bool>)
        requires
            self.wf(),
            universe_ok(*self, verts@, pos@),
            root < verts@.len(),
        ensures
            r@.len() == verts@.len(),
            forall|x: int| 0 <= x < verts@.len() ==> (#[trigger] r@[x] <==> reaches(self.link_seq(), verts@[root as int], verts@[x])),
    {
        let mut marks: Vec<bool> = Vec::new();
        let mut t: usize = 0;
        while t < verts.len()
            invariant
                t <= verts@.len(),
                marks@.len() == t,
                forall|q: int| 0 <= q < t ==> !#[trigger] marks@[q],
            decreases verts@.len() - t,
        {
            marks.push(false);
            t = t + 1;
        }
        let ghost before = marks@;
        self.strongconnect(verts, pos, &mut marks, root);
        proof {
            assert forall|x: int| 0 <= x < verts@.len() && #[trigger] marks@[x] implies closed_at(*self, verts@, pos@, marks@, x) by {
                assert(!before[x]);
            }
            assert forall|x: int| 0 <= x < verts@.len() implies (#[trigger] marks@[x] <==> reaches(
                self.link_seq(),
                verts@[root as int],
                verts@[x],
            )) by {
                assert(!before[x]);
                if reaches(self.link_seq(), verts@[root as int], verts@[x]) {
                    let w = choose|w: Seq<i64>| #[trigger] is_walk(self.link_seq(), w) && w[0] == verts@[root as int] && w.last() == verts@[x];
                    lemma_closed_reaches(*self, verts@, pos@, marks@, root as int, w);
                    assert(pos@.contains_key(verts@[x]) && pos@[verts@[x]] == x);
                }
            }
        }
        marks
    }

    /// The strongly connected components of the node ids: two node ids
    /// share a component exactly when each reaches the other along links
    /// (a walk may pass through ids that are not nodes). Every node id lies
    /// in exactly one component, components are non-empty, and they come
    /// in the order of their first node id in enumeration order.
    pub fn tarjan_seq(&self) -> (r: Vec<Vec<i64>>)
        requires
            self.wf(),
        ensures
            forall|c: int| 0 <= c < r@.len() ==> #[trigger] r@[c]@.len() > 0 && r@[c]@.no_duplicates(),
            forall|c: int, k: int| 0 <= c < r@.len() && 0 <= k < r@[c]@.len() ==> self.node_ids().contains(#[trigger] r@[c]@[k]),
            forall|id: i64| #[trigger] self.node_ids().contains(id) ==> exists|c: int| 0 <= c < r@.len() && r@[c]@.contains(id),
            forall|c1: int, c2: int, a: i64, b: i64|
                #![trigger r@[c1]@.contains(a), r@[c2]@.contains(b)]
                0 <= c1 < r@.len() && 0 <= c2 < r@.len() && r@[c1]@.contains(a) && r@[c2]@.contains(b) ==> (c1 == c2
                    <==> mutual(self.link_seq(), a, b)),
            acyclic(self.link_seq()) ==> forall|c: int| 0 <= c < r@.len() ==> #[trigger] r@[c]@.len() == 1,
            forall|c: int, id: i64|
                0 <= c < r@.len() && #[trigger] r@[c]@.contains(id) && no_exit(self.link_seq(), id) ==> r@[c]@ == seq![id],
            on_one_cycle(*self) && self.node_ids().len() > 0 ==> r@.len() == 1 && forall|id: i64|
                #[trigger] self.node_ids().contains(id) ==> r@[0]@.contains(id),
    {
        let ids = self.node_id_list();
        let links = self.link_list();
        proof {
            self.lemma_wf();
        }
        let n = ids.len();
        let mut verts: Vec<i64> = Vec::new();
        let mut pos: HashMap<i64, usize> = HashMap::new();
        let mut t: usize = 0;
        while t < n
            invariant
                n == ids@.len(),
                ids@.no_duplicates(),
                t <= n,
                verts@ == ids@.subrange(0, t as int),
                indexes(pos@, verts@),
            decreases n - t,
        {
            proof {
                assert forall|q: int| 0 <= q < t implies verts@[q] != ids@[t as int] by {
                    assert(verts@[q] == ids@[q]);
                }
            }
            let ghost old_pos = pos@;
            let ghost old_verts = verts@;
            pos.insert(ids[t], t);
            verts.push(ids[t]);
            proof {
                assert forall|q: int| 0 <= q < t + 1 implies #[trigger] pos@.contains_key(verts@[q]) && pos@[verts@[q]] == q by {
                    if q < t {
                        assert(old_pos.contains_key(old_verts[q]));
                    }
                }
                assert forall|id: i64| #[trigger] pos@.contains_key(id) implies exists|q: int| 0 <= q < verts@.len() && verts@[q] == id by {
                    if id == ids@[t as int] {
                        assert(verts@[t as int] == id);
                    } else {
                        assert(old_pos.contains_key(id));
                        let q = choose|q: int| 0 <= q < old_verts.len() && old_verts[q] == id;
                        assert(verts@[q] == id);
                    }
                }
            }
            t = t + 1;
        }
        let mut p: usize = 0;
        while p < links.len()
            invariant
                n == ids@.len(),
                n <= verts@.len(),
                p <= links@.len(),
                verts@.no_duplicates(),
                forall|q: int| 0 <= q < n ==> #[trigger] verts@[q] == ids@[q],
                forall|q: int| 0 <= q < p ==> #[trigger] pos@.contains_key(links@[q].dest_id),
                indexes(pos@, verts@),
            decreases links@.len() - p,
        {
            let d = links[p].dest_id;
            if !pos.contains_key(&d) {
                let k = verts.len();
                proof {
                    assert forall|q: int| 0 <= q < k implies verts@[q] != d by {
                        assert(pos@.contains_key(verts@[q]));
                    }
                }
                let ghost old_pos = pos@;
                let ghost old_verts = verts@;
                pos.insert(d, k);
                verts.push(d);
                proof {
                    assert(links@[p as int].dest_id == d);
                    assert forall|id: i64| #[trigger] pos@.contains_key(id) implies exists|q: int| 0 <= q < verts@.len() && verts@[q] == id by {
                        if id == d {
                            assert(verts@[k as int] == id);
                        } else {
                            assert(old_pos.contains_key(id));
                            let q = choose|q: int| 0 <= q < old_verts.len() && old_verts[q] == id;
                            assert(verts@[q] == id);
                        }
                    }
                }
            }
            p = p + 1;
        }
        let nv = verts.len();
        proof {
            assert forall|t: int| 0 <= t < self.node_ids().len() implies #[trigger] verts@[t] == self.node_ids()[t] by {}
            assert(universe_ok(*self, verts@, pos@));
        }
        let mut rows: Vec<Vec<bool>> = Vec::new();
        let mut t: usize = 0;
        while t < n
            invariant
                self.wf(),
                n == ids@.len(),
                ids@ == self.node_ids(),
                links@ == self.link_seq(),
                universe_ok(*self, verts@, pos@),
                t <= n,
                rows@.len() == t,
                forall|s: int| 0 <= s < t ==> #[trigger] rows@[s]@.len() == verts@.len(),
                forall|s: int, x: int|
                    0 <= s < t && 0 <= x < verts@.len() ==> (#[trigger] rows@[s]@[x] <==> reaches(links@, verts@[s], verts@[x])),
            decreases n - t,
        {
            let row = self.reach_row(&verts, &pos, t);
            let ghost rows0 = rows@;
            rows.push(row);
            proof {
                assert forall|s: int, x: int| 0 <= s < t + 1 && 0 <= x < verts@.len() implies (#[trigger] rows@[s]@[x] <==> reaches(
                    links@,
                    verts@[s],
                    verts@[x],
                )) by {
                    if s < t {
                        assert(rows@[s] == rows0[s]);
                    }
                }
            }
            t = t + 1;
        }
        proof {
            assert forall|s: int, x: int| 0 <= s < n && 0 <= x < n implies (#[trigger] rows@[s]@[x] <==> reaches(links@, ids@[s], ids@[x])) by {
                assert(verts@[s] == ids@[s] && verts@[x] == ids@[x]);
            }
        }
        let mut assigned: Vec<bool> = Vec::new();
        let mut t: usize = 0;
        while t < n
            invariant
                t <= n,
                assigned@.len() == t,
                forall|q: int| 0 <= q < t ==> !#[trigger] assigned@[q],
            decreases n - t,
        {
            assigned.push(false);
            t = t + 1;
        }
        let mut comps: Vec<Vec<i64>> = Vec::new();
        let ghost mut reps: Seq<int> = Seq::empty();
        let mut t: usize = 0;
        while t < n
            invariant
                n == ids@.len(),
                ids@ == self.node_ids(),
                ids@.no_duplicates(),
                links@ == self.link_seq(),
                rows@.len() == n,
                forall|s: int| 0 <= s < n ==> #[trigger] rows@[s]@.len() >= n,
                forall|s: int, x: int| 0 <= s < n && 0 <= x < n ==> (#[trigger] rows@[s]@[x] <==> reaches(links@, ids@[s], ids@[x])),
                t <= n,
                assigned@.len() == n,
                comps@.len() == reps.len(),
                forall|c: int| 0 <= c < reps.len() ==> 0 <= #[trigger] reps[c] < n,
                forall|c: int| 0 <= c < comps@.len() ==> #[trigger] comps@[c]@.len() > 0 && comps@[c]@.no_duplicates(),
                forall|c: int, k: int|
                    0 <= c < comps@.len() && 0 <= k < comps@[c]@.len() ==> mutual(links@, ids@[reps[c]], #[trigger] comps@[c]@[k])
                        && ids@.contains(comps@[c]@[k]),
                forall|c: int, v: int|
                    0 <= c < reps.len() && 0 <= v < n && #[trigger] mutual(links@, ids@[reps[c]], ids@[v]) ==> assigned@[v],
                forall|v: int| 0 <= v < n && #[trigger] assigned@[v] ==> exists|c: int| 0 <= c < comps@.len() && comps@[c]@.contains(ids@[v]),
                forall|c1: int, c2: int|
                    0 <= c1 < reps.len() && 0 <= c2 < reps.len() && c1 != c2 ==> !mutual(links@, ids@[#[trigger] reps[c1]], ids@[#[trigger] reps[c2]]),
                forall|v: int| 0 <= v < t ==> #[trigger] assigned@[v],
            decreases n - t,
        {
            if !assigned[t] {
                proof {
                    assert forall|c: int| 0 <= c < reps.len() implies !mutual(links@, ids@[reps[c]], ids@[t as int]) by {
                        if mutual(links@, ids@[reps[c]], ids@[t as int]) {
                            assert(assigned@[t as int]);
                        }
                    }
                    lemma_reaches_self(links@, ids@[t as int]);
                }
                let ghost assigned0 = assigned@;
                let mut comp: Vec<i64> = Vec::new();
                let ghost mut members: Seq<int> = Seq::empty();
                let mut v: usize = 0;
                while v < n
                    invariant
                        n == ids@.len(),
                        ids@.no_duplicates(),
                        rows@.len() == n,
                        forall|s: int| 0 <= s < n ==> #[trigger] rows@[s]@.len() >= n,
                        forall|s: int, x: int| 0 <= s < n && 0 <= x < n ==> (#[trigger] rows@[s]@[x] <==> reaches(links@, ids@[s], ids@[x])),
                        t < n,
                        v <= n,
                        assigned@.len() == n,
                        forall|x: int| 0 <= x < n && #[trigger] assigned0[x] ==> assigned@[x],
                        assigned0.len() == n,
                        comp@ == members.map_values(|m: int| ids@[m]),
                        forall|q: int| 0 <= q < members.len() ==> 0 <= #[trigger] members[q] < v,
                        forall|q1: int, q2: int| 0 <= q1 < q2 < members.len() ==> #[trigger] members[q1] < #[trigger] members[q2],
                        forall|q: int| 0 <= q < members.len() ==> mutual(links@, ids@[t as int], ids@[#[trigger] members[q]]),
                        forall|x: int|
                            0 <= x < v && #[trigger] mutual(links@, ids@[t as int], ids@[x]) ==> assigned@[x] && comp@.contains(ids@[x]),
                        forall|x: int| 0 <= x < n && #[trigger] assigned@[x] && !assigned0[x] ==> comp@.contains(ids@[x]),
                    decreases n - v,
                {
                    if rows[t][v] && rows[v][t] {
                        let ghost c0 = comp@;
                        let ghost a0 = assigned@;
                        comp.push(ids[v]);
                        assigned.set(v, true);
                        proof {
                            members = members.push(v as int);
                            assert(comp@ =~= members.map_values(|m: int| ids@[m]));
                            assert(comp@[comp@.len() - 1] == ids@[v as int]);
                            assert forall|x: int| 0 <= x < n && #[trigger] assigned@[x] && !assigned0[x] implies comp@.contains(ids@[x]) by {
                                if x != v as int {
                                    let k = choose|k: int| 0 <= k < c0.len() && c0[k] == ids@[x];
                                    assert(comp@[k] == ids@[x]);
                                }
                            }
                            assert forall|x: int|
                                0 <= x < v + 1 && #[trigger] mutual(links@, ids@[t as int], ids@[x]) implies assigned@[x] && comp@.contains(ids@[x]) by {
                                if x < v {
                                    assert(mutual(links@, ids@[t as int], ids@[x]));
                                    assert(a0[x] && c0.contains(ids@[x]));
                                    let k = choose|k: int| 0 <= k < c0.len() && c0[k] == ids@[x];
                                    assert(comp@[k] == ids@[x]);
                                }
                            }
                        }
                    } else {
                        proof {
                            assert(rows@[t as int]@[v as int] <==> reaches(links@, ids@[t as int], ids@[v as int]));
                            assert(rows@[v as int]@[t as int] <==> reaches(links@, ids@[v as int], ids@[t as int]));
                            assert(!mutual(links@, ids@[t as int], ids@[v as int]));
                            assert forall|x: int|
                                0 <= x < v + 1 && #[trigger] mutual(links@, ids@[t as int], ids@[x]) implies assigned@[x] && comp@.contains(ids@[x]) by {
                                if x < v {
                                    assert(mutual(links@, ids@[t as int], ids@[x]));
                                }
                            }
                        }
                    }
                    v = v + 1;
                }
                proof {
                    assert(mutual(links@, ids@[t as int], ids@[t as int]));
                    assert(assigned@[t as int] && comp@.contains(ids@[t as int]));
                    lemma_map_no_duplicates(members, ids@);
                    assert forall|k: int| 0 <= k < comp@.len() implies mutual(links@, ids@[t as int], #[trigger] comp@[k]) && ids@.contains(comp@[k]) by {
                        assert(comp@[k] == ids@[members[k]]);
                        assert(mutual(links@, ids@[t as int], ids@[members[k]]));
                    }
                }
                let ghost comps0 = comps@;
                comps.push(comp);
                proof {
                    reps = reps.push(t as int);
                    assert forall|c: int| 0 <= c < comps@.len() implies #[trigger] comps@[c]@.len() > 0 && comps@[c]@.no_duplicates() by {
                        if c < comps0.len() {
                            assert(comps@[c] == comps0[c]);
                        }
                    }
                    assert forall|c: int, k: int|
                        0 <= c < comps@.len() && 0 <= k < comps@[c]@.len() implies mutual(links@, ids@[reps[c]], #[trigger] comps@[c]@[k])
                            && ids@.contains(comps@[c]@[k]) by {
                        if c < comps0.len() {
                            assert(comps@[c] == comps0[c]);
                        }
                    }
                    assert forall|c: int, x: int|
                        0 <= c < reps.len() && 0 <= x < n && #[trigger] mutual(links@, ids@[reps[c]], ids@[x]) implies assigned@[x] by {
                        if c < reps.len() - 1 {
                            assert(assigned0[x]);
                        }
                    }
                    assert forall|x: int| 0 <= x < n && #[trigger] assigned@[x] implies exists|c: int|
                        0 <= c < comps@.len() && comps@[c]@.contains(ids@[x]) by {
                        if assigned0[x] {
                            let c = choose|c: int| 0 <= c < comps0.len() && comps0[c]@.contains(ids@[x]);
                            assert(comps@[c] == comps0[c]);
                        } else {
                            assert(comps@[comps@.len() - 1]@.contains(ids@[x]));
                        }
                    }
                    assert forall|c1: int, c2: int|
                        0 <= c1 < reps.len() && 0 <= c2 < reps.len() && c1 != c2 implies !mutual(links@, ids@[#[trigger] reps[c1]], ids@[#[trigger] reps[c2]]) by {
                        if c2 == reps.len() - 1 && c1 < reps.len() - 1 {
                            assert(!mutual(links@, ids@[reps[c1]], ids@[t as int]));
                        } else if c1 == reps.len() - 1 && c2 < reps.len() - 1 {
                            assert(!mutual(links@, ids@[reps[c2]], ids@[t as int]));
                        }
                    }
                    assert forall|x: int| 0 <= x < t + 1 implies #[trigger] assigned@[x] by {
                        if x < t {
                            assert(assigned0[x]);
                        }
                    }
                }
            }
            t = t + 1;
        }
        proof {
            assert forall|id: i64| #[trigger] self.node_ids().contains(id) implies exists|c: int| 0 <= c < comps@.len() && comps@[c]@.contains(id) by {
                let u = choose|u: int| 0 <= u < n && ids@[u] == id;
                assert(assigned@[u]);
            }
            assert forall|c1: int, c2: int, a: i64, b: i64|
                #![trigger comps@[c1]@.contains(a), comps@[c2]@.contains(b)]
                0 <= c1 < comps@.len() && 0 <= c2 < comps@.len() && comps@[c1]@.contains(a) && comps@[c2]@.contains(b) implies (c1 == c2
                    <==> mutual(links@, a, b)) by {
                let k1 = choose|k: int| 0 <= k < comps@[c1]@.len() && comps@[c1]@[k] == a;
                let k2 = choose|k: int| 0 <= k < comps@[c2]@.len() && comps@[c2]@[k] == b;
                let r1 = ids@[reps[c1]];
                let r2 = ids@[reps[c2]];
                assert(mutual(links@, r1, a));
                assert(mutual(links@, r2, b));
                if c1 == c2 {
                    lemma_mutual_trans(links@, a, r1, b);
                } else if mutual(links@, a, b) {
                    lemma_mutual_trans(links@, r1, a, b);
                    lemma_mutual_trans(links@, r1, b, r2);
                    assert(!mutual(links@, r1, r2));
                }
            }
            if acyclic(links@) {
                assert forall|c: int| 0 <= c < comps@.len() implies #[trigger] comps@[c]@.len() == 1 by {
                    if comps@[c]@.len() >= 2 {
                        let a = comps@[c]@[0];
                        let b = comps@[c]@[1];
                        assert(comps@[c]@.contains(a) && comps@[c]@.contains(b));
                        assert(mutual(links@, a, b));
                    }
                }
            }
            assert forall|c: int, id: i64|
                0 <= c < comps@.len() && #[trigger] comps@[c]@.contains(id) && no_exit(links@, id) implies comps@[c]@ == seq![id] by {
                assert forall|k: int| 0 <= k < comps@[c]@.len() implies comps@[c]@[k] == id by {
                    let b = comps@[c]@[k];
                    assert(comps@[c]@.contains(b));
                    assert(mutual(links@, id, b));
                    lemma_no_exit_reaches(links@, id, b);
                }
                if comps@[c]@.len() > 1 {
                    let z: int = 0;
                    let o: int = 1;
                    assert(comps@[c]@[z] == id && comps@[c]@[o] == id);
                }
                let k = choose|k: int| 0 <= k < comps@[c]@.len() && comps@[c]@[k] == id;
                assert(comps@[c]@ =~= seq![id]);
            }
            if on_one_cycle(*self) && n > 0 {
                assert(self.node_ids().contains(ids@[0]));
                let c0 = choose|c: int| 0 <= c < comps@.len() && comps@[c]@.contains(ids@[0]);
                assert forall|c: int| 0 <= c < comps@.len() implies #[trigger] comps@[c]@.len() > 0 && c == c0 by {
                    let a = comps@[c]@[0];
                    assert(comps@[c]@.contains(a));
                    assert(ids@.contains(a));
                    let u = choose|u: int| 0 <= u < n && ids@[u] == a;
                    lemma_cycle_mutual(*self, u, 0);
                }
                assert(comps@.len() == 1) by {
                    if comps@.len() > 1 {
                        let z: int = 0;
                        let o: int = 1;
                        assert(comps@[z]@.len() > 0 && z == c0);
                        assert(comps@[o]@.len() > 0 && o == c0);
                    }
                }
                assert forall|id: i64| #[trigger] self.node_ids().contains(id) implies comps@[0]@.contains(id) by {
                    let c = choose|c: int| 0 <= c < comps@.len() && comps@[c]@.contains(id);
                }
            }
        }
        comps
    }
}

} // verus!
