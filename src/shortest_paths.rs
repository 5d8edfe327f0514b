//! All-pairs shortest distances over the dense matrix of a graph store,
//! computed by pivot relaxation, sequentially or with rows in parallel.
use crate::network::{Link, OrientedGraph};
use rayon::iter::ParallelIterator;
use rayon::slice::ParallelSliceMut;
use std::collections::HashMap;
use vstd::arithmetic::div_mod::{lemma_div_pos_is_pos, lemma_fundamental_div_mod, lemma_mod_pos_bound};
use vstd::prelude::*;
use vstd::set_lib::{lemma_int_range, lemma_len_subset, set_int_range};

verus! {

broadcast use vstd::std_specs::hash::group_hash_axioms;

/// Distance of an unreachable pair.
pub const INF: u64 = 0xffff_ffff_ffff_ffff;

/// Entry `(i, j)` of a row-major `n`-by-`n` matrix.
pub open spec fn at(d: Seq<u64>, n: int, i: int, j: int) -> int {
    d[i * n + j] as int
}

/// Smallest distance among the links from `a` to `b`; `INF` if there is none.
pub open spec fn direct(links: Seq<Link>, a: i64, b: i64) -> int
    decreases links.len(),
{
    if links.len() == 0 {
        INF as int
    } else {
        let rest = direct(links.drop_last(), a, b);
        let l = links.last();
        if l.origin_id == a && l.dest_id == b && (l.distance as int) < rest {
            l.distance as int
        } else {
            rest
        }
    }
}

/// Entry `(i, j)` of the matrix prepared from the enumeration `ids` and
/// `links`: zero on the diagonal, else the cheapest direct link.
pub open spec fn initial(ids: Seq<i64>, links: Seq<Link>, i: int, j: int) -> int {
    if i == j {
        0
    } else {
        direct(links, ids[i], ids[j])
    }
}

pub open spec fn base_of(ids: Seq<i64>, links: Seq<Link>) -> spec_fn(int, int) -> int {
    |i: int, j: int| initial(ids, links, i, j)
}

pub open spec fn min(a: int, b: int) -> int {
    if b < a {
        b
    } else {
        a
    }
}

/// Shortest distance from `i` to `j` over paths whose intermediate rows
/// are all below `k`, starting from the direct distances `base`.
pub open spec fn fw(base: spec_fn(int, int) -> int, k: nat, i: int, j: int) -> int
    decreases k,
{
    if k == 0 {
        base(i, j)
    } else {
        let p = (k - 1) as int;
        let prev = (k - 1) as nat;
        min(fw(base, prev, i, j), fw(base, prev, i, p) + fw(base, prev, p, j))
    }
}

/// A base matrix on rows `0..n`: weights in `0..=INF`, zero diagonal.
pub open spec fn valid_base(base: spec_fn(int, int) -> int, n: int) -> bool {
    &&& forall|i: int, j: int| 0 <= i < n && 0 <= j < n ==> 0 <= #[trigger] base(i, j) <= INF
    &&& forall|i: int| 0 <= i < n ==> #[trigger] base(i, i) == 0
}

/// Shortest distance between rows `i` and `j` of the graph's matrix.
pub open spec fn shortest(g: OrientedGraph, i: int, j: int) -> int {
    fw(base_of(g.node_ids(), g.link_seq()), g.node_ids().len(), i, j)
}

pub proof fn lemma_index(n: int, i: int, j: int)
    requires
        0 <= i < n,
        0 <= j < n,
    ensures
        0 <= i * n + j < n * n,
{
    assert(0 <= i * n + j < n * n) by (nonlinear_arith)
        requires
            0 <= i < n,
            0 <= j < n,
    ;
}

pub proof fn lemma_index_distinct(n: int, i: int, j: int, a: int, b: int)
    requires
        0 <= i < n,
        0 <= j < n,
        0 <= a < n,
        0 <= b < n,
        !(i == a && j == b),
    ensures
        i * n + j != a * n + b,
{
    if i < a {
        assert(i * n + j < a * n + b) by (nonlinear_arith)
            requires
                i < a,
                0 <= j < n,
                0 <= b,
        ;
    } else if a < i {
        assert(a * n + b < i * n + j) by (nonlinear_arith)
            requires
                a < i,
                0 <= b < n,
                0 <= j,
        ;
    }
}

pub proof fn lemma_direct_bounds(links: Seq<Link>, a: i64, b: i64)
    ensures
        0 <= direct(links, a, b) <= INF,
    decreases links.len(),
{
    if links.len() > 0 {
        lemma_direct_bounds(links.drop_last(), a, b);
    }
}

pub proof fn lemma_base_valid(ids: Seq<i64>, links: Seq<Link>)
    ensures
        valid_base(base_of(ids, links), ids.len() as int),
{
    let base = base_of(ids, links);
    assert forall|i: int, j: int| 0 <= i < ids.len() && 0 <= j < ids.len() implies 0 <= #[trigger] base(i, j) <= INF by {
        lemma_direct_bounds(links, ids[i], ids[j]);
    }
}

/// Every stage stays within `0..=INF` and keeps a zero diagonal.
pub proof fn lemma_fw_bounds(base: spec_fn(int, int) -> int, n: int, k: nat, i: int, j: int)
    requires
        valid_base(base, n),
        k <= n,
        0 <= i < n,
        0 <= j < n,
    ensures
        0 <= fw(base, k, i, j) <= INF,
        fw(base, k, i, i) == 0,
    decreases k,
{
    if k > 0 {
        let p = (k - 1) as int;
        let prev = (k - 1) as nat;
        lemma_fw_bounds(base, n, prev, i, j);
        lemma_fw_bounds(base, n, prev, i, p);
        lemma_fw_bounds(base, n, prev, p, j);
        lemma_fw_bounds(base, n, prev, p, i);
        lemma_fw_bounds(base, n, prev, i, i);
    }
}

/// Relaxing through pivot `p` leaves row `p` and column `p` as they were.
pub proof fn lemma_fw_pivot_fixed(base: spec_fn(int, int) -> int, n: int, p: int, i: int)
    requires
        valid_base(base, n),
        0 <= p < n,
        0 <= i < n,
    ensures
        fw(base, (p + 1) as nat, i, p) == fw(base, p as nat, i, p),
        fw(base, (p + 1) as nat, p, i) == fw(base, p as nat, p, i),
{
    lemma_fw_bounds(base, n, p as nat, i, p);
    lemma_fw_bounds(base, n, p as nat, p, i);
    lemma_fw_bounds(base, n, p as nat, p, p);
}

/// Once every row below `k` has served as pivot, a path through any of
/// those rows is never shorter than the stored distance.
pub proof fn lemma_fw_triangle(base: spec_fn(int, int) -> int, n: int, k: nat, i: int, j: int, m: int)
    requires
        valid_base(base, n),
        k <= n,
        0 <= i < n,
        0 <= j < n,
        0 <= m < k,
    ensures
        fw(base, k, i, j) <= fw(base, k, i, m) + fw(base, k, m, j),
    decreases k,
{
    let p = (k - 1) as int;
    let prev = (k - 1) as nat;
    if m == p {
        lemma_fw_pivot_fixed(base, n, p, i);
        lemma_fw_pivot_fixed(base, n, p, j);
    } else {
        lemma_fw_triangle(base, n, prev, i, j, m);
        lemma_fw_triangle(base, n, prev, p, j, m);
        lemma_fw_triangle(base, n, prev, i, p, m);
        lemma_fw_bounds(base, n, prev, i, p);
        lemma_fw_bounds(base, n, prev, p, m);
        lemma_fw_bounds(base, n, prev, m, p);
        lemma_fw_bounds(base, n, prev, p, j);
    }
}

/// `m` numbers the ids of `ids` by their positions, and holds no other id.
pub open spec fn indexes(m: Map<i64, usize>, ids: Seq<i64>) -> bool {
    &&& forall|t: int| 0 <= t < ids.len() ==> #[trigger] m.contains_key(ids[t]) && m[ids[t]] == t
    &&& forall|id: i64| #[trigger] m.contains_key(id) ==> exists|t: int| 0 <= t < ids.len() && ids[t] == id
}

/// The solved distance matrix: row-major `size` by `size` entries, and
/// the row of each node id.
pub struct MatrixResult {
    pub dists: Vec<u64>,
    pub id_map: HashMap<i64, usize>,
    pub size: usize,
}

impl MatrixResult {
    pub open spec fn wf(&self) -> bool {
        &&& self.dists@.len() == self.size * self.size
        &&& self.size * self.size <= usize::MAX
        &&& forall|id: i64| #[trigger] self.id_map@.contains_key(id) ==> self.id_map@[id] < self.size
    }

    /// The stored distance from `origin_id` to `dest_id` (`INF` when no path
    /// is known), or `None` when either id has no row.
    pub fn get_distance(&self, origin_id: i64, dest_id: i64) -> (r: Option<u64>)
        requires
            self.wf(),
        ensures
            r == if self.id_map@.contains_key(origin_id) && self.id_map@.contains_key(dest_id) {
                Some(self.dists@[self.id_map@[origin_id] * self.size + self.id_map@[dest_id]])
            } else {
                None
            },
    {
        let i = match self.id_map.get(&origin_id) {
            Some(i) => *i,
            None => return None,
        };
        let j = match self.id_map.get(&dest_id) {
            Some(j) => *j,
            None => return None,
        };
        proof {
            lemma_index(self.size as int, i as int, j as int);
        }
        Some(self.dists[i * self.size + j])
    }
}

/// Numbers the node ids by enumeration order and builds the `n`-by-`n`
/// matrix of direct distances: zero on the diagonal, the cheapest link for
/// a linked pair, `INF` elsewhere. Links with an endpoint outside the node
/// set are ignored.
pub fn prepare_matrix(graph: &OrientedGraph) -> (r: (Vec<u64>, HashMap<i64, usize>, usize))
    requires
        graph.wf(),
        graph.node_ids().len() * graph.node_ids().len() <= usize::MAX,
    ensures
        r.2 == graph.node_ids().len(),
        indexes(r.1@, graph.node_ids()),
        r.0@.len() == r.2 * r.2,
        forall|i: int, j: int|
            0 <= i < r.2 && 0 <= j < r.2 ==> #[trigger] at(r.0@, r.2 as int, i, j) == initial(
                graph.node_ids(),
                graph.link_seq(),
                i,
                j,
            ),
{
    let ids = graph.node_id_list();
    let links = graph.link_list();
    proof {
        graph.lemma_wf();
    }
    let n = ids.len();
    let mut id_map: HashMap<i64, usize> = HashMap::new();
    let mut t: usize = 0;
    while t < n
        invariant
            t <= n,
            n == ids@.len(),
            ids@.no_duplicates(),
            forall|q: int| 0 <= q < t ==> #[trigger] id_map@.contains_key(ids@[q]) && id_map@[ids@[q]] == q,
            forall|id: i64| #[trigger] id_map@.contains_key(id) ==> exists|q: int| 0 <= q < t && ids@[q] == id,
        decreases n - t,
    {
        id_map.insert(ids[t], t);
        assert forall|id: i64| #[trigger] id_map@.contains_key(id) implies exists|q: int| 0 <= q < t + 1 && ids@[q] == id by {
            if id == ids@[t as int] {
                assert(ids@[t as int] == id);
            }
        }
        t = t + 1;
    }
    let nn = n * n;
    let mut dists: Vec<u64> = Vec::new();
    let mut t: usize = 0;
    while t < nn
        invariant
            t <= nn,
            dists@.len() == t,
            forall|q: int| 0 <= q < t ==> dists@[q] == INF,
        decreases nn - t,
    {
        dists.push(INF);
        t = t + 1;
    }
    assert forall|a: int, b: int| 0 <= a < n && 0 <= b < n implies #[trigger] at(dists@, n as int, a, b) == INF as int by {
        lemma_index(n as int, a, b);
    }
    let mut i: usize = 0;
    while i < n
        invariant
            i <= n,
            nn == n * n,
            dists@.len() == nn,
            forall|a: int, b: int|
                0 <= a < n && 0 <= b < n ==> #[trigger] at(dists@, n as int, a, b) == if a == b && a < i {
                    0
                } else {
                    INF as int
                },
        decreases n - i,
    {
        proof {
            lemma_index(n as int, i as int, i as int);
        }
        let ghost d0 = dists@;
        dists.set(i * n + i, 0);
        assert forall|a: int, b: int| 0 <= a < n && 0 <= b < n implies #[trigger] at(dists@, n as int, a, b) == if a == b && a < i + 1 {
            0
        } else {
            INF as int
        } by {
            lemma_index(n as int, a, b);
            assert(at(d0, n as int, a, b) == if a == b && a < i { 0 } else { INF as int });
            if !(a == i && b == i) {
                lemma_index_distinct(n as int, a, b, i as int, i as int);
            }
        }
        i = i + 1;
    }
    let mut t: usize = 0;
    while t < links.len()
        invariant
            t <= links@.len(),
            n == ids@.len(),
            nn == n * n,
            dists@.len() == nn,
            ids@.no_duplicates(),
            indexes(id_map@, ids@),
            forall|a: int, b: int|
                0 <= a < n && 0 <= b < n ==> #[trigger] at(dists@, n as int, a, b) == initial(
                    ids@,
                    links@.subrange(0, t as int),
                    a,
                    b,
                ),
        decreases links@.len() - t,
    {
        let link = &links[t];
        let ghost pre = links@.subrange(0, t as int);
        let ghost cur = links@.subrange(0, t as int + 1);
        assert(cur.drop_last() == pre);
        let ou = id_map.get(&link.origin_id);
        let ov = id_map.get(&link.dest_id);
        let ghost d0 = dists@;
        match (ou, ov) {
            (Some(u), Some(v)) => {
                let u = *u;
                let v = *v;
                proof {
                    let tu = choose|q: int| 0 <= q < ids@.len() && ids@[q] == link.origin_id;
                    let tv = choose|q: int| 0 <= q < ids@.len() && ids@[q] == link.dest_id;
                    assert(id_map@[ids@[tu]] == tu);
                    assert(id_map@[ids@[tv]] == tv);
                    lemma_index(n as int, u as int, v as int);
                }
                let idx = u * n + v;
                if link.distance < dists[idx] {
                    dists.set(idx, link.distance);
                }
            },
            _ => {},
        }
        assert forall|a: int, b: int| 0 <= a < n && 0 <= b < n implies #[trigger] at(dists@, n as int, a, b) == initial(
            ids@,
            cur,
            a,
            b,
        ) by {
            lemma_index(n as int, a, b);
            assert(at(d0, n as int, a, b) == initial(ids@, pre, a, b));
            if ids@[a] == link.origin_id && ids@[b] == link.dest_id {
                assert(id_map@[ids@[a]] == a);
                assert(id_map@[ids@[b]] == b);
            } else {
                if id_map@.contains_key(link.origin_id) && id_map@.contains_key(link.dest_id) {
                    let u = id_map@[link.origin_id] as int;
                    let v = id_map@[link.dest_id] as int;
                    let tu = choose|q: int| 0 <= q < ids@.len() && ids@[q] == link.origin_id;
                    let tv = choose|q: int| 0 <= q < ids@.len() && ids@[q] == link.dest_id;
                    assert(id_map@[ids@[tu]] == tu);
                    assert(id_map@[ids@[tv]] == tv);
                    lemma_index_distinct(n as int, a, b, u, v);
                }
            }
        }
        t = t + 1;
    }
    assert(links@.subrange(0, links@.len() as int) == links@);
    (dists, id_map, n)
}

/// `r` holds the shortest distances of `g`: one row per node id, numbered
/// by enumeration order, and `shortest` at each pair of rows.
pub open spec fn solves(g: OrientedGraph, r: MatrixResult) -> bool {
    &&& r.wf()
    &&& r.size == g.node_ids().len()
    &&& indexes(r.id_map@, g.node_ids())
    &&& forall|i: int, j: int|
        0 <= i < r.size && 0 <= j < r.size ==> #[trigger] at(r.dists@, r.size as int, i, j) == shortest(g, i, j)
}

/// One relaxation: the distance through the pivot when that is shorter.
pub open spec fn relaxed(ij: int, ik: int, kj: int) -> int {
    min(ij, ik + kj)
}

/// Relaxes one row through pivot `k`: each entry becomes the smaller of
/// itself and the row's distance to the pivot plus the pivot row's entry.
fn relax_row(row: &mut [u64], pivot_row: &[u64], k: usize)
    requires
        old(row)@.len() == pivot_row@.len(),
        k < pivot_row@.len(),
    ensures
        final(row)@.len() == old(row)@.len(),
        forall|j: int|
            0 <= j < old(row)@.len() ==> #[trigger] final(row)@[j] as int == relaxed(
                old(row)@[j] as int,
                old(row)@[k as int] as int,
                pivot_row@[j] as int,
            ),
{
    let n = row.len();
    let dist_ik = row[k];
    if dist_ik == INF {
        return;
    }
    let mut j: usize = 0;
    while j < n
        invariant
            n == row@.len(),
            n == old(row)@.len(),
            n == pivot_row@.len(),
            j <= n,
            dist_ik == old(row)@[k as int],
            dist_ik != INF,
            forall|q: int| j <= q < n ==> row@[q] == old(row)@[q],
            forall|q: int|
                0 <= q < j ==> #[trigger] row@[q] as int == relaxed(
                    old(row)@[q] as int,
                    dist_ik as int,
                    pivot_row@[q] as int,
                ),
        decreases n - j,
    {
        let dist_kj = pivot_row[j];
        let cur = row[j];
        if dist_kj != INF && dist_ik < cur && dist_kj < cur - dist_ik {
            row[j] = dist_ik + dist_kj;
        }
        j = j + 1;
    }
}

/// Relies on rayon's `par_chunks_mut` and `for_each`: the slice is cut into
/// disjoint chunks of exactly `n` consecutive entries (`n` divides its
/// length), and the closure runs once on each chunk.
#[verifier::external_body]
fn relax_rows_in_parallel(dists: &mut Vec<u64>, n: usize, pivot_row: &[u64], k: usize)
    requires
        0 < n,
        old(dists)@.len() == n * n,
        pivot_row@.len() == n,
        k < n,
    ensures
        final(dists)@.len() == n * n,
        forall|i: int, j: int|
            0 <= i < n && 0 <= j < n ==> #[trigger] at(final(dists)@, n as int, i, j) == relaxed(
                at(old(dists)@, n as int, i, j),
                at(old(dists)@, n as int, i, k as int),
                pivot_row@[j] as int,
            ),
{
    dists.par_chunks_mut(n).for_each(|row| relax_row(row, pivot_row, k));
}

impl OrientedGraph {
    /// All-pairs shortest distances, one pivot after another and one row
    /// after another, updating the matrix in place. Each entry is the
    /// length of a shortest path (`lemma_shortest_is_path_minimum`), and
    /// `INF` exactly for unreachable pairs while paths fit below `INF`
    /// (`lemma_unreachable_iff_no_path`).
    pub fn floyd_warshall_seq(&self) -> (r: MatrixResult)
        requires
            self.wf(),
            self.node_ids().len() * self.node_ids().len() <= usize::MAX,
        ensures
            solves(*self, r),
    {
        let (mut dists, id_map, n) = prepare_matrix(self);
        let ghost base = base_of(self.node_ids(), self.link_seq());
        proof {
            lemma_base_valid(self.node_ids(), self.link_seq());
            assert forall|a: int, b: int| 0 <= a < n && 0 <= b < n implies #[trigger] at(dists@, n as int, a, b) == fw(base, 0, a, b) by {}
        }
        let mut k: usize = 0;
        while k < n
            invariant
                k <= n,
                valid_base(base, n as int),
                dists@.len() == n * n,
                n * n <= usize::MAX,
                forall|a: int, b: int|
                    0 <= a < n && 0 <= b < n ==> #[trigger] at(dists@, n as int, a, b) == fw(base, k as nat, a, b),
            decreases n - k,
        {
            let ghost stage = dists@;
            let mut i: usize = 0;
            while i < n
                invariant
                    k < n,
                    i <= n,
                    valid_base(base, n as int),
                    dists@.len() == n * n,
                    n * n <= usize::MAX,
                    forall|a: int, b: int| 0 <= a < n && 0 <= b < n ==> #[trigger] at(stage, n as int, a, b) == fw(base, k as nat, a, b),
                    forall|a: int, b: int|
                        0 <= a < n && 0 <= b < n ==> #[trigger] at(dists@, n as int, a, b) == if a < i {
                            fw(base, (k + 1) as nat, a, b)
                        } else {
                            fw(base, k as nat, a, b)
                        },
                decreases n - i,
            {
                proof {
                    lemma_index(n as int, i as int, k as int);
                }
                let dist_ik = dists[i * n + k];
                assert(dist_ik as int == fw(base, k as nat, i as int, k as int)) by {
                    assert(at(dists@, n as int, i as int, k as int) == fw(base, k as nat, i as int, k as int));
                }
                if dist_ik != INF {
                    let mut j: usize = 0;
                    while j < n
                        invariant
                            k < n,
                            i < n,
                            j <= n,
                            valid_base(base, n as int),
                            dists@.len() == n * n,
                            n * n <= usize::MAX,
                            dist_ik as int == fw(base, k as nat, i as int, k as int),
                            forall|a: int, b: int|
                                0 <= a < n && 0 <= b < n ==> #[trigger] at(dists@, n as int, a, b) == if a < i || (a == i && b < j) {
                                    fw(base, (k + 1) as nat, a, b)
                                } else {
                                    fw(base, k as nat, a, b)
                                },
                        decreases n - j,
                    {
                        proof {
                            lemma_index(n as int, k as int, j as int);
                            lemma_index(n as int, i as int, j as int);
                            lemma_fw_pivot_fixed(base, n as int, k as int, j as int);
                            lemma_fw_bounds(base, n as int, k as nat, i as int, j as int);
                            lemma_fw_bounds(base, n as int, k as nat, k as int, j as int);
                            assert(at(dists@, n as int, k as int, j as int) == fw(base, k as nat, k as int, j as int));
                            assert(at(dists@, n as int, i as int, j as int) == fw(base, k as nat, i as int, j as int));
                        }
                        let dist_kj = dists[k * n + j];
                        let idx = i * n + j;
                        let cur = dists[idx];
                        let ghost d0 = dists@;
                        if dist_kj != INF && dist_ik < cur && dist_kj < cur - dist_ik {
                            dists.set(idx, dist_ik + dist_kj);
                        }
                        assert forall|a: int, b: int| 0 <= a < n && 0 <= b < n implies #[trigger] at(dists@, n as int, a, b) == if a < i || (a == i && b < j + 1) {
                            fw(base, (k + 1) as nat, a, b)
                        } else {
                            fw(base, k as nat, a, b)
                        } by {
                            lemma_index(n as int, a, b);
                            assert(at(d0, n as int, a, b) == if a < i || (a == i && b < j) {
                                fw(base, (k + 1) as nat, a, b)
                            } else {
                                fw(base, k as nat, a, b)
                            });
                            if !(a == i && b == j) {
                                lemma_index_distinct(n as int, a, b, i as int, j as int);
                            }
                        }
                        j = j + 1;
                    }
                } else {
                    assert forall|a: int, b: int| 0 <= a < n && 0 <= b < n implies #[trigger] at(dists@, n as int, a, b) == if a < i + 1 {
                        fw(base, (k + 1) as nat, a, b)
                    } else {
                        fw(base, k as nat, a, b)
                    } by {
                        if a == i {
                            lemma_fw_bounds(base, n as int, k as nat, a, b);
                            lemma_fw_bounds(base, n as int, k as nat, k as int, b);
                        }
                    }
                }
                i = i + 1;
            }
            k = k + 1;
        }
        MatrixResult { dists, id_map, size: n }
    }

    /// All-pairs shortest distances with the pivots taken one after another
    /// and, for each pivot, the rows relaxed in parallel against a copy of
    /// the pivot row. The result is the sequential one (`lemma_solvers_agree`).
    pub fn floyd_warshall_par(&self) -> (r: MatrixResult)
        requires
            self.wf(),
            self.node_ids().len() * self.node_ids().len() <= usize::MAX,
        ensures
            solves(*self, r),
    {
        let (mut dists, id_map, n) = prepare_matrix(self);
        let ghost base = base_of(self.node_ids(), self.link_seq());
        proof {
            lemma_base_valid(self.node_ids(), self.link_seq());
            assert forall|a: int, b: int| 0 <= a < n && 0 <= b < n implies #[trigger] at(dists@, n as int, a, b) == fw(base, 0, a, b) by {}
        }
        let mut k: usize = 0;
        while k < n
            invariant
                k <= n,
                valid_base(base, n as int),
                dists@.len() == n * n,
                n * n <= usize::MAX,
                forall|a: int, b: int|
                    0 <= a < n && 0 <= b < n ==> #[trigger] at(dists@, n as int, a, b) == fw(base, k as nat, a, b),
            decreases n - k,
        {
            let mut pivot_row: Vec<u64> = Vec::new();
            let mut j: usize = 0;
            while j < n
                invariant
                    k < n,
                    j <= n,
                    dists@.len() == n * n,
                    n * n <= usize::MAX,
                    pivot_row@.len() == j,
                    forall|q: int| 0 <= q < j ==> #[trigger] pivot_row@[q] as int == at(dists@, n as int, k as int, q),
                decreases n - j,
            {
                proof {
                    lemma_index(n as int, k as int, j as int);
                }
                pivot_row.push(dists[k * n + j]);
                j = j + 1;
            }
            let ghost d0 = dists@;
            relax_rows_in_parallel(&mut dists, n, pivot_row.as_slice(), k);
            assert forall|a: int, b: int| 0 <= a < n && 0 <= b < n implies #[trigger] at(dists@, n as int, a, b) == fw(base, (k + 1) as nat, a, b) by {
                assert(at(d0, n as int, a, b) == fw(base, k as nat, a, b));
                assert(at(d0, n as int, a, k as int) == fw(base, k as nat, a, k as int));
                assert(at(d0, n as int, k as int, b) == fw(base, k as nat, k as int, b));
                assert(pivot_row@[b] as int == at(d0, n as int, k as int, b));
            }
            k = k + 1;
        }
        MatrixResult { dists, id_map, size: n }
    }
}

/// Length of a path of rows under the direct distances `base`: the sum of
/// `base` over its consecutive pairs.
pub open spec fn path_len(base: spec_fn(int, int) -> int, p: Seq<int>) -> int
    decreases p.len(),
{
    if p.len() <= 1 {
        0
    } else {
        base(p[0], p[1]) + path_len(base, p.drop_first())
    }
}

/// `p` is a path of rows below `n` from `i` to `j` whose intermediate rows
/// are all below `k`.
pub open spec fn is_path(p: Seq<int>, n: int, k: int, i: int, j: int) -> bool {
    &&& p.len() >= 1
    &&& p[0] == i
    &&& p.last() == j
    &&& forall|t: int| 0 <= t < p.len() ==> 0 <= #[trigger] p[t] < n
    &&& forall|t: int| 0 < t < p.len() - 1 ==> #[trigger] p[t] < k
}

pub proof fn lemma_path_len_concat(base: spec_fn(int, int) -> int, a: Seq<int>, b: Seq<int>)
    requires
        a.len() >= 1,
        b.len() >= 1,
        a.last() == b[0],
    ensures
        path_len(base, a + b.drop_first()) == path_len(base, a) + path_len(base, b),
    decreases a.len(),
{
    let c = a + b.drop_first();
    if a.len() == 1 {
        assert(c =~= b);
    } else {
        assert(c[0] == a[0] && c[1] == a[1]);
        assert(c.drop_first() =~= a.drop_first() + b.drop_first());
        lemma_path_len_concat(base, a.drop_first(), b);
    }
}

/// Later stages never exceed earlier ones.
pub proof fn lemma_fw_decreasing(base: spec_fn(int, int) -> int, n: int, k: nat, i: int, j: int)
    requires
        valid_base(base, n),
        k <= n,
        0 <= i < n,
        0 <= j < n,
    ensures
        fw(base, k, i, j) <= base(i, j),
    decreases k,
{
    if k > 0 {
        lemma_fw_decreasing(base, n, (k - 1) as nat, i, j);
    }
}

/// No path whose intermediate rows are below `k` is shorter than stage `k`.
pub proof fn lemma_fw_below_paths(base: spec_fn(int, int) -> int, n: int, k: nat, p: Seq<int>, i: int, j: int)
    requires
        valid_base(base, n),
        k <= n,
        is_path(p, n, k as int, i, j),
    ensures
        fw(base, k, i, j) <= path_len(base, p),
    decreases p.len(),
{
    assert(0 <= p[0] < n && 0 <= p[p.len() - 1] < n);
    if p.len() == 1 {
        assert(i == j);
        lemma_fw_bounds(base, n, k, i, i);
    } else if p.len() == 2 {
        lemma_fw_decreasing(base, n, k, i, j);
        assert(p.drop_first().len() == 1);
        assert(p[1] == j);
        assert(path_len(base, p) == base(i, j) + path_len(base, p.drop_first()));
    } else {
        let q = p[1];
        assert(0 <= q < n && q < k);
        let rest = p.drop_first();
        assert forall|t: int| 0 < t < rest.len() - 1 implies #[trigger] rest[t] < k by {
            assert(rest[t] == p[t + 1]);
        }
        assert forall|t: int| 0 <= t < rest.len() implies 0 <= #[trigger] rest[t] < n by {
            assert(rest[t] == p[t + 1]);
        }
        lemma_fw_below_paths(base, n, k, rest, q, j);
        let first = seq![i, q];
        assert(first.drop_first().len() == 1);
        assert(rest[0] == q && rest.last() == j);
        assert(is_path(rest, n, k as int, q, j));
        assert(is_path(first, n, k as int, i, q));
        lemma_fw_below_paths(base, n, k, first, i, q);
        lemma_fw_triangle(base, n, k, i, j, q);
        assert(path_len(base, first) == base(i, q) + path_len(base, first.drop_first()));
        assert(path_len(base, p) == base(i, q) + path_len(base, rest));
    }
}

/// Stage `k` is `INF`, or the length of a path whose intermediate rows are
/// below `k`.
pub proof fn lemma_fw_achieved(base: spec_fn(int, int) -> int, n: int, k: nat, i: int, j: int)
    requires
        valid_base(base, n),
        k <= n,
        0 <= i < n,
        0 <= j < n,
    ensures
        fw(base, k, i, j) == INF || exists|p: Seq<int>| #[trigger] is_path(p, n, k as int, i, j) && path_len(base, p) == fw(base, k, i, j),
    decreases k,
{
    if k == 0 {
        if i == j {
            let p = seq![i];
            assert(is_path(p, n, 0, i, j) && path_len(base, p) == fw(base, k, i, j));
        } else {
            let p = seq![i, j];
            assert(p.drop_first().len() == 1);
            assert(path_len(base, p) == base(i, j) + path_len(base, p.drop_first()));
            assert(is_path(p, n, 0, i, j) && path_len(base, p) == fw(base, k, i, j));
        }
    } else {
        let q = (k - 1) as int;
        let prev = (k - 1) as nat;
        lemma_fw_bounds(base, n, prev, i, j);
        lemma_fw_bounds(base, n, prev, i, q);
        lemma_fw_bounds(base, n, prev, q, j);
        lemma_fw_achieved(base, n, prev, i, j);
        lemma_fw_achieved(base, n, prev, i, q);
        lemma_fw_achieved(base, n, prev, q, j);
        let a = fw(base, prev, i, q);
        let b = fw(base, prev, q, j);
        if a + b < fw(base, prev, i, j) {
            let p1 = choose|p: Seq<int>| #[trigger] is_path(p, n, prev as int, i, q) && path_len(base, p) == a;
            let p2 = choose|p: Seq<int>| #[trigger] is_path(p, n, prev as int, q, j) && path_len(base, p) == b;
            let p = p1 + p2.drop_first();
            lemma_path_len_concat(base, p1, p2);
            assert forall|t: int| 0 <= t < p.len() implies 0 <= #[trigger] p[t] < n by {
                if t >= p1.len() {
                    assert(p[t] == p2[t - p1.len() + 1]);
                }
            }
            assert forall|t: int| 0 < t < p.len() - 1 implies #[trigger] p[t] < k by {
                if t >= p1.len() {
                    assert(p[t] == p2[t - p1.len() + 1]);
                } else if t == p1.len() - 1 {
                } else {
                    assert(p[t] == p1[t]);
                }
            }
            if p2.len() == 1 {
                assert(p.last() == p1.last());
            } else {
                assert(p.last() == p2.last());
            }
            assert(is_path(p, n, k as int, i, j) && path_len(base, p) == fw(base, k, i, j));
        } else {
            if fw(base, prev, i, j) != INF {
                let p0 = choose|p: Seq<int>| #[trigger] is_path(p, n, prev as int, i, j) && path_len(base, p) == fw(base, prev, i, j);
                assert(is_path(p0, n, k as int, i, j) && path_len(base, p0) == fw(base, k, i, j));
            }
        }
    }
}

/// The solved distance between rows `i` and `j` is the length of a
/// shortest path between them over the direct distances (cheapest link
/// between two nodes, zero from a node to itself): no path is shorter, and
/// unless the distance is `INF` some path has exactly that length. So it is
/// `INF` exactly when every path is at least `INF` long.
pub proof fn lemma_shortest_is_path_minimum(g: OrientedGraph, i: int, j: int)
    requires
        g.wf(),
        0 <= i < g.node_ids().len(),
        0 <= j < g.node_ids().len(),
    ensures
        forall|p: Seq<int>|
            #[trigger] is_path(p, g.node_ids().len() as int, g.node_ids().len() as int, i, j) ==> shortest(g, i, j)
                <= path_len(base_of(g.node_ids(), g.link_seq()), p),
        shortest(g, i, j) == INF || exists|p: Seq<int>|
            #[trigger] is_path(p, g.node_ids().len() as int, g.node_ids().len() as int, i, j) && path_len(
                base_of(g.node_ids(), g.link_seq()),
                p,
            ) == shortest(g, i, j),
{
    let n = g.node_ids().len() as int;
    let base = base_of(g.node_ids(), g.link_seq());
    lemma_base_valid(g.node_ids(), g.link_seq());
    assert forall|p: Seq<int>| #[trigger] is_path(p, n, n, i, j) implies shortest(g, i, j) <= path_len(base, p) by {
        lemma_fw_below_paths(base, n, n as nat, p, i, j);
    }
    lemma_fw_achieved(base, n, n as nat, i, j);
}

/// Every step of `p` has a finite direct distance: it follows a link, or
/// stays on its row.
pub open spec fn linked(base: spec_fn(int, int) -> int, p: Seq<int>) -> bool {
    forall|t: int| 0 <= t < p.len() - 1 ==> #[trigger] base(p[t], p[t + 1]) < INF
}

/// All rows of `p` lie below `n`.
pub open spec fn in_rows(p: Seq<int>, n: int) -> bool {
    forall|t: int| 0 <= t < p.len() ==> 0 <= #[trigger] p[t] < n
}

pub proof fn lemma_path_len_nonneg(base: spec_fn(int, int) -> int, n: int, p: Seq<int>)
    requires
        valid_base(base, n),
        in_rows(p, n),
    ensures
        path_len(base, p) >= 0,
    decreases p.len(),
{
    if p.len() > 1 {
        assert(0 <= p[0] < n && 0 <= p[1] < n);
        let rest = p.drop_first();
        assert forall|t: int| 0 <= t < rest.len() implies 0 <= #[trigger] rest[t] < n by {
            assert(rest[t] == p[t + 1]);
        }
        lemma_path_len_nonneg(base, n, rest);
    }
}

/// A path shorter than `INF` follows links at every step.
pub proof fn lemma_short_path_linked(base: spec_fn(int, int) -> int, n: int, p: Seq<int>)
    requires
        valid_base(base, n),
        in_rows(p, n),
        path_len(base, p) < INF,
    ensures
        linked(base, p),
    decreases p.len(),
{
    if p.len() > 1 {
        assert(0 <= p[0] < n && 0 <= p[1] < n);
        let rest = p.drop_first();
        assert forall|t: int| 0 <= t < rest.len() implies 0 <= #[trigger] rest[t] < n by {
            assert(rest[t] == p[t + 1]);
        }
        lemma_path_len_nonneg(base, n, rest);
        lemma_short_path_linked(base, n, rest);
        assert forall|t: int| 0 <= t < p.len() - 1 implies #[trigger] base(p[t], p[t + 1]) < INF by {
            if t > 0 {
                assert(rest[t - 1] == p[t] && rest[t] == p[t + 1]);
                assert(base(rest[t - 1], rest[t]) < INF);
            }
        }
    }
}

/// Splitting a path at position `m` splits its length.
pub proof fn lemma_path_len_split(base: spec_fn(int, int) -> int, p: Seq<int>, m: int)
    requires
        0 <= m < p.len(),
    ensures
        path_len(base, p) == path_len(base, p.take(m + 1)) + path_len(base, p.skip(m)),
{
    let a = p.take(m + 1);
    let b = p.skip(m);
    assert(a + b.drop_first() =~= p);
    lemma_path_len_concat(base, a, b);
}

/// A linked path can be shortened to one that visits no row twice.
pub proof fn lemma_simple_path(base: spec_fn(int, int) -> int, n: int, p: Seq<int>, i: int, j: int)
    requires
        valid_base(base, n),
        is_path(p, n, n, i, j),
        linked(base, p),
    ensures
        exists|q: Seq<int>|
            #[trigger] is_path(q, n, n, i, j) && linked(base, q) && q.no_duplicates() && path_len(base, q) <= path_len(base, p),
    decreases p.len(),
{
    if p.no_duplicates() {
        assert(is_path(p, n, n, i, j) && linked(base, p) && p.no_duplicates() && path_len(base, p) <= path_len(base, p));
    } else {
        let (a, b) = choose|a: int, b: int| 0 <= a < p.len() && 0 <= b < p.len() && a != b && p[a] == p[b];
        let (a, b) = if a < b { (a, b) } else { (b, a) };
        let head = p.take(a + 1);
        let tail = p.skip(b);
        let r = head + tail.drop_first();
        assert(r =~= p.take(a + 1) + p.skip(b + 1));
        lemma_path_len_split(base, p, a);
        let mid = p.skip(a);
        lemma_path_len_split(base, mid, b - a);
        assert(mid.skip(b - a) =~= tail);
        assert forall|t: int| 0 <= t < mid.take(b - a + 1).len() implies 0 <= #[trigger] mid.take(b - a + 1)[t] < n by {
            assert(mid.take(b - a + 1)[t] == p[a + t]);
        }
        lemma_path_len_nonneg(base, n, mid.take(b - a + 1));
        lemma_path_len_concat(base, head, tail);
        assert forall|t: int| 0 <= t < r.len() implies 0 <= #[trigger] r[t] < n by {
            if t <= a {
                assert(r[t] == p[t]);
            } else {
                assert(r[t] == p[t + b - a]);
            }
        }
        assert forall|t: int| 0 < t < r.len() - 1 implies #[trigger] r[t] < n by {}
        assert forall|t: int| 0 <= t < r.len() - 1 implies #[trigger] base(r[t], r[t + 1]) < INF by {
            if t < a {
                assert(r[t] == p[t] && r[t + 1] == p[t + 1]);
            } else {
                assert(r[t] == p[t + b - a] && r[t + 1] == p[t + 1 + b - a]);
                assert(base(p[t + b - a], p[t + b - a + 1]) < INF);
            }
        }
        if b == p.len() - 1 {
            assert(r.last() == p[a]);
        } else {
            assert(r.last() == p.last());
        }
        assert(is_path(r, n, n, i, j));
        lemma_simple_path(base, n, r, i, j);
    }
}

/// A path whose steps each cost at most `m` is at most `m` per step long.
pub proof fn lemma_path_len_bound(base: spec_fn(int, int) -> int, n: int, p: Seq<int>, m: int)
    requires
        valid_base(base, n),
        in_rows(p, n),
        linked(base, p),
        p.len() >= 1,
        0 <= m,
        forall|x: int, y: int| 0 <= x < n && 0 <= y < n && #[trigger] base(x, y) < INF ==> base(x, y) <= m,
    ensures
        path_len(base, p) <= (p.len() - 1) * m,
    decreases p.len(),
{
    if p.len() > 1 {
        assert(0 <= p[0] < n && 0 <= p[1] < n);
        let z: int = 0;
        assert(base(p[z], p[z + 1]) < INF);
        assert(p[z + 1] == p[1]);
        let rest = p.drop_first();
        assert forall|t: int| 0 <= t < rest.len() implies 0 <= #[trigger] rest[t] < n by {
            assert(rest[t] == p[t + 1]);
        }
        assert forall|t: int| 0 <= t < rest.len() - 1 implies #[trigger] base(rest[t], rest[t + 1]) < INF by {
            assert(rest[t] == p[t + 1] && rest[t + 1] == p[t + 2]);
            assert(base(p[t + 1], p[t + 2]) < INF);
        }
        lemma_path_len_bound(base, n, rest, m);
        assert((p.len() - 1) * m == m + (rest.len() - 1) * m) by (nonlinear_arith)
            requires
                rest.len() == p.len() - 1,
        ;
    }
}

/// A finite cheapest direct distance is the distance of some link.
pub proof fn lemma_direct_is_link(links: Seq<Link>, a: i64, b: i64)
    requires
        direct(links, a, b) < INF,
    ensures
        exists|p: int| 0 <= p < links.len() && #[trigger] links[p].distance == direct(links, a, b) && links[p].origin_id == a
            && links[p].dest_id == b,
    decreases links.len(),
{
    let rest = links.drop_last();
    if direct(links, a, b) == direct(rest, a, b) {
        lemma_direct_is_link(rest, a, b);
        let p = choose|p: int| 0 <= p < rest.len() && #[trigger] rest[p].distance == direct(rest, a, b) && rest[p].origin_id == a
            && rest[p].dest_id == b;
        assert(links[p] == rest[p]);
    } else {
        assert(links[links.len() - 1].distance == direct(links, a, b));
    }
}

/// When no link is longer than `m` and `n` links of length `m` stay below
/// `INF` (`n` being the node count), the solved distance between rows `i`
/// and `j` is finite exactly when some path of links leads from `i` to `j`:
/// the sentinel goes to unreachable pairs and only to them.
pub proof fn lemma_unreachable_iff_no_path(g: OrientedGraph, i: int, j: int, m: int)
    requires
        g.wf(),
        0 <= i < g.node_ids().len(),
        0 <= j < g.node_ids().len(),
        0 <= m,
        m * g.node_ids().len() < INF,
        forall|p: int| 0 <= p < g.link_seq().len() ==> #[trigger] g.link_seq()[p].distance <= m,
    ensures
        shortest(g, i, j) < INF <==> exists|p: Seq<int>|
            #[trigger] is_path(p, g.node_ids().len() as int, g.node_ids().len() as int, i, j) && linked(
                base_of(g.node_ids(), g.link_seq()),
                p,
            ),
{
    let n = g.node_ids().len() as int;
    let base = base_of(g.node_ids(), g.link_seq());
    lemma_base_valid(g.node_ids(), g.link_seq());
    lemma_shortest_is_path_minimum(g, i, j);
    if shortest(g, i, j) < INF {
        let p = choose|p: Seq<int>| #[trigger] is_path(p, n, n, i, j) && path_len(base, p) == shortest(g, i, j);
        assert(in_rows(p, n));
        lemma_short_path_linked(base, n, p);
        assert(is_path(p, n, n, i, j) && linked(base, p));
    }
    if exists|p: Seq<int>| #[trigger] is_path(p, n, n, i, j) && linked(base, p) {
        let p = choose|p: Seq<int>| #[trigger] is_path(p, n, n, i, j) && linked(base, p);
        lemma_simple_path(base, n, p, i, j);
        let q = choose|q: Seq<int>|
            #[trigger] is_path(q, n, n, i, j) && linked(base, q) && q.no_duplicates() && path_len(base, q) <= path_len(base, p);
        assert forall|x: int, y: int| 0 <= x < n && 0 <= y < n && #[trigger] base(x, y) < INF implies base(x, y) <= m by {
            if x != y {
                lemma_direct_is_link(g.link_seq(), g.node_ids()[x], g.node_ids()[y]);
            }
        }
        assert(in_rows(q, n));
        lemma_path_len_bound(base, n, q, m);
        q.unique_seq_to_set();
        lemma_int_range(0, n);
        assert(q.to_set().subset_of(set_int_range(0, n)));
        lemma_len_subset(q.to_set(), set_int_range(0, n));
        assert((q.len() - 1) * m <= m * n) by (nonlinear_arith)
            requires
                q.len() <= n,
                0 <= m,
        ;
    }
}

/// The distance from a node to itself is zero.
pub proof fn lemma_zero_diagonal(g: OrientedGraph, i: int)
    requires
        g.wf(),
        0 <= i < g.node_ids().len(),
    ensures
        shortest(g, i, i) == 0,
{
    let n = g.node_ids().len() as int;
    lemma_base_valid(g.node_ids(), g.link_seq());
    lemma_fw_bounds(base_of(g.node_ids(), g.link_seq()), n, n as nat, i, i);
}

/// Solved distances obey the triangle inequality: going from `i` to `j`
/// by way of `m` is never shorter than the distance from `i` to `j`.
pub proof fn lemma_triangle_inequality(g: OrientedGraph, i: int, j: int, m: int)
    requires
        g.wf(),
        0 <= i < g.node_ids().len(),
        0 <= j < g.node_ids().len(),
        0 <= m < g.node_ids().len(),
    ensures
        shortest(g, i, j) <= shortest(g, i, m) + shortest(g, m, j),
{
    let n = g.node_ids().len() as int;
    lemma_base_valid(g.node_ids(), g.link_seq());
    lemma_fw_triangle(base_of(g.node_ids(), g.link_seq()), n, n as nat, i, j, m);
}

/// Any two results that solve the same graph are identical: the same
/// rows for the same ids and the same matrix, entry for entry. Both the
/// sequential and the parallel solver return such a result.
pub proof fn lemma_solvers_agree(g: OrientedGraph, a: MatrixResult, b: MatrixResult)
    requires
        solves(g, a),
        solves(g, b),
    ensures
        a.size == b.size,
        a.id_map@ == b.id_map@,
        a.dists@ == b.dists@,
{
    let n = a.size as int;
    let ids = g.node_ids();
    assert forall|t: int| 0 <= t < a.dists@.len() implies a.dists@[t] == b.dists@[t] by {
        lemma_fundamental_div_mod(t, n);
        lemma_mod_pos_bound(t, n);
        lemma_div_pos_is_pos(t, n);
        let i = t / n;
        let j = t % n;
        assert(i < n) by (nonlinear_arith)
            requires
                t == n * i + j,
                0 <= j,
                0 <= i,
                0 < n,
                t < n * n,
        ;
        assert(t == i * n + j) by (nonlinear_arith)
            requires
                t == n * i + j,
        ;
        assert(at(a.dists@, n, i, j) == shortest(g, i, j));
        assert(at(b.dists@, n, i, j) == shortest(g, i, j));
    }
    assert(a.dists@ =~= b.dists@);
    assert forall|id: i64| #[trigger] a.id_map@.contains_key(id) implies b.id_map@.contains_key(id) && a.id_map@[id] == b.id_map@[id] by {
        let t = choose|t: int| 0 <= t < ids.len() && ids[t] == id;
        assert(a.id_map@.contains_key(ids[t]));
        assert(b.id_map@.contains_key(ids[t]));
    }
    assert forall|id: i64| #[trigger] b.id_map@.contains_key(id) implies a.id_map@.contains_key(id) by {
        let t = choose|t: int| 0 <= t < ids.len() && ids[t] == id;
        assert(a.id_map@.contains_key(ids[t]));
    }
    assert(a.id_map@ =~= b.id_map@);
}

} // verus!
