use vstd::prelude::*;

use crate::graph::CityGraph;
use crate::graph::components;
use crate::graph::components_upto;
use crate::graph::connected;
use crate::graph::connects;
use crate::graph::is_component_min;
use crate::graph::lemma_connected_step;
use crate::graph::lemma_connected_into;
use crate::graph::lemma_connected_sym;
use crate::graph::lemma_connected_trans;
use crate::graph::lemma_count_upper_eq;
use crate::graph::lemma_count_upper_plus;
use crate::graph::lemma_count_upper_zero;
use crate::graph::undirected_edge_count;
use crate::graph::valid_path;

verus! {

/// Parent forest well-formedness: every parent pointer is at most its node,
/// so every parent chain strictly decreases until it reaches a root
/// (a node that is its own parent).
pub open spec fn wf_forest(p: Seq<usize>) -> bool {
    forall|i: int| 0 <= i < p.len() ==> #[trigger] p[i] <= i
}

/// Representative of `i` in the parent forest `p`: follow parent pointers
/// while they strictly decrease.
pub open spec fn root_of(p: Seq<usize>, i: int) -> int
    decreases i,
{
    if 0 <= i < p.len() && p[i] < i {
        root_of(p, p[i] as int)
    } else {
        i
    }
}

/// Number of roots (`p[k] == k`) among the first `k` entries of `p`.
pub open spec fn count_roots_upto(p: Seq<usize>, k: int) -> int
    decreases k,
{
    if k <= 0 {
        0
    } else {
        count_roots_upto(p, k - 1) + (if p[k - 1] == k - 1 { 1int } else { 0int })
    }
}

/// The representative of an in-range node is in range, no larger than the
/// node, and is itself a root.
proof fn lemma_root_props(p: Seq<usize>, i: int)
    requires
        wf_forest(p),
        0 <= i < p.len(),
    ensures
        0 <= root_of(p, i) <= i,
        p[root_of(p, i)] == root_of(p, i),
    decreases i,
{
    if p[i] < i {
        lemma_root_props(p, p[i] as int);
    }
}

/// Pointing a node straight at its own representative changes no node's
/// representative.
proof fn lemma_compress_preserves_roots(p: Seq<usize>, y: int, i: int)
    requires
        wf_forest(p),
        0 <= y < p.len(),
        0 <= i < p.len(),
    ensures
        root_of(p.update(y, root_of(p, y) as usize), i) == root_of(p, i),
    decreases i,
{
    lemma_root_props(p, y);
    let r = root_of(p, y);
    let q = p.update(y, r as usize);
    if i == y {
        if r == y {
            assert(q[y] == y);
        } else {
            assert(q[r] == p[r]);
            assert(root_of(q, r) == r);
        }
    } else {
        if p[i] < i {
            lemma_compress_preserves_roots(p, y, p[i] as int);
        }
    }
}

/// Attaching the root `rmax` under the distinct root `rmin` redirects exactly
/// the nodes whose representative was `rmax`; every other node keeps its
/// representative.
proof fn lemma_attach_root(p: Seq<usize>, rmin: int, rmax: int, i: int)
    requires
        wf_forest(p),
        0 <= rmin < rmax < p.len(),
        p[rmin] == rmin,
        p[rmax] == rmax,
        0 <= i < p.len(),
    ensures
        root_of(p.update(rmax, rmin as usize), i) == (if root_of(p, i) == rmax {
            rmin
        } else {
            root_of(p, i)
        }),
    decreases i,
{
    let q = p.update(rmax, rmin as usize);
    if i == rmax {
        assert(q[rmin] == rmin);
        assert(root_of(q, rmin) == rmin);
    } else {
        if p[i] < i {
            lemma_attach_root(p, rmin, rmax, p[i] as int);
        }
    }
}

/// How an update of one entry shifts the number of roots.
proof fn lemma_count_roots_update(p: Seq<usize>, j: int, v: usize, k: int)
    requires
        0 <= j < p.len(),
        k <= p.len(),
    ensures
        count_roots_upto(p.update(j, v), k) == count_roots_upto(p, k) + (if j < k {
            (if v == j { 1int } else { 0int }) - (if p[j] == j { 1int } else { 0int })
        } else {
            0int
        }),
    decreases k,
{
    if k > 0 {
        lemma_count_roots_update(p, j, v, k - 1);
    }
}

/// Disjoint-set forest over the location indices `0 .. n`, used by Kruskal's
/// reduction to decide which edges join two components.
///
/// A union attaches the larger root under the smaller one, and `find`
/// compresses the chain it walked, so `parent[i] <= i` always holds. (Which
/// root goes under which is a free choice; keeping the smaller index as the
/// representative makes the representative of every set its least element.)
pub struct UnionFind {
    parent: Vec<usize>,
}

impl UnionFind {
    pub closed spec fn wf(self) -> bool {
        wf_forest(self.parent@)
    }

    /// Number of registered elements.
    pub closed spec fn len(self) -> nat {
        self.parent@.len()
    }

    /// Representative of element `i`.
    pub closed spec fn repr(self, i: int) -> int {
        root_of(self.parent@, i)
    }

    /// Two elements are in the same set when they share a representative
    /// (the value `find` returns).
    pub open spec fn same_set(self, a: int, b: int) -> bool {
        self.repr(a) == self.repr(b)
    }

    /// Number of disjoint sets.
    pub closed spec fn num_sets(self) -> int {
        count_roots_upto(self.parent@, self.len() as int)
    }

    /// Registers the elements `0 .. n`, each as its own singleton set.
    pub fn new(n: usize) -> (uf: UnionFind)
        ensures
            uf.wf(),
            uf.len() == n,
            forall|i: int| 0 <= i < n ==> uf.repr(i) == i,
            uf.num_sets() == n,
    {
        let mut parent: Vec<usize> = Vec::new();
        let mut k: usize = 0;
        while k < n
            invariant
                k <= n,
                parent@.len() == k,
                forall|i: int| 0 <= i < k ==> #[trigger] parent@[i] == i,
            decreases n - k,
        {
            parent.push(k);
            k = k + 1;
        }
        let uf = UnionFind { parent };
        proof {
            assert forall|i: int| 0 <= i < n implies uf.repr(i) == i by {
                assert(uf.parent@[i] == i);
            }
            lemma_count_all_roots(uf.parent@, n as int);
        }
        uf
    }

    /// Returns the representative of `x`'s set and compresses the chain that
    /// was walked: every visited node's parent afterwards points straight at
    /// the root. No set changes.
    pub fn find(&mut self, x: usize) -> (r: usize)
        requires
            old(self).wf(),
            x < old(self).len(),
        ensures
            final(self).wf(),
            final(self).len() == old(self).len(),
            r == old(self).repr(x as int),
            r <= x,
            final(self).repr(r as int) == r as int,
            forall|i: int|
                0 <= i < old(self).len() ==> final(self).repr(i) == old(self).repr(i),
            final(self).num_sets() == old(self).num_sets(),
    {
        let ghost p0 = self.parent@;
        proof {
            lemma_root_props(p0, x as int);
        }
        let mut r: usize = x;
        let mut pr: usize = self.parent[r];
        while pr != r
            invariant
                self.parent@ == p0,
                wf_forest(p0),
                r < p0.len(),
                pr == p0[r as int],
                root_of(p0, r as int) == root_of(p0, x as int),
            decreases r,
        {
            proof {
                lemma_root_props(p0, r as int);
            }
            r = pr;
            pr = self.parent[r];
        }
        proof {
            assert(root_of(p0, r as int) == r);
        }
        let mut y: usize = x;
        while y != r
            invariant
                self.wf(),
                self.parent@.len() == p0.len(),
                y < self.parent@.len(),
                r < self.parent@.len(),
                root_of(self.parent@, y as int) == r,
                self.parent@[r as int] == r,
                forall|i: int| 0 <= i < p0.len() ==> root_of(self.parent@, i) == root_of(p0, i),
                count_roots_upto(self.parent@, p0.len() as int) == count_roots_upto(
                    p0,
                    p0.len() as int,
                ),
            decreases y,
        {
            let ghost pcur = self.parent@;
            let next = self.parent[y];
            proof {
                assert(pcur[y as int] < y);
                lemma_root_props(pcur, y as int);
                assert(root_of(pcur, y as int) == root_of(pcur, next as int));
            }
            self.parent[y] = r;
            proof {
                assert(self.parent@ == pcur.update(y as int, r));
                assert forall|i: int| 0 <= i < pcur.len() implies root_of(self.parent@, i)
                    == root_of(pcur, i) by {
                    lemma_compress_preserves_roots(pcur, y as int, i);
                }
                lemma_count_roots_update(pcur, y as int, r, pcur.len() as int);
            }
            y = next;
        }
        r
    }

    /// Joins the sets of `a` and `b`. Returns `true` and merges them when
    /// they were in different sets; returns `false` and keeps every set as it
    /// was when they were already together. Either way `a` and `b` share a
    /// set afterwards, and a repeated `union` of the same pair returns
    /// `false`.
    pub fn union(&mut self, a: usize, b: usize) -> (merged: bool)
        requires
            old(self).wf(),
            a < old(self).len(),
            b < old(self).len(),
        ensures
            final(self).wf(),
            final(self).len() == old(self).len(),
            merged == !old(self).same_set(a as int, b as int),
            final(self).same_set(a as int, b as int),
            final(self).repr(a as int) == final(self).repr(b as int),
            !merged ==> forall|i: int|
                0 <= i < old(self).len() ==> final(self).repr(i) == old(self).repr(i),
            !merged ==> final(self).num_sets() == old(self).num_sets(),
            merged ==> forall|i: int|
                0 <= i < old(self).len() ==> final(self).repr(i) == (if old(self).repr(i) == old(
                    self,
                ).repr(a as int) || old(self).repr(i) == old(self).repr(b as int) {
                    min_int(old(self).repr(a as int), old(self).repr(b as int))
                } else {
                    old(self).repr(i)
                }),
            merged ==> final(self).num_sets() == old(self).num_sets() - 1,
    {
        let root_a = self.find(a);
        let root_b = self.find(b);
        if root_a == root_b {
            false
        } else {
            let ghost pmid = self.parent@;
            proof {
                lemma_root_props(pmid, a as int);
                lemma_root_props(pmid, b as int);
                assert(root_of(pmid, root_a as int) == root_a);
                assert(root_of(pmid, root_b as int) == root_b);
            }
            let (rmin, rmax) = if root_a < root_b {
                (root_a, root_b)
            } else {
                (root_b, root_a)
            };
            self.parent[rmax] = rmin;
            proof {
                assert(self.parent@ == pmid.update(rmax as int, rmin));
                assert(pmid[rmin as int] == rmin);
                assert(pmid[rmax as int] == rmax);
                assert forall|i: int| 0 <= i < pmid.len() implies root_of(self.parent@, i) == (
                if root_of(pmid, i) == rmax {
                    rmin as int
                } else {
                    root_of(pmid, i)
                }) by {
                    lemma_attach_root(pmid, rmin as int, rmax as int, i);
                }
                lemma_count_roots_update(pmid, rmax as int, rmin, pmid.len() as int);
            }
            true
        }
    }
}

/// Swapping two positions of a sequence keeps its multiset of elements.
pub proof fn lemma_swap_multiset<A>(s: Seq<A>, i: int, j: int)
    requires
        0 <= i < s.len(),
        0 <= j < s.len(),
    ensures
        s.update(i, s[j]).update(j, s[i]).to_multiset() == s.to_multiset(),
{
    broadcast use vstd::seq_lib::group_to_multiset_ensures;

    let s1 = s.update(i, s[j]);
    assert(s1.to_multiset() == s.to_multiset().insert(s[j]).remove(s[i]));
    if i == j {
        assert(s1.update(j, s[i]).to_multiset() =~= s.to_multiset());
    } else {
        assert(s1[j] == s[j]);
        assert(s1.update(j, s[i]).to_multiset() == s1.to_multiset().insert(s[i]).remove(s1[j]));
        assert(s1.update(j, s[i]).to_multiset() =~= s.to_multiset());
    }
}

/// Smaller of two mathematical integers.
pub open spec fn min_int(a: int, b: int) -> int {
    if a <= b {
        a
    } else {
        b
    }
}

/// How one call of `union` changes the structure, as far as the idempotence
/// law needs it: sizes are kept, `merged` reports whether the two sets were
/// distinct, and the two elements share a set afterwards.
pub open spec fn union_transition(
    pre: UnionFind,
    post: UnionFind,
    a: usize,
    b: usize,
    merged: bool,
) -> bool {
    &&& post.wf()
    &&& post.len() == pre.len()
    &&& merged == !pre.same_set(a as int, b as int)
    &&& post.same_set(a as int, b as int)
}

/// After a `union` of `a` and `b` reports a merge, the two elements share a
/// representative (`find` returns the same root for both), and a repeated
/// `union` of the same pair reports no merge.
pub proof fn lemma_union_idempotent(
    u0: UnionFind,
    u1: UnionFind,
    u2: UnionFind,
    a: usize,
    b: usize,
    merged1: bool,
    merged2: bool,
)
    requires
        union_transition(u0, u1, a, b, merged1),
        merged1,
        union_transition(u1, u2, a, b, merged2),
    ensures
        u1.repr(a as int) == u1.repr(b as int),
        !merged2,
{
}

/// The sorted edge list: weights never decrease along it.
pub open spec fn sorted_by_weight(s: Seq<(u32, usize, usize)>) -> bool {
    forall|x: int, y: int| #![trigger s[x], s[y]] 0 <= x < y < s.len() ==> s[x].0 <= s[y].0
}

/// The entries of `s` carrying weight `w`, in their order in `s`. A stable
/// sort keeps every weight class unchanged.
pub open spec fn weight_class(s: Seq<(u32, usize, usize)>, w: u32) -> Seq<(u32, usize, usize)> {
    s.filter(|e: (u32, usize, usize)| e.0 == w)
}

/// Swapping two adjacent entries of different weights changes no weight
/// class.
proof fn lemma_adjacent_swap_weight_class(s: Seq<(u32, usize, usize)>, j: int)
    requires
        0 < j < s.len(),
        s[j - 1].0 != s[j].0,
    ensures
        forall|w: u32| #[trigger] weight_class(s.update(j - 1, s[j]).update(j, s[j - 1]), w)
            == weight_class(s, w),
{
    let s2 = s.update(j - 1, s[j]).update(j, s[j - 1]);
    let pre = s.subrange(0, j - 1);
    let mid = seq![s[j - 1], s[j]];
    let mid2 = seq![s[j], s[j - 1]];
    let post = s.subrange(j + 1, s.len() as int);
    assert(s =~= pre + mid + post);
    assert(s2 =~= pre + mid2 + post);
    assert forall|w: u32| #[trigger] weight_class(s2, w) == weight_class(s, w) by {
        let pred = |e: (u32, usize, usize)| e.0 == w;
        reveal_with_fuel(Seq::<_>::filter, 4);
        Seq::<(u32, usize, usize)>::filter_distributes_over_add(pre + mid, post, pred);
        Seq::<(u32, usize, usize)>::filter_distributes_over_add(pre, mid, pred);
        Seq::<(u32, usize, usize)>::filter_distributes_over_add(pre + mid2, post, pred);
        Seq::<(u32, usize, usize)>::filter_distributes_over_add(pre, mid2, pred);
        assert(mid.drop_last() =~= seq![s[j - 1]]);
        assert(mid2.drop_last() =~= seq![s[j]]);
        assert(seq![s[j - 1]].drop_last() =~= Seq::<(u32, usize, usize)>::empty());
        assert(seq![s[j]].drop_last() =~= Seq::<(u32, usize, usize)>::empty());
        assert(mid.filter(pred) == mid2.filter(pred));
    }
}

/// Sorts the collected edges by ascending weight (insertion sort, which is
/// stable: edges of equal weight keep their collection order, fixing the
/// otherwise arbitrary tie-break).
fn sort_edges(edges: &mut Vec<(u32, usize, usize)>)
    ensures
        final(edges)@.len() == old(edges)@.len(),
        final(edges)@.to_multiset() == old(edges)@.to_multiset(),
        sorted_by_weight(final(edges)@),
        forall|w: u32| #[trigger] weight_class(final(edges)@, w) == weight_class(old(edges)@, w),
{
    let ghost s0 = edges@;
    if edges.len() <= 1 {
        return;
    }
    let mut i: usize = 1;
    while i < edges.len()
        invariant
            1 <= i <= edges@.len(),
            edges@.len() == s0.len(),
            s0 == old(edges)@,
            edges@.to_multiset() == s0.to_multiset(),
            forall|w: u32| #[trigger] weight_class(edges@, w) == weight_class(s0, w),
            forall|x: int, y: int| #![trigger edges@[x], edges@[y]] 0 <= x < y < i ==> edges@[x].0
                <= edges@[y].0,
        decreases edges@.len() - i,
    {
        let mut j: usize = i;
        while j > 0 && edges[j - 1].0 > edges[j].0
            invariant
                j <= i < edges@.len(),
                edges@.len() == s0.len(),
                edges@.to_multiset() == s0.to_multiset(),
                forall|w: u32| #[trigger] weight_class(edges@, w) == weight_class(s0, w),
                forall|x: int, y: int| #![trigger edges@[x], edges@[y]]
                    0 <= x < y <= i && y != j ==> edges@[x].0 <= edges@[y].0,
                forall|x: int| j < x <= i ==> edges@[j as int].0 <= (#[trigger] edges@[x]).0,
            decreases j,
        {
            let ghost spre = edges@;
            let tmp = edges[j - 1];
            let vj = edges[j];
            edges[j - 1] = vj;
            edges[j] = tmp;
            proof {
                assert(edges@ == spre.update(j - 1, spre[j as int]).update(j as int, spre[j - 1]));
                lemma_swap_multiset(spre, j - 1, j as int);
                lemma_adjacent_swap_weight_class(spre, j as int);
            }
            j = j - 1;
        }
        i = i + 1;
    }
}

/// Every collected entry is a canonically ordered pair carrying the graph's
/// weight for that pair.
pub open spec fn edge_entries_sound(g: CityGraph, s: Seq<(u32, usize, usize)>) -> bool {
    forall|k: int| 0 <= k < s.len() ==> {
        let e = #[trigger] s[k];
        &&& e.1 < e.2
        &&& e.2 < g.n()
        &&& g.edge(e.1 as int, e.2 as int) == Some(e.0)
    }
}

/// The list holds an entry for the ordered pair `(x, y)`.
pub open spec fn entry_present(s: Seq<(u32, usize, usize)>, x: int, y: int) -> bool {
    exists|k: int| 0 <= k < s.len() && (#[trigger] s[k]).1 == x && s[k].2 == y
}

proof fn lemma_entry_present_push(s: Seq<(u32, usize, usize)>, e: (u32, usize, usize), x: int, y: int)
    requires
        entry_present(s, x, y),
    ensures
        entry_present(s.push(e), x, y),
{
    let k = choose|k: int| 0 <= k < s.len() && (#[trigger] s[k]).1 == x && s[k].2 == y;
    assert(s.push(e)[k] == s[k]);
}

/// Walking a path whose every adjacency entry joins elements of one set
/// keeps the walker inside that set.
proof fn lemma_path_same_set(g: CityGraph, uf: UnionFind, p: Seq<usize>)
    requires
        uf.len() == g.n(),
        valid_path(g, p),
        forall|x: int, y: int|
            0 <= x < g.n() && 0 <= y < g.n() && #[trigger] g.edge(x, y) is Some ==> uf.same_set(
                x,
                y,
            ),
    ensures
        uf.same_set(p[0] as int, p[p.len() - 1] as int),
    decreases p.len(),
{
    if p.len() > 1 {
        let q = p.drop_first();
        assert(valid_path(g, q)) by {
            assert forall|k: int| 0 <= k < q.len() - 1 implies (#[trigger] g.edge(
                q[k] as int,
                q[k + 1] as int,
            )) is Some by {
                assert(g.edge(p[k + 1] as int, p[k + 2] as int) is Some);
            }
        }
        lemma_path_same_set(g, uf, q);
        assert(g.edge(p[0] as int, p[1] as int) is Some);
    }
}

/// Roots of the final forest and least members of the graph's components
/// coincide position by position, so their counts agree.
proof fn lemma_counts_eq(p: Seq<usize>, g: CityGraph, k: int)
    requires
        forall|i: int| 0 <= i < k ==> ((#[trigger] p[i] == i) <==> is_component_min(g, i)),
    ensures
        count_roots_upto(p, k) == components_upto(g, k),
    decreases k,
{
    if k > 0 {
        lemma_counts_eq(p, g, k - 1);
        assert((p[k - 1] == k - 1) <==> is_component_min(g, k - 1));
    }
}

/// Reduces a symmetric graph to a minimum spanning forest with Kruskal's
/// algorithm: collect each undirected edge once, sort by ascending weight,
/// and keep exactly the edges whose endpoints union-find reports as not yet
/// connected. The result keeps every location and carries
/// `|locations| - components` edges, each an edge of the input with its
/// weight.
pub fn build_mst(graph: &CityGraph) -> (mst: CityGraph)
    requires
        graph.wf(),
        graph.symmetric(),
    ensures
        mst.wf(),
        mst.symmetric(),
        mst.cities@ == graph.cities@,
        mst.n() == graph.n(),
        forall|i: int, j: int|
            0 <= i < mst.n() && 0 <= j < mst.n() && #[trigger] mst.edge(i, j) is Some
                ==> mst.edge(i, j) == graph.edge(i, j),
        forall|i: int, j: int|
            0 <= i < mst.n() && 0 <= j < mst.n() ==> ((#[trigger] connected(mst, i, j))
                <==> connected(*graph, i, j)),
        undirected_edge_count(mst) == graph.n() - components(*graph),
{
    let ghost g0 = *graph;
    let n = graph.cities.len();
    let mut edges: Vec<(u32, usize, usize)> = Vec::new();
    let mut i: usize = 0;
    while i < n
        invariant
            i <= n,
            n == g0.n(),
            g0.wf(),
            g0.symmetric(),
            *graph == g0,
            edge_entries_sound(g0, edges@),
            forall|x: int, y: int|
                0 <= x < y < g0.n() && x < i && #[trigger] g0.edge(x, y) is Some ==> entry_present(
                    edges@,
                    x,
                    y,
                ),
        decreases n - i,
    {
        let mut j: usize = i + 1;
        while j < n
            invariant
                i < j <= n || (j == i + 1),
                i < n,
                n == g0.n(),
                g0.wf(),
                g0.symmetric(),
                *graph == g0,
                edge_entries_sound(g0, edges@),
                forall|x: int, y: int|
                    0 <= x < y < g0.n() && x < i && #[trigger] g0.edge(x, y) is Some
                        ==> entry_present(edges@, x, y),
                forall|y: int|
                    i < y < j && #[trigger] g0.edge(i as int, y) is Some ==> entry_present(
                        edges@,
                        i as int,
                        y,
                    ),
            decreases n - j,
        {
            let ghost epre = edges@;
            match graph.adjacency[i][j] {
                Some(w) => {
                    edges.push((w, i, j));
                },
                None => {
                    match graph.adjacency[j][i] {
                        Some(w) => {
                            edges.push((w, i, j));
                        },
                        None => {},
                    }
                },
            }
            proof {
                assert(g0.edge(i as int, j as int) == g0.edge(j as int, i as int));
                if edges@.len() > epre.len() {
                    assert(edges@ == epre.push(edges@[epre.len() as int]));
                }
                assert forall|x: int, y: int|
                    0 <= x < y < g0.n() && x < i && #[trigger] g0.edge(x, y) is Some
                        implies entry_present(edges@, x, y) by {
                    if edges@.len() > epre.len() {
                        lemma_entry_present_push(epre, edges@[epre.len() as int], x, y);
                    }
                }
                assert forall|y: int|
                    i < y < j + 1 && #[trigger] g0.edge(i as int, y) is Some implies entry_present(
                    edges@,
                    i as int,
                    y,
                ) by {
                    if y < j {
                        if edges@.len() > epre.len() {
                            lemma_entry_present_push(epre, edges@[epre.len() as int], i as int, y);
                        }
                    } else {
                        assert(edges@[edges@.len() - 1].1 == i);
                    }
                }
            }
            j = j + 1;
        }
        i = i + 1;
    }
    let ghost collected = edges@;
    sort_edges(&mut edges);
    proof {
        broadcast use vstd::seq_lib::group_to_multiset_ensures;

        assert forall|k: int| 0 <= k < edges@.len() implies {
            let e = #[trigger] edges@[k];
            &&& e.1 < e.2
            &&& e.2 < g0.n()
            &&& g0.edge(e.1 as int, e.2 as int) == Some(e.0)
        } by {
            assert(edges@.contains(edges@[k]));
            assert(collected.to_multiset().count(edges@[k]) > 0);
            assert(collected.contains(edges@[k]));
            let k0 = choose|k0: int| 0 <= k0 < collected.len() && collected[k0] == edges@[k];
            assert(collected[k0] == edges@[k]);
        }
        assert forall|x: int, y: int|
            0 <= x < y < g0.n() && #[trigger] g0.edge(x, y) is Some implies entry_present(
            edges@,
            x,
            y,
        ) by {
            assert(entry_present(collected, x, y));
            let k0 = choose|k0: int|
                0 <= k0 < collected.len() && (#[trigger] collected[k0]).1 == x && collected[k0].2
                    == y;
            assert(collected.contains(collected[k0]));
            assert(edges@.to_multiset().count(collected[k0]) > 0);
            assert(edges@.contains(collected[k0]));
            let k = choose|k: int| 0 <= k < edges@.len() && edges@[k] == collected[k0];
            assert(edges@[k].1 == x && edges@[k].2 == y);
        }
    }
    let mut uf = UnionFind::new(n);
    let mut mst = CityGraph::new();
    let mut c: usize = 0;
    while c < n
        invariant
            c <= n,
            n == g0.n(),
            g0.wf(),
            *graph == g0,
            mst.wf(),
            mst.n() == c,
            mst.adjacency@.len() == c,
            mst.cities@ == g0.cities@.subrange(0, c as int),
            forall|x: int, y: int| 0 <= x < c && 0 <= y < c ==> (#[trigger] mst.edge(x, y)) is None,
        decreases n - c,
    {
        let city = graph.cities[c].clone();
        proof {
            assert forall|w: int| 0 <= w < mst.n() implies mst.cities@[w].name@ != city.name@ by {
                assert(mst.cities@[w] == g0.cities@[w]);
                assert(g0.cities@[w].name@ != g0.cities@[c as int].name@);
            }
            if exists|w: int| 0 <= w < mst.n() && mst.cities@[w].name@ == city.name@ {
                let w = choose|w: int| 0 <= w < mst.n() && mst.cities@[w].name@ == city.name@;
                assert(false);
            }
        }
        mst.add_city(city);
        proof {
            assert(mst.cities@ =~= g0.cities@.subrange(0, c + 1));
        }
        c = c + 1;
    }
    proof {
        assert(mst.cities@ =~= g0.cities@);
        lemma_count_upper_zero(mst, n as int);
    }
    proof {
        assert forall|x: int, y: int|
            0 <= x < n && 0 <= y < n && #[trigger] uf.same_set(x, y) implies connected(
            g0,
            x,
            y,
        ) by {
            assert(uf.repr(x) == x);
            assert(uf.repr(y) == y);
            crate::graph::lemma_connected_refl(g0, x as usize);
        }
        assert forall|x: int, y: int|
            0 <= x < n && 0 <= y < n && #[trigger] uf.same_set(x, y) implies connected(
            mst,
            x,
            y,
        ) by {
            assert(uf.repr(x) == x);
            assert(uf.repr(y) == y);
            crate::graph::lemma_connected_refl(mst, x as usize);
        }
    }
    let mut t: usize = 0;
    while t < edges.len()
        invariant
            t <= edges@.len(),
            n == g0.n(),
            g0.wf(),
            g0.symmetric(),
            uf.wf(),
            uf.len() == n,
            edge_entries_sound(g0, edges@),
            mst.wf(),
            mst.symmetric(),
            mst.cities@ == g0.cities@,
            mst.n() == n,
            forall|x: int, y: int|
                0 <= x < n && 0 <= y < n && #[trigger] mst.edge(x, y) is Some ==> mst.edge(x, y)
                    == g0.edge(x, y),
            forall|x: int, y: int|
                0 <= x < n && 0 <= y < n && #[trigger] mst.edge(x, y) is Some ==> uf.same_set(x, y),
            forall|x: int, y: int|
                0 <= x < n && 0 <= y < n && #[trigger] uf.same_set(x, y) ==> connected(g0, x, y),
            forall|x: int, y: int|
                0 <= x < n && 0 <= y < n && #[trigger] uf.same_set(x, y) ==> connected(mst, x, y),
            forall|k: int|
                0 <= k < t ==> uf.same_set(
                    (#[trigger] edges@[k]).1 as int,
                    edges@[k].2 as int,
                ),
            undirected_edge_count(mst) == n - uf.num_sets(),
        decreases edges@.len() - t,
    {
        let e = edges[t];
        proof {
            assert(edges@[t as int] == e);
        }
        let ghost ufpre = uf;
        let merged = uf.union(e.1, e.2);
        if merged {
            let ghost mpre = mst;
            mst.add_edge(e.1, e.2, e.0);
            let ghost mmid = mst;
            mst.add_edge(e.2, e.1, e.0);
            proof {
                let a = e.1 as int;
                let b = e.2 as int;
                // the pair was absent, else its endpoints already shared a set
                assert(g0.edge(a, b) == Some(e.0));
                assert(mpre.edge(a, b) is None);
                lemma_count_upper_plus(mpre, mmid, a, b, n as int);
                assert forall|x: int, y: int| 0 <= x < y < mmid.n() implies #[trigger] mst.edge(
                    x,
                    y,
                ) == mmid.edge(x, y) by {}
                lemma_count_upper_eq(mmid, mst, n as int);
                lemma_connected_step(g0, e.1, e.2);
                assert forall|x: int, y: int|
                    0 <= x < n && 0 <= y < n && #[trigger] uf.same_set(x, y) implies connected(
                    g0,
                    x,
                    y,
                ) by {
                    let ra = ufpre.repr(a);
                    let rb = ufpre.repr(b);
                    if ufpre.same_set(x, y) {
                        assert(connected(g0, x, y));
                    } else {
                        assert(ufpre.repr(x) == ra || ufpre.repr(x) == rb);
                        assert(ufpre.repr(y) == ra || ufpre.repr(y) == rb);
                        assert(connected(g0, x, a)) by {
                            if ufpre.repr(x) == ra {
                                assert(ufpre.same_set(x, a));
                            } else {
                                assert(ufpre.same_set(x, b));
                                lemma_connected_sym(g0, a, b);
                                lemma_connected_trans(g0, x, b, a);
                            }
                        }
                        assert(connected(g0, y, a)) by {
                            if ufpre.repr(y) == ra {
                                assert(ufpre.same_set(y, a));
                            } else {
                                assert(ufpre.same_set(y, b));
                                lemma_connected_sym(g0, a, b);
                                lemma_connected_trans(g0, y, b, a);
                            }
                        }
                        lemma_connected_sym(g0, y, a);
                        lemma_connected_trans(g0, x, a, y);
                    }
                }
                assert forall|x2: int, y2: int|
                    0 <= x2 < n && 0 <= y2 < n && #[trigger] mpre.edge(x2, y2) is Some
                    implies mst.edge(x2, y2) is Some by {}
                assert(mst.edge(a, b) is Some);
                lemma_connected_step(mst, e.1, e.2);
                assert forall|x: int, y: int|
                    0 <= x < n && 0 <= y < n && #[trigger] uf.same_set(x, y) implies connected(
                    mst,
                    x,
                    y,
                ) by {
                    let ra = ufpre.repr(a);
                    let rb = ufpre.repr(b);
                    if ufpre.same_set(x, y) {
                        assert(connected(mpre, x, y));
                        lemma_connected_into(mpre, mst, x, y);
                    } else {
                        assert(ufpre.repr(x) == ra || ufpre.repr(x) == rb);
                        assert(ufpre.repr(y) == ra || ufpre.repr(y) == rb);
                        assert(connected(mst, x, a)) by {
                            if ufpre.repr(x) == ra {
                                assert(ufpre.same_set(x, a));
                                assert(connected(mpre, x, a));
                                lemma_connected_into(mpre, mst, x, a);
                            } else {
                                assert(ufpre.same_set(x, b));
                                assert(connected(mpre, x, b));
                                lemma_connected_into(mpre, mst, x, b);
                                lemma_connected_sym(mst, a, b);
                                lemma_connected_trans(mst, x, b, a);
                            }
                        }
                        assert(connected(mst, y, a)) by {
                            if ufpre.repr(y) == ra {
                                assert(ufpre.same_set(y, a));
                                assert(connected(mpre, y, a));
                                lemma_connected_into(mpre, mst, y, a);
                            } else {
                                assert(ufpre.same_set(y, b));
                                assert(connected(mpre, y, b));
                                lemma_connected_into(mpre, mst, y, b);
                                lemma_connected_sym(mst, a, b);
                                lemma_connected_trans(mst, y, b, a);
                            }
                        }
                        lemma_connected_sym(mst, y, a);
                        lemma_connected_trans(mst, x, a, y);
                    }
                }
            }
        } else {
            proof {
                assert forall|x: int, y: int|
                    0 <= x < n && 0 <= y < n && #[trigger] uf.same_set(x, y) implies connected(
                    g0,
                    x,
                    y,
                ) by {
                    assert(uf.repr(x) == ufpre.repr(x));
                    assert(uf.repr(y) == ufpre.repr(y));
                    assert(ufpre.same_set(x, y));
                }
                assert forall|x: int, y: int|
                    0 <= x < n && 0 <= y < n && #[trigger] uf.same_set(x, y) implies connected(
                    mst,
                    x,
                    y,
                ) by {
                    assert(uf.repr(x) == ufpre.repr(x));
                    assert(uf.repr(y) == ufpre.repr(y));
                    assert(ufpre.same_set(x, y));
                }
            }
        }
        t = t + 1;
    }
    proof {
        assert forall|x: int, y: int|
            0 <= x < n && 0 <= y < n && #[trigger] g0.edge(x, y) is Some implies uf.same_set(
            x,
            y,
        ) by {
            if x < y {
                let k = choose|k: int|
                    0 <= k < edges@.len() && (#[trigger] edges@[k]).1 == x && edges@[k].2 == y;
                assert(uf.same_set(edges@[k].1 as int, edges@[k].2 as int));
            } else if y < x {
                assert(g0.edge(y, x) is Some);
                let k = choose|k: int|
                    0 <= k < edges@.len() && (#[trigger] edges@[k]).1 == y && edges@[k].2 == x;
                assert(uf.same_set(edges@[k].1 as int, edges@[k].2 as int));
            }
        }
        let p = uf.parent@;
        assert forall|i2: int| 0 <= i2 < n implies ((#[trigger] p[i2] == i2)
            <==> is_component_min(g0, i2)) by {
            lemma_root_props(p, i2);
            if p[i2] == i2 {
                assert forall|j2: int| 0 <= j2 < i2 implies !connected(g0, j2, i2) by {
                    if connected(g0, j2, i2) {
                        let pth = choose|pth: Seq<usize>| #[trigger] connects(g0, pth, j2, i2);
                        lemma_path_same_set(g0, uf, pth);
                        lemma_root_props(p, j2);
                    }
                }
            } else {
                let r = root_of(p, i2);
                assert(p[r] == r);
                assert(root_of(p, r) == r);
                assert(uf.same_set(r, i2));
                assert(connected(g0, r, i2));
                assert(!is_component_min(g0, i2));
            }
        }
        assert forall|x: int, y: int| 0 <= x < n && 0 <= y < n implies ((#[trigger] connected(
            mst,
            x,
            y,
        )) <==> connected(g0, x, y)) by {
            if connected(g0, x, y) {
                let pth = choose|pth: Seq<usize>| #[trigger] connects(g0, pth, x, y);
                lemma_path_same_set(g0, uf, pth);
            }
            if connected(mst, x, y) {
                assert forall|x2: int, y2: int|
                    0 <= x2 < n && 0 <= y2 < n && #[trigger] mst.edge(x2, y2) is Some
                    implies g0.edge(x2, y2) is Some by {}
                lemma_connected_into(mst, g0, x, y);
            }
        }
        lemma_counts_eq(p, g0, n as int);
    }
    mst
}
proof fn lemma_count_all_roots(p: Seq<usize>, k: int)
    requires
        k <= p.len(),
        forall|i: int| 0 <= i < p.len() ==> #[trigger] p[i] == i,
    ensures
        count_roots_upto(p, k) == if k <= 0 {
            0int
        } else {
            k
        },
    decreases k,
{
    if k > 0 {
        lemma_count_all_roots(p, k - 1);
    }
}

} // verus!
