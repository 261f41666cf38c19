use vstd::prelude::*;

use crate::model::DatasetEdge;

verus! {

/// Location metadata. The name is the location's identifier and is unique
/// within a graph's location table.
pub struct City {
    pub name: String,
    pub country: String,
}

impl Clone for City {
    fn clone(&self) -> (r: City)
        ensures
            r == *self,
    {
        City { name: self.name.clone(), country: self.country.clone() }
    }
}

/// Weighted undirected graph over named locations.
///
/// Locations are held in `cities` and identified by their position in that
/// table; `adjacency[i][j]` is the weight of the directed entry from location
/// `i` to location `j`, or `None` when there is no such entry. Builders add
/// both directed entries of an undirected edge, so a graph built from edge
/// records is symmetric. A location with no edges has a row of `None`.
pub struct CityGraph {
    pub cities: Vec<City>,
    pub adjacency: Vec<Vec<Option<u32>>>,
}

impl CityGraph {
    /// Number of locations.
    pub open spec fn n(self) -> int {
        self.cities@.len() as int
    }

    /// The adjacency table is square, matching the location table, and
    /// location names are unique.
    pub open spec fn wf(self) -> bool {
        &&& self.adjacency@.len() == self.n()
        &&& forall|i: int| 0 <= i < self.n() ==> #[trigger] self.adjacency@[i]@.len() == self.n()
        &&& forall|i: int, j: int|
            0 <= i < j < self.n() ==> self.cities@[i].name@ != self.cities@[j].name@
    }

    /// The directed adjacency entry from `i` to `j`.
    pub open spec fn edge(self, i: int, j: int) -> Option<u32> {
        self.adjacency@[i]@[j]
    }

    /// Weight of the entry from `i` to `j` (meaningful when the entry exists).
    pub open spec fn weight(self, i: int, j: int) -> int {
        self.edge(i, j)->Some_0 as int
    }

    /// The adjacency relation is symmetric: both directed entries of every
    /// undirected edge agree.
    pub open spec fn symmetric(self) -> bool {
        forall|i: int, j: int|
            0 <= i < self.n() && 0 <= j < self.n() ==> #[trigger] self.edge(i, j) == self.edge(
                j,
                i,
            )
    }

    pub fn new() -> (g: CityGraph)
        ensures
            g.wf(),
            g.n() == 0,
            g.symmetric(),
    {
        CityGraph { cities: Vec::new(), adjacency: Vec::new() }
    }

    /// Position of the location named `name`, or `None` when no location
    /// carries that name.
    pub fn index_of(&self, name: &String) -> (r: Option<usize>)
        ensures
            match r {
                Some(i) => i < self.n() && self.cities@[i as int].name@ == name@,
                None => forall|i: int|
                    0 <= i < self.n() ==> self.cities@[i].name@ != name@,
            },
    {
        let mut k: usize = 0;
        while k < self.cities.len()
            invariant
                k <= self.cities@.len(),
                forall|i: int| 0 <= i < k ==> self.cities@[i].name@ != name@,
            decreases self.cities@.len() - k,
        {
            if self.cities[k].name == *name {
                return Some(k);
            }
            k = k + 1;
        }
        None
    }

    /// Adds a location. A location already carrying that name has its
    /// metadata replaced; otherwise the location is appended with no edges.
    pub fn add_city(&mut self, city: City)
        requires
            old(self).wf(),
        ensures
            final(self).wf(),
            final(self).adjacency@.len() == final(self).n(),
            match old(self).index_of_spec(city.name@) {
                Some(i) => {
                    &&& final(self).n() == old(self).n()
                    &&& final(self).cities@ == old(self).cities@.update(i, city)
                    &&& final(self).adjacency@ == old(self).adjacency@
                },
                None => {
                    &&& final(self).n() == old(self).n() + 1
                    &&& final(self).cities@ == old(self).cities@.push(city)
                    &&& forall|i: int, j: int|
                        0 <= i < old(self).n() && 0 <= j < old(self).n() ==> final(self).edge(i, j)
                            == old(self).edge(i, j)
                    &&& forall|i: int|
                        0 <= i < final(self).n() ==> final(self).edge(i, old(self).n()) is None
                            && final(self).edge(old(self).n(), i) is None
                },
            },
    {
        let ghost gold = *self;
        let found = self.index_of(&city.name);
        proof {
            lemma_index_of_spec_agrees(*self, city.name@, found);
        }
        match found {
            Some(i) => {
                self.cities[i] = city;
            },
            None => {
                self.cities.push(city);
                let ghost cnew = self.cities@;
                let n_old = self.adjacency.len();
                let mut k: usize = 0;
                while k < n_old
                    invariant
                        gold.wf(),
                        n_old == gold.adjacency@.len(),
                        cnew == gold.cities@.push(cnew.last()),
                        self.cities@ == cnew,
                        self.adjacency@.len() == n_old,
                        k <= n_old,
                        forall|i: int|
                            0 <= i < k ==> #[trigger] self.adjacency@[i]@
                                == gold.adjacency@[i]@.push(None::<u32>),
                        forall|i: int|
                            k <= i < n_old ==> #[trigger] self.adjacency@[i]@
                                == gold.adjacency@[i]@,
                    decreases n_old - k,
                {
                    self.adjacency[k].push(None);
                    k = k + 1;
                }
                let n_new = self.cities.len();
                let mut row: Vec<Option<u32>> = Vec::new();
                let mut m: usize = 0;
                while m < n_new
                    invariant
                        row@.len() == m,
                        m <= n_new,
                        forall|i: int| 0 <= i < m ==> #[trigger] row@[i] is None,
                    decreases n_new - m,
                {
                    row.push(None);
                    m = m + 1;
                }
                self.adjacency.push(row);
                proof {
                    assert forall|i: int, j: int|
                        0 <= i < gold.n() && 0 <= j < gold.n() implies self.edge(i, j)
                        == gold.edge(i, j) by {
                        assert(self.adjacency@[i]@ == gold.adjacency@[i]@.push(None::<u32>));
                    }
                }
            },
        }
    }

    /// Spec-level lookup mirroring `index_of`: the first position whose name
    /// matches, if any.
    pub open spec fn index_of_spec(self, name: Seq<char>) -> Option<int> {
        if exists|i: int| 0 <= i < self.n() && self.cities@[i].name@ == name {
            Some(choose|i: int| 0 <= i < self.n() && self.cities@[i].name@ == name)
        } else {
            None
        }
    }

    /// Builds a graph from a sequence of raw distance records.
    ///
    /// Endpoints are registered in order of first appearance (a later record
    /// never replaces a location's metadata), and each record sets both
    /// directed entries between its endpoints, so when several records join
    /// the same pair of names the last one decides the weight.
    pub fn build_graph_from_edges(edges: &[DatasetEdge]) -> (g: CityGraph)
        ensures
            g.wf(),
            g.symmetric(),
            forall|k: int| 0 <= k < edges@.len() ==> endpoints_present(g, #[trigger] edges@[k]),
            forall|i: int|
                0 <= i < g.n() ==> #[trigger] name_from_records(g, edges@, i, edges@.len() as int),
            forall|i: int|
                0 <= i < g.n() ==> #[trigger] country_from_first_mention(
                    g,
                    edges@,
                    i,
                    edges@.len() as int,
                ),
            forall|k: int|
                0 <= k < edges@.len() && last_join_upto(edges@, k, edges@.len() as int)
                    ==> pair_edge_ok(g, #[trigger] edges@[k]),
            forall|i: int, j: int|
                0 <= i < g.n() && 0 <= j < g.n() && #[trigger] g.edge(i, j) is Some
                    ==> edge_from_records(g, edges@, i, j, edges@.len() as int),
    {
        let mut g = CityGraph::new();
        let mut t: usize = 0;
        while t < edges.len()
            invariant
                g.wf(),
                g.symmetric(),
                t <= edges@.len(),
                forall|k: int| 0 <= k < t ==> endpoints_present(g, #[trigger] edges@[k]),
                forall|i: int|
                    0 <= i < g.n() ==> #[trigger] name_from_records(g, edges@, i, t as int),
                forall|i: int|
                    0 <= i < g.n() ==> #[trigger] country_from_first_mention(
                        g,
                        edges@,
                        i,
                        t as int,
                    ),
                forall|k: int|
                    0 <= k < t && last_join_upto(edges@, k, t as int) ==> pair_edge_ok(
                        g,
                        #[trigger] edges@[k],
                    ),
                forall|i: int, j: int|
                    0 <= i < g.n() && 0 <= j < g.n() && #[trigger] g.edge(i, j) is Some
                        ==> edge_from_records(g, edges@, i, j, t as int),
            decreases edges@.len() - t,
        {
            let edge = &edges[t];
            let ghost g0 = g;
            let i: usize;
            match g.index_of(&edge.from_city) {
                Some(fi) => {
                    i = fi;
                },
                None => {
                    i = g.cities.len();
                    let city = City {
                        name: edge.from_city.clone(),
                        country: edge.from_country.clone(),
                    };
                    g.add_city(city);
                },
            }
            proof {
                assert(grows(g0, g));
                lemma_grow_symmetric(g0, g);
            }
            let ghost g1 = g;
            let j: usize;
            match g.index_of(&edge.to_city) {
                Some(tj) => {
                    j = tj;
                },
                None => {
                    j = g.cities.len();
                    let city = City {
                        name: edge.to_city.clone(),
                        country: edge.to_country.clone(),
                    };
                    g.add_city(city);
                },
            }
            proof {
                assert(grows(g1, g));
                lemma_grow_symmetric(g1, g);
                lemma_grow_trans(g0, g1, g);
                assert(g.cities@[i as int].name@ == edges@[t as int].from_city@);
                assert(g.cities@[j as int].name@ == edges@[t as int].to_city@);
                assert forall|k: int| g0.n() <= k < g.n() implies (g.cities@[k].name@
                    == edges@[t as int].from_city@
                    || g.cities@[k].name@ == edges@[t as int].to_city@) by {}
            }
            let ghost g2 = g;
            g.add_edge(i, j, edge.distance);
            g.add_edge(j, i, edge.distance);
            proof {
                lemma_add_record_edges(g0, g2, g, edges@, t as int, i as int, j as int);
                assert forall|i3: int| 0 <= i3 < g.n() implies #[trigger] country_from_first_mention(
                    g,
                    edges@,
                    i3,
                    t as int + 1,
                ) by {
                    let nm = g.cities@[i3].name@;
                    if i3 < g0.n() {
                        assert(country_from_first_mention(g0, edges@, i3, t as int));
                        let k = choose|k: int|
                            0 <= k < t && #[trigger] names_record(edges@[k], g0.cities@[i3].name@)
                                && g0.cities@[i3].country@ == record_country(
                                edges@[k],
                                g0.cities@[i3].name@,
                            ) && (forall|k2: int|
                                0 <= k2 < k ==> !names_record(
                                    #[trigger] edges@[k2],
                                    g0.cities@[i3].name@,
                                ));
                        assert(g.cities@[i3] == g0.cities@[i3]);
                        assert(0 <= k < t + 1 && names_record(edges@[k], nm)
                            && g.cities@[i3].country@ == record_country(edges@[k], nm) && (
                        forall|k2: int|
                            0 <= k2 < k ==> !names_record(#[trigger] edges@[k2], nm)));
                    } else {
                        if i3 < g1.n() {
                            assert(g.cities@[i3] == g1.cities@[i3]);
                            assert(nm == edges@[t as int].from_city@);
                            assert(g.cities@[i3].country@ == edges@[t as int].from_country@);
                        } else {
                            assert(g.cities@[i3] == g2.cities@[i3]);
                            assert(nm == edges@[t as int].to_city@);
                            assert(g.cities@[i3].country@ == edges@[t as int].to_country@);
                            assert(record_country(edges@[t as int], nm) == (if edges@[t as int].from_city@ == nm {
                                edges@[t as int].from_country@
                            } else {
                                edges@[t as int].to_country@
                            }));
                        }
                        assert(names_record(edges@[t as int], nm));
                        assert forall|k2: int| 0 <= k2 < t implies !names_record(
                            #[trigger] edges@[k2],
                            nm,
                        ) by {
                            if names_record(edges@[k2], nm) {
                                assert(endpoints_present(g0, edges@[k2]));
                                if edges@[k2].from_city@ == nm {
                                    lemma_index_of_spec_inv(g0, edges@[k2].from_city@);
                                } else {
                                    lemma_index_of_spec_inv(g0, edges@[k2].to_city@);
                                }
                                let w = if edges@[k2].from_city@ == nm {
                                    g0.index_of_spec(edges@[k2].from_city@)->Some_0
                                } else {
                                    g0.index_of_spec(edges@[k2].to_city@)->Some_0
                                };
                                assert(g0.cities@[w].name@ == nm);
                                assert(g1.cities@[w].name@ == nm);
                            }
                        }
                        assert(g.cities@[i3].country@ == record_country(edges@[t as int], nm));
                        assert(0 <= t < t + 1 && names_record(edges@[t as int], nm)
                            && g.cities@[i3].country@ == record_country(edges@[t as int], nm) && (
                        forall|k2: int|
                            0 <= k2 < t ==> !names_record(#[trigger] edges@[k2], nm)));
                    }
                }
            }
            t = t + 1;
        }
        g
    }

    /// Reduces this graph to a minimum spanning forest with Kruskal's
    /// algorithm; see the free `build_mst` function, which does the work.
    pub fn build_mst(&self) -> (mst: CityGraph)
        requires
            self.wf(),
            self.symmetric(),
        ensures
            mst.wf(),
            mst.symmetric(),
            mst.cities@ == self.cities@,
            mst.n() == self.n(),
            forall|i: int, j: int|
                0 <= i < mst.n() && 0 <= j < mst.n() && #[trigger] mst.edge(i, j) is Some
                    ==> mst.edge(i, j) == self.edge(i, j),
            forall|i: int, j: int|
                0 <= i < mst.n() && 0 <= j < mst.n() ==> ((#[trigger] connected(mst, i, j))
                    <==> connected(*self, i, j)),
            undirected_edge_count(mst) == self.n() - components(*self),
    {
        crate::mst::build_mst(self)
    }

    /// Sets the directed adjacency entry from `from` to `to`, overwriting any
    /// earlier entry. Callers add both directions of an undirected edge.
    pub fn add_edge(&mut self, from: usize, to: usize, distance: u32)
        requires
            old(self).wf(),
            from < old(self).n(),
            to < old(self).n(),
        ensures
            final(self).wf(),
            final(self).cities@ == old(self).cities@,
            final(self).n() == old(self).n(),
            final(self).edge(from as int, to as int) == Some(distance),
            forall|i: int, j: int|
                0 <= i < old(self).n() && 0 <= j < old(self).n() && !(i == from && j == to)
                    ==> final(self).edge(i, j) == old(self).edge(i, j),
    {
        self.adjacency[from][to] = Some(distance);
    }
}

/// `p` is a walk through `g`: at least one stop, every stop in range, and an
/// adjacency entry between every pair of consecutive stops.
pub open spec fn valid_path(g: CityGraph, p: Seq<usize>) -> bool {
    &&& p.len() >= 1
    &&& forall|k: int| 0 <= k < p.len() ==> #[trigger] p[k] < g.n()
    &&& forall|k: int|
        0 <= k < p.len() - 1 ==> (#[trigger] g.edge(p[k] as int, p[k + 1] as int)) is Some
}

/// Total weight of the walk `p` through `g`.
pub open spec fn path_weight(g: CityGraph, p: Seq<usize>) -> int
    decreases p.len(),
{
    if p.len() < 2 {
        0
    } else {
        g.weight(p[0] as int, p[1] as int) + path_weight(g, p.drop_first())
    }
}

/// `p` is a walk through `g` from location `a` to location `b`.
pub open spec fn connects(g: CityGraph, p: Seq<usize>, a: int, b: int) -> bool {
    &&& valid_path(g, p)
    &&& p[0] == a
    &&& p[p.len() - 1] == b
}

/// Walk weights are sums of non-negative entries.
pub proof fn lemma_path_weight_nonneg(g: CityGraph, p: Seq<usize>)
    ensures
        path_weight(g, p) >= 0,
    decreases p.len(),
{
    if p.len() >= 2 {
        lemma_path_weight_nonneg(g, p.drop_first());
    }
}

/// Appending a stop adds the weight of the final hop.
pub proof fn lemma_path_push(g: CityGraph, p: Seq<usize>, v: usize)
    requires
        p.len() >= 1,
    ensures
        path_weight(g, p.push(v)) == path_weight(g, p) + g.weight(p[p.len() - 1] as int, v as int),
    decreases p.len(),
{
    if p.len() == 1 {
        assert(p.push(v).drop_first() =~= seq![v]);
        assert(path_weight(g, seq![v]) == 0);
        assert(p.push(v)[0] == p[0] && p.push(v)[1] == v);
        assert(path_weight(g, p.push(v)) == g.weight(p[0] as int, v as int) + path_weight(
            g,
            p.push(v).drop_first(),
        ));
    } else {
        assert(p.push(v).drop_first() =~= p.drop_first().push(v));
        lemma_path_push(g, p.drop_first(), v);
        assert(p.push(v)[0] == p[0] && p.push(v)[1] == p[1]);
        assert(path_weight(g, p.push(v)) == g.weight(p[0] as int, p[1] as int) + path_weight(
            g,
            p.drop_first().push(v),
        ));
        assert(p.drop_first()[p.drop_first().len() - 1] == p[p.len() - 1]);
    }
}

/// A walk weighs at least any of its leading parts: weights are
/// non-negative.
pub proof fn lemma_path_weight_take(g: CityGraph, p: Seq<usize>, l: int)
    requires
        1 <= l <= p.len(),
    ensures
        path_weight(g, p.subrange(0, l)) <= path_weight(g, p),
    decreases p.len() - l,
{
    if l < p.len() {
        lemma_path_weight_take(g, p, l + 1);
        assert(p.subrange(0, l + 1) =~= p.subrange(0, l).push(p[l]));
        lemma_path_push(g, p.subrange(0, l), p[l]);
    } else {
        assert(p.subrange(0, l) =~= p);
    }
}

/// In a symmetric graph, the reverse of a walk is a walk of the same weight
/// between the swapped endpoints.
pub proof fn lemma_path_reverse(g: CityGraph, p: Seq<usize>)
    requires
        g.symmetric(),
        valid_path(g, p),
    ensures
        valid_path(g, p.reverse()),
        path_weight(g, p.reverse()) == path_weight(g, p),
        p.reverse()[0] == p[p.len() - 1],
        p.reverse()[p.len() - 1] == p[0],
    decreases p.len(),
{
    if p.len() == 1 {
        assert(p.reverse() =~= p);
    } else {
        let q = p.drop_first();
        assert(valid_path(g, q)) by {
            assert forall|k: int| 0 <= k < q.len() - 1 implies (#[trigger] g.edge(
                q[k] as int,
                q[k + 1] as int,
            )) is Some by {
                assert(g.edge(p[k + 1] as int, p[k + 2] as int) is Some);
            }
        }
        lemma_path_reverse(g, q);
        assert(p.reverse() =~= q.reverse().push(p[0]));
        lemma_path_push(g, q.reverse(), p[0]);
        assert(q.reverse()[q.len() - 1] == q[0]);
        assert(g.edge(p[0] as int, p[1] as int) == g.edge(p[1] as int, p[0] as int));
        assert(valid_path(g, q.reverse().push(p[0]))) by {
            let rp = q.reverse().push(p[0]);
            assert forall|k: int| 0 <= k < rp.len() - 1 implies (#[trigger] g.edge(
                rp[k] as int,
                rp[k + 1] as int,
            )) is Some by {
                if k < rp.len() - 2 {
                    assert(g.edge(q.reverse()[k] as int, q.reverse()[k + 1] as int) is Some);
                } else {
                    assert(rp[k] == q.reverse()[q.len() - 1]);
                    assert(rp[k] == q[0] == p[1]);
                }
            }
        }
    }
}

/// Some walk of `g` leads from `a` to `b`.
pub open spec fn connected(g: CityGraph, a: int, b: int) -> bool {
    exists|p: Seq<usize>| #[trigger] connects(g, p, a, b)
}

/// Location `i` is the least-positioned member of its connected component.
pub open spec fn is_component_min(g: CityGraph, i: int) -> bool {
    forall|j: int| 0 <= j < i ==> !connected(g, j, i)
}

/// Number of connected components among the first `k` locations, counted by
/// their least-positioned members.
pub open spec fn components_upto(g: CityGraph, k: int) -> int
    decreases k,
{
    if k <= 0 {
        0
    } else {
        components_upto(g, k - 1) + (if is_component_min(g, k - 1) {
            1int
        } else {
            0int
        })
    }
}

/// Number of connected components of `g`.
pub open spec fn components(g: CityGraph) -> int {
    components_upto(g, g.n())
}

pub proof fn lemma_connected_refl(g: CityGraph, a: usize)
    requires
        a < g.n(),
    ensures
        connected(g, a as int, a as int),
{
    assert(connects(g, seq![a], a as int, a as int));
}

/// An adjacency entry connects its endpoints.
pub proof fn lemma_connected_step(g: CityGraph, a: usize, b: usize)
    requires
        a < g.n(),
        b < g.n(),
        g.edge(a as int, b as int) is Some,
    ensures
        connected(g, a as int, b as int),
{
    let p: Seq<usize> = seq![a, b];
    assert(p[0] == a && p[1] == b);
    assert(g.edge(p[0] as int, p[1] as int) is Some);
    assert(connects(g, p, a as int, b as int));
}

/// In a symmetric graph, connectivity is symmetric.
pub proof fn lemma_connected_sym(g: CityGraph, a: int, b: int)
    requires
        g.symmetric(),
        connected(g, a, b),
    ensures
        connected(g, b, a),
{
    let p = choose|p: Seq<usize>| #[trigger] connects(g, p, a, b);
    lemma_path_reverse(g, p);
    assert(connects(g, p.reverse(), b, a));
}

/// Connectivity is transitive: two walks compose.
pub proof fn lemma_connected_trans(g: CityGraph, a: int, b: int, c: int)
    requires
        connected(g, a, b),
        connected(g, b, c),
    ensures
        connected(g, a, c),
{
    let p1 = choose|p: Seq<usize>| #[trigger] connects(g, p, a, b);
    let p2 = choose|p: Seq<usize>| #[trigger] connects(g, p, b, c);
    if p2.len() == 1 {
        assert(connects(g, p1, a, c));
    } else {
        let q = p1 + p2.drop_first();
        assert(q.len() == p1.len() + p2.len() - 1);
        assert forall|k: int| 0 <= k < q.len() implies #[trigger] q[k] < g.n() by {
            if k < p1.len() {
                assert(q[k] == p1[k]);
            } else {
                assert(q[k] == p2[k - p1.len() + 1]);
            }
        }
        assert forall|k: int| 0 <= k < q.len() - 1 implies (#[trigger] g.edge(
            q[k] as int,
            q[k + 1] as int,
        )) is Some by {
            if k < p1.len() - 1 {
                assert(q[k] == p1[k] && q[k + 1] == p1[k + 1]);
                assert(g.edge(p1[k] as int, p1[k + 1] as int) is Some);
            } else if k == p1.len() - 1 {
                assert(q[k] == p1[k] && p1[k] == p2[0]);
                assert(q[k + 1] == p2[1]);
                assert(g.edge(p2[0] as int, p2[1] as int) is Some);
            } else {
                let k2 = k - p1.len() + 1;
                assert(q[k] == p2[k2] && q[k + 1] == p2[k2 + 1]);
                assert(g.edge(p2[k2] as int, p2[k2 + 1] as int) is Some);
            }
        }
        assert(q[0] == p1[0]);
        assert(q[q.len() - 1] == p2[p2.len() - 1]);
        assert(connects(g, q, a, c));
    }
}

/// A walk transfers into any same-sized graph that keeps its entries.
pub proof fn lemma_connected_into(g1: CityGraph, g2: CityGraph, a: int, b: int)
    requires
        g1.n() == g2.n(),
        forall|i: int, j: int|
            0 <= i < g1.n() && 0 <= j < g1.n() && #[trigger] g1.edge(i, j) is Some ==> g2.edge(
                i,
                j,
            ) is Some,
        connected(g1, a, b),
    ensures
        connected(g2, a, b),
{
    let p = choose|p: Seq<usize>| #[trigger] connects(g1, p, a, b);
    assert(valid_path(g2, p)) by {
        assert forall|k: int| 0 <= k < p.len() - 1 implies (#[trigger] g2.edge(
            p[k] as int,
            p[k + 1] as int,
        )) is Some by {
            assert(g1.edge(p[k] as int, p[k + 1] as int) is Some);
        }
    }
    assert(connects(g2, p, a, b));
}

/// Entries `Some` among the ordered pairs `(i, y)` with `i < y < j`.
pub open spec fn count_row_edges(g: CityGraph, i: int, j: int) -> int
    decreases j,
{
    if j <= 0 {
        0
    } else {
        count_row_edges(g, i, j - 1) + (if i < j - 1 && g.edge(i, j - 1) is Some {
            1int
        } else {
            0int
        })
    }
}

/// Entries `Some` among the ordered pairs `(x, y)` with `x < k` and `x < y < n`.
pub open spec fn count_upper_edges(g: CityGraph, k: int) -> int
    decreases k,
{
    if k <= 0 {
        0
    } else {
        count_upper_edges(g, k - 1) + count_row_edges(g, k - 1, g.n())
    }
}

/// Number of undirected edges of `g`: each edge counted once, at its ordered
/// pair `(x, y)` with `x < y`.
pub open spec fn undirected_edge_count(g: CityGraph) -> int {
    count_upper_edges(g, g.n())
}

pub proof fn lemma_count_row_eq(g: CityGraph, g2: CityGraph, i: int, j: int)
    requires
        forall|y: int| i < y < j ==> #[trigger] g2.edge(i, y) == g.edge(i, y),
    ensures
        count_row_edges(g2, i, j) == count_row_edges(g, i, j),
    decreases j,
{
    if j > 0 {
        lemma_count_row_eq(g, g2, i, j - 1);
    }
}

/// Two graphs of the same size with the same upper entries have the same
/// edge count.
pub proof fn lemma_count_upper_eq(g: CityGraph, g2: CityGraph, k: int)
    requires
        g.n() == g2.n(),
        forall|x: int, y: int| 0 <= x < y < g.n() ==> #[trigger] g2.edge(x, y) == g.edge(x, y),
    ensures
        count_upper_edges(g2, k) == count_upper_edges(g, k),
    decreases k,
{
    if k > 0 {
        lemma_count_upper_eq(g, g2, k - 1);
        assert(count_row_edges(g2, k - 1, g2.n()) == count_row_edges(g, k - 1, g.n())) by {
            assert forall|y: int| k - 1 < y < g.n() implies #[trigger] g2.edge(k - 1, y) == g.edge(
                k - 1,
                y,
            ) by {}
            lemma_count_row_eq(g, g2, k - 1, g.n());
        }
    }
}

proof fn lemma_count_row_plus(g: CityGraph, g2: CityGraph, a: int, b: int, j: int)
    requires
        a < b,
        g.edge(a, b) is None,
        g2.edge(a, b) is Some,
        forall|y: int| a < y < j && y != b ==> #[trigger] g2.edge(a, y) == g.edge(a, y),
    ensures
        count_row_edges(g2, a, j) == count_row_edges(g, a, j) + (if b < j && 0 <= b {
            1int
        } else {
            0int
        }),
    decreases j,
{
    if j > 0 {
        lemma_count_row_plus(g, g2, a, b, j - 1);
    }
}

/// Writing one new upper entry `(a, b)` raises the edge count of the first
/// `k` rows by one exactly when row `a` is among them.
pub proof fn lemma_count_upper_plus(g: CityGraph, g2: CityGraph, a: int, b: int, k: int)
    requires
        0 <= a < b < g.n(),
        g.n() == g2.n(),
        k <= g.n(),
        g.edge(a, b) is None,
        g2.edge(a, b) is Some,
        forall|x: int, y: int|
            0 <= x < y < g.n() && !(x == a && y == b) ==> #[trigger] g2.edge(x, y) == g.edge(x, y),
    ensures
        count_upper_edges(g2, k) == count_upper_edges(g, k) + (if a < k {
            1int
        } else {
            0int
        }),
    decreases k,
{
    if k > 0 {
        lemma_count_upper_plus(g, g2, a, b, k - 1);
        if k - 1 == a {
            lemma_count_row_plus(g, g2, a, b, g.n());
        } else {
            assert(count_row_edges(g2, k - 1, g2.n()) == count_row_edges(g, k - 1, g.n())) by {
                lemma_count_row_eq_guarded(g, g2, a, b, k - 1, g.n());
            }
        }
    }
}

proof fn lemma_count_row_eq_guarded(g: CityGraph, g2: CityGraph, a: int, b: int, i: int, j: int)
    requires
        0 <= i,
        i != a,
        j <= g.n(),
        g.n() == g2.n(),
        forall|x: int, y: int|
            0 <= x < y < g.n() && !(x == a && y == b) ==> #[trigger] g2.edge(x, y) == g.edge(x, y),
    ensures
        count_row_edges(g2, i, j) == count_row_edges(g, i, j),
    decreases j,
{
    if j > 0 {
        lemma_count_row_eq_guarded(g, g2, a, b, i, j - 1);
    }
}

/// A graph with no upper entries has no edges.
pub proof fn lemma_count_upper_zero(g: CityGraph, k: int)
    requires
        k <= g.n(),
        forall|x: int, y: int| 0 <= x < y < g.n() ==> (#[trigger] g.edge(x, y)) is None,
    ensures
        count_upper_edges(g, k) == 0,
    decreases k,
{
    if k > 0 {
        lemma_count_upper_zero(g, k - 1);
        assert(count_row_edges(g, k - 1, g.n()) == 0) by {
            lemma_count_row_zero(g, k - 1, g.n());
        }
    }
}

proof fn lemma_count_row_zero(g: CityGraph, i: int, j: int)
    requires
        0 <= i < g.n(),
        j <= g.n(),
        forall|x: int, y: int| 0 <= x < y < g.n() ==> (#[trigger] g.edge(x, y)) is None,
    ensures
        count_row_edges(g, i, j) == 0,
    decreases j,
{
    if j > 0 {
        lemma_count_row_zero(g, i, j - 1);
    }
}

/// Whether record `e` joins the two location names `a` and `b` (in either
/// direction).
pub open spec fn joins(e: DatasetEdge, a: Seq<char>, b: Seq<char>) -> bool {
    (e.from_city@ == a && e.to_city@ == b) || (e.from_city@ == b && e.to_city@ == a)
}

/// Record `e` names the location `nm` as one of its endpoints.
pub open spec fn names_record(e: DatasetEdge, nm: Seq<char>) -> bool {
    e.from_city@ == nm || e.to_city@ == nm
}

/// The country record `e` carries for the endpoint named `nm` (the from side
/// when both endpoints carry the name).
pub open spec fn record_country(e: DatasetEdge, nm: Seq<char>) -> Seq<char> {
    if e.from_city@ == nm {
        e.from_country@
    } else {
        e.to_country@
    }
}

/// Location `i` of `g` was registered by the first of the `t` leading records
/// of `s` that names it, and carries that record's country for it.
pub open spec fn country_from_first_mention(
    g: CityGraph,
    s: Seq<DatasetEdge>,
    i: int,
    t: int,
) -> bool {
    exists|k: int|
        0 <= k < t && #[trigger] names_record(s[k], g.cities@[i].name@) && g.cities@[i].country@
            == record_country(s[k], g.cities@[i].name@) && (forall|k2: int|
            0 <= k2 < k ==> !names_record(#[trigger] s[k2], g.cities@[i].name@))
}

/// Both endpoint names of record `e` are registered in `g`.
pub open spec fn endpoints_present(g: CityGraph, e: DatasetEdge) -> bool {
    g.index_of_spec(e.from_city@) is Some && g.index_of_spec(e.to_city@) is Some
}

/// The name of location `i` of `g` appears as an endpoint of one of the
/// first `t` records of `s`.
pub open spec fn name_from_records(g: CityGraph, s: Seq<DatasetEdge>, i: int, t: int) -> bool {
    exists|k: int|
        0 <= k < t && (g.cities@[i].name@ == #[trigger] s[k].from_city@ || g.cities@[i].name@
            == s[k].to_city@)
}

/// The entry between locations `i` and `j` of `g` is justified by one of the
/// first `t` records of `s` joining their names.
pub open spec fn edge_from_records(g: CityGraph, s: Seq<DatasetEdge>, i: int, j: int, t: int) -> bool {
    exists|k: int| 0 <= k < t && joins(#[trigger] s[k], g.cities@[i].name@, g.cities@[j].name@)
}

/// No record after position `k` (and before position `t`) joins the same pair
/// of names as record `k`, so record `k` decides that pair's weight.
pub open spec fn last_join_upto(s: Seq<DatasetEdge>, k: int, t: int) -> bool {
    forall|k2: int| k < k2 < t ==> !joins(#[trigger] s[k2], s[k].from_city@, s[k].to_city@)
}

/// The graph records the weight of `e` in both directions between the
/// positions of its endpoint names.
pub open spec fn pair_edge_ok(g: CityGraph, e: DatasetEdge) -> bool {
    let oi = g.index_of_spec(e.from_city@);
    let oj = g.index_of_spec(e.to_city@);
    &&& oi is Some
    &&& oj is Some
    &&& g.edge(oi->Some_0, oj->Some_0) == Some(e.distance)
    &&& g.edge(oj->Some_0, oi->Some_0) == Some(e.distance)
}

/// `g` extends `g0`: every old location keeps its position and metadata,
/// every old adjacency entry is kept, and entries touching a new location do
/// not exist yet.
pub open spec fn grows(g0: CityGraph, g: CityGraph) -> bool {
    &&& g0.n() <= g.n()
    &&& forall|i: int| 0 <= i < g0.n() ==> #[trigger] g.cities@[i] == g0.cities@[i]
    &&& forall|i: int, j: int|
        0 <= i < g0.n() && 0 <= j < g0.n() ==> #[trigger] g.edge(i, j) == g0.edge(i, j)
    &&& forall|i: int, j: int|
        0 <= i < g.n() && 0 <= j < g.n() && !(i < g0.n() && j < g0.n())
            ==> #[trigger] g.edge(i, j) is None
}

/// A graph that grows from a symmetric graph stays symmetric: old entries are
/// kept and new locations have no entries.
proof fn lemma_grow_symmetric(g0: CityGraph, g: CityGraph)
    requires
        grows(g0, g),
        g0.symmetric(),
    ensures
        g.symmetric(),
{
    assert forall|i: int, j: int|
        0 <= i < g.n() && 0 <= j < g.n() implies #[trigger] g.edge(i, j) == g.edge(j, i) by {
        if i < g0.n() && j < g0.n() {
        } else {
            assert(g.edge(i, j) is None);
            assert(g.edge(j, i) is None);
        }
    }
}

/// Growing is transitive.
proof fn lemma_grow_trans(a: CityGraph, b: CityGraph, c: CityGraph)
    requires
        grows(a, b),
        grows(b, c),
    ensures
        grows(a, c),
{
    assert forall|i: int, j: int|
        0 <= i < c.n() && 0 <= j < c.n() && !(i < a.n() && j < a.n()) implies #[trigger] c.edge(
        i,
        j,
    ) is None by {
        if i < b.n() && j < b.n() {
            assert(c.edge(i, j) == b.edge(i, j));
        }
    }
}

/// With unique names, a position whose name matches is the spec-level lookup
/// result.
proof fn lemma_index_of_unique(g: CityGraph, name: Seq<char>, i: int)
    requires
        g.wf(),
        0 <= i < g.n(),
        g.cities@[i].name@ == name,
    ensures
        g.index_of_spec(name) == Some(i),
{
    assert(exists|k: int| 0 <= k < g.n() && g.cities@[k].name@ == name);
    let w = choose|k: int| 0 <= k < g.n() && g.cities@[k].name@ == name;
    if w < i {
        assert(g.cities@[w].name@ != g.cities@[i].name@);
    } else if i < w {
        assert(g.cities@[i].name@ != g.cities@[w].name@);
    }
}

/// A successful spec-level lookup points at a position carrying the name.
proof fn lemma_index_of_spec_inv(g: CityGraph, name: Seq<char>)
    requires
        g.index_of_spec(name) is Some,
    ensures
        0 <= g.index_of_spec(name)->Some_0 < g.n(),
        g.cities@[g.index_of_spec(name)->Some_0].name@ == name,
{
}

/// Re-establishes the graph-building loop's invariants after record `t` has
/// had its endpoints registered (growing `g0` into `g2`) and its two directed
/// entries written (turning `g2` into `g`).
proof fn lemma_add_record_edges(
    g0: CityGraph,
    g2: CityGraph,
    g: CityGraph,
    s: Seq<DatasetEdge>,
    t: int,
    i: int,
    j: int,
)
    requires
        0 <= t < s.len(),
        g0.wf(),
        g0.symmetric(),
        forall|k: int| 0 <= k < t ==> endpoints_present(g0, #[trigger] s[k]),
        forall|i0: int| 0 <= i0 < g0.n() ==> #[trigger] name_from_records(g0, s, i0, t),
        forall|k: int|
            0 <= k < t && last_join_upto(s, k, t) ==> pair_edge_ok(g0, #[trigger] s[k]),
        forall|i0: int, j0: int|
            0 <= i0 < g0.n() && 0 <= j0 < g0.n() && #[trigger] g0.edge(i0, j0) is Some
                ==> edge_from_records(g0, s, i0, j0, t),
        grows(g0, g2),
        g2.wf(),
        g2.symmetric(),
        g.wf(),
        g.cities@ == g2.cities@,
        0 <= i < g.n(),
        0 <= j < g.n(),
        g.cities@[i].name@ == s[t].from_city@,
        g.cities@[j].name@ == s[t].to_city@,
        g.edge(i, j) == Some(s[t].distance),
        g.edge(j, i) == Some(s[t].distance),
        forall|a: int, b: int|
            0 <= a < g.n() && 0 <= b < g.n() && !(a == i && b == j) && !(a == j && b == i)
                ==> #[trigger] g.edge(a, b) == g2.edge(a, b),
        forall|k: int|
            g0.n() <= k < g.n() ==> (g.cities@[k].name@ == s[t].from_city@ || g.cities@[k].name@
                == s[t].to_city@),
    ensures
        g.symmetric(),
        forall|k: int| 0 <= k < t + 1 ==> endpoints_present(g, #[trigger] s[k]),
        forall|i0: int| 0 <= i0 < g.n() ==> #[trigger] name_from_records(g, s, i0, t + 1),
        forall|k: int|
            0 <= k < t + 1 && last_join_upto(s, k, t + 1) ==> pair_edge_ok(g, #[trigger] s[k]),
        forall|i0: int, j0: int|
            0 <= i0 < g.n() && 0 <= j0 < g.n() && #[trigger] g.edge(i0, j0) is Some
                ==> edge_from_records(g, s, i0, j0, t + 1),
{
    assert(g.n() == g2.n());
    // symmetry
    assert forall|a: int, b: int|
        0 <= a < g.n() && 0 <= b < g.n() implies #[trigger] g.edge(a, b) == g.edge(b, a) by {
        if !((a == i && b == j) || (a == j && b == i)) {
            assert(g.edge(a, b) == g2.edge(a, b));
            assert(g.edge(b, a) == g2.edge(b, a));
        }
    }
    // endpoints of processed records stay present
    assert forall|k: int| 0 <= k < t + 1 implies endpoints_present(g, #[trigger] s[k]) by {
        if k < t {
            lemma_index_of_spec_inv(g0, s[k].from_city@);
            lemma_index_of_unique(g, s[k].from_city@, g0.index_of_spec(s[k].from_city@)->Some_0);
            lemma_index_of_spec_inv(g0, s[k].to_city@);
            lemma_index_of_unique(g, s[k].to_city@, g0.index_of_spec(s[k].to_city@)->Some_0);
        } else {
            lemma_index_of_unique(g, s[t].from_city@, i);
            lemma_index_of_unique(g, s[t].to_city@, j);
        }
    }
    // every location name comes from a processed record
    assert forall|i0: int| 0 <= i0 < g.n() implies #[trigger] name_from_records(g, s, i0, t + 1) by {
        if i0 < g0.n() {
            assert(name_from_records(g0, s, i0, t));
            let k = choose|k: int|
                0 <= k < t && (g0.cities@[i0].name@ == #[trigger] s[k].from_city@
                    || g0.cities@[i0].name@ == s[k].to_city@);
            assert(g.cities@[i0].name@ == g0.cities@[i0].name@);
            assert(0 <= k < t + 1 && (g.cities@[i0].name@ == s[k].from_city@ || g.cities@[i0].name@
                == s[k].to_city@));
        } else {
            assert(0 <= t < t + 1 && (g.cities@[i0].name@ == s[t].from_city@ || g.cities@[i0].name@
                == s[t].to_city@));
        }
    }
    // last joining record decides each pair's entries
    assert forall|k: int| 0 <= k < t + 1 && last_join_upto(s, k, t + 1) implies pair_edge_ok(
        g,
        #[trigger] s[k],
    ) by {
        lemma_index_of_unique(g, s[t].from_city@, i);
        lemma_index_of_unique(g, s[t].to_city@, j);
        if k == t {
        } else {
            assert(!joins(s[t], s[k].from_city@, s[k].to_city@));
            assert(last_join_upto(s, k, t));
            assert(pair_edge_ok(g0, s[k]));
            lemma_index_of_spec_inv(g0, s[k].from_city@);
            lemma_index_of_spec_inv(g0, s[k].to_city@);
            let ik = g0.index_of_spec(s[k].from_city@)->Some_0;
            let jk = g0.index_of_spec(s[k].to_city@)->Some_0;
            lemma_index_of_unique(g, s[k].from_city@, ik);
            lemma_index_of_unique(g, s[k].to_city@, jk);
            assert(g.cities@[ik].name@ == s[k].from_city@);
            assert(g.cities@[jk].name@ == s[k].to_city@);
            if ik == i && jk == j {
                assert(joins(s[t], s[k].from_city@, s[k].to_city@));
            }
            if ik == j && jk == i {
                assert(joins(s[t], s[k].from_city@, s[k].to_city@));
            }
            assert(g.edge(ik, jk) == g2.edge(ik, jk));
            assert(g.edge(jk, ik) == g2.edge(jk, ik));
            assert(g2.edge(ik, jk) == g0.edge(ik, jk));
            assert(g2.edge(jk, ik) == g0.edge(jk, ik));
        }
    }
    // every entry is justified by a processed record
    assert forall|i0: int, j0: int|
        0 <= i0 < g.n() && 0 <= j0 < g.n() && #[trigger] g.edge(i0, j0) is Some implies
        edge_from_records(g, s, i0, j0, t + 1) by {
        if (i0 == i && j0 == j) || (i0 == j && j0 == i) {
            assert(0 <= t < t + 1 && joins(s[t], g.cities@[i0].name@, g.cities@[j0].name@));
        } else {
            assert(g.edge(i0, j0) == g2.edge(i0, j0));
            if i0 < g0.n() && j0 < g0.n() {
                assert(g2.edge(i0, j0) == g0.edge(i0, j0));
                assert(edge_from_records(g0, s, i0, j0, t));
                let k = choose|k: int|
                    0 <= k < t && joins(
                        #[trigger] s[k],
                        g0.cities@[i0].name@,
                        g0.cities@[j0].name@,
                    );
                assert(0 <= k < t + 1 && joins(s[k], g.cities@[i0].name@, g.cities@[j0].name@));
            } else {
                assert(g2.edge(i0, j0) is None);
            }
        }
    }
}

/// `index_of`'s runtime answer matches the spec-level lookup (with unique
/// names the matching position is unique).
proof fn lemma_index_of_spec_agrees(g: CityGraph, name: Seq<char>, found: Option<usize>)
    requires
        g.wf(),
        match found {
            Some(i) => i < g.n() && g.cities@[i as int].name@ == name,
            None => forall|i: int| 0 <= i < g.n() ==> g.cities@[i].name@ != name,
        },
    ensures
        match found {
            Some(i) => g.index_of_spec(name) == Some(i as int),
            None => g.index_of_spec(name) is None,
        },
{
    match found {
        Some(i) => {
            assert(exists|k: int| 0 <= k < g.n() && g.cities@[k].name@ == name);
            let w = choose|k: int| 0 <= k < g.n() && g.cities@[k].name@ == name;
            if w != i {
                assert(g.cities@[w].name@ != g.cities@[i as int].name@);
            }
        },
        None => {},
    }
}

} // verus!
