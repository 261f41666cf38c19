use vstd::prelude::*;

use crate::graph::CityGraph;
use crate::graph::lemma_path_push;
use crate::graph::path_weight;
use crate::graph::valid_path;
use crate::tsp::clone_perm;

verus! {

/// Every target appears among the stops of `p`.
pub open spec fn covers_targets(p: Seq<usize>, targets: Seq<usize>) -> bool {
    forall|k: int| 0 <= k < targets.len() ==> p.contains(#[trigger] targets[k])
}

/// No proper leading part of `p` already covers the targets: coverage is
/// reached only with the last stop taken.
pub open spec fn no_early_coverage(p: Seq<usize>, targets: Seq<usize>) -> bool {
    forall|l: int| 1 <= l < p.len() ==> !covers_targets(#[trigger] p.subrange(0, l), targets)
}

/// One enumerated route: a cycle-free walk of the graph starting at `start`
/// whose stops include every target — and only include them all once the last
/// stop is reached — paired with its exact total weight.
pub open spec fn route_ok(
    g: CityGraph,
    start: int,
    targets: Seq<usize>,
    p: Seq<usize>,
    d: u32,
) -> bool {
    &&& valid_path(g, p)
    &&& p[0] == start
    &&& p.no_duplicates()
    &&& covers_targets(p, targets)
    &&& no_early_coverage(p, targets)
    &&& d as int == path_weight(g, p)
}

/// `ext` continues the walk `p0` into a reportable route: the whole walk is
/// valid, cycle-free, covers the targets exactly at its end, and its weight
/// is representable.
pub open spec fn good_ext(
    g: CityGraph,
    p0: Seq<usize>,
    ext: Seq<usize>,
    targets: Seq<usize>,
) -> bool {
    &&& valid_path(g, p0 + ext)
    &&& (p0 + ext).no_duplicates()
    &&& covers_targets(p0 + ext, targets)
    &&& no_early_coverage(p0 + ext, targets)
    &&& path_weight(g, p0 + ext) <= u32::MAX as int
}

/// A sequence of distinct values drawn from `0 .. n` has at most `n` entries.
proof fn lemma_distinct_bounded_len(p: Seq<usize>, n: int)
    requires
        p.no_duplicates(),
        forall|k: int| 0 <= k < p.len() ==> p[k] < n,
        0 <= n,
    ensures
        p.len() <= n,
{
    let q = p.map_values(|v: usize| v as int);
    assert(q.no_duplicates()) by {
        assert forall|i: int, j: int|
            0 <= i < q.len() && 0 <= j < q.len() && i != j implies q[i] != q[j] by {
            assert(p[i] != p[j]);
        }
    }
    q.unique_seq_to_set();
    vstd::set_lib::lemma_int_range(0, n);
    assert(q.to_set() <= vstd::set_lib::set_int_range(0, n)) by {
        assert forall|x: int| q.to_set().contains(x) implies vstd::set_lib::set_int_range(
            0,
            n,
        ).contains(x) by {
            let idx = choose|idx: int| 0 <= idx < q.len() && q[idx] == x;
            assert(p[idx] < n);
        }
    }
    vstd::set_lib::lemma_len_subset(q.to_set(), vstd::set_lib::set_int_range(0, n));
}

/// Whether `x` is one of the stops already on the walk.
fn contains_stop(path: &Vec<usize>, x: usize) -> (b: bool)
    ensures
        b == path@.contains(x),
{
    let mut k: usize = 0;
    while k < path.len()
        invariant
            k <= path@.len(),
            forall|i: int| 0 <= i < k ==> path@[i] != x,
        decreases path@.len() - k,
    {
        if path[k] == x {
            return true;
        }
        k = k + 1;
    }
    false
}

impl CityGraph {
    /// Enumerates the cycle-free walks from `start` whose stops cover every
    /// target, each with its total weight. A walk stops growing as soon as it
    /// covers the targets, so no reported route covers them before its last
    /// stop is reached; and every such route whose weight is representable is
    /// reported.
    pub fn find_all_paths(&self, start: usize, targets: &[usize]) -> (results: Vec<
        (Vec<usize>, u32),
    >)
        requires
            self.wf(),
            start < self.n(),
            forall|k: int| 0 <= k < targets@.len() ==> #[trigger] targets@[k] < self.n(),
        ensures
            forall|k: int|
                0 <= k < results@.len() ==> route_ok(
                    *self,
                    start as int,
                    targets@,
                    (#[trigger] results@[k]).0@,
                    results@[k].1,
                ),
            forall|p: Seq<usize>, d: u32|
                #[trigger] route_ok(*self, start as int, targets@, p, d) ==> exists|k: int|
                    0 <= k < results@.len() && (#[trigger] results@[k]).0@ == p && results@[k].1
                        == d,
    {
        let mut results: Vec<(Vec<usize>, u32)> = Vec::new();
        let mut path: Vec<usize> = Vec::new();
        path.push(start);
        proof {
            assert(path@ =~= seq![start]);
            assert(valid_path(*self, path@));
            assert(path_weight(*self, path@) == 0);
        }
        let ghost pinit = path@;
        self.extend_paths(&mut path, 0, targets, &mut results);
        proof {
            assert forall|p: Seq<usize>, d: u32|
                #[trigger] route_ok(*self, start as int, targets@, p, d) implies exists|k: int|
                0 <= k < results@.len() && (#[trigger] results@[k]).0@ == p && results@[k].1
                    == d by {
                let ext = p.subrange(1, p.len() as int);
                assert(pinit + ext =~= p);
                assert(good_ext(*self, pinit, ext, targets@));
                let k = choose|k: int|
                    0 <= k < results@.len() && (#[trigger] results@[k]).0@ == pinit + ext;
                assert(route_ok(*self, start as int, targets@, results@[k].0@, results@[k].1));
                assert(results@[k].1 as int == path_weight(*self, p));
                assert(results@[k].1 == d);
            }
        }
        results
    }

    /// Grows the current walk one stop at a time, reporting it once it
    /// covers the targets, and restores the walk before returning.
    fn extend_paths(
        &self,
        path: &mut Vec<usize>,
        dist: u32,
        targets: &[usize],
        results: &mut Vec<(Vec<usize>, u32)>,
    )
        requires
            self.wf(),
            old(path)@.len() >= 1,
            valid_path(*self, old(path)@),
            old(path)@.no_duplicates(),
            no_early_coverage(old(path)@, targets@),
            dist as int == path_weight(*self, old(path)@),
            forall|k: int| 0 <= k < targets@.len() ==> #[trigger] targets@[k] < self.n(),
        ensures
            final(path)@ == old(path)@,
            final(results)@.len() >= old(results)@.len(),
            forall|k: int|
                0 <= k < old(results)@.len() ==> #[trigger] final(results)@[k] == old(
                    results,
                )@[k],
            forall|k: int|
                old(results)@.len() <= k < final(results)@.len() ==> route_ok(
                    *self,
                    old(path)@[0] as int,
                    targets@,
                    (#[trigger] final(results)@[k]).0@,
                    final(results)@[k].1,
                ),
            forall|ext: Seq<usize>|
                #[trigger] good_ext(*self, old(path)@, ext, targets@) ==> exists|k: int|
                    old(results)@.len() <= k < final(results)@.len()
                        && (#[trigger] final(results)@[k]).0@ == old(path)@ + ext,
        decreases self.n() - old(path)@.len(),
    {
        let ghost p0 = path@;
        let ghost r0 = results@;
        proof {
            lemma_distinct_bounded_len(p0, self.n());
        }
        let mut covered = true;
        let mut k: usize = 0;
        while k < targets.len()
            invariant
                k <= targets@.len(),
                path@ == p0,
                covered == (forall|k2: int|
                    0 <= k2 < k ==> path@.contains(#[trigger] targets@[k2])),
            decreases targets@.len() - k,
        {
            let hit = contains_stop(path, targets[k]);
            covered = covered && hit;
            k = k + 1;
        }
        if covered {
            let copy = clone_perm(path);
            results.push((copy, dist));
            proof {
                assert forall|ext: Seq<usize>|
                    #[trigger] good_ext(*self, p0, ext, targets@) implies exists|k: int|
                    r0.len() <= k < results@.len() && (#[trigger] results@[k]).0@ == p0 + ext by {
                    if ext.len() > 0 {
                        assert((p0 + ext).subrange(0, p0.len() as int) =~= p0);
                        assert(!covers_targets((p0 + ext).subrange(0, p0.len() as int), targets@));
                        assert(false);
                    } else {
                        assert(p0 + ext =~= p0);
                        assert(results@[r0.len() as int].0@ == p0 + ext);
                    }
                }
            }
            return;
        }
        let current = path[path.len() - 1];
        let n = self.cities.len();
        let mut nb: usize = 0;
        while nb < n
            invariant
                self.wf(),
                n == self.n(),
                p0 == old(path)@,
                r0 == old(results)@,
                path@ == p0,
                nb <= n,
                current == p0[p0.len() - 1],
                p0.len() >= 1,
                valid_path(*self, p0),
                p0.no_duplicates(),
                no_early_coverage(p0, targets@),
                !covers_targets(p0, targets@),
                dist as int == path_weight(*self, p0),
                forall|k2: int| 0 <= k2 < targets@.len() ==> #[trigger] targets@[k2] < self.n(),
                results@.len() >= r0.len(),
                forall|k2: int| 0 <= k2 < r0.len() ==> #[trigger] results@[k2] == r0[k2],
                forall|k2: int|
                    r0.len() <= k2 < results@.len() ==> route_ok(
                        *self,
                        p0[0] as int,
                        targets@,
                        (#[trigger] results@[k2]).0@,
                        results@[k2].1,
                    ),
                forall|ext: Seq<usize>|
                    #[trigger] good_ext(*self, p0, ext, targets@) && ext.len() > 0 && ext[0] < nb
                        ==> exists|k2: int|
                        r0.len() <= k2 < results@.len() && (#[trigger] results@[k2]).0@ == p0
                            + ext,
            decreases n - nb,
        {
            let ghost w_opt = self.edge(current as int, nb as int);
            let ghost rpre = results@;
            match self.adjacency[current][nb] {
                Some(w) => {
                    let already = contains_stop(path, nb);
                    if !already {
                        let nd_wide: u64 = dist as u64 + w as u64;
                        if nd_wide <= (u32::MAX as u64) {
                            let nd: u32 = dist + w;
                            path.push(nb);
                            proof {
                                assert(path@ == p0.push(nb));
                                lemma_path_push(*self, p0, nb);
                                assert(valid_path(*self, path@)) by {
                                    assert forall|kk: int| 0 <= kk < path@.len() - 1 implies (
                                    #[trigger] self.edge(
                                        path@[kk] as int,
                                        path@[kk + 1] as int,
                                    )) is Some by {
                                        if kk < path@.len() - 2 {
                                            assert(self.edge(p0[kk] as int, p0[kk + 1] as int)
                                                is Some);
                                        } else {
                                            assert(path@[kk] == current && path@[kk + 1] == nb);
                                        }
                                    }
                                }
                                assert(path@.no_duplicates()) by {
                                    assert forall|i: int, j: int|
                                        0 <= i < path@.len() && 0 <= j < path@.len() && i != j
                                        implies path@[i] != path@[j] by {
                                        if i < path@.len() - 1 && j < path@.len() - 1 {
                                            assert(p0[i] != p0[j]);
                                        }
                                    }
                                }
                                lemma_distinct_bounded_len(path@, self.n());
                                assert(no_early_coverage(path@, targets@)) by {
                                    assert forall|l: int| 1 <= l < path@.len() implies
                                        !covers_targets(
                                        #[trigger] path@.subrange(0, l),
                                        targets@,
                                    ) by {
                                        if l < p0.len() {
                                            assert(path@.subrange(0, l) =~= p0.subrange(0, l));
                                        } else {
                                            assert(path@.subrange(0, l) =~= p0);
                                        }
                                    }
                                }
                            }
                            self.extend_paths(path, nd, targets, results);
                            path.pop();
                            proof {
                                assert(path@ =~= p0);
                            }
                        }
                    }
                },
                None => {},
            }
            proof {
                assert forall|ext: Seq<usize>|
                    #[trigger] good_ext(*self, p0, ext, targets@) && ext.len() > 0 && ext[0] < nb
                        + 1 implies exists|k2: int|
                    r0.len() <= k2 < results@.len() && (#[trigger] results@[k2]).0@ == p0
                        + ext by {
                    let whole = p0 + ext;
                    if ext[0] < nb {
                        let k2 = choose|k2: int|
                            r0.len() <= k2 < rpre.len() && (#[trigger] rpre[k2]).0@ == p0 + ext;
                        assert(results@[k2] == rpre[k2]);
                    } else {
                        assert(ext[0] == nb);
                        assert(whole[p0.len() - 1] == current);
                        assert(whole[p0.len() as int] == nb);
                        assert(self.edge(
                            whole[p0.len() - 1] as int,
                            whole[p0.len() - 1 + 1] as int,
                        ) is Some);
                        assert(w_opt is Some);
                        let wv = w_opt->Some_0;
                        if exists|idx: int| 0 <= idx < p0.len() && p0[idx] == nb {
                            let idx = choose|idx: int| 0 <= idx < p0.len() && p0[idx] == nb;
                            assert(whole[idx] == nb && whole[p0.len() as int] == nb);
                            assert(false);
                        }
                        assert(whole.subrange(0, p0.len() as int + 1) =~= p0.push(nb));
                        lemma_path_push(*self, p0, nb);
                        crate::graph::lemma_path_weight_take(*self, whole, p0.len() as int + 1);
                        assert(path_weight(*self, p0.push(nb)) == dist + wv);
                        assert(dist + wv <= u32::MAX as int);
                        let ext2 = ext.drop_first();
                        assert(p0.push(nb) + ext2 =~= p0 + ext);
                        assert(good_ext(*self, p0.push(nb), ext2, targets@));
                        let k2 = choose|k2: int|
                            rpre.len() <= k2 < results@.len() && (#[trigger] results@[k2]).0@
                                == p0.push(nb) + ext2;
                        assert(results@[k2].0@ == p0 + ext);
                    }
                }
            }
            nb = nb + 1;
        }
        proof {
            assert forall|ext: Seq<usize>|
                #[trigger] good_ext(*self, p0, ext, targets@) implies exists|k2: int|
                r0.len() <= k2 < results@.len() && (#[trigger] results@[k2]).0@ == p0 + ext by {
                if ext.len() == 0 {
                    assert(p0 + ext =~= p0);
                    assert(covers_targets(p0 + ext, targets@));
                    assert(false);
                } else {
                    assert((p0 + ext)[p0.len() as int] == ext[0]);
                    assert(ext[0] < self.n());
                }
            }
        }
    }
}

} // verus!
