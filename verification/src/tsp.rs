use vstd::prelude::*;

use crate::graph::CityGraph;
use crate::graph::connects;
use crate::graph::lemma_path_push;
use crate::graph::lemma_path_reverse;
use crate::graph::path_weight;
use crate::graph::valid_path;
use crate::model::Algorithm;
use crate::mst::lemma_swap_multiset;
use rayon::iter::IntoParallelIterator;
use rayon::iter::ParallelIterator;

verus! {

/// Mathematical view of a distance matrix: the sequence of its rows.
pub open spec fn matrix_view(m: Vec<Vec<u32>>) -> Seq<Seq<u32>> {
    m@.map_values(|r: Vec<u32>| r@)
}

/// Mathematical view of a permutation list.
pub open spec fn perms_view(ps: Vec<Vec<usize>>) -> Seq<Seq<usize>> {
    ps@.map_values(|p: Vec<usize>| p@)
}

/// `m` is an `n` by `n` matrix.
pub open spec fn sq_matrix(m: Seq<Seq<u32>>, n: int) -> bool {
    &&& m.len() == n
    &&& forall|i: int| 0 <= i < n ==> #[trigger] m[i].len() == n
}

/// Every entry of every permutation indexes into `0 .. n`.
pub open spec fn perms_in_bounds(ps: Seq<Seq<usize>>, n: int) -> bool {
    forall|a: int, b: int| 0 <= a < ps.len() && 0 <= b < ps[a].len() ==> #[trigger] ps[a][b] < n
}

/// Sum of the first `e` consecutive-pair distances along `p`.
pub open spec fn sum_edges(p: Seq<usize>, m: Seq<Seq<u32>>, e: int) -> int
    decreases e,
{
    if e <= 0 {
        0
    } else {
        sum_edges(p, m, e - 1) + m[p[e - 1] as int][p[e] as int]
    }
}

/// Total open-path cost of `p`: the sum of all `len - 1` consecutive-pair
/// distances (zero for an empty or single-stop path).
pub open spec fn path_cost(p: Seq<usize>, m: Seq<Seq<u32>>) -> int {
    if p.len() == 0 {
        0
    } else {
        sum_edges(p, m, p.len() - 1)
    }
}

/// Score of a permutation: its open-path cost, with every cost at or above
/// the sentinel collapsed to the sentinel. An unreachable pair carries the
/// sentinel distance, so it disqualifies the whole permutation; the sentinel
/// is absorbing, so a cost too large to represent is likewise disqualified.
pub open spec fn score_spec(p: Seq<usize>, m: Seq<Seq<u32>>) -> u32 {
    if path_cost(p, m) >= u32::MAX {
        u32::MAX
    } else {
        path_cost(p, m) as u32
    }
}

/// Minimum score among the first `k` permutations (the sentinel when there
/// are none).
pub open spec fn best_upto(ps: Seq<Seq<usize>>, m: Seq<Seq<u32>>, k: int) -> u32
    decreases k,
{
    if k <= 0 {
        u32::MAX
    } else {
        let prev = best_upto(ps, m, k - 1);
        let sc = score_spec(ps[k - 1], m);
        if sc < prev {
            sc
        } else {
            prev
        }
    }
}

/// Minimum score over a whole permutation list.
pub open spec fn best_score_of(ps: Seq<Seq<usize>>, m: Seq<Seq<u32>>) -> u32 {
    best_upto(ps, m, ps.len() as int)
}

/// Edge sums only grow as edges are appended.
proof fn lemma_sum_edges_mono(p: Seq<usize>, m: Seq<Seq<u32>>, e1: int, e2: int)
    requires
        0 <= e1 <= e2,
    ensures
        sum_edges(p, m, e1) <= sum_edges(p, m, e2),
    decreases e2,
{
    if e1 < e2 {
        lemma_sum_edges_mono(p, m, e1, e2 - 1);
    }
}

/// Every listed permutation scores at least the running minimum.
proof fn lemma_best_upto_lb(ps: Seq<Seq<usize>>, m: Seq<Seq<u32>>, k: int, j: int)
    requires
        0 <= j < k,
    ensures
        score_spec(ps[j], m) >= best_upto(ps, m, k),
    decreases k,
{
    if j < k - 1 {
        lemma_best_upto_lb(ps, m, k - 1, j);
    }
}

/// Copies a permutation.
pub(crate) fn clone_perm(p: &Vec<usize>) -> (r: Vec<usize>)
    ensures
        r@ == p@,
{
    let mut r: Vec<usize> = Vec::new();
    let mut k: usize = 0;
    while k < p.len()
        invariant
            k <= p@.len(),
            r@ == p@.subrange(0, k as int),
        decreases p@.len() - k,
    {
        r.push(p[k]);
        proof {
            assert(r@ =~= p@.subrange(0, k + 1));
        }
        k = k + 1;
    }
    proof {
        assert(r@ =~= p@);
    }
    r
}

/// Scores one visiting order against the distance matrix: the sum of the
/// distances between consecutive stops, or the sentinel when a consecutive
/// pair is unreachable or the sum reaches the sentinel.
pub fn score_path(path: &Vec<usize>, dist_matrix: &Vec<Vec<u32>>) -> (score: u32)
    requires
        sq_matrix(matrix_view(*dist_matrix), dist_matrix@.len() as int),
        forall|k: int| 0 <= k < path@.len() ==> #[trigger] path@[k] < dist_matrix@.len(),
    ensures
        score == score_spec(path@, matrix_view(*dist_matrix)),
{
    let ghost m = matrix_view(*dist_matrix);
    if path.len() < 2 {
        return 0;
    }
    let mut total: u32 = 0;
    let mut k: usize = 1;
    while k < path.len()
        invariant
            1 <= k <= path@.len(),
            m == matrix_view(*dist_matrix),
            sq_matrix(m, dist_matrix@.len() as int),
            forall|i: int| 0 <= i < path@.len() ==> #[trigger] path@[i] < dist_matrix@.len(),
            total < u32::MAX,
            total == sum_edges(path@, m, k - 1),
        decreases path@.len() - k,
    {
        let a = path[k - 1];
        let b = path[k];
        proof {
            assert(m[a as int] == dist_matrix@[a as int]@);
            assert(dist_matrix@[a as int]@.len() == dist_matrix@.len());
        }
        let d = dist_matrix[a][b];
        proof {
            assert(m[a as int][b as int] == d);
        }
        if (total as u64) + (d as u64) >= (u32::MAX as u64) {
            proof {
                assert(sum_edges(path@, m, k as int) == total + d);
                lemma_sum_edges_mono(path@, m, k as int, path@.len() - 1);
            }
            return u32::MAX;
        }
        total = total + d;
        k = k + 1;
    }
    total
}

/// Keeps the better-scored of two candidates; on a tie the first argument
/// wins.
pub fn pick_better(best: (Vec<usize>, u32), current: (Vec<usize>, u32)) -> (r: (Vec<usize>, u32))
    ensures
        r == (if current.1 < best.1 {
            current
        } else {
            best
        }),
{
    if current.1 < best.1 {
        current
    } else {
        best
    }
}

/// Serial brute-force search: scores every permutation in order and returns
/// the first one achieving the minimum score, together with that score. An
/// empty list (or one whose every permutation is disqualified) yields an
/// empty path and the sentinel score.
pub fn bf(permutations: Vec<Vec<usize>>, dist_matrix: &Vec<Vec<u32>>) -> (r: (Vec<usize>, u32))
    requires
        sq_matrix(matrix_view(*dist_matrix), dist_matrix@.len() as int),
        perms_in_bounds(perms_view(permutations), dist_matrix@.len() as int),
    ensures
        r.1 == best_score_of(perms_view(permutations), matrix_view(*dist_matrix)),
        r.1 == u32::MAX ==> r.0@ == Seq::<usize>::empty(),
        r.1 < u32::MAX ==> exists|i: int|
            {
                &&& 0 <= i < permutations@.len()
                &&& perms_view(permutations)[i] == r.0@
                &&& score_spec(perms_view(permutations)[i], matrix_view(*dist_matrix)) == r.1
                &&& forall|j: int|
                    0 <= j < i ==> score_spec(
                        perms_view(permutations)[j],
                        matrix_view(*dist_matrix),
                    ) > r.1
            },
{
    let ghost ps = perms_view(permutations);
    let ghost m = matrix_view(*dist_matrix);
    let mut best_score: u32 = u32::MAX;
    let mut best_idx: usize = 0;
    let mut i: usize = 0;
    while i < permutations.len()
        invariant
            i <= permutations@.len(),
            ps == perms_view(permutations),
            m == matrix_view(*dist_matrix),
            sq_matrix(m, dist_matrix@.len() as int),
            perms_in_bounds(ps, dist_matrix@.len() as int),
            best_score == best_upto(ps, m, i as int),
            best_score < u32::MAX ==> {
                &&& best_idx < i
                &&& score_spec(ps[best_idx as int], m) == best_score
                &&& forall|j: int| 0 <= j < best_idx ==> score_spec(ps[j], m) > best_score
            },
        decreases permutations@.len() - i,
    {
        proof {
            assert(ps[i as int] == permutations@[i as int]@);
            assert forall|kk: int| 0 <= kk < permutations@[i as int]@.len() implies #[trigger] permutations@[i as int]@[kk] < dist_matrix@.len() by {
                assert(ps[i as int][kk] < dist_matrix@.len());
            }
        }
        let score = score_path(&permutations[i], dist_matrix);
        if score < best_score {
            proof {
                assert forall|j: int| 0 <= j < i implies score_spec(ps[j], m) > score by {
                    lemma_best_upto_lb(ps, m, i as int, j);
                }
            }
            best_score = score;
            best_idx = i;
        }
        i = i + 1;
    }
    if best_score == u32::MAX {
        (Vec::new(), u32::MAX)
    } else {
        let best_path = clone_perm(&permutations[best_idx]);
        (best_path, best_score)
    }
}

/// Relies on rayon's `into_par_iter`, `map` and `reduce`: every permutation
/// is consumed exactly once; each worker folds its segment in order starting
/// from the identity pair (empty path, sentinel score), and partial results
/// are combined pairwise with the same strictly-less comparison. Whatever the
/// split, the returned score is the minimum permutation score, the returned
/// path is one that achieves it, and the identity pair survives only when
/// nothing scores below the sentinel.
#[verifier::external_body]
fn par_best(permutations: Vec<Vec<usize>>, dist_matrix: &Vec<Vec<u32>>) -> (r: (Vec<usize>, u32))
    requires
        sq_matrix(matrix_view(*dist_matrix), dist_matrix@.len() as int),
        perms_in_bounds(perms_view(permutations), dist_matrix@.len() as int),
    ensures
        r.1 == best_score_of(perms_view(permutations), matrix_view(*dist_matrix)),
        r.1 == u32::MAX ==> r.0@ == Seq::<usize>::empty(),
        r.1 < u32::MAX ==> exists|i: int|
            {
                &&& 0 <= i < permutations@.len()
                &&& perms_view(permutations)[i] == r.0@
                &&& score_spec(perms_view(permutations)[i], matrix_view(*dist_matrix)) == r.1
            },
{
    permutations
        .into_par_iter()
        .map(|path| {
            let score = score_path(&path, dist_matrix);
            (path, score)
        })
        .reduce(|| (Vec::new(), u32::MAX), |best, current| pick_better(best, current))
}

/// Parallel brute-force search: same minimum score as the serial search on
/// the same inputs. Which of several equally cheap permutations is returned
/// depends on the nondeterministic reduction order; the score does not.
pub fn parallel_bf(permutations: Vec<Vec<usize>>, dist_matrix: &Vec<Vec<u32>>) -> (r: (
    Vec<usize>,
    u32,
))
    requires
        sq_matrix(matrix_view(*dist_matrix), dist_matrix@.len() as int),
        perms_in_bounds(perms_view(permutations), dist_matrix@.len() as int),
    ensures
        r.1 == best_score_of(perms_view(permutations), matrix_view(*dist_matrix)),
        r.1 == u32::MAX ==> r.0@ == Seq::<usize>::empty(),
        r.1 < u32::MAX ==> exists|i: int|
            {
                &&& 0 <= i < permutations@.len()
                &&& perms_view(permutations)[i] == r.0@
                &&& score_spec(perms_view(permutations)[i], matrix_view(*dist_matrix)) == r.1
            },
{
    par_best(permutations, dist_matrix)
}

/// Runs the selected search strategy. Both strategies return exactly the
/// minimum permutation score, so the choice changes at most which of several
/// equally cheap permutations is reported.
pub fn find_best_path(
    algorithm: Algorithm,
    permutations: Vec<Vec<usize>>,
    dist_matrix: &Vec<Vec<u32>>,
) -> (r: (Vec<usize>, u32))
    requires
        sq_matrix(matrix_view(*dist_matrix), dist_matrix@.len() as int),
        perms_in_bounds(perms_view(permutations), dist_matrix@.len() as int),
    ensures
        r.1 == best_score_of(perms_view(permutations), matrix_view(*dist_matrix)),
        r.1 == u32::MAX ==> r.0@ == Seq::<usize>::empty(),
        r.1 < u32::MAX ==> exists|i: int|
            {
                &&& 0 <= i < permutations@.len()
                &&& perms_view(permutations)[i] == r.0@
                &&& score_spec(perms_view(permutations)[i], matrix_view(*dist_matrix)) == r.1
            },
{
    match algorithm {
        Algorithm::Serial => bf(permutations, dist_matrix),
        Algorithm::Parallel => parallel_bf(permutations, dist_matrix),
    }
}

/// Serial and parallel search agree on the best score: each returns exactly
/// the minimum permutation score over the same inputs, so the two scores are
/// equal (only the tie among equally cheap permutations may differ).
pub proof fn lemma_serial_parallel_same_score(
    serial_score: u32,
    parallel_score: u32,
    ps: Seq<Seq<usize>>,
    m: Seq<Seq<u32>>,
)
    requires
        serial_score == best_score_of(ps, m),
        parallel_score == best_score_of(ps, m),
    ensures
        serial_score == parallel_score,
{
}

/// Reversing a permutation keeps its score, provided the distance matrix is
/// symmetric: the open-path cost is a sum of symmetric pairwise distances.
pub proof fn lemma_score_reverse(p: Seq<usize>, m: Seq<Seq<u32>>, n: int)
    requires
        sq_matrix(m, n),
        forall|i: int, j: int| 0 <= i < n && 0 <= j < n ==> #[trigger] m[i][j] == m[j][i],
        forall|k: int| 0 <= k < p.len() ==> #[trigger] p[k] < n,
    ensures
        score_spec(p.reverse(), m) == score_spec(p, m),
{
    if p.len() > 0 {
        lemma_sum_edges_reverse(p, m, n, p.len() - 1);
        assert(path_cost(p.reverse(), m) == path_cost(p, m));
    }
}

/// The first `e` edges of the reversed path weigh as much as the last `e`
/// edges of the forward path, when the matrix is symmetric.
proof fn lemma_sum_edges_reverse(p: Seq<usize>, m: Seq<Seq<u32>>, n: int, e: int)
    requires
        sq_matrix(m, n),
        forall|i: int, j: int| 0 <= i < n && 0 <= j < n ==> #[trigger] m[i][j] == m[j][i],
        forall|k: int| 0 <= k < p.len() ==> #[trigger] p[k] < n,
        p.len() > 0,
        0 <= e <= p.len() - 1,
    ensures
        sum_edges(p.reverse(), m, e) == sum_edges(p, m, p.len() - 1) - sum_edges(
            p,
            m,
            p.len() - 1 - e,
        ),
    decreases e,
{
    if e > 0 {
        lemma_sum_edges_reverse(p, m, n, e - 1);
        let l = p.len() as int;
        assert(p.reverse()[e - 1] == p[l - e]);
        assert(p.reverse()[e] == p[l - 1 - e]);
        assert(sum_edges(p, m, l - e) == sum_edges(p, m, l - e - 1) + m[p[l - e - 1] as int][p[l
            - e] as int]);
    }
}

/// Potential of a tentative distance entry: the sentinel when the node is
/// unvisited, else the recorded distance. Every relaxation lowers some
/// node's potential, which bounds the search.
spec fn pot(d: Option<u32>) -> int {
    match d {
        None => u32::MAX as int,
        Some(x) => x as int,
    }
}

/// Sum of all potentials.
spec fn sum_pot(s: Seq<Option<u32>>) -> int
    decreases s.len(),
{
    if s.len() == 0 {
        0
    } else {
        pot(s[0]) + sum_pot(s.drop_first())
    }
}

proof fn lemma_sum_pot_nonneg(s: Seq<Option<u32>>)
    ensures
        sum_pot(s) >= 0,
    decreases s.len(),
{
    if s.len() > 0 {
        lemma_sum_pot_nonneg(s.drop_first());
    }
}

proof fn lemma_sum_pot_update(s: Seq<Option<u32>>, k: int, v: Option<u32>)
    requires
        0 <= k < s.len(),
    ensures
        sum_pot(s.update(k, v)) == sum_pot(s) - pot(s[k]) + pot(v),
    decreases s.len(),
{
    if k == 0 {
        assert(s.update(0, v).drop_first() =~= s.drop_first());
    } else {
        assert(s.update(k, v).drop_first() =~= s.drop_first().update(k - 1, v));
        lemma_sum_pot_update(s.drop_first(), k - 1, v);
    }
}

/// Soundness of the tentative distances: lengths line up, the source is
/// recorded at zero, and every recorded distance is below the sentinel and
/// achieved by some walk from the source.
spec fn bfs_state_ok(g: CityGraph, start: int, dist: Seq<Option<u32>>) -> bool {
    &&& dist.len() == g.n()
    &&& 0 <= start < g.n()
    &&& dist[start] == Some(0u32)
    &&& forall|v: int| 0 <= v < g.n() && (#[trigger] dist[v]) is Some ==> dist[v]->Some_0 < u32::MAX
    &&& forall|v: int|
        0 <= v < g.n() && (#[trigger] dist[v]) is Some ==> exists|p: Seq<usize>|
            #[trigger] connects(g, p, start, v) && path_weight(g, p) == dist[v]->Some_0
}

/// Every queued node is in range and has a recorded distance.
spec fn queue_ok(g: CityGraph, dist: Seq<Option<u32>>, queue: Seq<usize>) -> bool {
    forall|qi: int|
        0 <= qi < queue.len() ==> (#[trigger] queue[qi]) < g.n() && dist[queue[qi] as int] is Some
}

/// All of `u`'s out-edges have been relaxed against its recorded distance.
spec fn node_stable(g: CityGraph, dist: Seq<Option<u32>>, u: int) -> bool {
    forall|v: int|
        0 <= v < g.n() && (#[trigger] g.edge(u, v)) is Some && dist[u]->Some_0 + g.weight(u, v)
            < u32::MAX ==> dist[v] is Some && dist[v]->Some_0 <= dist[u]->Some_0 + g.weight(u, v)
}

/// Every recorded node that is not waiting in the queue is stable.
spec fn settled_stable(g: CityGraph, dist: Seq<Option<u32>>, queue: Seq<usize>) -> bool {
    forall|u: int|
        0 <= u < g.n() && (#[trigger] dist[u]) is Some && !queue.contains(u as usize)
            ==> node_stable(g, dist, u)
}

/// When every recorded node is stable, the recorded distances dominate every
/// walk below the sentinel: a walk from the source to `v` of weight under the
/// sentinel forces a recorded distance at `v` no larger than that weight.
proof fn lemma_stable_dominates(
    g: CityGraph,
    start: int,
    dist: Seq<Option<u32>>,
    p: Seq<usize>,
    v: int,
)
    requires
        bfs_state_ok(g, start, dist),
        forall|u: int| 0 <= u < g.n() && (#[trigger] dist[u]) is Some ==> node_stable(g, dist, u),
        connects(g, p, start, v),
        path_weight(g, p) < u32::MAX,
    ensures
        dist[v] is Some,
        dist[v]->Some_0 <= path_weight(g, p),
    decreases p.len(),
{
    if p.len() == 1 {
        assert(v == start);
    } else {
        let q = p.drop_last();
        let u = p[p.len() - 2] as int;
        assert(p =~= q.push(p[p.len() - 1]));
        lemma_path_push(g, q, p[p.len() - 1]);
        assert(valid_path(g, q)) by {
            assert forall|k: int| 0 <= k < q.len() - 1 implies (#[trigger] g.edge(
                q[k] as int,
                q[k + 1] as int,
            )) is Some by {
                assert(g.edge(p[k] as int, p[k + 1] as int) is Some);
            }
        }
        assert(g.edge(p[p.len() - 2] as int, p[p.len() - 2 + 1] as int) is Some);
        assert(g.edge(u, v) is Some);
        assert(g.weight(u, v) >= 0);
        assert(path_weight(g, p) == path_weight(g, q) + g.weight(u, v));
        lemma_stable_dominates(g, start, dist, q, u);
        assert(node_stable(g, dist, u));
        assert(dist[u]->Some_0 + g.weight(u, v) < u32::MAX);
    }
}

/// Recording an improved distance for `nb` and queuing it keeps every other
/// settled node stable: `nb`'s entry only went down, and `nb` itself now
/// waits in the queue.
proof fn lemma_stability_after_relax(
    g: CityGraph,
    dist_old: Seq<Option<u32>>,
    dist_new: Seq<Option<u32>>,
    queue_old: Seq<usize>,
    queue_new: Seq<usize>,
    nb: int,
    nd: u32,
    cur: int,
)
    requires
        dist_old.len() == g.n(),
        0 <= nb < g.n(),
        dist_new == dist_old.update(nb, Some(nd)),
        pot(Some(nd)) < pot(dist_old[nb]),
        queue_new == queue_old.push(nb as usize),
        forall|u: int|
            0 <= u < g.n() && (#[trigger] dist_old[u]) is Some && !queue_old.contains(u as usize)
                && u != cur ==> node_stable(g, dist_old, u),
    ensures
        forall|u: int|
            0 <= u < g.n() && (#[trigger] dist_new[u]) is Some && !queue_new.contains(u as usize)
                && u != cur ==> node_stable(g, dist_new, u),
{
    assert(queue_new[queue_new.len() - 1] == nb as usize);
    assert(queue_new.contains(nb as usize));
    assert forall|u: int|
        0 <= u < g.n() && (#[trigger] dist_new[u]) is Some && !queue_new.contains(u as usize) && u
            != cur implies node_stable(g, dist_new, u) by {
        assert(u != nb);
        assert(!queue_old.contains(u as usize)) by {
            if queue_old.contains(u as usize) {
                let qi = choose|qi: int| 0 <= qi < queue_old.len() && queue_old[qi] == u as usize;
                assert(queue_new[qi] == u as usize);
            }
        }
        assert(node_stable(g, dist_old, u));
        assert forall|v: int|
            0 <= v < g.n() && (#[trigger] g.edge(u, v)) is Some && dist_new[u]->Some_0 + g.weight(
                u,
                v,
            ) < u32::MAX implies dist_new[v] is Some && dist_new[v]->Some_0 <= dist_new[u]->Some_0
            + g.weight(u, v) by {
            assert(dist_new[u] == dist_old[u]);
            assert(dist_old[v] is Some && dist_old[v]->Some_0 <= dist_old[u]->Some_0 + g.weight(
                u,
                v,
            ));
        }
    }
}

/// Shortest-path distance from `start` to `goal` by repeated relaxation over
/// a frontier queue: whenever a neighbour's distance improves it is recorded
/// and the neighbour re-queued, until no improvement is pending. Returns the
/// exact minimum walk weight, or `None` when no walk of weight below the
/// sentinel exists (in particular when `goal` is unreachable).
fn bfs_distance(graph: &CityGraph, start: usize, goal: usize) -> (r: Option<u32>)
    requires
        graph.wf(),
        start < graph.n(),
        goal < graph.n(),
    ensures
        match r {
            Some(d) => {
                &&& d < u32::MAX
                &&& exists|p: Seq<usize>|
                    #[trigger] connects(*graph, p, start as int, goal as int) && path_weight(
                        *graph,
                        p,
                    ) == d
                &&& forall|p: Seq<usize>|
                    #[trigger] connects(*graph, p, start as int, goal as int) ==> path_weight(
                        *graph,
                        p,
                    ) >= d
            },
            None => forall|p: Seq<usize>|
                #[trigger] connects(*graph, p, start as int, goal as int) ==> path_weight(
                    *graph,
                    p,
                ) >= u32::MAX,
        },
{
    let n = graph.cities.len();
    let mut dist: Vec<Option<u32>> = Vec::new();
    let mut k: usize = 0;
    while k < n
        invariant
            k <= n,
            dist@.len() == k,
            forall|i: int| 0 <= i < k ==> #[trigger] dist@[i] is None,
        decreases n - k,
    {
        dist.push(None);
        k = k + 1;
    }
    dist[start] = Some(0);
    let mut queue: Vec<usize> = Vec::new();
    queue.push(start);
    proof {
        assert(valid_path(*graph, seq![start]));
        assert(path_weight(*graph, seq![start]) == 0);
        assert(connects(*graph, seq![start], start as int, start as int));
    }
    while queue.len() > 0
        invariant
            graph.wf(),
            start < graph.n(),
            goal < graph.n(),
            n == graph.n(),
            bfs_state_ok(*graph, start as int, dist@),
            queue_ok(*graph, dist@, queue@),
            settled_stable(*graph, dist@, queue@),
        decreases sum_pot(dist@), queue@.len(),
    {
        let ghost dist0 = dist@;
        let ghost queue0 = queue@;
        let cur = queue.remove(0);
        proof {
            assert(queue0[0] == cur);
            assert(queue@ =~= queue0.drop_first());
            lemma_sum_pot_nonneg(dist@);
        }
        let dcur = match dist[cur] {
            Some(d) => d,
            None => {
                proof {
                    assert(dist0[cur as int] is Some);
                }
                0
            },
        };
        proof {
            assert forall|u: int|
                0 <= u < graph.n() && (#[trigger] dist@[u]) is Some && !queue@.contains(u as usize)
                    && u != cur implies node_stable(*graph, dist@, u) by {
                if queue0.contains(u as usize) {
                    let qi = choose|qi: int| 0 <= qi < queue0.len() && queue0[qi] == u as usize;
                    assert(queue@[qi - 1] == u as usize);
                } else {
                    assert(node_stable(*graph, dist@, u));
                }
            }
        }
        let mut nb: usize = 0;
        while nb < n
            invariant
                graph.wf(),
                start < graph.n(),
                n == graph.n(),
                cur < graph.n(),
                nb <= n,
                dcur < u32::MAX,
                dist@[cur as int] == Some(dcur),
                bfs_state_ok(*graph, start as int, dist@),
                queue_ok(*graph, dist@, queue@),
                forall|u: int|
                    0 <= u < graph.n() && (#[trigger] dist@[u]) is Some && !queue@.contains(
                        u as usize,
                    ) && u != cur ==> node_stable(*graph, dist@, u),
                forall|v: int|
                    0 <= v < nb && (#[trigger] graph.edge(cur as int, v)) is Some && dcur
                        + graph.weight(cur as int, v) < u32::MAX ==> dist@[v] is Some
                        && dist@[v]->Some_0 <= dcur + graph.weight(cur as int, v),
                sum_pot(dist@) <= sum_pot(dist0),
                queue@.len() >= queue0.len() - 1,
                queue@.len() > queue0.len() - 1 ==> sum_pot(dist@) < sum_pot(dist0),
            decreases n - nb,
        {
            let w_opt = graph.adjacency[cur][nb];
            match w_opt {
                Some(w) => {
                    let nd_wide: u64 = dcur as u64 + w as u64;
                    if nd_wide < (u32::MAX as u64) {
                        let nd: u32 = dcur + w;
                        let improve = match dist[nb] {
                            None => true,
                            Some(old_d) => old_d > nd,
                        };
                        if improve {
                            proof {
                                let pcur = choose|p: Seq<usize>|
                                    #[trigger] connects(*graph, p, start as int, cur as int)
                                        && path_weight(*graph, p) == dcur;
                                lemma_path_push(*graph, pcur, nb);
                                let pnew = pcur.push(nb);
                                assert(valid_path(*graph, pnew)) by {
                                    assert forall|kk: int| 0 <= kk < pnew.len() - 1 implies (
                                    #[trigger] graph.edge(
                                        pnew[kk] as int,
                                        pnew[kk + 1] as int,
                                    )) is Some by {
                                        if kk < pnew.len() - 2 {
                                            assert(graph.edge(
                                                pcur[kk] as int,
                                                pcur[kk + 1] as int,
                                            ) is Some);
                                        } else {
                                            assert(pnew[kk] == cur && pnew[kk + 1] == nb);
                                        }
                                    }
                                }
                                assert(connects(*graph, pnew, start as int, nb as int));
                                assert(path_weight(*graph, pnew) == nd);
                                lemma_sum_pot_update(dist@, nb as int, Some(nd));
                            }
                            let ghost dist_pre = dist@;
                            let ghost queue_pre = queue@;
                            dist[nb] = Some(nd);
                            queue.push(nb);
                            proof {
                                lemma_stability_after_relax(
                                    *graph,
                                    dist_pre,
                                    dist@,
                                    queue_pre,
                                    queue@,
                                    nb as int,
                                    nd,
                                    cur as int,
                                );
                            }
                        }
                    }
                },
                None => {},
            }
            nb = nb + 1;
        }
        proof {
            assert forall|u: int|
                0 <= u < graph.n() && (#[trigger] dist@[u]) is Some && !queue@.contains(u as usize)
                implies node_stable(*graph, dist@, u) by {
                if u == cur {
                    assert forall|v: int|
                        0 <= v < graph.n() && (#[trigger] graph.edge(u, v)) is Some
                            && dist@[u]->Some_0 + graph.weight(u, v) < u32::MAX implies dist@[v]
                        is Some && dist@[v]->Some_0 <= dist@[u]->Some_0 + graph.weight(u, v) by {
                        assert(dist@[cur as int] == Some(dcur));
                    }
                }
            }
            lemma_sum_pot_nonneg(dist@);
        }
    }
    let r = dist[goal];
    proof {
        assert forall|u: int|
            0 <= u < graph.n() && (#[trigger] dist@[u]) is Some implies node_stable(
            *graph,
            dist@,
            u,
        ) by {
            assert(!queue@.contains(u as usize));
        }
        match r {
            Some(d) => {
                assert forall|p: Seq<usize>|
                    #[trigger] connects(*graph, p, start as int, goal as int) implies path_weight(
                    *graph,
                    p,
                ) >= d by {
                    if path_weight(*graph, p) < u32::MAX {
                        lemma_stable_dominates(*graph, start as int, dist@, p, goal as int);
                    }
                }
            },
            None => {
                assert forall|p: Seq<usize>|
                    #[trigger] connects(*graph, p, start as int, goal as int) implies path_weight(
                    *graph,
                    p,
                ) >= u32::MAX by {
                    if path_weight(*graph, p) < u32::MAX {
                        lemma_stable_dominates(*graph, start as int, dist@, p, goal as int);
                    }
                }
            },
        }
    }
    r
}

/// The matrix entry for the ordered pair `(a, b)`: the sentinel exactly when
/// every walk from `a` to `b` weighs at least the sentinel (in particular
/// when none exists); otherwise the exact minimum walk weight.
pub open spec fn entry_ok(g: CityGraph, a: int, b: int, d: u32) -> bool {
    if d == u32::MAX {
        forall|p: Seq<usize>| #[trigger] connects(g, p, a, b) ==> path_weight(g, p) >= u32::MAX
    } else {
        (exists|p: Seq<usize>| #[trigger] connects(g, p, a, b) && path_weight(g, p) == d) && (
        forall|p: Seq<usize>| #[trigger] connects(g, p, a, b) ==> path_weight(g, p) >= d)
    }
}

/// An entry is determined by what it states: two values that both satisfy
/// `entry_ok` for opposite orders of a pair are equal in a symmetric graph.
proof fn lemma_entry_unique_symmetric(g: CityGraph, a: int, b: int, d1: u32, d2: u32)
    requires
        g.symmetric(),
        entry_ok(g, a, b, d1),
        entry_ok(g, b, a, d2),
    ensures
        d1 == d2,
{
    if d1 != u32::MAX {
        let p = choose|p: Seq<usize>| #[trigger] connects(g, p, a, b) && path_weight(g, p) == d1;
        lemma_path_reverse(g, p);
        assert(connects(g, p.reverse(), b, a));
    }
    if d2 != u32::MAX {
        let p = choose|p: Seq<usize>| #[trigger] connects(g, p, b, a) && path_weight(g, p) == d2;
        lemma_path_reverse(g, p);
        assert(connects(g, p.reverse(), a, b));
    }
}

/// All-pairs shortest-path matrix over the ordered target list. Entry
/// `(i, j)` holds the exact minimum walk weight in the graph between targets
/// `i` and `j`, with the sentinel standing for "no walk below the sentinel";
/// the diagonal is fixed at zero without a search. On a symmetric graph the
/// matrix is symmetric.
pub fn build_distance_matrix(graph: &CityGraph, targets: &Vec<usize>) -> (matrix: Vec<Vec<u32>>)
    requires
        graph.wf(),
        forall|k: int| 0 <= k < targets@.len() ==> #[trigger] targets@[k] < graph.n(),
    ensures
        sq_matrix(matrix_view(matrix), targets@.len() as int),
        forall|i: int| 0 <= i < targets@.len() ==> #[trigger] matrix_view(matrix)[i][i] == 0,
        forall|i: int, j: int|
            0 <= i < targets@.len() && 0 <= j < targets@.len() && i != j ==> entry_ok(
                *graph,
                targets@[i] as int,
                targets@[j] as int,
                #[trigger] matrix_view(matrix)[i][j],
            ),
        graph.symmetric() ==> forall|i: int, j: int|
            0 <= i < targets@.len() && 0 <= j < targets@.len()
                ==> #[trigger] matrix_view(matrix)[i][j] == matrix_view(matrix)[j][i],
{
    let n = targets.len();
    let mut matrix: Vec<Vec<u32>> = Vec::new();
    let mut i: usize = 0;
    while i < n
        invariant
            i <= n,
            n == targets@.len(),
            graph.wf(),
            forall|k: int| 0 <= k < targets@.len() ==> #[trigger] targets@[k] < graph.n(),
            matrix@.len() == i,
            forall|a: int| 0 <= a < i ==> #[trigger] matrix@[a]@.len() == n,
            forall|a: int| 0 <= a < i ==> #[trigger] matrix@[a]@[a] == 0,
            forall|a: int, b: int|
                0 <= a < i && 0 <= b < n && a != b ==> entry_ok(
                    *graph,
                    targets@[a] as int,
                    targets@[b] as int,
                    #[trigger] matrix@[a]@[b],
                ),
        decreases n - i,
    {
        let mut row: Vec<u32> = Vec::new();
        let mut j: usize = 0;
        while j < n
            invariant
                j <= n,
                i < n,
                n == targets@.len(),
                graph.wf(),
                forall|k: int| 0 <= k < targets@.len() ==> #[trigger] targets@[k] < graph.n(),
                row@.len() == j,
                i < n ==> (forall|b: int| 0 <= b < j && b == i ==> #[trigger] row@[b] == 0),
                forall|b: int|
                    0 <= b < j && b != i ==> entry_ok(
                        *graph,
                        targets@[i as int] as int,
                        targets@[b] as int,
                        #[trigger] row@[b],
                    ),
            decreases n - j,
        {
            if i == j {
                row.push(0);
            } else {
                match bfs_distance(graph, targets[i], targets[j]) {
                    Some(d) => {
                        row.push(d);
                    },
                    None => {
                        row.push(u32::MAX);
                    },
                }
            }
            j = j + 1;
        }
        matrix.push(row);
        i = i + 1;
    }
    proof {
        if graph.symmetric() {
            assert forall|a: int, b: int|
                0 <= a < targets@.len() && 0 <= b < targets@.len()
                implies #[trigger] matrix_view(matrix)[a][b] == matrix_view(matrix)[b][a] by {
                if a != b {
                    lemma_entry_unique_symmetric(
                        *graph,
                        targets@[a] as int,
                        targets@[b] as int,
                        matrix@[a]@[b],
                        matrix@[b]@[a],
                    );
                }
            }
        }
    }
    matrix
}

/// Factorial.
pub open spec fn fact(n: nat) -> nat
    decreases n,
{
    if n == 0 {
        1
    } else {
        n * fact((n - 1) as nat)
    }
}

proof fn lemma_fact_pos(n: nat)
    ensures
        fact(n) >= 1,
    decreases n,
{
    if n > 0 {
        lemma_fact_pos((n - 1) as nat);
        let f = fact((n - 1) as nat);
        assert(n * f >= 1) by (nonlinear_arith)
            requires
                n >= 1,
                f >= 1,
        ;
    }
}

/// Generates, by recursive in-place swapping, every ordering of the elements
/// from position `start` on, emitting one copy of the array per ordering and
/// restoring the array before returning.
fn permute(arr: &mut Vec<usize>, start: usize, results: &mut Vec<Vec<usize>>)
    requires
        start <= old(arr)@.len(),
    ensures
        final(arr)@ == old(arr)@,
        final(results)@.len() == old(results)@.len() + fact(
            (old(arr)@.len() - start) as nat,
        ),
        forall|k: int|
            0 <= k < old(results)@.len() ==> #[trigger] final(results)@[k] == old(results)@[k],
        forall|k: int|
            old(results)@.len() <= k < final(results)@.len()
                ==> (#[trigger] final(results)@[k]@).to_multiset() == old(arr)@.to_multiset(),
        forall|k: int|
            old(results)@.len() <= k < final(results)@.len()
                ==> (#[trigger] final(results)@[k]@).subrange(0, start as int) == old(
                arr,
            )@.subrange(0, start as int),
        old(arr)@.no_duplicates() ==> (forall|k1: int, k2: int|
            #![trigger final(results)@[k1], final(results)@[k2]]
            old(results)@.len() <= k1 < k2 < final(results)@.len() ==> final(results)@[k1]@
                != final(results)@[k2]@),
        final(results)@.len() > old(results)@.len(),
        final(results)@[old(results)@.len() as int]@ == old(arr)@,
    decreases old(arr)@.len() - start,
{
    let ghost a0 = arr@;
    let ghost r0 = results@;
    if start >= arr.len() {
        let copy = clone_perm(arr);
        results.push(copy);
        proof {
            assert(results@[r0.len() as int]@.subrange(0, start as int) =~= a0.subrange(
                0,
                start as int,
            ));
        }
        return;
    }
    let mut i: usize = start;
    while i < arr.len()
        invariant
            start < a0.len(),
            start <= i <= a0.len(),
            a0 == old(arr)@,
            r0 == old(results)@,
            arr@ == a0,
            results@.len() == r0.len() + (i - start) * fact((a0.len() - start - 1) as nat),
            forall|k: int| 0 <= k < r0.len() ==> #[trigger] results@[k] == r0[k],
            forall|k: int|
                r0.len() <= k < results@.len() ==> (#[trigger] results@[k]@).to_multiset()
                    == a0.to_multiset(),
            forall|k: int|
                r0.len() <= k < results@.len() ==> (#[trigger] results@[k]@).subrange(
                    0,
                    start as int,
                ) == a0.subrange(0, start as int),
            forall|k: int|
                r0.len() <= k < results@.len() ==> exists|ii: int|
                    start <= ii < i && (#[trigger] results@[k]@)[start as int] == a0[ii],
            a0.no_duplicates() ==> (forall|k1: int, k2: int|
                #![trigger results@[k1], results@[k2]]
                r0.len() <= k1 < k2 < results@.len() ==> results@[k1]@ != results@[k2]@),
            i > start ==> results@.len() > r0.len() && results@[r0.len() as int]@ == a0,
        decreases a0.len() - i,
    {
        let ghost rpre = results@;
        let tmp = arr[start];
        let vi = arr[i];
        arr[start] = vi;
        arr[i] = tmp;
        proof {
            assert(arr@ == a0.update(start as int, a0[i as int]).update(i as int, a0[start as int]));
            lemma_swap_multiset(a0, start as int, i as int);
        }
        let ghost aswap = arr@;
        proof {
            assert(arr@.len() == a0.len());
            if i == start {
                assert(aswap =~= a0);
            }
            if a0.no_duplicates() {
                a0.lemma_multiset_has_no_duplicates();
                aswap.lemma_multiset_has_no_duplicates_conv();
            }
        }
        permute(arr, start + 1, results);
        let tmp2 = arr[start];
        let vi2 = arr[i];
        arr[start] = vi2;
        arr[i] = tmp2;
        proof {
            assert(arr@ == aswap.update(start as int, aswap[i as int]).update(
                i as int,
                aswap[start as int],
            ));
            assert(arr@ =~= a0);
            assert(results@.len() == rpre.len() + fact((a0.len() - start - 1) as nat));
            assert((i - start + 1) * fact((a0.len() - start - 1) as nat) == (i - start) * fact(
                (a0.len() - start - 1) as nat,
            ) + fact((a0.len() - start - 1) as nat)) by (nonlinear_arith);
            assert(aswap[start as int] == a0[i as int]);
            assert forall|k: int| rpre.len() <= k < results@.len() implies {
                let e = (#[trigger] results@[k])@;
                &&& e.subrange(0, start as int) == a0.subrange(0, start as int)
                &&& e[start as int] == a0[i as int]
            } by {
                let e = results@[k]@;
                e.to_multiset_ensures();
                aswap.to_multiset_ensures();
                assert(e.len() == aswap.len());
                assert(e.subrange(0, (start + 1) as int) == aswap.subrange(0, (start + 1) as int));
                assert(e[start as int] == e.subrange(0, (start + 1) as int)[start as int]);
                assert(e[start as int] == aswap[start as int]);
                assert(e.subrange(0, start as int) =~= a0.subrange(0, start as int)) by {
                    assert forall|idx: int| 0 <= idx < start implies e[idx] == a0[idx] by {
                        assert(e.subrange(0, (start + 1) as int)[idx] == e[idx]);
                        assert(aswap.subrange(0, (start + 1) as int)[idx] == aswap[idx]);
                        assert(aswap[idx] == a0[idx]);
                    }
                }
            }
            assert forall|k: int| r0.len() <= k < results@.len() implies exists|ii: int|
                start <= ii < i + 1 && (#[trigger] results@[k]@)[start as int] == a0[ii] by {
                if k < rpre.len() {
                    let ii = choose|ii: int|
                        start <= ii < i && (#[trigger] rpre[k]@)[start as int] == a0[ii];
                    assert(start <= ii < i + 1 && results@[k]@[start as int] == a0[ii]);
                } else {
                    assert(start <= i < i + 1 && results@[k]@[start as int] == a0[i as int]);
                }
            }
            if a0.no_duplicates() {
                assert forall|k1: int, k2: int|
                    #![trigger results@[k1], results@[k2]]
                    r0.len() <= k1 < k2 < results@.len() implies results@[k1]@ != results@[k2]@ by {
                    if rpre.len() <= k1 {
                    } else if k2 < rpre.len() {
                    } else {
                        let ii = choose|ii: int|
                            start <= ii < i && (#[trigger] rpre[k1]@)[start as int] == a0[ii];
                        assert(results@[k1]@[start as int] == a0[ii]);
                        assert(results@[k2]@[start as int] == a0[i as int]);
                        assert(a0[ii] != a0[i as int]);
                    }
                }
            }
        }
        i = i + 1;
    }
    proof {
        assert(fact((a0.len() - start) as nat) == (a0.len() - start) * fact(
            (a0.len() - start - 1) as nat,
        ));
        lemma_fact_pos((a0.len() - start) as nat);
    }
}

/// Generates the full list of orderings of `items`: `len!` permutations, each
/// holding exactly the elements of `items`.
pub fn generate_permutations(items: Vec<usize>) -> (results: Vec<Vec<usize>>)
    ensures
        results@.len() == fact(items@.len() as nat),
        forall|k: int|
            0 <= k < results@.len() ==> (#[trigger] results@[k]@).to_multiset()
                == items@.to_multiset(),
        forall|k: int| 0 <= k < results@.len() ==> (#[trigger] results@[k]@).len() == items@.len(),
        items@.no_duplicates() ==> (forall|k1: int, k2: int|
            #![trigger results@[k1], results@[k2]]
            0 <= k1 < k2 < results@.len() ==> results@[k1]@ != results@[k2]@),
        results@.len() >= 1,
        results@[0]@ == items@,
{
    let mut results: Vec<Vec<usize>> = Vec::new();
    let mut current = clone_perm(&items);
    permute(&mut current, 0, &mut results);
    proof {
        assert forall|k: int| 0 <= k < results@.len() implies (#[trigger] results@[k]@).len()
            == items@.len() by {
            results@[k]@.to_multiset_ensures();
            items@.to_multiset_ensures();
        }
    }
    results
}

/// Replaces each index of each permutation with the named location it stands
/// for.
pub fn index_perms_to_city_perms(index_perms: Vec<Vec<usize>>, cities: &Vec<String>) -> (r: Vec<
    Vec<String>,
>)
    requires
        perms_in_bounds(perms_view(index_perms), cities@.len() as int),
    ensures
        r@.len() == index_perms@.len(),
        forall|a: int| 0 <= a < r@.len() ==> #[trigger] r@[a]@.len() == index_perms@[a]@.len(),
        forall|a: int, b: int|
            0 <= a < r@.len() && 0 <= b < r@[a]@.len() ==> #[trigger] r@[a]@[b]@ == cities@[
                index_perms@[a]@[b] as int
            ]@,
{
    let mut r: Vec<Vec<String>> = Vec::new();
    let mut a: usize = 0;
    while a < index_perms.len()
        invariant
            a <= index_perms@.len(),
            perms_in_bounds(perms_view(index_perms), cities@.len() as int),
            r@.len() == a,
            forall|x: int| 0 <= x < a ==> #[trigger] r@[x]@.len() == index_perms@[x]@.len(),
            forall|x: int, y: int|
                0 <= x < a && 0 <= y < r@[x]@.len() ==> #[trigger] r@[x]@[y]@ == cities@[
                    index_perms@[x]@[y] as int
                ]@,
        decreases index_perms@.len() - a,
    {
        let perm = &index_perms[a];
        let mut names: Vec<String> = Vec::new();
        let mut b: usize = 0;
        while b < perm.len()
            invariant
                b <= perm@.len(),
                perm@ == index_perms@[a as int]@,
                a < index_perms@.len(),
                perms_in_bounds(perms_view(index_perms), cities@.len() as int),
                names@.len() == b,
                forall|y: int|
                    0 <= y < b ==> #[trigger] names@[y]@ == cities@[perm@[y] as int]@,
            decreases perm@.len() - b,
        {
            let idx = perm[b];
            proof {
                assert(perms_view(index_perms)[a as int][b as int] == perm@[b as int]);
            }
            names.push(cities[idx].clone());
            b = b + 1;
        }
        r.push(names);
        a = a + 1;
    }
    r
}

} // verus!
