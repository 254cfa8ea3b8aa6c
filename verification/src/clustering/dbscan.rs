//! Density-based clustering (DBSCAN) over occupied grid cells.
//!
//! The algorithm works on a flat list of cell coordinates. Per-point
//! working state (visited flags, cluster membership) lives in arrays
//! addressed by the point's position in the input list; that position
//! is the permanent identity of the point in the output.
//!
//! Neighbourhood queries are brute force, so one run is quadratic in
//! the number of points; that is acceptable because the points are
//! occupied grid cells, not raw input coordinates.

use vstd::prelude::*;

verus! {

use crate::ErrorKind;

/// Squared Euclidean distance between two cell coordinates.
pub open spec fn spec_dist_sq(p: (usize, usize), q: (usize, usize)) -> int {
    (p.0 - q.0) * (p.0 - q.0) + (p.1 - q.1) * (p.1 - q.1)
}

/// Whether `q` lies within true Euclidean distance `eps` of `p`.
/// Squared distances are compared, which is exact for integer
/// coordinates and a non-negative integer radius.
pub open spec fn spec_within(p: (usize, usize), q: (usize, usize), eps: int) -> bool {
    spec_dist_sq(p, q) <= eps * eps
}

/// Indices of the points within `eps` of `center` among the first `k`
/// points of the data set, in ascending order.
pub open spec fn spec_neighbors_upto(
    data: Seq<(usize, usize)>,
    eps: int,
    center: (usize, usize),
    k: int,
) -> Seq<usize>
    decreases k,
{
    if k <= 0 {
        Seq::empty()
    } else {
        let rest = spec_neighbors_upto(data, eps, center, k - 1);
        if spec_within(center, data[k - 1], eps) {
            rest.push((k - 1) as usize)
        } else {
            rest
        }
    }
}

/// The `eps`-neighbourhood of `center`: the indices of every point of
/// the data set within Euclidean distance `eps`, in ascending order.
/// A point in the data set is always a neighbour of itself.
pub open spec fn spec_neighbors(
    data: Seq<(usize, usize)>,
    eps: int,
    center: (usize, usize),
) -> Seq<usize> {
    spec_neighbors_upto(data, eps, center, data.len() as int)
}

/// Every index in the partial neighbourhood is below `k`, and an index
/// below `k` occurs in it exactly when its point is within `eps`.
proof fn lemma_neighbors_upto_properties(
    data: Seq<(usize, usize)>,
    eps: int,
    center: (usize, usize),
    k: int,
)
    requires
        0 <= k <= data.len(),
        k <= usize::MAX,
    ensures
        forall|t: int| 0 <= t < spec_neighbors_upto(data, eps, center, k).len()
            ==> #[trigger] spec_neighbors_upto(data, eps, center, k)[t] < k,
        forall|j: int| 0 <= j < k ==> (spec_within(center, data[j], eps)
            <==> spec_neighbors_upto(data, eps, center, k).contains(j as usize)),
        spec_neighbors_upto(data, eps, center, k).len() <= k,
    decreases k,
{
    if k > 0 {
        lemma_neighbors_upto_properties(data, eps, center, k - 1);
        let rest = spec_neighbors_upto(data, eps, center, k - 1);
        let nb = spec_neighbors_upto(data, eps, center, k);
        assert forall|j: int| 0 <= j < k implies (spec_within(center, data[j], eps)
            <==> nb.contains(j as usize)) by {
            if spec_within(center, data[k - 1], eps) {
                assert(nb == rest.push((k - 1) as usize));
                if j < k - 1 {
                    assert(spec_within(center, data[j], eps) <==> rest.contains(j as usize));
                    if rest.contains(j as usize) {
                        let t = choose|t: int| 0 <= t < rest.len() && rest[t] == j as usize;
                        assert(nb[t] == j as usize);
                    }
                    if nb.contains(j as usize) {
                        let t = choose|t: int| 0 <= t < nb.len() && nb[t] == j as usize;
                        assert(t < rest.len());
                        assert(rest[t] == j as usize);
                    }
                } else {
                    assert(nb[nb.len() - 1] == j as usize);
                }
            } else {
                assert(nb == rest);
                if j == k - 1 && nb.contains(j as usize) {
                    let t = choose|t: int| 0 <= t < nb.len() && nb[t] == j as usize;
                    assert(rest[t] < k - 1);
                }
            }
        }
    }
}

/// Exact version of the neighbourhood test, free of floating point:
/// the squared distance is compared against the squared radius.
fn within_eps(p: (usize, usize), q: (usize, usize), eps: i64) -> (r: bool)
    requires
        eps >= 0,
    ensures
        r == spec_within(p, q, eps as int),
{
    let dx: usize = if p.0 >= q.0 {
        p.0 - q.0
    } else {
        q.0 - p.0
    };
    let dy: usize = if p.1 >= q.1 {
        p.1 - q.1
    } else {
        q.1 - p.1
    };
    proof {
        assert((p.0 - q.0) * (p.0 - q.0) == dx as int * dx as int) by (nonlinear_arith)
            requires
                dx as int == p.0 - q.0 || dx as int == q.0 - p.0,
        ;
        assert((p.1 - q.1) * (p.1 - q.1) == dy as int * dy as int) by (nonlinear_arith)
            requires
                dy as int == p.1 - q.1 || dy as int == q.1 - p.1,
        ;
    }
    let e = eps as u128;
    if (dx as u128) > e || (dy as u128) > e {
        proof {
            assert(dx as int * dx as int + dy as int * dy as int > e as int * e as int)
                by (nonlinear_arith)
                requires
                    dx as int > e as int >= 0 || dy as int > e as int >= 0,
                    dx as int >= 0,
                    dy as int >= 0,
            ;
        }
        false
    } else {
        proof {
            assert(dx as int * dx as int <= e as int * e as int
                && dy as int * dy as int <= e as int * e as int) by (nonlinear_arith)
                requires
                    0 <= dx as int <= e as int,
                    0 <= dy as int <= e as int,
            ;
            assert((e as int) * (e as int) <= (0x7fff_ffff_ffff_ffff * 0x7fff_ffff_ffff_ffff))
                by (nonlinear_arith)
                requires
                    0 <= e as int,
                    (e as int) < 0x8000_0000_0000_0000,
            ;
        }
        let dx2 = (dx as u128) * (dx as u128);
        let dy2 = (dy as u128) * (dy as u128);
        dx2 + dy2 <= e * e
    }
}

/// All indices of points within `eps` of `center`, in ascending
/// order. Brute force over the whole data set.
fn region_query(data: &Vec<(usize, usize)>, eps: i64, center: (usize, usize)) -> (r: Vec<usize>)
    requires
        eps >= 0,
    ensures
        r@ == spec_neighbors(data@, eps as int, center),
{
    let mut r: Vec<usize> = Vec::new();
    let mut j: usize = 0;
    while j < data.len()
        invariant
            j <= data@.len(),
            eps >= 0,
            r@ == spec_neighbors_upto(data@, eps as int, center, j as int),
        decreases data@.len() - j,
    {
        if within_eps(center, data[j], eps) {
            r.push(j);
        }
        j = j + 1;
    }
    r
}

/// Number of unvisited entries in a visited-flag array.
pub open spec fn spec_count_unvisited(visited: Seq<bool>) -> nat
    decreases visited.len(),
{
    if visited.len() == 0 {
        0
    } else {
        spec_count_unvisited(visited.drop_last()) + (if visited.last() {
            0nat
        } else {
            1nat
        })
    }
}

/// Marking an unvisited entry strictly decreases the unvisited count.
proof fn lemma_count_unvisited_update(visited: Seq<bool>, p: int)
    requires
        0 <= p < visited.len(),
        !visited[p],
    ensures
        spec_count_unvisited(visited.update(p, true)) < spec_count_unvisited(visited),
    decreases visited.len(),
{
    let upd = visited.update(p, true);
    if p == visited.len() - 1 {
        assert(upd.drop_last() =~= visited.drop_last());
    } else {
        assert(upd.drop_last() =~= visited.drop_last().update(p, true));
        lemma_count_unvisited_update(visited.drop_last(), p);
    }
}

/// Whether point index `idx` already belongs to a finished cluster or
/// to the cluster currently being grown.
pub open spec fn spec_member_of_any(
    done: Seq<(usize, Seq<usize>)>,
    current: Seq<usize>,
    idx: usize,
) -> bool {
    current.contains(idx) || exists|c: int|
        0 <= c < done.len() && #[trigger] done[c].1.contains(idx)
}

/// The mathematical value of a list of (representative, members)
/// entries.
pub open spec fn spec_entries_view(entries: Seq<(usize, Vec<usize>)>) -> Seq<(usize, Seq<usize>)> {
    Seq::new(entries.len(), |c: int| (entries[c].0, entries[c].1@))
}

/// One cluster expansion, step by step over the frontier. For each
/// frontier element in order: if it is unvisited it is marked visited
/// and, when its own neighbourhood is core-sized, that neighbourhood
/// is appended to the frontier; then the element joins the current
/// cluster unless it already belongs to some cluster. Frontier
/// entries pointing outside the state arrays are skipped; a valid run
/// never produces them.
pub open spec fn spec_expand(
    data: Seq<(usize, usize)>,
    eps: int,
    min_pts: int,
    done: Seq<(usize, Seq<usize>)>,
    visited: Seq<bool>,
    members: Seq<usize>,
    frontier: Seq<usize>,
) -> (Seq<bool>, Seq<usize>)
    decreases spec_count_unvisited(visited), frontier.len(),
        via spec_expand_decreases
{
    if frontier.len() == 0 {
        (visited, members)
    } else {
        let p = frontier[0];
        let rest = frontier.drop_first();
        if p as int >= visited.len() {
            spec_expand(data, eps, min_pts, done, visited, members, rest)
        } else {
            let members2 = if !spec_member_of_any(done, members, p) {
                members.push(p)
            } else {
                members
            };
            if !visited[p as int] {
                let visited2 = visited.update(p as int, true);
                let nb = spec_neighbors(data, eps, data[p as int]);
                let frontier2 = if nb.len() >= min_pts {
                    rest + nb
                } else {
                    rest
                };
                spec_expand(data, eps, min_pts, done, visited2, members2, frontier2)
            } else {
                spec_expand(data, eps, min_pts, done, visited, members2, rest)
            }
        }
    }
}

#[via_fn]
proof fn spec_expand_decreases(
    data: Seq<(usize, usize)>,
    eps: int,
    min_pts: int,
    done: Seq<(usize, Seq<usize>)>,
    visited: Seq<bool>,
    members: Seq<usize>,
    frontier: Seq<usize>,
) {
    if frontier.len() > 0 {
        let p = frontier[0];
        if (p as int) < visited.len() && !visited[p as int] {
            lemma_count_unvisited_update(visited, p as int);
        }
    }
}

/// The whole clustering run from point index `i` on. Each unvisited
/// point is visited in input order; a point with a core-sized
/// neighbourhood seeds a new cluster keyed by its own index, grown by
/// one expansion over that neighbourhood.
pub open spec fn spec_run(
    data: Seq<(usize, usize)>,
    eps: int,
    min_pts: int,
    visited: Seq<bool>,
    clusters: Seq<(usize, Seq<usize>)>,
    i: int,
) -> (Seq<bool>, Seq<(usize, Seq<usize>)>)
    decreases data.len() - i,
{
    if i < 0 || i >= data.len() {
        (visited, clusters)
    } else if visited[i] {
        spec_run(data, eps, min_pts, visited, clusters, i + 1)
    } else {
        let visited2 = visited.update(i, true);
        let nb = spec_neighbors(data, eps, data[i]);
        if nb.len() < min_pts {
            spec_run(data, eps, min_pts, visited2, clusters, i + 1)
        } else {
            let expanded = spec_expand(data, eps, min_pts, clusters, visited2, Seq::empty(), nb);
            spec_run(
                data,
                eps,
                min_pts,
                expanded.0,
                clusters.push((i as usize, expanded.1)),
                i + 1,
            )
        }
    }
}

/// The cluster map of one clustering run: for each cluster, in
/// creation order, the index of its representative (the first core
/// point discovered) and its member indices in discovery order.
pub open spec fn spec_cluster(
    data: Seq<(usize, usize)>,
    eps: int,
    min_pts: int,
) -> Seq<(usize, Seq<usize>)> {
    spec_run(data, eps, min_pts, Seq::new(data.len(), |j: int| false), Seq::empty(), 0).1
}

/// The outcome of one clustering run: one entry per cluster, in
/// creation order, holding the representative's index and the member
/// indices in discovery order. A point index appears in at most one
/// entry; points of no entry are noise.
pub struct ClusterResult {
    pub entries: Vec<(usize, Vec<usize>)>,
}

impl View for ClusterResult {
    type V = Seq<(usize, Seq<usize>)>;

    open spec fn view(&self) -> Seq<(usize, Seq<usize>)> {
        spec_entries_view(self.entries@)
    }
}

/// Linear scan for an index in a member list.
fn vec_contains_idx(v: &Vec<usize>, idx: usize) -> (r: bool)
    ensures
        r == v@.contains(idx),
{
    let mut t: usize = 0;
    while t < v.len()
        invariant
            t <= v@.len(),
            forall|s: int| 0 <= s < t ==> v@[s] != idx,
        decreases v@.len() - t,
    {
        if v[t] == idx {
            return true;
        }
        t = t + 1;
    }
    false
}

/// Whether `idx` is already a member of a finished cluster or of the
/// cluster currently being grown.
fn member_of_any(done: &Vec<(usize, Vec<usize>)>, current: &Vec<usize>, idx: usize) -> (r: bool)
    ensures
        r == spec_member_of_any(spec_entries_view(done@), current@, idx),
{
    if vec_contains_idx(current, idx) {
        return true;
    }
    let mut c: usize = 0;
    while c < done.len()
        invariant
            c <= done@.len(),
            !current@.contains(idx),
            forall|s: int| 0 <= s < c
                ==> !#[trigger] spec_entries_view(done@)[s].1.contains(idx),
        decreases done@.len() - c,
    {
        if vec_contains_idx(&done[c].1, idx) {
            proof {
                assert(spec_entries_view(done@)[c as int].1.contains(idx));
            }
            return true;
        }
        c = c + 1;
    }
    false
}

/// DBSCAN over a flat list of cell coordinates.
///
/// Points are identified by their position in `data_set`. The run
/// visits points in input order; a point whose `eps`-neighbourhood
/// (itself included) holds at least `min_pts` points becomes a core
/// point and seeds a cluster keyed by its own index, which then grows
/// by iterative frontier expansion. A point is recorded in at most
/// one cluster — the first one that reaches it — and a provisional
/// noise point is reclassified by joining a later cluster. Points
/// reached by no cluster are omitted from the result.
///
/// The result is a deterministic function of `data_set`, `eps` and
/// `min_pts`: it equals [`spec_cluster`] exactly, keys and member
/// order included.
pub fn cluster(data_set: Vec<(usize, usize)>, eps: i64, min_pts: usize) -> (r: Result<
    ClusterResult,
    ErrorKind,
>)
    ensures
        match r {
            Ok(cr) => {
                &&& eps >= 0
                &&& min_pts >= 1
                &&& cr@ == spec_cluster(data_set@, eps as int, min_pts as int)
            },
            Err(e) => e == ErrorKind::InvalidParameter && (eps < 0 || min_pts < 1),
        },
{
    if eps < 0 || min_pts < 1 {
        return Err(ErrorKind::InvalidParameter);
    }
    let n = data_set.len();
    let mut visited: Vec<bool> = vec![false; n];
    let mut clusters: Vec<(usize, Vec<usize>)> = Vec::new();
    let ghost target = spec_run(
        data_set@,
        eps as int,
        min_pts as int,
        visited@,
        Seq::empty(),
        0,
    );
    proof {
        assert(visited@ =~= Seq::new(data_set@.len(), |j: int| false));
        assert(spec_entries_view(clusters@) =~= Seq::<(usize, Seq<usize>)>::empty());
    }
    let mut i: usize = 0;
    while i < n
        invariant
            i <= n,
            n == data_set@.len(),
            visited@.len() == n,
            eps >= 0,
            min_pts >= 1,
            spec_run(
                data_set@,
                eps as int,
                min_pts as int,
                visited@,
                spec_entries_view(clusters@),
                i as int,
            ) == target,
        decreases n - i,
    {
        let ghost vis0 = visited@;
        let ghost cl0 = spec_entries_view(clusters@);
        if !visited[i] {
            visited[i] = true;
            let nb = region_query(&data_set, eps, data_set[i]);
            if nb.len() >= min_pts {
                let ghost done0 = spec_entries_view(clusters@);
                let ghost exp = spec_expand(
                    data_set@,
                    eps as int,
                    min_pts as int,
                    done0,
                    visited@,
                    Seq::empty(),
                    nb@,
                );
                let mut members: Vec<usize> = Vec::new();
                let mut frontier: Vec<usize> = nb;
                proof {
                    lemma_neighbors_upto_properties(
                        data_set@,
                        eps as int,
                        data_set@[i as int],
                        n as int,
                    );
                    assert(frontier@.skip(0) =~= frontier@);
                }
                let mut k: usize = 0;
                while k < frontier.len()
                    invariant
                        k <= frontier@.len(),
                        n == data_set@.len(),
                        visited@.len() == n,
                        eps >= 0,
                        min_pts >= 1,
                        spec_entries_view(clusters@) == done0,
                        forall|t: int| 0 <= t < frontier@.len()
                            ==> (#[trigger] frontier@[t]) < n,
                        spec_expand(
                            data_set@,
                            eps as int,
                            min_pts as int,
                            done0,
                            visited@,
                            members@,
                            frontier@.skip(k as int),
                        ) == exp,
                    decreases spec_count_unvisited(visited@), frontier@.len() - k,
                {
                    let ghost visA = visited@;
                    let ghost memA = members@;
                    let ghost froA = frontier@;
                    let p = frontier[k];
                    proof {
                        assert(froA.skip(k as int)[0] == froA[k as int]);
                        assert(froA.skip(k as int).drop_first() =~= froA.skip(k as int + 1));
                    }
                    if !visited[p] {
                        visited[p] = true;
                        proof {
                            lemma_count_unvisited_update(visA, p as int);
                        }
                        let mut nn = region_query(&data_set, eps, data_set[p]);
                        proof {
                            lemma_neighbors_upto_properties(
                                data_set@,
                                eps as int,
                                data_set@[p as int],
                                n as int,
                            );
                        }
                        if nn.len() >= min_pts {
                            frontier.append(&mut nn);
                            proof {
                                assert(frontier@.skip(k as int + 1) =~= froA.skip(k as int + 1)
                                    + spec_neighbors(data_set@, eps as int, data_set@[p as int]));
                            }
                        }
                    }
                    if !member_of_any(&clusters, &members, p) {
                        members.push(p);
                    }
                    k = k + 1;
                }
                proof {
                    assert(frontier@.skip(k as int) =~= Seq::<usize>::empty());
                    assert((visited@, members@) == exp);
                }
                clusters.push((i, members));
                proof {
                    assert(spec_entries_view(clusters@) =~= done0.push((i as usize, exp.1)));
                }
            }
        }
        proof {
            assert(spec_run(
                data_set@,
                eps as int,
                min_pts as int,
                vis0,
                cl0,
                i as int,
            ) == spec_run(
                data_set@,
                eps as int,
                min_pts as int,
                visited@,
                spec_entries_view(clusters@),
                i as int + 1,
            ));
        }
        i = i + 1;
    }
    let result = ClusterResult { entries: clusters };
    proof {
        assert(result@ == target.1);
    }
    Ok(result)
}

/// No point index occurs twice across the member lists of a cluster
/// map: not twice in one list, and not in two different lists.
pub open spec fn spec_members_disjoint(clusters: Seq<(usize, Seq<usize>)>) -> bool {
    forall|c1: int, t1: int, c2: int, t2: int|
        0 <= c1 < clusters.len() && 0 <= t1 < clusters[c1].1.len() && 0 <= c2 < clusters.len()
            && 0 <= t2 < clusters[c2].1.len() && (c1 != c2 || t1 != t2)
            ==> #[trigger] clusters[c1].1[t1] != #[trigger] clusters[c2].1[t2]
}

/// The finished clusters and the cluster being grown hold pairwise
/// distinct member indices, all below `n`.
spec fn spec_state_distinct(
    done: Seq<(usize, Seq<usize>)>,
    members: Seq<usize>,
    n: int,
) -> bool {
    &&& spec_members_disjoint(done)
    &&& forall|t1: int, t2: int|
        0 <= t1 < t2 < members.len() ==> #[trigger] members[t1] != #[trigger] members[t2]
    &&& forall|c: int, t: int, s: int|
        0 <= c < done.len() && 0 <= t < done[c].1.len() && 0 <= s < members.len()
            ==> #[trigger] done[c].1[t] != #[trigger] members[s]
    &&& forall|c: int, t: int|
        0 <= c < done.len() && 0 <= t < done[c].1.len()
            ==> (#[trigger] done[c].1[t] as int) < n
    &&& forall|s: int| 0 <= s < members.len() ==> (#[trigger] members[s] as int) < n
}

/// Expansion never changes the length of the visited-flag array.
proof fn lemma_expand_len(
    data: Seq<(usize, usize)>,
    eps: int,
    min_pts: int,
    done: Seq<(usize, Seq<usize>)>,
    visited: Seq<bool>,
    members: Seq<usize>,
    frontier: Seq<usize>,
)
    ensures
        spec_expand(data, eps, min_pts, done, visited, members, frontier).0.len()
            == visited.len(),
    decreases spec_count_unvisited(visited), frontier.len(),
{
    if frontier.len() > 0 {
        let p = frontier[0];
        let rest = frontier.drop_first();
        if p as int >= visited.len() {
            lemma_expand_len(data, eps, min_pts, done, visited, members, rest);
        } else {
            let members2 = if !spec_member_of_any(done, members, p) {
                members.push(p)
            } else {
                members
            };
            if !visited[p as int] {
                lemma_count_unvisited_update(visited, p as int);
                let visited2 = visited.update(p as int, true);
                let nb = spec_neighbors(data, eps, data[p as int]);
                let frontier2 = if nb.len() >= min_pts {
                    rest + nb
                } else {
                    rest
                };
                lemma_expand_len(data, eps, min_pts, done, visited2, members2, frontier2);
            } else {
                lemma_expand_len(data, eps, min_pts, done, visited, members2, rest);
            }
        }
    }
}

/// Expansion never records an index twice and never records one out
/// of range: a point joins the current cluster only when it belongs
/// to no cluster at all.
proof fn lemma_expand_distinct(
    data: Seq<(usize, usize)>,
    eps: int,
    min_pts: int,
    done: Seq<(usize, Seq<usize>)>,
    visited: Seq<bool>,
    members: Seq<usize>,
    frontier: Seq<usize>,
)
    requires
        spec_state_distinct(done, members, visited.len() as int),
    ensures
        spec_expand(data, eps, min_pts, done, visited, members, frontier).0.len()
            == visited.len(),
        spec_state_distinct(
            done,
            spec_expand(data, eps, min_pts, done, visited, members, frontier).1,
            visited.len() as int,
        ),
    decreases spec_count_unvisited(visited), frontier.len(),
{
    if frontier.len() > 0 {
        let p = frontier[0];
        let rest = frontier.drop_first();
        if p as int >= visited.len() {
            lemma_expand_distinct(data, eps, min_pts, done, visited, members, rest);
        } else {
            let n = visited.len() as int;
            let members2 = if !spec_member_of_any(done, members, p) {
                members.push(p)
            } else {
                members
            };
            if !spec_member_of_any(done, members, p) {
                assert(!members.contains(p));
                assert forall|t1: int, t2: int|
                    0 <= t1 < t2 < members2.len() implies #[trigger] members2[t1]
                    != #[trigger] members2[t2] by {
                    if t2 == members.len() {
                        if members[t1] == p {
                            assert(members.contains(p));
                        }
                    } else {
                        assert(members2[t1] == members[t1] && members2[t2] == members[t2]);
                    }
                }
                assert forall|c: int, t: int, s: int|
                    0 <= c < done.len() && 0 <= t < done[c].1.len() && 0 <= s < members2.len()
                    implies #[trigger] done[c].1[t] != #[trigger] members2[s] by {
                    if s == members.len() {
                        if done[c].1[t] == p {
                            assert(done[c].1.contains(p));
                            assert(spec_member_of_any(done, members, p));
                        }
                    } else {
                        assert(members2[s] == members[s]);
                    }
                }
                assert forall|s: int| 0 <= s < members2.len() implies (
                #[trigger] members2[s] as int) < n by {
                    if s < members.len() {
                        assert(members2[s] == members[s]);
                    }
                }
            }
            assert(spec_state_distinct(done, members2, n));
            if !visited[p as int] {
                lemma_count_unvisited_update(visited, p as int);
                let visited2 = visited.update(p as int, true);
                assert(visited2.len() == visited.len());
                let nb = spec_neighbors(data, eps, data[p as int]);
                let frontier2 = if nb.len() >= min_pts {
                    rest + nb
                } else {
                    rest
                };
                lemma_expand_distinct(data, eps, min_pts, done, visited2, members2, frontier2);
            } else {
                lemma_expand_distinct(data, eps, min_pts, done, visited, members2, rest);
            }
        }
    }
}

/// A whole run keeps the member lists pairwise disjoint and in
/// range.
proof fn lemma_run_distinct(
    data: Seq<(usize, usize)>,
    eps: int,
    min_pts: int,
    visited: Seq<bool>,
    clusters: Seq<(usize, Seq<usize>)>,
    i: int,
)
    requires
        data.len() <= usize::MAX,
        visited.len() == data.len(),
        spec_state_distinct(clusters, Seq::empty(), visited.len() as int),
    ensures
        spec_state_distinct(
            spec_run(data, eps, min_pts, visited, clusters, i).1,
            Seq::empty(),
            visited.len() as int,
        ),
    decreases data.len() - i,
{
    if 0 <= i < data.len() {
        if visited[i] {
            lemma_run_distinct(data, eps, min_pts, visited, clusters, i + 1);
        } else {
            let visited2 = visited.update(i, true);
            assert(visited2.len() == visited.len());
            let nb = spec_neighbors(data, eps, data[i]);
            if nb.len() < min_pts {
                lemma_run_distinct(data, eps, min_pts, visited2, clusters, i + 1);
            } else {
                lemma_expand_distinct(
                    data,
                    eps,
                    min_pts,
                    clusters,
                    visited2,
                    Seq::empty(),
                    nb,
                );
                let expanded = spec_expand(
                    data,
                    eps,
                    min_pts,
                    clusters,
                    visited2,
                    Seq::empty(),
                    nb,
                );
                let n = visited.len() as int;
                let grown = expanded.1;
                let clusters2 = clusters.push((i as usize, grown));
                assert forall|c1: int, t1: int, c2: int, t2: int|
                    0 <= c1 < clusters2.len() && 0 <= t1 < clusters2[c1].1.len() && 0 <= c2
                        < clusters2.len() && 0 <= t2 < clusters2[c2].1.len() && (c1 != c2 || t1
                        != t2) implies #[trigger] clusters2[c1].1[t1]
                    != #[trigger] clusters2[c2].1[t2] by {
                    if c1 < clusters.len() && c2 < clusters.len() {
                        assert(clusters2[c1] == clusters[c1] && clusters2[c2] == clusters[c2]);
                        assert(clusters[c1].1[t1] != clusters[c2].1[t2]);
                    } else if c1 < clusters.len() {
                        assert(clusters2[c1] == clusters[c1] && clusters2[c2].1 == grown);
                        assert(clusters[c1].1[t1] != grown[t2]);
                    } else if c2 < clusters.len() {
                        assert(clusters2[c1].1 == grown && clusters2[c2] == clusters[c2]);
                        assert(clusters[c2].1[t2] != grown[t1]);
                    } else {
                        assert(clusters2[c1].1 == grown && clusters2[c2].1 == grown);
                        assert(grown[t1] != grown[t2]);
                    }
                }
                assert forall|c: int, t: int|
                    0 <= c < clusters2.len() && 0 <= t < clusters2[c].1.len() implies (
                #[trigger] clusters2[c].1[t] as int) < n by {
                    if c < clusters.len() {
                        assert(clusters2[c] == clusters[c]);
                    } else {
                        assert(clusters2[c].1 == grown);
                    }
                }
                assert(spec_state_distinct(clusters2, Seq::empty(), n));
                lemma_run_distinct(data, eps, min_pts, expanded.0, clusters2, i + 1);
            }
        }
    }
}

/// Law: a point index belongs to at most one cluster, and no member
/// list holds an index twice; every member index points into the
/// data set.
pub proof fn lemma_cluster_members_unique(data: Seq<(usize, usize)>, eps: int, min_pts: int)
    requires
        data.len() <= usize::MAX,
    ensures
        spec_members_disjoint(spec_cluster(data, eps, min_pts)),
        forall|c: int, t: int|
            0 <= c < spec_cluster(data, eps, min_pts).len() && 0 <= t < spec_cluster(
                data,
                eps,
                min_pts,
            )[c].1.len() ==> (#[trigger] spec_cluster(data, eps, min_pts)[c].1[t] as int)
                < data.len(),
{
    lemma_run_distinct(
        data,
        eps,
        min_pts,
        Seq::new(data.len(), |j: int| false),
        Seq::empty(),
        0,
    );
}

/// Every cluster key is a core point's own index, keys are strictly
/// ascending, and each key points into the data set.
pub open spec fn spec_keys_sound(
    data: Seq<(usize, usize)>,
    eps: int,
    min_pts: int,
    clusters: Seq<(usize, Seq<usize>)>,
) -> bool {
    &&& forall|c1: int, c2: int|
        0 <= c1 < c2 < clusters.len()
            ==> (#[trigger] clusters[c1].0) < (#[trigger] clusters[c2].0)
    &&& forall|c: int|
        0 <= c < clusters.len() ==> (#[trigger] clusters[c].0 as int) < data.len()
    &&& forall|c: int|
        0 <= c < clusters.len() ==> spec_neighbors(
            data,
            eps,
            data[#[trigger] clusters[c].0 as int],
        ).len() >= min_pts
}

/// A whole run only ever adds clusters keyed by the core point that
/// seeded them, in ascending input order.
proof fn lemma_run_keys(
    data: Seq<(usize, usize)>,
    eps: int,
    min_pts: int,
    visited: Seq<bool>,
    clusters: Seq<(usize, Seq<usize>)>,
    i: int,
)
    requires
        data.len() <= usize::MAX,
        visited.len() == data.len(),
        spec_keys_sound(data, eps, min_pts, clusters),
        forall|c: int| 0 <= c < clusters.len() ==> (#[trigger] clusters[c].0 as int) < i,
    ensures
        spec_keys_sound(data, eps, min_pts, spec_run(data, eps, min_pts, visited, clusters, i).1),
    decreases data.len() - i,
{
    if 0 <= i < data.len() {
        if visited[i] {
            lemma_run_keys(data, eps, min_pts, visited, clusters, i + 1);
        } else {
            let visited2 = visited.update(i, true);
            let nb = spec_neighbors(data, eps, data[i]);
            if nb.len() < min_pts {
                lemma_run_keys(data, eps, min_pts, visited2, clusters, i + 1);
            } else {
                let expanded = spec_expand(
                    data,
                    eps,
                    min_pts,
                    clusters,
                    visited2,
                    Seq::empty(),
                    nb,
                );
                lemma_expand_len(data, eps, min_pts, clusters, visited2, Seq::empty(), nb);
                let clusters2 = clusters.push((i as usize, expanded.1));
                assert forall|c1: int, c2: int|
                    0 <= c1 < c2 < clusters2.len() implies (#[trigger] clusters2[c1].0)
                    < (#[trigger] clusters2[c2].0) by {
                    assert(clusters2[c1] == clusters[c1]);
                    if c2 < clusters.len() {
                        assert(clusters2[c2] == clusters[c2]);
                        assert(clusters[c1].0 < clusters[c2].0);
                    } else {
                        assert(clusters2[c2].0 == i as usize);
                        assert((clusters[c1].0 as int) < i);
                    }
                }
                assert forall|c: int|
                    0 <= c < clusters2.len() implies (#[trigger] clusters2[c].0 as int) < i
                    + 1 by {
                    if c < clusters.len() {
                        assert(clusters2[c] == clusters[c]);
                    }
                }
                assert forall|c: int|
                    0 <= c < clusters2.len() implies (#[trigger] clusters2[c].0 as int)
                    < data.len() by {
                    if c < clusters.len() {
                        assert(clusters2[c] == clusters[c]);
                    }
                }
                assert forall|c: int|
                    0 <= c < clusters2.len() implies spec_neighbors(
                    data,
                    eps,
                    data[#[trigger] clusters2[c].0 as int],
                ).len() >= min_pts by {
                    if c < clusters.len() {
                        assert(clusters2[c] == clusters[c]);
                    } else {
                        assert(clusters2[c].0 == i as usize);
                    }
                }
                lemma_run_keys(data, eps, min_pts, expanded.0, clusters2, i + 1);
            }
        }
    }
}

/// Law: every cluster is keyed by the index of the core point that
/// seeded it — its neighbourhood reaches `min_pts` — and the keys
/// ascend in discovery order.
pub proof fn lemma_cluster_keys_sound(data: Seq<(usize, usize)>, eps: int, min_pts: int)
    requires
        data.len() <= usize::MAX,
    ensures
        spec_keys_sound(data, eps, min_pts, spec_cluster(data, eps, min_pts)),
{
    lemma_run_keys(
        data,
        eps,
        min_pts,
        Seq::new(data.len(), |j: int| false),
        Seq::empty(),
        0,
    );
}

/// In a data set whose points are pairwise farther than `eps` apart,
/// every point's neighbourhood is exactly itself.
proof fn lemma_neighbors_upto_sparse(data: Seq<(usize, usize)>, eps: int, i: int, k: int)
    requires
        eps >= 0,
        0 <= i < data.len(),
        0 <= k <= data.len(),
        k <= usize::MAX,
        forall|a: int, b: int|
            0 <= a < data.len() && 0 <= b < data.len() && a != b
                ==> #[trigger] spec_dist_sq(data[a], data[b]) > eps * eps,
    ensures
        spec_neighbors_upto(data, eps, data[i], k) == if k <= i {
            Seq::<usize>::empty()
        } else {
            seq![i as usize]
        },
    decreases k,
{
    if k > 0 {
        lemma_neighbors_upto_sparse(data, eps, i, k - 1);
        if k - 1 == i {
            assert(spec_dist_sq(data[i], data[i]) == 0) by {
                let z = data[i];
                assert((z.0 - z.0) * (z.0 - z.0) + (z.1 - z.1) * (z.1 - z.1) == 0)
                    by (nonlinear_arith);
            }
            assert(spec_neighbors_upto(data, eps, data[i], k)
                =~= Seq::<usize>::empty().push(i as usize));
            assert(Seq::<usize>::empty().push(i as usize) =~= seq![i as usize]);
        }
    }
}

/// A sparse run creates no clusters, whatever state it starts from.
proof fn lemma_run_sparse(
    data: Seq<(usize, usize)>,
    eps: int,
    min_pts: int,
    visited: Seq<bool>,
    clusters: Seq<(usize, Seq<usize>)>,
    i: int,
)
    requires
        eps >= 0,
        min_pts >= 2,
        data.len() <= usize::MAX,
        visited.len() == data.len(),
        forall|a: int, b: int|
            0 <= a < data.len() && 0 <= b < data.len() && a != b
                ==> #[trigger] spec_dist_sq(data[a], data[b]) > eps * eps,
    ensures
        spec_run(data, eps, min_pts, visited, clusters, i).1 == clusters,
    decreases data.len() - i,
{
    if 0 <= i < data.len() {
        if visited[i] {
            lemma_run_sparse(data, eps, min_pts, visited, clusters, i + 1);
        } else {
            lemma_neighbors_upto_sparse(data, eps, i, data.len() as int);
            assert(spec_neighbors(data, eps, data[i]).len() == 1);
            lemma_run_sparse(data, eps, min_pts, visited.update(i, true), clusters, i + 1);
        }
    }
}

/// Law: a data set whose points lie pairwise farther than `eps` from
/// every other point yields an empty cluster map — every point is
/// noise. (With a minimum neighbourhood size of one, every point
/// would instead form its own cluster, so that size is excluded.)
pub proof fn lemma_cluster_sparse(data: Seq<(usize, usize)>, eps: int, min_pts: int)
    requires
        eps >= 0,
        min_pts >= 2,
        data.len() <= usize::MAX,
        forall|a: int, b: int|
            0 <= a < data.len() && 0 <= b < data.len() && a != b
                ==> #[trigger] spec_dist_sq(data[a], data[b]) > eps * eps,
    ensures
        spec_cluster(data, eps, min_pts) == Seq::<(usize, Seq<usize>)>::empty(),
{
    lemma_run_sparse(
        data,
        eps,
        min_pts,
        Seq::new(data.len(), |j: int| false),
        Seq::empty(),
        0,
    );
}

/// In a data set whose points all lie within `eps` of one another,
/// every point's neighbourhood is the whole data set.
proof fn lemma_neighbors_upto_dense(data: Seq<(usize, usize)>, eps: int, i: int, k: int)
    requires
        0 <= i < data.len(),
        0 <= k <= data.len(),
        k <= usize::MAX,
        forall|a: int, b: int|
            0 <= a < data.len() && 0 <= b < data.len()
                ==> #[trigger] spec_dist_sq(data[a], data[b]) <= eps * eps,
    ensures
        spec_neighbors_upto(data, eps, data[i], k) == Seq::new(k as nat, |t: int| t as usize),
    decreases k,
{
    if k > 0 {
        lemma_neighbors_upto_dense(data, eps, i, k - 1);
        assert(spec_neighbors_upto(data, eps, data[i], k) =~= Seq::new(
            k as nat,
            |t: int| t as usize,
        ));
    } else {
        assert(spec_neighbors_upto(data, eps, data[i], k) =~= Seq::new(
            k as nat,
            |t: int| t as usize,
        ));
    }
}

/// Expansion over a frontier of points that are all visited and all
/// already members changes nothing.
proof fn lemma_expand_all_done(
    data: Seq<(usize, usize)>,
    eps: int,
    min_pts: int,
    done: Seq<(usize, Seq<usize>)>,
    visited: Seq<bool>,
    members: Seq<usize>,
    frontier: Seq<usize>,
)
    requires
        forall|t: int| 0 <= t < frontier.len()
            ==> (#[trigger] frontier[t] as int) < visited.len(),
        forall|t: int| 0 <= t < frontier.len() ==> visited[#[trigger] frontier[t] as int],
        forall|t: int| 0 <= t < frontier.len()
            ==> spec_member_of_any(done, members, #[trigger] frontier[t]),
    ensures
        spec_expand(data, eps, min_pts, done, visited, members, frontier)
            == (visited, members),
    decreases frontier.len(),
{
    if frontier.len() > 0 {
        lemma_expand_all_done(
            data,
            eps,
            min_pts,
            done,
            visited,
            members,
            frontier.drop_first(),
        );
    }
}

/// One dense expansion sweeps up the whole data set: starting from
/// the seed's full-data-set frontier, it visits every point and
/// collects every index, in ascending order.
proof fn lemma_expand_dense(
    data: Seq<(usize, usize)>,
    eps: int,
    min_pts: int,
    k: int,
    rem: Seq<usize>,
)
    requires
        eps >= 0,
        1 <= min_pts <= data.len(),
        data.len() <= usize::MAX,
        0 <= k <= data.len(),
        forall|a: int, b: int|
            0 <= a < data.len() && 0 <= b < data.len()
                ==> #[trigger] spec_dist_sq(data[a], data[b]) <= eps * eps,
        forall|t: int| 0 <= t < rem.len() ==> (#[trigger] rem[t] as int) < data.len(),
    ensures
        spec_expand(
            data,
            eps,
            min_pts,
            Seq::empty(),
            Seq::new(data.len(), |j: int| j == 0 || j < k),
            Seq::new(k as nat, |t: int| t as usize),
            Seq::new((data.len() - k) as nat, |t: int| (k + t) as usize) + rem,
        ) == (
            Seq::new(data.len(), |j: int| true),
            Seq::new(data.len(), |t: int| t as usize),
        ),
    decreases data.len() - k,
{
    let n = data.len() as int;
    let done = Seq::<(usize, Seq<usize>)>::empty();
    let visited = Seq::new(n as nat, |j: int| j == 0 || j < k);
    let members = Seq::new(k as nat, |t: int| t as usize);
    let frontier = Seq::new((n - k) as nat, |t: int| (k + t) as usize) + rem;
    if k == n {
        assert(visited =~= Seq::new(n as nat, |j: int| true));
        assert(frontier =~= rem);
        assert forall|t: int| 0 <= t < rem.len() implies spec_member_of_any(
            done,
            members,
            #[trigger] rem[t],
        ) by {
            assert(members[rem[t] as int] == rem[t]);
        }
        lemma_expand_all_done(data, eps, min_pts, done, visited, members, rem);
    } else {
        let p = frontier[0];
        assert(p == k as usize);
        let rest = frontier.drop_first();
        if k == 0 {
            // the seed itself: already visited, joins the cluster
            assert(visited[0]);
            assert(!spec_member_of_any(done, members, p));
            let members2 = members.push(p);
            assert(members2 =~= Seq::new((k + 1) as nat, |t: int| t as usize));
            assert(rest =~= Seq::new((n - (k + 1)) as nat, |t: int| (k + 1 + t) as usize)
                + rem);
            assert(visited =~= Seq::new(n as nat, |j: int| j == 0 || j < k + 1));
            lemma_expand_dense(data, eps, min_pts, k + 1, rem);
        } else {
            // an unvisited point: it is core, so the whole data set
            // joins the frontier once more
            assert(!visited[k]);
            assert(!members.contains(p)) by {
                if members.contains(p) {
                    let t = choose|t: int| 0 <= t < members.len() && members[t] == p;
                    assert(members[t] == t as usize);
                }
            }
            assert(!spec_member_of_any(done, members, p));
            let members2 = members.push(p);
            assert(members2 =~= Seq::new((k + 1) as nat, |t: int| t as usize));
            let visited2 = visited.update(k, true);
            assert(visited2 =~= Seq::new(n as nat, |j: int| j == 0 || j < k + 1));
            lemma_neighbors_upto_dense(data, eps, k, n);
            let nb = spec_neighbors(data, eps, data[k]);
            assert(nb.len() == n >= min_pts);
            let rem2 = rem + nb;
            assert(rest + nb =~= Seq::new((n - (k + 1)) as nat, |t: int| (k + 1 + t) as usize)
                + rem2);
            assert forall|t: int| 0 <= t < rem2.len() implies (#[trigger] rem2[t] as int)
                < n by {
                if t >= rem.len() {
                    assert(rem2[t] == nb[t - rem.len()]);
                }
            }
            lemma_expand_dense(data, eps, min_pts, k + 1, rem2);
        }
    }
}

/// A run over an entirely visited data set creates no further
/// clusters.
proof fn lemma_run_all_visited(
    data: Seq<(usize, usize)>,
    eps: int,
    min_pts: int,
    visited: Seq<bool>,
    clusters: Seq<(usize, Seq<usize>)>,
    i: int,
)
    requires
        forall|j: int| 0 <= j < data.len() ==> visited[j],
        visited.len() == data.len(),
    ensures
        spec_run(data, eps, min_pts, visited, clusters, i) == (visited, clusters),
    decreases data.len() - i,
{
    if 0 <= i < data.len() {
        lemma_run_all_visited(data, eps, min_pts, visited, clusters, i + 1);
    }
}

/// Law: a data set whose points all lie mutually within `eps` and
/// that holds at least `min_pts` points forms exactly one cluster,
/// keyed by the first point, holding every point in input order.
pub proof fn lemma_cluster_dense(data: Seq<(usize, usize)>, eps: int, min_pts: int)
    requires
        eps >= 0,
        min_pts >= 1,
        data.len() >= min_pts,
        data.len() <= usize::MAX,
        forall|a: int, b: int|
            0 <= a < data.len() && 0 <= b < data.len()
                ==> #[trigger] spec_dist_sq(data[a], data[b]) <= eps * eps,
    ensures
        spec_cluster(data, eps, min_pts) == seq![
            (0usize, Seq::new(data.len(), |t: int| t as usize)),
        ],
{
    let n = data.len() as int;
    let visited0 = Seq::new(n as nat, |j: int| false);
    let clusters0 = Seq::<(usize, Seq<usize>)>::empty();
    assert(!visited0[0]);
    lemma_neighbors_upto_dense(data, eps, 0, n);
    let nb = spec_neighbors(data, eps, data[0]);
    assert(nb.len() == n >= min_pts);
    let visited2 = visited0.update(0, true);
    assert(visited2 =~= Seq::new(n as nat, |j: int| j == 0 || j < 0));
    assert(Seq::<usize>::empty() =~= Seq::new(0nat, |t: int| t as usize));
    assert(nb =~= Seq::new((n - 0) as nat, |t: int| (0 + t) as usize) + Seq::<usize>::empty());
    lemma_expand_dense(data, eps, min_pts, 0, Seq::empty());
    let expanded = spec_expand(data, eps, min_pts, clusters0, visited2, Seq::empty(), nb);
    assert(expanded.0 =~= Seq::new(n as nat, |j: int| true));
    let all_members = Seq::new(n as nat, |t: int| t as usize);
    let clusters1 = clusters0.push((0usize, all_members));
    assert forall|j: int| 0 <= j < data.len() implies expanded.0[j] by {}
    lemma_run_all_visited(data, eps, min_pts, expanded.0, clusters1, 1);
    assert(spec_cluster(data, eps, min_pts) =~= seq![(0usize, all_members)]);
}

/// Law: clustering is deterministic. Two results of a run on the same
/// input and the same parameters are identical — the same keys in the
/// same order with the same member lists.
pub proof fn lemma_cluster_deterministic(
    data: Seq<(usize, usize)>,
    eps: int,
    min_pts: int,
    r1: Seq<(usize, Seq<usize>)>,
    r2: Seq<(usize, Seq<usize>)>,
)
    requires
        r1 == spec_cluster(data, eps, min_pts),
        r2 == spec_cluster(data, eps, min_pts),
    ensures
        r1 == r2,
{
}

} // verus!
