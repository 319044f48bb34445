//! Grouping of candidate wire points into clusters: points joined through
//! chains of close neighbours form one cluster, found by depth-first search.
use vstd::prelude::*;

verus! {

/// `w` is listed among the neighbours of `v`.
pub open spec fn edge(nb: Seq<Vec<usize>>, v: usize, w: usize) -> bool {
    nb[v as int]@.contains(w)
}

/// Every neighbour listed is the index of a point.
pub open spec fn valid_neighbours(nb: Seq<Vec<usize>>) -> bool {
    forall|v: int, k: int| 0 <= v < nb.len() && 0 <= k < nb[v]@.len() ==> #[trigger] nb[v]@[k] < nb.len()
}

/// `path` leads from `from` to `to` through neighbours, and each of its
/// points satisfies `member`.
pub open spec fn walk(nb: Seq<Vec<usize>>, path: Seq<usize>, from: usize, to: usize, member: Set<usize>) -> bool {
    &&& path.len() > 0
    &&& path[0] == from
    &&& path.last() == to
    &&& forall|k: int| 0 <= k < path.len() - 1 ==> #[trigger] edge(nb, path[k], path[k + 1])
    &&& forall|k: int| 0 <= k < path.len() ==> member.contains(#[trigger] path[k])
}

/// Point `k` of cluster `c` is reached from the first point of the cluster
/// through neighbours that all lie in the cluster.
pub open spec fn reached_in_cluster(nb: Seq<Vec<usize>>, clusters: Seq<Vec<usize>>, c: int, k: int) -> bool {
    exists|path: Seq<usize>| #[trigger] walk(nb, path, clusters[c]@[0], clusters[c]@[k], clusters[c]@.to_set())
}

/// Point `v` lies in cluster `c`.
pub open spec fn in_cluster(clusters: Seq<Vec<usize>>, c: int, v: usize) -> bool {
    clusters[c]@.contains(v)
}

/// Point `v` lies in one of the first `n` clusters.
pub open spec fn clustered_before(clusters: Seq<Vec<usize>>, n: int, v: usize) -> bool {
    exists|c: int| 0 <= c < n && #[trigger] in_cluster(clusters, c, v)
}

/// The clusters of points `0 .. n` under the neighbour lists `nb`:
/// - every point lies in exactly one cluster, and only once;
/// - each cluster starts with the lowest point that no earlier cluster holds;
/// - the neighbours of a cluster's points lie in it or in an earlier cluster;
/// - every point of a cluster is reached from its first point through
///   neighbours that all lie in the cluster.
pub open spec fn clusters_of(nb: Seq<Vec<usize>>, clusters: Seq<Vec<usize>>) -> bool {
    &&& forall|v: usize| v < nb.len() ==> #[trigger] clustered_before(clusters, clusters.len() as int, v)
    &&& forall|c: int, k: int| 0 <= c < clusters.len() && 0 <= k < clusters[c]@.len() ==> #[trigger] clusters[c]@[k] < nb.len()
    &&& forall|c1: int, k1: int, c2: int, k2: int|
        0 <= c1 < clusters.len() && 0 <= c2 < clusters.len() && 0 <= k1 < clusters[c1]@.len() && 0 <= k2
            < clusters[c2]@.len() && #[trigger] clusters[c1]@[k1] == #[trigger] clusters[c2]@[k2] ==> c1 == c2
            && k1 == k2
    &&& forall|c: int| 0 <= c < clusters.len() ==> #[trigger] clusters[c]@.len() > 0
    &&& forall|c: int, v: usize|
        0 <= c < clusters.len() && v < clusters[c]@[0] ==> #[trigger] clustered_before(clusters, c, v)
    &&& forall|c: int, v: usize, w: usize|
        0 <= c < clusters.len() && #[trigger] in_cluster(clusters, c, v) && #[trigger] edge(nb, v, w) ==> clustered_before(clusters, c + 1, w)
    &&& forall|c: int, k: int|
        0 <= c < clusters.len() && 0 <= k < clusters[c]@.len() ==> #[trigger] reached_in_cluster(nb, clusters, c, k)
}

/// Marks and stacks, in list order, those of the first `j` entries of
/// `list` not yet marked.
pub open spec fn push_unmarked(visited: Seq<bool>, stack: Seq<usize>, list: Seq<usize>, j: int) -> (Seq<bool>, Seq<usize>)
    decreases j,
{
    if j <= 0 {
        (visited, stack)
    } else {
        let (v, st) = push_unmarked(visited, stack, list, j - 1);
        let w = list[j - 1];
        if v[w as int] {
            (v, st)
        } else {
            (v.update(w as int, true), st.push(w))
        }
    }
}

/// One step of the depth-first search: the point on top of the stack joins
/// the cluster, and its unmarked neighbours are marked and stacked.
pub open spec fn dfs_step(nb: Seq<Vec<usize>>, visited: Seq<bool>, stack: Seq<usize>, cluster: Seq<usize>) -> (Seq<bool>, Seq<usize>, Seq<usize>) {
    let v = stack.last();
    let (vis, st) = push_unmarked(visited, stack.drop_last(), nb[v as int]@, nb[v as int]@.len() as int);
    (vis, st, cluster.push(v))
}

/// At most `fuel` steps of the depth-first search, stopping when the stack
/// is empty.
pub open spec fn dfs_steps(nb: Seq<Vec<usize>>, visited: Seq<bool>, stack: Seq<usize>, cluster: Seq<usize>, fuel: nat) -> (Seq<bool>, Seq<usize>, Seq<usize>)
    decreases fuel,
{
    if fuel == 0 || stack.len() == 0 {
        (visited, stack, cluster)
    } else {
        let (vis, st, cl) = dfs_step(nb, visited, stack, cluster);
        dfs_steps(nb, vis, st, cl, (fuel - 1) as nat)
    }
}

/// The clusters found, after `found`, by searching from each point from `i`
/// on that is not yet marked; a search runs until its stack is empty (it
/// takes at most one step per point).
pub open spec fn dfs_clusters_from(nb: Seq<Vec<usize>>, visited: Seq<bool>, i: int, found: Seq<Seq<usize>>) -> Seq<Seq<usize>>
    decreases nb.len() - i,
{
    if i >= nb.len() {
        found
    } else if visited[i] {
        dfs_clusters_from(nb, visited, i + 1, found)
    } else {
        let (vis, _st, cl) = dfs_steps(nb, visited.update(i, true), seq![i as usize], Seq::empty(), nb.len());
        dfs_clusters_from(nb, vis, i + 1, found.push(cl))
    }
}

/// The clusters of the depth-first search from every point in turn.
pub open spec fn dfs_clusters(nb: Seq<Vec<usize>>) -> Seq<Seq<usize>> {
    dfs_clusters_from(nb, Seq::new(nb.len(), |_x: int| false), 0, Seq::empty())
}

/// The points of each cluster.
pub open spec fn cluster_views(clusters: Seq<Vec<usize>>) -> Seq<Seq<usize>> {
    clusters.map_values(|c: Vec<usize>| c@)
}

/// The number of marked entries.
pub open spec fn count_true(s: Seq<bool>) -> nat
    decreases s.len(),
{
    if s.len() == 0 {
        0
    } else {
        count_true(s.drop_last()) + if s.last() {
            1nat
        } else {
            0nat
        }
    }
}

/// Marking an unmarked entry adds one mark, and there are never more marks
/// than entries.
proof fn lemma_count_true_mark(s: Seq<bool>, w: int)
    requires
        0 <= w < s.len(),
        !s[w],
    ensures
        count_true(s.update(w, true)) == count_true(s) + 1,
        count_true(s.update(w, true)) <= s.len(),
    decreases s.len(),
{
    lemma_count_true_le(s.update(w, true));
    if w < s.len() - 1 {
        assert(s.update(w, true).drop_last() =~= s.drop_last().update(w, true));
        lemma_count_true_mark(s.drop_last(), w);
    } else {
        assert(s.update(w, true).drop_last() =~= s.drop_last());
    }
}

/// There are never more marks than entries.
proof fn lemma_count_true_le(s: Seq<bool>)
    ensures
        count_true(s) <= s.len(),
    decreases s.len(),
{
    if s.len() > 0 {
        lemma_count_true_le(s.drop_last());
    }
}

/// The clusters of points joined through chains of neighbours, found by a
/// depth-first search from the lowest point not yet clustered; each cluster
/// lists its points in the order the search reaches them.
pub fn connected_clusters(neighbours: &Vec<Vec<usize>>) -> (clusters: Vec<Vec<usize>>)
    requires
        valid_neighbours(neighbours@),
    ensures
        cluster_views(clusters@) == dfs_clusters(neighbours@),
        clusters_of(neighbours@, clusters@),
{
    let ghost nb = neighbours@;
    let n = neighbours.len();
    let mut visited: Vec<bool> = Vec::new();
    let mut v: usize = 0;
    while v < n
        invariant
            n == nb.len(),
            v <= n,
            visited@.len() == v,
            forall|x: int| 0 <= x < v ==> !#[trigger] visited@[x],
        decreases n - v,
    {
        visited.push(false);
        v = v + 1;
    }
    let mut clusters: Vec<Vec<usize>> = Vec::new();
    assert(visited@ =~= Seq::new(nb.len(), |_x: int| false));
    assert(cluster_views(clusters@) =~= Seq::<Seq<usize>>::empty());
    let mut i: usize = 0;
    while i < n
        invariant
            dfs_clusters(nb) == dfs_clusters_from(nb, visited@, i as int, cluster_views(clusters@)),
            nb == neighbours@,
            n == nb.len(),
            valid_neighbours(nb),
            i <= n,
            visited@.len() == n,
            forall|x: usize| x < n ==> #[trigger] visited@[x as int] == clustered_before(clusters@, clusters@.len() as int, x),
            forall|x: usize| x < i ==> #[trigger] visited@[x as int],
            forall|c: int| 0 <= c < clusters@.len() ==> #[trigger] clusters@[c]@[0] < i,
            // The clusters found so far meet the conditions.
            forall|c: int, k: int| 0 <= c < clusters@.len() && 0 <= k < clusters@[c]@.len() ==> #[trigger] clusters@[c]@[k] < n,
            forall|c1: int, k1: int, c2: int, k2: int|
                0 <= c1 < clusters@.len() && 0 <= c2 < clusters@.len() && 0 <= k1 < clusters@[c1]@.len() && 0 <= k2
                    < clusters@[c2]@.len() && #[trigger] clusters@[c1]@[k1] == #[trigger] clusters@[c2]@[k2] ==> c1 == c2
                    && k1 == k2,
            forall|c: int| 0 <= c < clusters@.len() ==> #[trigger] clusters@[c]@.len() > 0,
            forall|c: int, x: usize|
                0 <= c < clusters@.len() && x < clusters@[c]@[0] ==> #[trigger] clustered_before(clusters@, c, x),
            forall|c: int, x: usize, w: usize|
                0 <= c < clusters@.len() && #[trigger] in_cluster(clusters@, c, x) && #[trigger] edge(nb, x, w) ==> clustered_before(clusters@, c + 1, w),
            forall|c: int, k: int|
                0 <= c < clusters@.len() && 0 <= k < clusters@[c]@.len() ==> #[trigger] reached_in_cluster(nb, clusters@, c, k),
        decreases n - i,
    {
        if visited[i] {
            i = i + 1;
            continue;
        }
        assert(!visited@[i as int]);
        let ghost fin = clusters@;
        let mut cluster: Vec<usize> = Vec::new();
        let mut stack: Vec<usize> = Vec::new();
        stack.push(i);
        let ghost mut marked: nat = count_true(visited@);
        let ghost mb = marked;
        let ghost mut t: nat = 0;
        let ghost v0 = visited@;
        proof {
            lemma_count_true_mark(visited@, i as int);
        }
        visited.set(i, true);
        assert forall|x: usize| x < i implies #[trigger] clustered_before(fin, fin.len() as int, x) by {
            assert(v0[x as int]);
        }
        proof {
            marked = marked + 1;
        }
        let ghost mut members: Set<usize> = set![i];
        let ghost mut paths: Map<usize, Seq<usize>> = map![i => seq![i]];
        let ghost vis1 = visited@;
        assert(walk(nb, seq![i], i, i, members));
        assert(stack@ == seq![i]);
        assert(cluster@ =~= Seq::<usize>::empty());
        while stack.len() > 0
            invariant
                vis1 == v0.update(i as int, true),
                dfs_steps(nb, vis1, seq![i], Seq::empty(), n as nat) == dfs_steps(nb, visited@, stack@, cluster@, (n - t) as nat),
                t + stack@.len() == marked - mb,
                t <= n,
                nb == neighbours@,
                n == nb.len(),
                valid_neighbours(nb),
                i < n,
                clusters@ == fin,
                visited@.len() == n,
                marked == count_true(visited@),
                marked <= n,
                forall|x: usize| x < n ==> #[trigger] visited@[x as int] == (clustered_before(fin, fin.len() as int, x) || members.contains(x)),
                forall|x: usize| #[trigger] members.contains(x) == (cluster@.contains(x) || stack@.contains(x)),
                forall|x: usize| x < i ==> #[trigger] clustered_before(fin, fin.len() as int, x),
                forall|x: usize| #[trigger] members.contains(x) ==> x < n && !clustered_before(fin, fin.len() as int, x),
                cluster@.no_duplicates(),
                stack@.no_duplicates(),
                cluster@.disjoint(stack@),
                cluster@.len() == 0 ==> stack@ == seq![i],
                cluster@.len() > 0 ==> cluster@[0] == i,
                forall|x: usize, w: usize| #[trigger] cluster@.contains(x) && #[trigger] edge(nb, x, w) ==> clustered_before(fin, fin.len() as int, w) || members.contains(w),
                forall|x: usize| #[trigger] members.contains(x) ==> paths.dom().contains(x) && walk(nb, paths[x], i, x, members),
            decreases n - marked, stack@.len(),
        {
            let ghost old_stack = stack@;
            let ghost old_cluster = cluster@;
            let ghost old_visited = visited@;
            let curr = stack.pop().unwrap();
            cluster.push(curr);
            proof {
                assert(old_stack =~= stack@.push(curr));
                assert(old_stack.contains(curr)) by {
                    assert(old_stack[old_stack.len() - 1] == curr);
                }
                assert(!stack@.contains(curr)) by {
                    if stack@.contains(curr) {
                        let k = choose|k: int| 0 <= k < stack@.len() && stack@[k] == curr;
                        assert(old_stack[k] == old_stack[old_stack.len() - 1]);
                    }
                }
                assert(!old_cluster.contains(curr));
                assert forall|x: usize| #[trigger] members.contains(x) == (cluster@.contains(x) || stack@.contains(x)) by {
                    lemma_contains_push(stack@, curr, x);
                    lemma_contains_push(old_cluster, curr, x);
                }
                assert(cluster@.no_duplicates()) by {
                    assert forall|a: int, b: int| 0 <= a < cluster@.len() && 0 <= b < cluster@.len() && a != b implies cluster@[a] != cluster@[b] by {
                        if a < old_cluster.len() && b < old_cluster.len() {
                        } else if a < old_cluster.len() {
                            assert(old_cluster.contains(cluster@[a]));
                        } else {
                            assert(old_cluster.contains(cluster@[b]));
                        }
                    }
                }
                assert(cluster@.disjoint(stack@)) by {
                    assert forall|a: int, b: int| 0 <= a < cluster@.len() && 0 <= b < stack@.len() implies cluster@[a] != stack@[b] by {
                        assert(old_stack[b] == stack@[b]);
                        if a == old_cluster.len() {
                            assert(stack@.contains(stack@[b]));
                        }
                    }
                }
                assert(cluster@.contains(curr)) by {
                    assert(cluster@[cluster@.len() - 1] == curr);
                }
                assert(members.contains(curr));
                assert forall|x: usize, w: usize| #[trigger] cluster@.contains(x) && x != curr && #[trigger] edge(nb, x, w) implies clustered_before(fin, fin.len() as int, w) || members.contains(w) by {
                    lemma_contains_push(old_cluster, curr, x);
                }
            }
            let ghost m0 = marked;
            let ghost s0 = stack@.len();
            let ghost st_p = stack@;
            let mut j: usize = 0;
            let nlen = neighbours[curr].len();
            while j < nlen
                invariant
                    nb == neighbours@,
                    n == nb.len(),
                    valid_neighbours(nb),
                    i < n,
                    curr < n,
                    clusters@ == fin,
                    nlen == nb[curr as int]@.len(),
                    j <= nlen,
                    (visited@, stack@) == push_unmarked(old_visited, st_p, nb[curr as int]@, j as int),
                    stack@.len() + m0 == s0 + marked,
                    marked >= m0,
                    marked == m0 ==> stack@.len() == s0,
                    cluster@.len() > 0,
                    cluster@.last() == curr,
                    visited@.len() == n,
                    marked == count_true(visited@),
                    marked <= n,
                    forall|x: usize| x < n ==> #[trigger] visited@[x as int] == (clustered_before(fin, fin.len() as int, x) || members.contains(x)),
                    forall|x: usize| #[trigger] members.contains(x) == (cluster@.contains(x) || stack@.contains(x)),
                    forall|x: usize| x < i ==> #[trigger] clustered_before(fin, fin.len() as int, x),
                    forall|x: usize| #[trigger] members.contains(x) ==> x < n && !clustered_before(fin, fin.len() as int, x),
                    cluster@.no_duplicates(),
                    stack@.no_duplicates(),
                    cluster@.disjoint(stack@),
                    cluster@[0] == i,
                    forall|x: usize, w: usize| #[trigger] cluster@.contains(x) && x != curr && #[trigger] edge(nb, x, w) ==> clustered_before(fin, fin.len() as int, w) || members.contains(w),
                    forall|k: int| 0 <= k < j ==> clustered_before(fin, fin.len() as int, #[trigger] nb[curr as int]@[k]) || members.contains(nb[curr as int]@[k]),
                    forall|x: usize| #[trigger] members.contains(x) ==> paths.dom().contains(x) && walk(nb, paths[x], i, x, members),
                decreases nlen - j,
            {
                let w = neighbours[curr][j];
                assert(w < n);
                if !visited[w] {
                    proof {
                        lemma_count_true_mark(visited@, w as int);
                    }
                    let ghost st0 = stack@;
                    assert(!members.contains(w));
                    visited.set(w, true);
                    stack.push(w);
                    proof {
                        marked = marked + 1;
                        assert(cluster@.contains(curr)) by {
                            assert(cluster@[cluster@.len() - 1] == curr);
                        }
                        assert(members.contains(curr));
                        let pc = paths[curr];
                        assert(walk(nb, pc, i, curr, members));
                        let p = pc.push(w);
                        assert(edge(nb, curr, w)) by {
                            assert(nb[curr as int]@[j as int] == w);
                        }
                        let old_members = members;
                        members = members.insert(w);
                        paths = paths.insert(w, p);
                        assert forall|x: usize| #[trigger] members.contains(x) implies paths.dom().contains(x) && walk(nb, paths[x], i, x, members) by {
                            if x == w {
                                assert(walk(nb, p, i, w, members)) by {
                                    assert forall|k: int| 0 <= k < p.len() - 1 implies #[trigger] edge(nb, p[k], p[k + 1]) by {
                                        if k < p.len() - 2 {
                                            assert(edge(nb, pc[k], pc[k + 1]));
                                        }
                                    }
                                    assert forall|k: int| 0 <= k < p.len() implies members.contains(#[trigger] p[k]) by {
                                        if k < p.len() - 1 {
                                            assert(old_members.contains(pc[k]));
                                        }
                                    }
                                }
                            } else {
                                assert(walk(nb, paths[x], i, x, old_members));
                                assert forall|k: int| 0 <= k < paths[x].len() implies members.contains(#[trigger] paths[x][k]) by {
                                    assert(old_members.contains(paths[x][k]));
                                }
                            }
                        }
                        assert forall|x: usize| #[trigger] members.contains(x) == (cluster@.contains(x) || stack@.contains(x)) by {
                            lemma_contains_push(st0, w, x);
                        }
                        assert(!st0.contains(w));
                        assert(!cluster@.contains(w));
                        assert(stack@.no_duplicates()) by {
                            assert forall|a: int, b: int| 0 <= a < stack@.len() && 0 <= b < stack@.len() && a != b implies stack@[a] != stack@[b] by {
                                if a < st0.len() && b < st0.len() {
                                } else if a < st0.len() {
                                    assert(st0.contains(stack@[a]));
                                } else {
                                    assert(st0.contains(stack@[b]));
                                }
                            }
                        }
                        assert(cluster@.disjoint(stack@)) by {
                            assert forall|a: int, b: int| 0 <= a < cluster@.len() && 0 <= b < stack@.len() implies cluster@[a] != stack@[b] by {
                                if b == st0.len() {
                                    assert(cluster@.contains(cluster@[a]));
                                } else {
                                    assert(st0[b] == stack@[b]);
                                }
                            }
                        }
                    }
                }
                j = j + 1;
            }
            proof {
                assert(old_stack.drop_last() == st_p);
                assert(old_stack.last() == curr);
                assert(dfs_step(nb, old_visited, old_stack, old_cluster) == (visited@, stack@, cluster@));
                t = t + 1;
                assert forall|x: usize, w: usize| #[trigger] cluster@.contains(x) && #[trigger] edge(nb, x, w) implies clustered_before(fin, fin.len() as int, w) || members.contains(w) by {
                    if x == curr {
                        let k = choose|k: int| 0 <= k < nb[curr as int]@.len() && nb[curr as int]@[k] == w;
                        assert(clustered_before(fin, fin.len() as int, nb[curr as int]@[k]) || members.contains(nb[curr as int]@[k]));
                    }
                }
            }
        }
        let ghost cl = cluster;
        let ghost found = cluster_views(clusters@);
        proof {
            assert(stack@.len() == 0);
            assert(dfs_steps(nb, visited@, stack@, cluster@, (n - t) as nat) == (visited@, stack@, cluster@));
            assert(!v0[i as int]);
            assert(dfs_clusters_from(nb, v0, i as int, found) == dfs_clusters_from(nb, visited@, i + 1, found.push(cl@)));
            assert forall|x: usize| #[trigger] members.contains(x) == cluster@.contains(x) by {
                if stack@.contains(x) {
                    let k = choose|k: int| 0 <= k < stack@.len() && stack@[k] == x;
                }
            }
            assert(cluster@.len() > 0);
            assert(members.contains(i));
        }
        clusters.push(cluster);
        proof {
            let nc = clusters@;
            let c_new = fin.len() as int;
            assert(nc == fin.push(cl));
            assert(cluster_views(nc) =~= found.push(cl@));
            assert(nc[c_new] == cl);
            assert forall|k: int, x: usize| 0 <= k <= c_new implies #[trigger] clustered_before(nc, k, x) == clustered_before(fin, k, x) by {
                lemma_clustered_prefix(fin, cl, k, x);
            }
            assert forall|x: usize| #[trigger] clustered_before(nc, c_new + 1, x) == (clustered_before(fin, c_new, x) || cl@.contains(x)) by {
                lemma_clustered_last(fin, cl, x);
            }
            assert forall|x: usize| x < n implies #[trigger] visited@[x as int] == clustered_before(nc, nc.len() as int, x) by {
                assert(clustered_before(nc, c_new + 1, x) == (clustered_before(fin, c_new, x) || cl@.contains(x)));
                assert(members.contains(x) == cl@.contains(x));
            }
            assert forall|x: usize| x < i + 1 implies #[trigger] visited@[x as int] by {
                if x < i {
                    assert(clustered_before(fin, c_new, x));
                } else {
                    assert(members.contains(i));
                }
            }
            assert forall|c: int, k: int| 0 <= c < nc.len() && 0 <= k < nc[c]@.len() implies #[trigger] nc[c]@[k] < n by {
                if c == c_new {
                    assert(cl@.contains(cl@[k]));
                    assert(members.contains(cl@[k]));
                } else {
                    assert(fin[c]@[k] < n);
                }
            }
            assert forall|c1: int, k1: int, c2: int, k2: int|
                0 <= c1 < nc.len() && 0 <= c2 < nc.len() && 0 <= k1 < nc[c1]@.len() && 0 <= k2
                    < nc[c2]@.len() && #[trigger] nc[c1]@[k1] == #[trigger] nc[c2]@[k2] implies c1 == c2
                    && k1 == k2 by {
                if c1 == c_new && c2 == c_new {
                } else if c1 == c_new {
                    let x = nc[c1]@[k1];
                    assert(cl@.contains(x));
                    assert(members.contains(x));
                    assert(in_cluster(fin, c2, x));
                    assert(clustered_before(fin, c_new, x));
                } else if c2 == c_new {
                    let x = nc[c2]@[k2];
                    assert(cl@.contains(x));
                    assert(members.contains(x));
                    assert(in_cluster(fin, c1, x));
                    assert(clustered_before(fin, c_new, x));
                } else {
                    assert(fin[c1]@[k1] == fin[c2]@[k2]);
                }
            }
            assert forall|c: int| 0 <= c < nc.len() implies #[trigger] nc[c]@.len() > 0 by {
                if c < c_new {
                    assert(fin[c]@.len() > 0);
                }
            }
            assert forall|c: int| 0 <= c < nc.len() implies #[trigger] nc[c]@[0] < i + 1 by {
                if c < c_new {
                    assert(fin[c]@[0] < i);
                }
            }
            assert forall|c: int, x: usize| 0 <= c < nc.len() && x < nc[c]@[0] implies #[trigger] clustered_before(nc, c, x) by {
                if c < c_new {
                    assert(clustered_before(fin, c, x));
                } else {
                    assert(clustered_before(fin, c_new, x));
                }
            }
            assert forall|c: int, x: usize, w: usize|
                0 <= c < nc.len() && #[trigger] in_cluster(nc, c, x) && #[trigger] edge(nb, x, w) implies clustered_before(nc, c + 1, w) by {
                if c < c_new {
                    assert(in_cluster(fin, c, x));
                    assert(clustered_before(fin, c + 1, w));
                } else {
                    assert(cl@.contains(x));
                    assert(clustered_before(fin, c_new, w) || members.contains(w));
                }
            }
            assert forall|c: int, k: int|
                0 <= c < nc.len() && 0 <= k < nc[c]@.len() implies #[trigger] reached_in_cluster(nb, nc, c, k) by {
                if c < c_new {
                    assert(nc[c] == fin[c]);
                    assert(fin[c]@[k] == nc[c]@[k]);
                    assert(reached_in_cluster(nb, fin, c, k));
                    let path = choose|path: Seq<usize>| walk(nb, path, fin[c]@[0], fin[c]@[k], fin[c]@.to_set());
                    assert(walk(nb, path, nc[c]@[0], nc[c]@[k], nc[c]@.to_set()));
                } else {
                    let x = cl@[k];
                    assert(cl@.contains(x));
                    assert(members.contains(x));
                    let path = paths[x];
                    assert(walk(nb, path, i, x, members));
                    assert(members =~= cl@.to_set());
                    assert(walk(nb, path, nc[c]@[0], nc[c]@[k], nc[c]@.to_set()));
                }
            }
        }
        i = i + 1;
    }
    proof {
        assert forall|v: usize| v < nb.len() implies #[trigger] clustered_before(clusters@, clusters@.len() as int, v) by {
            assert(visited@[v as int]);
        }
    }
    clusters
}

/// The first `k` clusters hold the same points after one more cluster is
/// added at the end.
proof fn lemma_clustered_prefix(fin: Seq<Vec<usize>>, cl: Vec<usize>, k: int, x: usize)
    requires
        0 <= k <= fin.len(),
    ensures
        clustered_before(fin.push(cl), k, x) == clustered_before(fin, k, x),
{
    let nc = fin.push(cl);
    if clustered_before(nc, k, x) {
        let c = choose|c: int| 0 <= c < k && #[trigger] in_cluster(nc, c, x);
        assert(nc[c] == fin[c]);
        assert(in_cluster(fin, c, x));
    }
    if clustered_before(fin, k, x) {
        let c = choose|c: int| 0 <= c < k && #[trigger] in_cluster(fin, c, x);
        assert(nc[c] == fin[c]);
        assert(in_cluster(nc, c, x));
    }
}

/// With one more cluster at the end, a point is clustered when it was
/// before or lies in the new cluster.
proof fn lemma_clustered_last(fin: Seq<Vec<usize>>, cl: Vec<usize>, x: usize)
    ensures
        clustered_before(fin.push(cl), fin.len() + 1int, x) == (clustered_before(fin, fin.len() as int, x) || cl@.contains(x)),
{
    let nc = fin.push(cl);
    lemma_clustered_prefix(fin, cl, fin.len() as int, x);
    if clustered_before(nc, fin.len() + 1int, x) {
        let c = choose|c: int| 0 <= c < fin.len() + 1 && #[trigger] in_cluster(nc, c, x);
        if c < fin.len() {
            assert(clustered_before(nc, fin.len() as int, x));
        } else {
            assert(nc[c] == cl);
        }
    }
    if cl@.contains(x) {
        assert(in_cluster(nc, fin.len() as int, x));
    }
    if clustered_before(fin, fin.len() as int, x) {
        let c = choose|c: int| 0 <= c < fin.len() && #[trigger] in_cluster(fin, c, x);
        assert(nc[c] == fin[c]);
        assert(in_cluster(nc, c, x));
    }
}

/// A value is in a sequence with one more element when it is that element
/// or was already there.
proof fn lemma_contains_push(s: Seq<usize>, v: usize, x: usize)
    ensures
        s.push(v).contains(x) == (s.contains(x) || x == v),
{
    if s.contains(x) {
        let j = choose|j: int| 0 <= j < s.len() && s[j] == x;
        assert(s.push(v)[j] == x);
    }
    if x == v {
        assert(s.push(v)[s.len() as int] == x);
    }
    if s.push(v).contains(x) && x != v {
        let j = choose|j: int| 0 <= j < s.push(v).len() && s.push(v)[j] == x;
        assert(s[j] == x);
    }
}


/// Every listed neighbour relation holds both ways.
pub open spec fn symmetric(nb: Seq<Vec<usize>>) -> bool {
    forall|v: usize, w: usize| v < nb.len() && w < nb.len() && #[trigger] edge(nb, v, w) ==> edge(nb, w, v)
}

/// When the neighbour lists are symmetric (as those of points within a
/// fixed distance of each other are), a cluster holds every neighbour of
/// each of its points: the clusters are the connected components.
pub proof fn lemma_symmetric_clusters_closed(nb: Seq<Vec<usize>>, clusters: Seq<Vec<usize>>)
    requires
        valid_neighbours(nb),
        symmetric(nb),
        clusters_of(nb, clusters),
    ensures
        forall|c: int, v: usize, w: usize|
            0 <= c < clusters.len() && #[trigger] in_cluster(clusters, c, v) && #[trigger] edge(nb, v, w) ==> in_cluster(clusters, c, w),
{
    assert forall|c: int, v: usize, w: usize|
        0 <= c < clusters.len() && #[trigger] in_cluster(clusters, c, v) && #[trigger] edge(nb, v, w) implies in_cluster(clusters, c, w) by {
        let kv = choose|k: int| 0 <= k < clusters[c]@.len() && clusters[c]@[k] == v;
        assert(v < nb.len());
        let kw = choose|k: int| 0 <= k < nb[v as int]@.len() && nb[v as int]@[k] == w;
        assert(w < nb.len());
        assert(clustered_before(clusters, c + 1, w));
        let cw = choose|d: int| 0 <= d < c + 1 && #[trigger] in_cluster(clusters, d, w);
        if cw < c {
            assert(edge(nb, w, v));
            assert(clustered_before(clusters, cw + 1, v));
            let cv = choose|d: int| 0 <= d < cw + 1 && #[trigger] in_cluster(clusters, d, v);
            let k2 = choose|k: int| 0 <= k < clusters[cv]@.len() && clusters[cv]@[k] == v;
            assert(clusters[cv]@[k2] == clusters[c]@[kv]);
        }
    }
}

} // verus!
