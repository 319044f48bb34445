//! The local height histogram of a grid cell: one-metre bins counted from
//! the top of the cell down, and the dense clusters of bins that stand
//! isolated above an empty gap.
use vstd::prelude::*;

verus! {

/// A depth moved onto the last of `num_bins` bins when it lies beyond.
pub open spec fn bin_of(depth: usize, num_bins: usize) -> int {
    if depth >= num_bins {
        num_bins - 1
    } else {
        depth as int
    }
}

/// The number of points whose (clamped) depth falls in bin `b`.
pub open spec fn bin_count(depths: Seq<usize>, num_bins: usize, b: int) -> nat {
    depths.filter(|d: usize| bin_of(d, num_bins) == b).len()
}

/// The histogram of the depths below the top of a cell, one bin per metre:
/// a depth at or beyond the last bin is counted in the last bin.
pub fn bin_counts(depths: &Vec<usize>, num_bins: usize) -> (bins: Vec<usize>)
    requires
        num_bins > 0,
    ensures
        bins@.len() == num_bins,
        forall|b: int| 0 <= b < num_bins ==> #[trigger] bins@[b] == bin_count(depths@, num_bins, b),
{
    let mut bins: Vec<usize> = Vec::new();
    let mut b: usize = 0;
    while b < num_bins
        invariant
            b <= num_bins,
            bins@.len() == b,
            forall|x: int| 0 <= x < b ==> #[trigger] bins@[x] == 0,
        decreases num_bins - b,
    {
        bins.push(0);
        b = b + 1;
    }
    let mut k: usize = 0;
    while k < depths.len()
        invariant
            num_bins > 0,
            k <= depths@.len(),
            bins@.len() == num_bins,
            forall|x: int| 0 <= x < num_bins ==> #[trigger] bins@[x] == bin_count(depths@.take(k as int), num_bins, x),
            forall|x: int| 0 <= x < num_bins ==> #[trigger] bins@[x] <= k,
        decreases depths@.len() - k,
    {
        let d = depths[k];
        let bin_idx: usize = if d >= num_bins {
            num_bins - 1
        } else {
            d
        };
        proof {
            reveal_with_fuel(Seq::filter, 1);
            assert(depths@.take(k + 1).drop_last() =~= depths@.take(k as int));
            assert forall|x: int| 0 <= x < num_bins implies #[trigger] bin_count(depths@.take(k + 1), num_bins, x)
                == bin_count(depths@.take(k as int), num_bins, x) + if x == bin_idx {
                1nat
            } else {
                0nat
            } by {
                assert(depths@.take(k + 1).last() == d);
            }
        }
        bins.set(bin_idx, bins[bin_idx] + 1);
        k = k + 1;
    }
    assert(depths@.take(depths@.len() as int) =~= depths@);
    bins
}

/// Bin `i` holds more than `min_density` points.
pub open spec fn dense(bins: Seq<usize>, min_density: usize, i: int) -> bool {
    bins[i] > min_density
}

/// The last bin of the run of dense bins that goes on from bin `s`.
pub open spec fn run_end(bins: Seq<usize>, min_density: usize, s: int) -> int
    decreases bins.len() - s,
{
    if s + 1 < bins.len() && dense(bins, min_density, s + 1) {
        run_end(bins, min_density, s + 1)
    } else {
        s
    }
}

/// The first bin from bin `i` on that is dense, or the number of bins when
/// there is none.
pub open spec fn gap_end(bins: Seq<usize>, min_density: usize, i: int) -> int
    decreases bins.len() - i,
{
    if i >= bins.len() || dense(bins, min_density, i) {
        i
    } else {
        gap_end(bins, min_density, i + 1)
    }
}

/// Bin `s` is dense and starts a run: it is the first bin or follows a
/// bin that is not dense.
pub open spec fn run_start(bins: Seq<usize>, min_density: usize, s: int) -> bool {
    0 <= s < bins.len() && dense(bins, min_density, s) && (s == 0 || !dense(bins, min_density, s - 1))
}

/// The run of dense bins that starts at bin `s` is at most `non_empty_cont`
/// bins high and is followed by at least `empty` bins that are not dense.
pub open spec fn isolated_run(bins: Seq<usize>, min_density: usize, empty: usize, non_empty_cont: usize, s: int) -> bool {
    let e = run_end(bins, min_density, s);
    &&& run_start(bins, min_density, s)
    &&& e - s + 1 <= non_empty_cont
    &&& gap_end(bins, min_density, e + 1) - (e + 1) >= empty
}

/// The first and last bins of the isolated runs that start before bin `n`,
/// in increasing order.
pub open spec fn isolated_runs(bins: Seq<usize>, min_density: usize, empty: usize, non_empty_cont: usize, n: int) -> Seq<(usize, usize)>
    decreases n,
{
    if n <= 0 {
        Seq::empty()
    } else {
        let before = isolated_runs(bins, min_density, empty, non_empty_cont, n - 1);
        if isolated_run(bins, min_density, empty, non_empty_cont, n - 1) {
            before.push(((n - 1) as usize, run_end(bins, min_density, n - 1) as usize))
        } else {
            before
        }
    }
}

/// No run starts in `[m, n)`, so the isolated runs before `n` are those
/// before `m`.
proof fn lemma_isolated_runs_skip(bins: Seq<usize>, md: usize, empty: usize, nec: usize, m: int, n: int)
    requires
        m <= n,
        forall|s: int| m <= s < n ==> !#[trigger] run_start(bins, md, s),
    ensures
        isolated_runs(bins, md, empty, nec, n) == isolated_runs(bins, md, empty, nec, m),
    decreases n - m,
{
    if m < n {
        assert(!run_start(bins, md, n - 1));
        lemma_isolated_runs_skip(bins, md, empty, nec, m, n - 1);
    }
}

/// The run from `s` whose bins are dense up to `e` and stops there ends at `e`.
proof fn lemma_run_end(bins: Seq<usize>, md: usize, s: int, e: int)
    requires
        0 <= s <= e < bins.len(),
        forall|x: int| s <= x <= e ==> #[trigger] dense(bins, md, x),
        e + 1 == bins.len() || !dense(bins, md, e + 1),
    ensures
        run_end(bins, md, s) == e,
    decreases e - s,
{
    if s < e {
        assert(dense(bins, md, s + 1));
        lemma_run_end(bins, md, s + 1, e);
    }
}

/// The gap from `i` whose bins are not dense up to `j` and stops there ends at `j`.
proof fn lemma_gap_end(bins: Seq<usize>, md: usize, i: int, j: int)
    requires
        0 <= i <= j <= bins.len(),
        forall|x: int| i <= x < j ==> !#[trigger] dense(bins, md, x),
        j == bins.len() || dense(bins, md, j),
    ensures
        gap_end(bins, md, i) == j,
    decreases j - i,
{
    if i < j {
        assert(!dense(bins, md, i));
        lemma_gap_end(bins, md, i + 1, j);
    }
}

/// The isolated clusters of the histogram, from the top down: each is a
/// maximal run of bins holding more than `min_density` points, at most
/// `non_empty_cont` bins high, followed by at least `empty` bins that hold
/// no more than `min_density` (a run that reaches the last bin is followed
/// by none). Each cluster is given by its first and its last bin.
pub fn dense_clusters(bins: &Vec<usize>, min_density: usize, empty: usize, non_empty_cont: usize) -> (clusters: Vec<(usize, usize)>)
    ensures
        clusters@ == isolated_runs(bins@, min_density, empty, non_empty_cont, bins@.len() as int),
{
    let ghost b = bins@;
    let num_bins = bins.len();
    let mut clusters: Vec<(usize, usize)> = Vec::new();
    let mut i: usize = 0;
    while i < num_bins
        invariant
            b == bins@,
            num_bins == b.len(),
            i <= num_bins,
            i < num_bins ==> (i == 0 || !dense(b, min_density, i - 1)),
            clusters@ == isolated_runs(b, min_density, empty, non_empty_cont, i as int),
        decreases num_bins - i,
    {
        if bins[i] <= min_density {
            proof {
                lemma_isolated_runs_skip(b, min_density, empty, non_empty_cont, i as int, i + 1);
            }
            i = i + 1;
            continue;
        }
        let cluster_start = i;
        let mut cluster_end = i;
        while i < num_bins && bins[i] > min_density
            invariant
                b == bins@,
                num_bins == b.len(),
                cluster_start <= cluster_end < i <= num_bins || (cluster_start == cluster_end == i
                    < num_bins),
                forall|x: int| cluster_start <= x < i ==> #[trigger] dense(b, min_density, x),
                cluster_start < i ==> cluster_end == i - 1,
                dense(b, min_density, cluster_start as int),
            decreases num_bins - i,
        {
            cluster_end = i;
            i = i + 1;
        }
        proof {
            lemma_run_end(b, min_density, cluster_start as int, cluster_end as int);
        }
        let cluster_height = cluster_end - cluster_start + 1;
        let gap_start = i;
        let mut gap_end = i;
        while i < num_bins && bins[i] <= min_density
            invariant
                b == bins@,
                num_bins == b.len(),
                gap_start <= i <= num_bins,
                forall|x: int| gap_start <= x < i ==> !#[trigger] dense(b, min_density, x),
                gap_start < i ==> gap_end == i - 1,
                gap_start == i ==> gap_end == gap_start,
            decreases num_bins - i,
        {
            gap_end = i;
            i = i + 1;
        }
        proof {
            lemma_gap_end(b, min_density, gap_start as int, i as int);
        }
        let gap_size = if gap_start < num_bins {
            gap_end - gap_start + 1
        } else {
            0
        };
        assert(gap_size == i - gap_start);
        let ghost before = clusters@;
        if cluster_height <= non_empty_cont && gap_size >= empty {
            clusters.push((cluster_start, cluster_end));
        }
        proof {
            assert(run_start(b, min_density, cluster_start as int));
            assert(isolated_runs(b, min_density, empty, non_empty_cont, cluster_start + 1) == clusters@);
            assert forall|s: int| cluster_start + 1 <= s < i implies !#[trigger] run_start(b, min_density, s) by {
                if s <= cluster_end {
                    assert(dense(b, min_density, s - 1));
                } else {
                    assert(!dense(b, min_density, s));
                }
            }
            lemma_isolated_runs_skip(b, min_density, empty, non_empty_cont, cluster_start + 1, i as int);
        }
    }
    clusters
}


/// A run goes on over dense bins from its start to its end, which lies
/// within the histogram.
proof fn lemma_run_end_bounds(bins: Seq<usize>, md: usize, s: int)
    requires
        0 <= s < bins.len(),
    ensures
        s <= run_end(bins, md, s) < bins.len(),
        forall|x: int| s < x <= run_end(bins, md, s) ==> #[trigger] dense(bins, md, x),
    decreases bins.len() - s,
{
    if s + 1 < bins.len() && dense(bins, md, s + 1) {
        lemma_run_end_bounds(bins, md, s + 1);
    }
}

/// The clusters found are exactly the isolated runs: `(s, e)` is listed
/// when the run starting at bin `s` is isolated and ends at bin `e`, and
/// only then; each listed cluster ends before the next one starts.
pub proof fn lemma_clusters_are_isolated_runs(
    bins: Seq<usize>,
    md: usize,
    empty: usize,
    nec: usize,
    n: int,
    s: usize,
    e: usize,
)
    requires
        0 <= n <= bins.len(),
        bins.len() <= usize::MAX,
    ensures
        isolated_runs(bins, md, empty, nec, n).contains((s, e)) <==> (s < n && isolated_run(bins, md, empty, nec, s as int)
            && e == run_end(bins, md, s as int)),
        forall|j: int| #![trigger isolated_runs(bins, md, empty, nec, n)[j]]
            0 <= j < isolated_runs(bins, md, empty, nec, n).len() ==> isolated_runs(bins, md, empty, nec, n)[j].0 < n
                && isolated_runs(bins, md, empty, nec, n)[j].0 <= isolated_runs(bins, md, empty, nec, n)[j].1,
        forall|j1: int, j2: int|
            0 <= j1 < j2 < isolated_runs(bins, md, empty, nec, n).len() ==> #[trigger] isolated_runs(bins, md, empty, nec, n)[j1].1
                < #[trigger] isolated_runs(bins, md, empty, nec, n)[j2].0,
    decreases n,
{
    if n > 0 {
        lemma_clusters_are_isolated_runs(bins, md, empty, nec, n - 1, s, e);
        let before = isolated_runs(bins, md, empty, nec, n - 1);
        if isolated_run(bins, md, empty, nec, n - 1) {
            lemma_run_end_bounds(bins, md, n - 1);
            let v = ((n - 1) as usize, run_end(bins, md, n - 1) as usize);
            let after = before.push(v);
            assert(after[after.len() - 1] == v);
            if after.contains((s, e)) && (s, e) != v {
                let j = choose|j: int| 0 <= j < after.len() && after[j] == (s, e);
                assert(before[j] == (s, e));
            }
            if before.contains((s, e)) {
                let j = choose|j: int| 0 <= j < before.len() && before[j] == (s, e);
                assert(after[j] == (s, e));
            }
            assert forall|j1: int, j2: int|
                0 <= j1 < j2 < after.len() implies #[trigger] after[j1].1 < #[trigger] after[j2].0 by {
                if j2 == after.len() - 1 {
                    let s1 = before[j1].0 as int;
                    assert(before.contains(before[j1]));
                    lemma_clusters_are_isolated_runs(bins, md, empty, nec, n - 1, before[j1].0, before[j1].1);
                    lemma_run_end_bounds(bins, md, s1);
                    if run_end(bins, md, s1) >= n - 1 {
                        assert(dense(bins, md, n - 2));
                    }
                } else {
                    assert(before[j1] == after[j1]);
                    assert(before[j2] == after[j2]);
                }
            }
            assert forall|j: int| 0 <= j < after.len() implies after[j].0 < n && after[j].0 <= after[j].1 by {
                if j < before.len() {
                    assert(before[j] == after[j]);
                }
            }
        }
    }
}

/// Filtering by one of two predicates that never hold together keeps as
/// many depths as filtering by each.
proof fn lemma_filter_disjoint_depths(s: Seq<usize>, p: spec_fn(usize) -> bool, q: spec_fn(usize) -> bool)
    requires
        forall|x: usize| !(#[trigger] p(x) && q(x)),
    ensures
        s.filter(|x: usize| p(x) || q(x)).len() == s.filter(p).len() + s.filter(q).len(),
    decreases s.len(),
{
    reveal_with_fuel(Seq::filter, 1);
    if s.len() > 0 {
        lemma_filter_disjoint_depths(s.drop_last(), p, q);
    }
}

/// The number of points counted in the first `m` bins.
pub open spec fn binned(depths: Seq<usize>, num_bins: usize, m: int) -> nat
    decreases m,
{
    if m <= 0 {
        0
    } else {
        binned(depths, num_bins, m - 1) + bin_count(depths, num_bins, m - 1)
    }
}

/// Every point is counted in exactly one bin: the bins add up to the
/// number of points.
pub proof fn lemma_bins_count_every_point(depths: Seq<usize>, num_bins: usize)
    requires
        num_bins > 0,
    ensures
        binned(depths, num_bins, num_bins as int) == depths.len(),
{
    lemma_binned_prefix(depths, num_bins, num_bins as int);
    assert(depths.filter(|d: usize| bin_of(d, num_bins) < num_bins) =~= depths) by {
        lemma_filter_all(depths, |d: usize| bin_of(d, num_bins) < num_bins);
    }
}

/// The first `m` bins count the points whose bin lies below `m`.
proof fn lemma_binned_prefix(depths: Seq<usize>, num_bins: usize, m: int)
    requires
        num_bins > 0,
        0 <= m,
    ensures
        binned(depths, num_bins, m) == depths.filter(|d: usize| bin_of(d, num_bins) < m).len(),
    decreases m,
{
    if m == 0 {
        lemma_filter_all_fail(depths, |d: usize| bin_of(d, num_bins) < 0);
    } else {
        lemma_binned_prefix(depths, num_bins, m - 1);
        let below = |d: usize| bin_of(d, num_bins) < m - 1;
        let at = |d: usize| bin_of(d, num_bins) == m - 1;
        lemma_filter_disjoint_depths(depths, below, at);
        assert((|x: usize| below(x) || at(x)) =~= (|d: usize| bin_of(d, num_bins) < m));
    }
}

/// Filtering by a predicate that holds of everything keeps everything.
proof fn lemma_filter_all(s: Seq<usize>, p: spec_fn(usize) -> bool)
    requires
        forall|x: usize| #[trigger] p(x),
    ensures
        s.filter(p) == s,
    decreases s.len(),
{
    reveal_with_fuel(Seq::filter, 1);
    if s.len() > 0 {
        lemma_filter_all(s.drop_last(), p);
        assert(s.drop_last().push(s.last()) =~= s);
    }
}

/// Filtering by a predicate that holds of nothing keeps nothing.
proof fn lemma_filter_all_fail(s: Seq<usize>, p: spec_fn(usize) -> bool)
    requires
        forall|x: usize| !#[trigger] p(x),
    ensures
        s.filter(p).len() == 0,
    decreases s.len(),
{
    reveal_with_fuel(Seq::filter, 1);
    if s.len() > 0 {
        lemma_filter_all_fail(s.drop_last(), p);
    }
}


/// A run stops at its end: the next bin is past the last or not dense.
proof fn lemma_run_end_stops(bins: Seq<usize>, md: usize, s: int)
    requires
        0 <= s < bins.len(),
    ensures
        run_end(bins, md, s) + 1 == bins.len() || !dense(bins, md, run_end(bins, md, s) + 1),
    decreases bins.len() - s,
{
    if s + 1 < bins.len() && dense(bins, md, s + 1) {
        lemma_run_end_stops(bins, md, s + 1);
    }
}

/// The gap from bin `i` covers bins that exist and are not dense.
proof fn lemma_gap_not_dense(bins: Seq<usize>, md: usize, i: int)
    requires
        0 <= i,
    ensures
        gap_end(bins, md, i) >= i,
        i <= bins.len() ==> gap_end(bins, md, i) <= bins.len(),
        forall|x: int| i <= x < gap_end(bins, md, i) ==> !#[trigger] dense(bins, md, x),
    decreases bins.len() - i,
{
    if i < bins.len() && !dense(bins, md, i) {
        lemma_gap_not_dense(bins, md, i + 1);
        assert(gap_end(bins, md, i) == gap_end(bins, md, i + 1));
    } else {
        assert(gap_end(bins, md, i) == i);
    }
}

/// A gap from bin `i` whose bins up to `j` exist and are not dense reaches
/// at least `j`.
proof fn lemma_gap_reaches(bins: Seq<usize>, md: usize, i: int, j: int)
    requires
        0 <= i <= j <= bins.len(),
        forall|x: int| i <= x < j ==> !#[trigger] dense(bins, md, x),
    ensures
        gap_end(bins, md, i) >= j,
    decreases j - i,
{
    if i < j {
        assert(!dense(bins, md, i));
        lemma_gap_reaches(bins, md, i + 1, j);
        assert(gap_end(bins, md, i) == gap_end(bins, md, i + 1));
    } else {
        lemma_gap_not_dense(bins, md, i);
    }
}

/// The clusters of a histogram, in terms of its bins: `(s, e)` is listed
/// exactly when bins `s ..= e` all hold more than `md` points, the bins just
/// before and just after (where there are such bins) do not, the run is at
/// most `nec` bins high (a single bin included), and the `empty` bins after
/// it all exist and hold no more than `md` points.
pub proof fn lemma_clusters_in_terms_of_bins(bins: Seq<usize>, md: usize, empty: usize, nec: usize, s: usize, e: usize)
    requires
        bins.len() <= usize::MAX,
    ensures
        isolated_runs(bins, md, empty, nec, bins.len() as int).contains((s, e)) <==> {
            &&& s <= e < bins.len()
            &&& forall|x: int| #![trigger bins[x]] s <= x <= e ==> bins[x] > md
            &&& (s == 0 || bins[s - 1] <= md)
            &&& (e + 1 == bins.len() || bins[e + 1] <= md)
            &&& e - s + 1 <= nec
            &&& (e as int + empty as int) < bins.len()
            &&& forall|x: int| #![trigger bins[x]] e < x <= e as int + empty as int ==> bins[x] <= md
        },
{
    lemma_clusters_are_isolated_runs(bins, md, empty, nec, bins.len() as int, s, e);
    let listed = isolated_runs(bins, md, empty, nec, bins.len() as int).contains((s, e));
    if listed {
        lemma_run_end_bounds(bins, md, s as int);
        lemma_run_end_stops(bins, md, s as int);
        lemma_gap_not_dense(bins, md, e + 1);
        assert(gap_end(bins, md, e + 1) <= bins.len());
        assert forall|x: int| s <= x <= e implies bins[x] > md by {
            if x > s {
                assert(dense(bins, md, x));
            }
        }
        assert forall|x: int| e < x <= e as int + empty as int implies #[trigger] bins[x] <= md by {
            assert(!dense(bins, md, x));
        }
        if empty > 0 {
            let last: int = e as int + empty as int;
            assert(!dense(bins, md, last));
        }
    } else {
        if s <= e < bins.len() && (forall|x: int| #![trigger bins[x]] s <= x <= e ==> bins[x] > md) && (s == 0 || bins[s
            - 1] <= md) && (e + 1 == bins.len() || bins[e + 1] <= md) && e - s + 1 <= nec && (e as int + empty as int) < bins.len() && (forall|x: int|
            #![trigger bins[x]] e < x <= e as int + empty as int ==> bins[x] <= md) {
            lemma_run_from_bins(bins, md, empty, nec, s, e);
        }
    }
}

/// A maximal run of dense bins, at most `nec` high and followed by `empty`
/// bins that exist and are not dense, is an isolated run.
proof fn lemma_run_from_bins(bins: Seq<usize>, md: usize, empty: usize, nec: usize, s: usize, e: usize)
    requires
        s <= e < bins.len(),
        forall|x: int| #![trigger bins[x]] s <= x <= e ==> bins[x] > md,
        s == 0 || bins[s - 1] <= md,
        e + 1 == bins.len() || bins[e + 1] <= md,
        e - s + 1 <= nec,
        (e as int + empty as int) < bins.len(),
        forall|x: int| #![trigger bins[x]] e < x <= e as int + empty as int ==> bins[x] <= md,
    ensures
        isolated_run(bins, md, empty, nec, s as int),
        run_end(bins, md, s as int) == e,
{
    lemma_dense_bins_run(bins, md, s, e);
    lemma_quiet_bins_gap(bins, md, e, empty);
    assert(run_start(bins, md, s as int));
}

/// Bins `s ..= e` that are all dense, with a bin after that is missing or
/// not dense, make a run from `s` that ends at `e`.
proof fn lemma_dense_bins_run(bins: Seq<usize>, md: usize, s: usize, e: usize)
    requires
        s <= e < bins.len(),
        forall|x: int| #![trigger bins[x]] s <= x <= e ==> bins[x] > md,
        e + 1 == bins.len() || bins[e + 1] <= md,
    ensures
        run_end(bins, md, s as int) == e,
{
    assert forall|x: int| s <= x <= e implies #[trigger] dense(bins, md, x) by {
        assert(bins[x] > md);
    }
    lemma_run_end(bins, md, s as int, e as int);
}

/// The `empty` bins after bin `e`, when they exist and are not dense, make
/// a gap of at least `empty` bins.
proof fn lemma_quiet_bins_gap(bins: Seq<usize>, md: usize, e: usize, empty: usize)
    requires
        e < bins.len(),
        (e as int + empty as int) < bins.len(),
        forall|x: int| #![trigger bins[x]] e < x <= e as int + empty as int ==> bins[x] <= md,
    ensures
        gap_end(bins, md, e + 1) - (e + 1) >= empty,
{
    assert forall|x: int| e + 1 <= x < e + 1 + empty implies !#[trigger] dense(bins, md, x) by {
        assert(bins[x] <= md);
    }
    lemma_gap_reaches(bins, md, e + 1, e + 1 + empty);
}

/// Bin `b` below the last counts the points of depth `b`; the last bin
/// counts every point at least as deep.
pub proof fn lemma_bins_by_depth(depths: Seq<usize>, num_bins: usize, b: int)
    requires
        num_bins > 0,
        0 <= b < num_bins,
    ensures
        b < num_bins - 1 ==> bin_count(depths, num_bins, b) == depths.filter(|d: usize| d == b).len(),
        b == num_bins - 1 ==> bin_count(depths, num_bins, b) == depths.filter(|d: usize| d >= b).len(),
{
    if b < num_bins - 1 {
        assert((|d: usize| bin_of(d, num_bins) == b) =~= (|d: usize| d == b));
    } else {
        assert((|d: usize| bin_of(d, num_bins) == b) =~= (|d: usize| d >= b));
    }
}

} // verus!
