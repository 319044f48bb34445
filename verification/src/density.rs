//! The voxel density filter: each grid cell is cut into one-metre height
//! slices, and in the cells kept, slices far denser than the average
//! occupied slice are emptied.
use vstd::prelude::*;

verus! {

/// What the density filter reads of a point: its index in the caller's
/// list, the floor of its height, and its height truncated toward zero to
/// a 32-bit integer (saturating).
#[derive(Clone, Copy, Debug)]
pub struct PointKey {
    pub id: usize,
    pub floor_z: i64,
    pub trunc_z: i32,
}

/// The cells of a grid of points, as sequences.
pub open spec fn grid_keys(pc: &Vec<Vec<Vec<PointKey>>>) -> Seq<Seq<Seq<PointKey>>> {
    pc@.map_values(|row: Vec<Vec<PointKey>>| row@.map_values(|cell: Vec<PointKey>| cell@))
}

/// The number of points of a cell whose height lies in the slice
/// `[w, w + 1)`.
pub open spec fn slice_count(cell: Seq<PointKey>, w: int) -> nat {
    cell.filter(|p: PointKey| p.floor_z == w).len()
}

/// The lowest truncated height of a non-empty cell.
pub open spec fn lowest_slice(cell: Seq<PointKey>) -> int
    decreases cell.len(),
{
    if cell.len() <= 1 {
        cell[0].trunc_z as int
    } else {
        let rest = lowest_slice(cell.drop_last());
        if cell.last().trunc_z < rest {
            cell.last().trunc_z as int
        } else {
            rest
        }
    }
}

/// The highest truncated height of a non-empty cell.
pub open spec fn highest_slice(cell: Seq<PointKey>) -> int
    decreases cell.len(),
{
    if cell.len() <= 1 {
        cell[0].trunc_z as int
    } else {
        let rest = highest_slice(cell.drop_last());
        if cell.last().trunc_z > rest {
            cell.last().trunc_z as int
        } else {
            rest
        }
    }
}

/// The number of points in the slices `lo ..= hi` of a cell.
pub open spec fn range_total(cell: Seq<PointKey>, lo: int, hi: int) -> nat
    decreases hi - lo + 1,
{
    if hi < lo {
        0
    } else {
        range_total(cell, lo, hi - 1) + slice_count(cell, hi)
    }
}

/// The number of non-empty slices among `lo ..= hi` of a cell.
pub open spec fn range_slots(cell: Seq<PointKey>, lo: int, hi: int) -> nat
    decreases hi - lo + 1,
{
    if hi < lo {
        0
    } else {
        range_slots(cell, lo, hi - 1) + if slice_count(cell, hi) > 0 {
            1nat
        } else {
            0nat
        }
    }
}

/// The points of a cell counted slice by slice, from its lowest to its
/// highest truncated height (none for an empty cell).
pub open spec fn cell_total(cell: Seq<PointKey>) -> nat {
    if cell.len() == 0 {
        0
    } else {
        range_total(cell, lowest_slice(cell), highest_slice(cell))
    }
}

/// The non-empty slices of a cell, from its lowest to its highest truncated
/// height (none for an empty cell).
pub open spec fn cell_slots(cell: Seq<PointKey>) -> nat {
    if cell.len() == 0 {
        0
    } else {
        range_slots(cell, lowest_slice(cell), highest_slice(cell))
    }
}

/// `cell_total` summed over the first `n` cells of a row.
pub open spec fn row_total(row: Seq<Seq<PointKey>>, n: int) -> nat
    decreases n,
{
    if n <= 0 {
        0
    } else {
        row_total(row, n - 1) + cell_total(row[n - 1])
    }
}

/// `cell_slots` summed over the first `n` cells of a row.
pub open spec fn row_slots(row: Seq<Seq<PointKey>>, n: int) -> nat
    decreases n,
{
    if n <= 0 {
        0
    } else {
        row_slots(row, n - 1) + cell_slots(row[n - 1])
    }
}

/// `cell_total` summed over all cells of the first `n` rows.
pub open spec fn rows_total(pc: Seq<Seq<Seq<PointKey>>>, n: int) -> nat
    decreases n,
{
    if n <= 0 {
        0
    } else {
        rows_total(pc, n - 1) + row_total(pc[n - 1], pc[n - 1].len() as int)
    }
}

/// `cell_slots` summed over all cells of the first `n` rows.
pub open spec fn rows_slots(pc: Seq<Seq<Seq<PointKey>>>, n: int) -> nat
    decreases n,
{
    if n <= 0 {
        0
    } else {
        rows_slots(pc, n - 1) + row_slots(pc[n - 1], pc[n - 1].len() as int)
    }
}

/// The number of points of the first `n` cells of a row.
pub open spec fn row_points(row: Seq<Seq<PointKey>>, n: int) -> nat
    decreases n,
{
    if n <= 0 {
        0
    } else {
        row_points(row, n - 1) + row[n - 1].len()
    }
}

/// The number of points of the first `n` rows.
pub open spec fn rows_points(pc: Seq<Seq<Seq<PointKey>>>, n: int) -> nat
    decreases n,
{
    if n <= 0 {
        0
    } else {
        rows_points(pc, n - 1) + row_points(pc[n - 1], pc[n - 1].len() as int)
    }
}

/// The number of points of the grid.
pub open spec fn total_points(pc: Seq<Seq<Seq<PointKey>>>) -> nat {
    rows_points(pc, pc.len() as int)
}

/// The points of all non-empty slices of the grid.
pub open spec fn grid_total(pc: Seq<Seq<Seq<PointKey>>>) -> nat {
    rows_total(pc, pc.len() as int)
}

/// The number of non-empty slices of the grid.
pub open spec fn grid_slots(pc: Seq<Seq<Seq<PointKey>>>) -> nat {
    rows_slots(pc, pc.len() as int)
}

/// The mean number of points of a non-empty slice, rounded down.
pub open spec fn mean_density(pc: Seq<Seq<Seq<PointKey>>>) -> nat {
    grid_total(pc) / grid_slots(pc)
}

/// Slice `w` of a cell lies within its height range and holds more than
/// `limit` points.
pub open spec fn crowded(cell: Seq<PointKey>, w: int, limit: int) -> bool {
    cell.len() > 0 && lowest_slice(cell) <= w <= highest_slice(cell) && slice_count(cell, w) > limit
}

/// The points of a cell that do not lie in a crowded slice.
pub open spec fn thinned(cell: Seq<PointKey>, limit: int) -> Seq<PointKey> {
    cell.filter(|p: PointKey| !crowded(cell, p.floor_z as int, limit))
}

/// What the density filter keeps: the listed cells of the grid, each with
/// its slices of more than `mean + density_thres` points emptied (when the
/// grid has any non-empty slice); every other cell empty.
pub open spec fn density_result(
    cells_list: Seq<(usize, usize)>,
    pc: Seq<Seq<Seq<PointKey>>>,
    density_thres: nat,
) -> Seq<Seq<Seq<PointKey>>> {
    Seq::new(
        pc.len(),
        |a: int|
            Seq::new(
                pc[a].len(),
                |b: int|
                    if cells_list.contains((a as usize, b as usize)) {
                        if grid_slots(pc) > 0 {
                            thinned(pc[a][b], (mean_density(pc) + density_thres) as int)
                        } else {
                            pc[a][b]
                        }
                    } else {
                        Seq::empty()
                    },
            ),
    )
}

/// Filtering by one of two predicates that never hold together keeps as
/// many elements as filtering by each.
proof fn lemma_filter_disjoint(s: Seq<PointKey>, p: spec_fn(PointKey) -> bool, q: spec_fn(PointKey) -> bool)
    requires
        forall|x: PointKey| !(#[trigger] p(x) && q(x)),
    ensures
        s.filter(|x: PointKey| p(x) || q(x)).len() == s.filter(p).len() + s.filter(q).len(),
    decreases s.len(),
{
    reveal_with_fuel(Seq::filter, 1);
    if s.len() > 0 {
        lemma_filter_disjoint(s.drop_last(), p, q);
    }
}

/// The slices `lo ..= hi` hold the points whose floor lies between them.
proof fn lemma_range_total_filter(cell: Seq<PointKey>, lo: int, hi: int)
    ensures
        range_total(cell, lo, hi) == cell.filter(|p: PointKey| lo <= p.floor_z <= hi).len(),
    decreases hi - lo + 1,
{
    if hi < lo {
        assert(cell.filter(|p: PointKey| lo <= p.floor_z <= hi).len() == 0) by {
            lemma_filter_none(cell, |p: PointKey| lo <= p.floor_z <= hi);
        }
    } else {
        lemma_range_total_filter(cell, lo, hi - 1);
        let below = |p: PointKey| lo <= p.floor_z <= hi - 1;
        let top = |p: PointKey| p.floor_z == hi;
        lemma_filter_disjoint(cell, below, top);
        assert((|x: PointKey| below(x) || top(x)) =~= (|p: PointKey| lo <= p.floor_z <= hi));
    }
}

/// Filtering by a predicate that holds of nothing keeps nothing.
proof fn lemma_filter_none(s: Seq<PointKey>, p: spec_fn(PointKey) -> bool)
    requires
        forall|x: PointKey| !#[trigger] p(x),
    ensures
        s.filter(p).len() == 0,
    decreases s.len(),
{
    reveal_with_fuel(Seq::filter, 1);
    if s.len() > 0 {
        lemma_filter_none(s.drop_last(), p);
    }
}

/// No cell counts more points in its slices than it holds, nor more
/// non-empty slices than points.
proof fn lemma_cell_bounds(cell: Seq<PointKey>)
    ensures
        cell_slots(cell) <= cell_total(cell) <= cell.len(),
{
    if cell.len() > 0 {
        let lo = lowest_slice(cell);
        let hi = highest_slice(cell);
        lemma_range_total_filter(cell, lo, hi);
        cell.lemma_filter_len(|p: PointKey| lo <= p.floor_z <= hi);
        lemma_slots_le_total(cell, lo, hi);
    }
}

/// Each non-empty slice holds at least one point.
proof fn lemma_slots_le_total(cell: Seq<PointKey>, lo: int, hi: int)
    ensures
        range_slots(cell, lo, hi) <= range_total(cell, lo, hi),
    decreases hi - lo + 1,
{
    if hi >= lo {
        lemma_slots_le_total(cell, lo, hi - 1);
    }
}

/// The first `n` cells of a row count no more slice points than they hold,
/// and no more non-empty slices than slice points.
proof fn lemma_row_bounds(row: Seq<Seq<PointKey>>, n: int)
    requires
        n <= row.len(),
    ensures
        row_slots(row, n) <= row_total(row, n) <= row_points(row, n),
    decreases n,
{
    if n > 0 {
        lemma_row_bounds(row, n - 1);
        lemma_cell_bounds(row[n - 1]);
    }
}

/// The first `n` rows count no more slice points than they hold, and no
/// more non-empty slices than slice points.
proof fn lemma_rows_bounds(pc: Seq<Seq<Seq<PointKey>>>, n: int)
    requires
        n <= pc.len(),
    ensures
        rows_slots(pc, n) <= rows_total(pc, n) <= rows_points(pc, n),
    decreases n,
{
    if n > 0 {
        lemma_rows_bounds(pc, n - 1);
        lemma_row_bounds(pc[n - 1], pc[n - 1].len() as int);
    }
}

/// Points of a prefix of rows never exceed those of a longer prefix.
proof fn lemma_rows_points_monotone(pc: Seq<Seq<Seq<PointKey>>>, m: int, n: int)
    requires
        m <= n,
    ensures
        rows_points(pc, m) <= rows_points(pc, n),
    decreases n - m,
{
    if m < n {
        lemma_rows_points_monotone(pc, m, n - 1);
    }
}

/// Points of a prefix of cells never exceed those of a longer prefix.
proof fn lemma_row_points_monotone(row: Seq<Seq<PointKey>>, m: int, n: int)
    requires
        m <= n,
    ensures
        row_points(row, m) <= row_points(row, n),
    decreases n - m,
{
    if m < n {
        lemma_row_points_monotone(row, m, n - 1);
    }
}

/// The number of points of a cell in slice `w`.
fn slice_density(cell: &Vec<PointKey>, w: i64) -> (n: usize)
    ensures
        n == slice_count(cell@, w as int),
{
    let ghost pred = |p: PointKey| p.floor_z == w;
    let mut n: usize = 0;
    let mut k: usize = 0;
    while k < cell.len()
        invariant
            pred == (|p: PointKey| p.floor_z == w),
            k <= cell@.len(),
            n == cell@.take(k as int).filter(pred).len(),
            n <= k,
        decreases cell@.len() - k,
    {
        proof {
            reveal_with_fuel(Seq::filter, 1);
            assert(cell@.take(k + 1).drop_last() =~= cell@.take(k as int));
            cell@.take(k as int).lemma_filter_len(pred);
        }
        if cell[k].floor_z == w {
            n = n + 1;
        }
        k = k + 1;
    }
    assert(cell@.take(cell@.len() as int) =~= cell@);
    n
}

/// The lowest and the highest truncated height of a non-empty cell.
fn slice_bounds(cell: &Vec<PointKey>) -> (bounds: (i32, i32))
    requires
        cell@.len() > 0,
    ensures
        bounds.0 == lowest_slice(cell@),
        bounds.1 == highest_slice(cell@),
{
    let mut lo: i32 = cell[0].trunc_z;
    let mut hi: i32 = cell[0].trunc_z;
    let mut k: usize = 1;
    while k < cell.len()
        invariant
            1 <= k <= cell@.len(),
            lo == lowest_slice(cell@.take(k as int)),
            hi == highest_slice(cell@.take(k as int)),
        decreases cell@.len() - k,
    {
        assert(cell@.take(k + 1).drop_last() =~= cell@.take(k as int));
        let t = cell[k].trunc_z;
        if t < lo {
            lo = t;
        }
        if t > hi {
            hi = t;
        }
        k = k + 1;
    }
    assert(cell@.take(cell@.len() as int) =~= cell@);
    (lo, hi)
}

/// The points counted slice by slice and the number of non-empty slices of
/// a cell, from its lowest to its highest truncated height.
fn cell_density(cell: &Vec<PointKey>) -> (stats: (usize, usize))
    ensures
        stats.0 == cell_total(cell@),
        stats.1 == cell_slots(cell@),
{
    proof {
        lemma_cell_bounds(cell@);
    }
    if cell.len() == 0 {
        return (0, 0);
    }
    let (lo, hi) = slice_bounds(cell);
    let ghost (l, h) = (lo as int, hi as int);
    let mut total: usize = 0;
    let mut slots: usize = 0;
    let mut w: i64 = lo as i64;
    while w <= hi as i64
        invariant
            l == lowest_slice(cell@),
            h == highest_slice(cell@),
            lo as int == l,
            hi as int == h,
            cell@.len() <= usize::MAX,
            l <= w <= h + 1,
            total == range_total(cell@, l, w - 1),
            slots == range_slots(cell@, l, w - 1),
            range_total(cell@, l, h) <= cell@.len(),
        decreases h + 1 - w,
    {
        proof {
            lemma_range_total_monotone(cell@, l, w as int, h);
            lemma_slots_le_total(cell@, l, w as int);
        }
        let d = slice_density(cell, w);
        if d > 0 {
            total = total + d;
            slots = slots + 1;
        }
        w = w + 1;
    }
    (total, slots)
}

/// Counting more slices never gives fewer points.
proof fn lemma_range_total_monotone(cell: Seq<PointKey>, lo: int, m: int, n: int)
    requires
        m <= n,
    ensures
        range_total(cell, lo, m) <= range_total(cell, lo, n),
    decreases n - m,
{
    if m < n {
        lemma_range_total_monotone(cell, lo, m, n - 1);
    }
}

/// The points of a cell that do not lie in a slice of more than `limit`
/// points within its height range.
fn thin_cell(cell: &Vec<PointKey>, mean: usize, density_thres: usize) -> (kept: Vec<PointKey>)
    ensures
        kept@ == thinned(cell@, mean + density_thres),
{
    let ghost limit = mean + density_thres;
    let ghost pred = |p: PointKey| !crowded(cell@, p.floor_z as int, limit);
    if cell.len() == 0 {
        proof {
            reveal_with_fuel(Seq::filter, 1);
        }
        return Vec::new();
    }
    let (lo, hi) = slice_bounds(cell);
    let mut kept: Vec<PointKey> = Vec::new();
    let mut k: usize = 0;
    while k < cell.len()
        invariant
            lo == lowest_slice(cell@),
            hi == highest_slice(cell@),
            cell@.len() > 0,
            limit == mean + density_thres,
            pred == (|p: PointKey| !crowded(cell@, p.floor_z as int, limit)),
            k <= cell@.len(),
            kept@ == cell@.take(k as int).filter(pred),
        decreases cell@.len() - k,
    {
        proof {
            reveal_with_fuel(Seq::filter, 1);
            assert(cell@.take(k + 1).drop_last() =~= cell@.take(k as int));
        }
        let p = cell[k];
        let mut dense = false;
        if lo as i64 <= p.floor_z && p.floor_z <= hi as i64 {
            let d = slice_density(cell, p.floor_z);
            dense = d > mean && d - mean > density_thres;
        }
        assert(dense == crowded(cell@, p.floor_z as int, limit));
        if !dense {
            kept.push(p);
        }
        k = k + 1;
    }
    assert(cell@.take(cell@.len() as int) =~= cell@);
    kept
}

/// A copy of a cell.
fn copy_cell(cell: &Vec<PointKey>) -> (copy: Vec<PointKey>)
    ensures
        copy@ == cell@,
{
    let mut copy: Vec<PointKey> = Vec::new();
    let mut k: usize = 0;
    while k < cell.len()
        invariant
            k <= cell@.len(),
            copy@ == cell@.take(k as int),
        decreases cell@.len() - k,
    {
        copy.push(cell[k]);
        k = k + 1;
        assert(copy@ =~= cell@.take(k as int));
    }
    assert(cell@.take(cell@.len() as int) =~= cell@);
    copy
}


/// A value is in a sequence with one more element when it is that element
/// or was already there.
proof fn lemma_contains_push(s: Seq<(usize, usize)>, v: (usize, usize), x: (usize, usize))
    ensures
        s.push(v).contains(x) == (s.contains(x) || x == v),
{
    if s.contains(x) {
        let j = choose|j: int| 0 <= j < s.len() && s[j] == x;
        assert(s.push(v)[j] == x);
    }
    if x == v {
        assert(s.push(v)[s.len() as int] == x);
    }
    if s.push(v).contains(x) && x != v {
        let j = choose|j: int| 0 <= j < s.push(v).len() && s.push(v)[j] == x;
        assert(j < s.len());
        assert(s[j] == x);
    }
}

/// The value of a listed cell after the copy of the first `k` listed cells.
pub open spec fn copied_cell(
    cells_list: Seq<(usize, usize)>,
    pc: Seq<Seq<Seq<PointKey>>>,
    k: int,
    a: int,
    b: int,
) -> Seq<PointKey> {
    if cells_list.take(k).contains((a as usize, b as usize)) {
        pc[a][b]
    } else {
        Seq::empty()
    }
}

/// The voxel density filter. Keeps the cells of `cells_list` (every other
/// cell is emptied). Over all cells of the grid, each height slice
/// `[w, w + 1)` from the lowest to the highest truncated height of its cell
/// that holds points counts toward the mean slice density. When there is
/// such a slice, every slice of a kept cell holding more than
/// `mean + density_thres` points is emptied.
pub fn create_result(
    cells_list: &Vec<(usize, usize)>,
    point_cloud: &Vec<Vec<Vec<PointKey>>>,
    density_thres: usize,
) -> (result: Vec<Vec<Vec<PointKey>>>)
    requires
        forall|k: int|
            0 <= k < cells_list@.len() ==> (#[trigger] cells_list@[k]).0 < point_cloud@.len()
                && cells_list@[k].1 < point_cloud@[cells_list@[k].0 as int]@.len(),
        total_points(grid_keys(point_cloud)) <= usize::MAX,
    ensures
        grid_keys(&result) == density_result(cells_list@, grid_keys(point_cloud), density_thres as nat),
{
    let ghost pc = grid_keys(point_cloud);
    let ghost target = density_result(cells_list@, pc, density_thres as nat);
    assert forall|a: int, b: int| 0 <= a < pc.len() && 0 <= b < pc[a].len() implies #[trigger] pc[a][b]
        == point_cloud@[a]@[b]@ && pc[a].len() == point_cloud@[a]@.len() by {
        assert(pc[a] == point_cloud@[a]@.map_values(|cell: Vec<PointKey>| cell@));
    }
    assert(pc.len() == point_cloud@.len());
    assert forall|a: int| 0 <= a < pc.len() implies #[trigger] pc[a].len() == point_cloud@[a]@.len() by {
        assert(pc[a] == point_cloud@[a]@.map_values(|cell: Vec<PointKey>| cell@));
    }
    // Every cell starts empty.
    let mut result: Vec<Vec<Vec<PointKey>>> = Vec::new();
    let mut i: usize = 0;
    while i < point_cloud.len()
        invariant
            pc == grid_keys(point_cloud),
            pc.len() == point_cloud@.len(),
            forall|a: int| 0 <= a < pc.len() ==> #[trigger] pc[a].len() == point_cloud@[a]@.len(),
            i <= pc.len(),
            result@.len() == i,
            forall|a: int| 0 <= a < i ==> #[trigger] result@[a]@.len() == pc[a].len(),
            forall|a: int, b: int| 0 <= a < i && 0 <= b < pc[a].len() ==> #[trigger] result@[a]@[b]@ == Seq::<PointKey>::empty(),
        decreases pc.len() - i,
    {
        let mut row: Vec<Vec<PointKey>> = Vec::new();
        let mut j: usize = 0;
        while j < point_cloud[i].len()
            invariant
                i < point_cloud@.len(),
                j <= point_cloud@[i as int]@.len(),
                row@.len() == j,
                forall|b: int| 0 <= b < j ==> #[trigger] row@[b]@ == Seq::<PointKey>::empty(),
            decreases point_cloud@[i as int]@.len() - j,
        {
            row.push(Vec::new());
            j = j + 1;
        }
        result.push(row);
        i = i + 1;
    }
    // The listed cells are copied.
    let mut k: usize = 0;
    while k < cells_list.len()
        invariant
            pc == grid_keys(point_cloud),
            pc.len() == point_cloud@.len(),
            forall|a: int| 0 <= a < pc.len() ==> #[trigger] pc[a].len() == point_cloud@[a]@.len(),
            forall|a: int, b: int| 0 <= a < pc.len() && 0 <= b < pc[a].len() ==> #[trigger] pc[a][b] == point_cloud@[a]@[b]@,
            forall|k: int|
                0 <= k < cells_list@.len() ==> (#[trigger] cells_list@[k]).0 < point_cloud@.len()
                    && cells_list@[k].1 < point_cloud@[cells_list@[k].0 as int]@.len(),
            k <= cells_list@.len(),
            result@.len() == pc.len(),
            forall|a: int| 0 <= a < pc.len() ==> #[trigger] result@[a]@.len() == pc[a].len(),
            forall|a: int, b: int| 0 <= a < pc.len() && 0 <= b < pc[a].len() ==> #[trigger] result@[a]@[b]@ == copied_cell(cells_list@, pc, k as int, a, b),
        decreases cells_list@.len() - k,
    {
        let (a, b) = cells_list[k];
        let copy = copy_cell(&point_cloud[a][b]);
        let ghost before = result@;
        result[a][b] = copy;
        proof {
            assert(cells_list@.take(k + 1) =~= cells_list@.take(k as int).push((a, b)));
            assert forall|x: int, y: int| 0 <= x < pc.len() && 0 <= y < pc[x].len() implies #[trigger] result@[x]@[y]@ == copied_cell(cells_list@, pc, k + 1, x, y) by {
                assert(before[x]@[y]@ == copied_cell(cells_list@, pc, k as int, x, y));
                assert(point_cloud.len() == point_cloud@.len());
                assert(point_cloud@[x].len() == point_cloud@[x]@.len());
                lemma_contains_push(cells_list@.take(k as int), (a, b), (x as usize, y as usize));
                if x == a && y == b {
                    assert(result@[x]@[y]@ == copy@);
                } else if x == a {
                    assert(result@[x]@[y] == before[x]@[y]);
                } else {
                    assert(result@[x] == before[x]);
                }
            }
            assert forall|x: int| 0 <= x < pc.len() implies #[trigger] result@[x]@.len() == pc[x].len() by {
                assert(before[x]@.len() == pc[x].len());
            }
        }
        k = k + 1;
    }
    assert(cells_list@.take(cells_list@.len() as int) =~= cells_list@);
    // The slice densities of the whole grid.
    let mut mean_density: usize = 0;
    let mut count: usize = 0;
    let mut i: usize = 0;
    while i < point_cloud.len()
        invariant
            pc == grid_keys(point_cloud),
            pc.len() == point_cloud@.len(),
            forall|a: int| 0 <= a < pc.len() ==> #[trigger] pc[a].len() == point_cloud@[a]@.len(),
            forall|a: int, b: int| 0 <= a < pc.len() && 0 <= b < pc[a].len() ==> #[trigger] pc[a][b] == point_cloud@[a]@[b]@,
            total_points(pc) <= usize::MAX,
            i <= pc.len(),
            mean_density == rows_total(pc, i as int),
            count == rows_slots(pc, i as int),
        decreases pc.len() - i,
    {
        let mut j: usize = 0;
        let ghost (before_total, before_slots) = (mean_density as int, count as int);
        while j < point_cloud[i].len()
            invariant
                pc == grid_keys(point_cloud),
                forall|a: int, b: int| 0 <= a < pc.len() && 0 <= b < pc[a].len() ==> #[trigger] pc[a][b] == point_cloud@[a]@[b]@,
                i < pc.len(),
                pc[i as int].len() == point_cloud@[i as int]@.len(),
                total_points(pc) <= usize::MAX,
                j <= pc[i as int].len(),
                before_total == rows_total(pc, i as int),
                before_slots == rows_slots(pc, i as int),
                mean_density == before_total + row_total(pc[i as int], j as int),
                count == before_slots + row_slots(pc[i as int], j as int),
            decreases pc[i as int].len() - j,
        {
            proof {
                lemma_rows_bounds(pc, i as int);
                lemma_row_bounds(pc[i as int], j + 1);
                lemma_row_points_monotone(pc[i as int], j + 1, pc[i as int].len() as int);
                lemma_rows_points_monotone(pc, i + 1, pc.len() as int);
            }
            let (d, s) = cell_density(&point_cloud[i][j]);
            mean_density = mean_density + d;
            count = count + s;
            j = j + 1;
        }
        i = i + 1;
    }
    if count > 0 {
        mean_density = mean_density / count;
        let ghost limit = (mean_density + density_thres) as int;
        let mut i: usize = 0;
        while i < result.len()
            invariant
                pc == grid_keys(point_cloud),
                pc.len() == point_cloud@.len(),
                grid_slots(pc) > 0,
                target == density_result(cells_list@, pc, density_thres as nat),
                cells_list@.take(cells_list@.len() as int) == cells_list@,
                mean_density == self::mean_density(pc),
                limit == mean_density + density_thres,
                i <= pc.len(),
                result@.len() == pc.len(),
                forall|a: int| 0 <= a < pc.len() ==> #[trigger] result@[a]@.len() == pc[a].len(),
                forall|a: int, b: int| 0 <= a < pc.len() && 0 <= b < pc[a].len() ==> #[trigger] result@[a]@[b]@ == if a < i {
                    target[a][b]
                } else {
                    copied_cell(cells_list@, pc, cells_list@.len() as int, a, b)
                },
            decreases pc.len() - i,
        {
            let mut j: usize = 0;
            while j < result[i].len()
                invariant
                    pc == grid_keys(point_cloud),
                    pc.len() == point_cloud@.len(),
                    grid_slots(pc) > 0,
                    target == density_result(cells_list@, pc, density_thres as nat),
                    cells_list@.take(cells_list@.len() as int) == cells_list@,
                    mean_density == self::mean_density(pc),
                    limit == mean_density + density_thres,
                    i < pc.len(),
                    j <= pc[i as int].len(),
                    result@.len() == pc.len(),
                    forall|a: int| 0 <= a < pc.len() ==> #[trigger] result@[a]@.len() == pc[a].len(),
                    forall|a: int, b: int| 0 <= a < pc.len() && 0 <= b < pc[a].len() ==> #[trigger] result@[a]@[b]@ == if a < i || (a == i && b < j) {
                        target[a][b]
                    } else {
                        copied_cell(cells_list@, pc, cells_list@.len() as int, a, b)
                    },
                decreases pc[i as int].len() - j,
            {
                let thin = thin_cell(&result[i][j], mean_density, density_thres);
                let ghost before = result@;
                proof {
                    assert(before[i as int]@[j as int]@ == copied_cell(cells_list@, pc, cells_list@.len() as int, i as int, j as int));
                    reveal_with_fuel(Seq::filter, 1);
                    let ghost listed = cells_list@.contains((i, j));
                    assert(target[i as int][j as int] == if listed {
                        thinned(pc[i as int][j as int], (self::mean_density(pc) + density_thres) as int)
                    } else {
                        Seq::<PointKey>::empty()
                    });
                    if listed {
                        assert(before[i as int]@[j as int]@ == pc[i as int][j as int]);
                    } else {
                        assert(before[i as int]@[j as int]@ == Seq::<PointKey>::empty());
                        assert(thinned(Seq::<PointKey>::empty(), limit) =~= Seq::<PointKey>::empty());
                    }
                    assert(thin@ == target[i as int][j as int]);
                }
                result[i][j] = thin;
                proof {
                    assert forall|a: int, b: int| 0 <= a < pc.len() && 0 <= b < pc[a].len() implies #[trigger] result@[a]@[b]@ == if a < i || (a == i && b < j + 1) {
                        target[a][b]
                    } else {
                        copied_cell(cells_list@, pc, cells_list@.len() as int, a, b)
                    } by {
                        assert(before[a]@[b]@ == if a < i || (a == i && b < j) {
                            target[a][b]
                        } else {
                            copied_cell(cells_list@, pc, cells_list@.len() as int, a, b)
                        });
                    }
                    assert forall|a: int| 0 <= a < pc.len() implies #[trigger] result@[a]@.len() == pc[a].len() by {
                        assert(before[a]@.len() == pc[a].len());
                    }
                }
                j = j + 1;
            }
            i = i + 1;
        }
    }
    proof {
        assert forall|a: int| 0 <= a < pc.len() implies #[trigger] grid_keys(&result)[a] =~= target[a] by {
            assert(grid_keys(&result)[a] == result@[a]@.map_values(|cell: Vec<PointKey>| cell@));
            if grid_slots(pc) == 0 {
                assert forall|b: int| 0 <= b < pc[a].len() implies result@[a]@[b]@ == target[a][b] by {
                    assert(result@[a]@[b]@ == copied_cell(cells_list@, pc, cells_list@.len() as int, a, b));
                }
            }
        }
        assert(grid_keys(&result) =~= target);
    }
    result
}


/// A point kept by a filter was in the sequence and passes the predicate.
proof fn lemma_filter_kept(s: Seq<PointKey>, pred: spec_fn(PointKey) -> bool, x: PointKey)
    requires
        s.filter(pred).contains(x),
    ensures
        s.contains(x),
        pred(x),
    decreases s.len(),
{
    reveal_with_fuel(Seq::filter, 1);
    if s.len() > 0 {
        let rest = s.drop_last().filter(pred);
        if rest.contains(x) {
            lemma_filter_kept(s.drop_last(), pred, x);
            let j = choose|j: int| 0 <= j < s.drop_last().len() && s.drop_last()[j] == x;
            assert(s[j] == x);
        } else {
            let j = choose|j: int| 0 <= j < s.filter(pred).len() && s.filter(pred)[j] == x;
            assert(j == rest.len());
            assert(s[s.len() - 1] == x);
        }
    }
}

/// The density filter only keeps points of listed cells, each in its own
/// cell, and (when the grid has a non-empty slice) none that lies in a
/// slice of more than `mean + density_thres` points.
pub proof fn lemma_density_keeps_subset(
    cells_list: Seq<(usize, usize)>,
    pc: Seq<Seq<Seq<PointKey>>>,
    density_thres: nat,
    a: int,
    b: int,
    p: PointKey,
)
    requires
        0 <= a < pc.len(),
        0 <= b < pc[a].len(),
        density_result(cells_list, pc, density_thres)[a][b].contains(p),
    ensures
        cells_list.contains((a as usize, b as usize)),
        pc[a][b].contains(p),
        grid_slots(pc) > 0 ==> !crowded(pc[a][b], p.floor_z as int, (mean_density(pc) + density_thres) as int),
{
    let kept = density_result(cells_list, pc, density_thres)[a][b];
    if !cells_list.contains((a as usize, b as usize)) {
        assert(kept.len() == 0);
    } else if grid_slots(pc) > 0 {
        let limit = (mean_density(pc) + density_thres) as int;
        lemma_filter_kept(pc[a][b], |q: PointKey| !crowded(pc[a][b], q.floor_z as int, limit), p);
    }
}

/// In a listed cell, every point outside the crowded slices is kept.
pub proof fn lemma_density_keeps_sparse(
    cells_list: Seq<(usize, usize)>,
    pc: Seq<Seq<Seq<PointKey>>>,
    density_thres: nat,
    a: int,
    b: int,
    k: int,
)
    requires
        0 <= a < pc.len(),
        0 <= b < pc[a].len(),
        0 <= k < pc[a][b].len(),
        cells_list.contains((a as usize, b as usize)),
        grid_slots(pc) > 0 ==> !crowded(pc[a][b], pc[a][b][k].floor_z as int, (mean_density(pc) + density_thres) as int),
    ensures
        density_result(cells_list, pc, density_thres)[a][b].contains(pc[a][b][k]),
{
    if grid_slots(pc) > 0 {
        let limit = (mean_density(pc) + density_thres) as int;
        pc[a][b].lemma_filter_contains(|q: PointKey| !crowded(pc[a][b], q.floor_z as int, limit), k);
    } else {
        assert(pc[a][b].contains(pc[a][b][k]));
    }
}

/// The slices, from the lowest to the highest truncated height of a cell,
/// in which at least one of its points lies.
pub open spec fn occupied_slices(cell: Seq<PointKey>) -> Set<int> {
    Set::new(
        |w: int|
            cell.len() > 0 && lowest_slice(cell) <= w <= highest_slice(cell) && exists|k: int|
                0 <= k < cell.len() && #[trigger] cell[k].floor_z == w,
    )
}

/// A slice holds a point exactly when some point of the cell lies in it.
proof fn lemma_slice_nonempty(cell: Seq<PointKey>, w: int)
    ensures
        slice_count(cell, w) > 0 <==> exists|k: int| 0 <= k < cell.len() && #[trigger] cell[k].floor_z == w,
{
    let pred = |p: PointKey| p.floor_z == w;
    if slice_count(cell, w) > 0 {
        cell.lemma_filter_pred(pred, 0);
        let x = cell.filter(pred)[0];
        assert(cell.filter(pred).contains(x));
        lemma_filter_kept(cell, pred, x);
        let k = choose|k: int| 0 <= k < cell.len() && cell[k] == x;
        assert(cell[k].floor_z == w);
    }
    if exists|k: int| 0 <= k < cell.len() && #[trigger] cell[k].floor_z == w {
        let k = choose|k: int| 0 <= k < cell.len() && #[trigger] cell[k].floor_z == w;
        cell.lemma_filter_contains(pred, k);
    }
}

/// The non-empty slices among `lo ..= hi`, counted by `range_slots`, are
/// the slices of that range in which a point lies.
proof fn lemma_range_slots_set(cell: Seq<PointKey>, lo: int, hi: int)
    ensures
        Set::new(|w: int| lo <= w <= hi && exists|k: int| 0 <= k < cell.len() && #[trigger] cell[k].floor_z == w).finite(),
        range_slots(cell, lo, hi) == Set::new(
            |w: int| lo <= w <= hi && exists|k: int| 0 <= k < cell.len() && #[trigger] cell[k].floor_z == w,
        ).len(),
    decreases hi - lo + 1,
{
    let here = Set::new(|w: int| lo <= w <= hi && exists|k: int| 0 <= k < cell.len() && #[trigger] cell[k].floor_z == w);
    if hi < lo {
        assert(here =~= Set::<int>::empty());
    } else {
        lemma_range_slots_set(cell, lo, hi - 1);
        let below = Set::new(
            |w: int| lo <= w <= hi - 1 && exists|k: int| 0 <= k < cell.len() && #[trigger] cell[k].floor_z == w,
        );
        lemma_slice_nonempty(cell, hi);
        if slice_count(cell, hi) > 0 {
            assert(here =~= below.insert(hi));
            assert(!below.contains(hi));
        } else {
            assert(here =~= below);
        }
    }
}

/// Each non-empty slice of a cell counts once: the slots of a cell are the
/// distinct slices, between its lowest and highest truncated height, in
/// which at least one of its points lies.
pub proof fn lemma_cell_slots_are_occupied_slices(cell: Seq<PointKey>)
    ensures
        occupied_slices(cell).finite(),
        cell_slots(cell) == occupied_slices(cell).len(),
{
    if cell.len() == 0 {
        assert(occupied_slices(cell) =~= Set::<int>::empty());
    } else {
        let lo = lowest_slice(cell);
        let hi = highest_slice(cell);
        lemma_range_slots_set(cell, lo, hi);
        assert(occupied_slices(cell) =~= Set::new(
            |w: int| lo <= w <= hi && exists|k: int| 0 <= k < cell.len() && #[trigger] cell[k].floor_z == w,
        ));
    }
}

/// The points of a cell that are counted are those whose height lies in
/// a slice between its lowest and highest truncated height.
pub proof fn lemma_cell_total_counts_points(cell: Seq<PointKey>)
    requires
        cell.len() > 0,
    ensures
        cell_total(cell) == cell.filter(
            |p: PointKey| lowest_slice(cell) <= p.floor_z <= highest_slice(cell),
        ).len(),
{
    lemma_range_total_filter(cell, lowest_slice(cell), highest_slice(cell));
}

/// In a row whose cells other than `b` are empty, the first `n` cells
/// count what cell `b` counts, once it is among them.
proof fn lemma_row_one_cell(row: Seq<Seq<PointKey>>, b: int, n: int)
    requires
        0 <= b < row.len(),
        n <= row.len(),
        forall|j: int| 0 <= j < row.len() && j != b ==> (#[trigger] row[j]).len() == 0,
    ensures
        row_slots(row, n) == if b < n { cell_slots(row[b]) } else { 0 },
        row_total(row, n) == if b < n { cell_total(row[b]) } else { 0 },
    decreases n,
{
    if n > 0 {
        lemma_row_one_cell(row, b, n - 1);
    }
}

/// In a row whose cells are all empty, nothing is counted.
proof fn lemma_row_no_cell(row: Seq<Seq<PointKey>>, n: int)
    requires
        n <= row.len(),
        forall|j: int| 0 <= j < row.len() ==> (#[trigger] row[j]).len() == 0,
    ensures
        row_slots(row, n) == 0,
        row_total(row, n) == 0,
    decreases n,
{
    if n > 0 {
        lemma_row_no_cell(row, n - 1);
    }
}

/// In a grid whose cells other than `(a, b)` are empty, the first `n` rows
/// count what cell `(a, b)` counts, once its row is among them.
proof fn lemma_rows_one_cell(pc: Seq<Seq<Seq<PointKey>>>, a: int, b: int, n: int)
    requires
        0 <= a < pc.len(),
        0 <= b < pc[a].len(),
        n <= pc.len(),
        forall|i: int, j: int|
            0 <= i < pc.len() && 0 <= j < pc[i].len() && (i, j) != (a, b) ==> (#[trigger] pc[i][j]).len() == 0,
    ensures
        rows_slots(pc, n) == if a < n { cell_slots(pc[a][b]) } else { 0 },
        rows_total(pc, n) == if a < n { cell_total(pc[a][b]) } else { 0 },
    decreases n,
{
    if n > 0 {
        lemma_rows_one_cell(pc, a, b, n - 1);
        let row = pc[n - 1];
        if n - 1 == a {
            assert forall|j: int| 0 <= j < row.len() && j != b implies (#[trigger] row[j]).len() == 0 by {
                assert(pc[a][j].len() == 0);
            }
            lemma_row_one_cell(row, b, row.len() as int);
        } else {
            assert forall|j: int| 0 <= j < row.len() implies (#[trigger] row[j]).len() == 0 by {
                assert(pc[n - 1][j].len() == 0);
            }
            lemma_row_no_cell(row, row.len() as int);
        }
    }
}

/// The mean slice density of a grid whose only non-empty cell is `(a, b)`:
/// the points of that cell that lie in a slice between its lowest and
/// highest truncated height, divided by the number of distinct such slices
/// that hold a point (each counted once, however many points it holds).
pub proof fn lemma_mean_of_one_cell(pc: Seq<Seq<Seq<PointKey>>>, a: int, b: int)
    requires
        0 <= a < pc.len(),
        0 <= b < pc[a].len(),
        pc[a][b].len() > 0,
        forall|i: int, j: int|
            0 <= i < pc.len() && 0 <= j < pc[i].len() && (i, j) != (a, b) ==> (#[trigger] pc[i][j]).len() == 0,
    ensures
        occupied_slices(pc[a][b]).finite(),
        grid_slots(pc) == occupied_slices(pc[a][b]).len(),
        grid_total(pc) == pc[a][b].filter(
            |p: PointKey| lowest_slice(pc[a][b]) <= p.floor_z <= highest_slice(pc[a][b]),
        ).len(),
        grid_slots(pc) > 0 ==> mean_density(pc) == pc[a][b].filter(
            |p: PointKey| lowest_slice(pc[a][b]) <= p.floor_z <= highest_slice(pc[a][b]),
        ).len() / occupied_slices(pc[a][b]).len(),
{
    lemma_rows_one_cell(pc, a, b, pc.len() as int);
    lemma_cell_slots_are_occupied_slices(pc[a][b]);
    lemma_cell_total_counts_points(pc[a][b]);
}

/// In a listed cell of a grid with a non-empty slice, a point is kept
/// exactly when it does not lie in a slice, between the cell's lowest and
/// highest truncated height, that holds more than the mean slice density
/// plus `density_thres` of the cell's points; a cell that is not listed
/// keeps nothing.
pub proof fn lemma_density_keeps_exactly(
    cells_list: Seq<(usize, usize)>,
    pc: Seq<Seq<Seq<PointKey>>>,
    density_thres: nat,
    a: int,
    b: int,
    k: int,
)
    requires
        0 <= a < pc.len(),
        0 <= b < pc[a].len(),
        0 <= k < pc[a][b].len(),
    ensures
        !cells_list.contains((a as usize, b as usize)) ==> density_result(cells_list, pc, density_thres)[a][b].len()
            == 0,
        cells_list.contains((a as usize, b as usize)) && grid_slots(pc) > 0 ==> (density_result(
            cells_list,
            pc,
            density_thres,
        )[a][b].contains(pc[a][b][k]) <==> !(lowest_slice(pc[a][b]) <= pc[a][b][k].floor_z <= highest_slice(pc[a][b])
            && pc[a][b].filter(|q: PointKey| q.floor_z == pc[a][b][k].floor_z).len() > mean_density(pc)
            + density_thres)),
{
    let p = pc[a][b][k];
    if cells_list.contains((a as usize, b as usize)) && grid_slots(pc) > 0 {
        assert(slice_count(pc[a][b], p.floor_z as int) == pc[a][b].filter(|q: PointKey| q.floor_z == p.floor_z).len())
            by {
            assert((|q: PointKey| q.floor_z == p.floor_z as int) =~= (|q: PointKey| q.floor_z == p.floor_z));
        }
        if density_result(cells_list, pc, density_thres)[a][b].contains(p) {
            lemma_density_keeps_subset(cells_list, pc, density_thres, a, b, p);
        } else if !crowded(pc[a][b], p.floor_z as int, (mean_density(pc) + density_thres) as int) {
            lemma_density_keeps_sparse(cells_list, pc, density_thres, a, b, k);
        }
    }
}

} // verus!
