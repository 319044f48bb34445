//! Division of the ground plane into a grid of cells, and the voxel density
//! filter that keeps the points of the selected cells.
use vstd::prelude::*;

verus! {

/// A grid dimension: at least one cell.
pub open spec fn at_least_one(size: usize) -> nat {
    if size == 0 {
        1
    } else {
        size as nat
    }
}

/// A cell coordinate moved onto the last of `size` cells when it lies beyond.
pub open spec fn clamp_to(v: usize, size: nat) -> int {
    if v >= size {
        size - 1
    } else {
        v as int
    }
}

/// The indices, in increasing order, of those among the first `n` points
/// whose clamped coordinates are `(a, b)`.
pub open spec fn cell_members(coords: Seq<(usize, usize)>, sx: nat, sy: nat, a: int, b: int, n: int) -> Seq<usize>
    decreases n,
{
    if n <= 0 {
        Seq::empty()
    } else {
        let before = cell_members(coords, sx, sy, a, b, n - 1);
        if clamp_to(coords[n - 1].0, sx) == a && clamp_to(coords[n - 1].1, sy) == b {
            before.push((n - 1) as usize)
        } else {
            before
        }
    }
}

/// Places each point in its cell of a grid of `size_x` by `size_y` cells
/// (a zero size counts as one). Point `k` has the cell coordinates
/// `cell_coords[k]`; a coordinate beyond the grid goes to the last cell of
/// that dimension. Each cell lists the indices of its points in increasing
/// order. With no points the grid has no cells.
pub fn grid_division(cell_coords: &Vec<(usize, usize)>, size_x: usize, size_y: usize) -> (grids: Vec<Vec<Vec<usize>>>)
    ensures
        cell_coords@.len() == 0 ==> grids@.len() == 0,
        cell_coords@.len() > 0 ==> {
            &&& grids@.len() == at_least_one(size_x)
            &&& forall|a: int| 0 <= a < grids@.len() ==> #[trigger] grids@[a]@.len() == at_least_one(size_y)
            &&& forall|a: int, b: int|
                0 <= a < at_least_one(size_x) && 0 <= b < at_least_one(size_y) ==> #[trigger] grids@[a]@[b]@
                    == cell_members(cell_coords@, at_least_one(size_x), at_least_one(size_y), a, b, cell_coords@.len() as int)
        },
{
    if cell_coords.len() == 0 {
        return Vec::new();
    }
    let mut grid_size_x = size_x;
    let mut grid_size_y = size_y;
    if grid_size_x == 0 {
        grid_size_x = 1;
    }
    if grid_size_y == 0 {
        grid_size_y = 1;
    }
    let ghost sx = at_least_one(size_x);
    let ghost sy = at_least_one(size_y);
    let mut grids: Vec<Vec<Vec<usize>>> = Vec::new();
    let mut i: usize = 0;
    while i < grid_size_x
        invariant
            i <= grid_size_x,
            grid_size_y == sy,
            grids@.len() == i,
            forall|a: int| 0 <= a < i ==> #[trigger] grids@[a]@.len() == sy,
            forall|a: int, b: int| 0 <= a < i && 0 <= b < sy ==> #[trigger] grids@[a]@[b]@ == Seq::<usize>::empty(),
        decreases grid_size_x - i,
    {
        let mut row: Vec<Vec<usize>> = Vec::new();
        let mut j: usize = 0;
        while j < grid_size_y
            invariant
                j <= grid_size_y,
                row@.len() == j,
                forall|b: int| 0 <= b < j ==> #[trigger] row@[b]@ == Seq::<usize>::empty(),
            decreases grid_size_y - j,
        {
            row.push(Vec::new());
            j = j + 1;
        }
        grids.push(row);
        i = i + 1;
    }
    let mut k: usize = 0;
    while k < cell_coords.len()
        invariant
            grid_size_x == sx,
            grid_size_y == sy,
            sx == at_least_one(size_x),
            sy == at_least_one(size_y),
            k <= cell_coords@.len(),
            grids@.len() == sx,
            forall|a: int| 0 <= a < sx ==> #[trigger] grids@[a]@.len() == sy,
            forall|a: int, b: int|
                0 <= a < sx && 0 <= b < sy ==> #[trigger] grids@[a]@[b]@ == cell_members(
                    cell_coords@,
                    sx,
                    sy,
                    a,
                    b,
                    k as int,
                ),
        decreases cell_coords@.len() - k,
    {
        let (x, y) = cell_coords[k];
        let mut i = x;
        let mut j = y;
        if i >= grid_size_x {
            i = grid_size_x - 1;
        }
        if j >= grid_size_y {
            j = grid_size_y - 1;
        }
        let ghost old_grids = grids@;
        grids[i][j].push(k);
        proof {
            assert forall|a: int, b: int| 0 <= a < sx && 0 <= b < sy implies #[trigger] grids@[a]@[b]@
                == cell_members(cell_coords@, sx, sy, a, b, k + 1) by {
                assert(old_grids[a]@[b]@ == cell_members(cell_coords@, sx, sy, a, b, k as int));
            }
            assert forall|a: int| 0 <= a < sx implies #[trigger] grids@[a]@.len() == sy by {
                assert(old_grids[a]@.len() == sy);
            }
        }
        k = k + 1;
    }
    grids
}


/// Every point lies in exactly one cell: the cell of its clamped
/// coordinates lists it, and no other cell does; cells list only points.
pub proof fn lemma_each_point_in_one_cell(coords: Seq<(usize, usize)>, sx: nat, sy: nat, a: int, b: int, n: int, k: usize)
    requires
        0 <= n <= coords.len(),
        coords.len() <= usize::MAX,
    ensures
        cell_members(coords, sx, sy, a, b, n).contains(k) <==> (k < n && clamp_to(coords[k as int].0, sx) == a
            && clamp_to(coords[k as int].1, sy) == b),
        forall|j: int| 0 <= j < cell_members(coords, sx, sy, a, b, n).len() ==> #[trigger] cell_members(coords, sx, sy, a, b, n)[j] < n,
    decreases n,
{
    if n > 0 {
        lemma_each_point_in_one_cell(coords, sx, sy, a, b, n - 1, k);
        let before = cell_members(coords, sx, sy, a, b, n - 1);
        if clamp_to(coords[n - 1].0, sx) == a && clamp_to(coords[n - 1].1, sy) == b {
            let last = (n - 1) as usize;
            let after = before.push(last);
            assert(last == n - 1);
            assert(after[after.len() - 1] == last);
            if after.contains(k) && k != last {
                let j = choose|j: int| 0 <= j < after.len() && after[j] == k;
                assert(j < before.len());
                assert(before[j] == k);
            }
            if before.contains(k) {
                let j = choose|j: int| 0 <= j < before.len() && before[j] == k;
                assert(after[j] == k);
            }
        }
    }
}

/// Each cell lists its points in increasing order of index, each once.
pub proof fn lemma_cell_lists_increasing(coords: Seq<(usize, usize)>, sx: nat, sy: nat, a: int, b: int, n: int)
    requires
        0 <= n <= coords.len(),
        coords.len() <= usize::MAX,
    ensures
        forall|i: int, j: int|
            0 <= i < j < cell_members(coords, sx, sy, a, b, n).len() ==> #[trigger] cell_members(coords, sx, sy, a, b, n)[i]
                < #[trigger] cell_members(coords, sx, sy, a, b, n)[j],
    decreases n,
{
    if n > 0 {
        lemma_cell_lists_increasing(coords, sx, sy, a, b, n - 1);
        lemma_each_point_in_one_cell(coords, sx, sy, a, b, n - 1, 0);
        let before = cell_members(coords, sx, sy, a, b, n - 1);
        if clamp_to(coords[n - 1].0, sx) == a && clamp_to(coords[n - 1].1, sy) == b {
            let after = before.push((n - 1) as usize);
            assert forall|i: int, j: int| 0 <= i < j < after.len() implies #[trigger] after[i] < #[trigger] after[j] by {
                if j == before.len() {
                    assert(before[i] < n - 1);
                } else {
                    assert(before[i] < before[j]);
                }
            }
        }
    }
}

} // verus!
