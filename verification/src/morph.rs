//! Morphological operations on the occupancy raster: padding, erosion and
//! dilation.
use vstd::prelude::*;
use crate::raster::{
    at, b2n, cells, dilation, erosion, fits_with_margin, gap_between, neighbours8,
    on_border, padded_grid, survives_erode4, width, count_row, count_col, level_threshold,
    vertical_level, horizontal_level, vertically_supported, horizontally_supported,
    survives_erode_reach, occupied, occupied_rows, row_occupied, covered_by,
};

verus! {

/// A row of `num` empty cells.
fn empty_vector(num: usize) -> (vec: Vec<bool>)
    ensures
        vec@ == Seq::new(num as nat, |_i: int| false),
{
    let mut vec: Vec<bool> = Vec::new();
    let mut k: usize = 0;
    while k < num
        invariant
            k <= num,
            vec@ == Seq::new(k as nat, |_i: int| false),
        decreases num - k,
    {
        vec.push(false);
        k = k + 1;
    }
    vec
}

/// `row` with the cells of `empty_cells` (all empty) added on both sides.
fn pad_row(row: &Vec<bool>, empty_cells: &Vec<bool>) -> (padded: Vec<bool>)
    requires
        forall|b: int| 0 <= b < empty_cells@.len() ==> !empty_cells@[b],
        row@.len() + 2 * empty_cells@.len() <= usize::MAX,
    ensures
        padded@ == Seq::new(
            (row@.len() + 2 * empty_cells@.len()) as nat,
            |b: int| empty_cells@.len() <= b < empty_cells@.len() + row@.len() && row@[b - empty_cells@.len()],
        ),
{
    let p = empty_cells.len();
    let n = row.len();
    let ghost target = Seq::new(
        (n + 2 * p) as nat,
        |b: int| p <= b < p + n && row@[b - p],
    );
    let mut padded: Vec<bool> = Vec::new();
    let mut k: usize = 0;
    while k < p
        invariant
            p == empty_cells@.len(),
            n == row@.len(),
            n + 2 * p <= usize::MAX,
            forall|b: int| 0 <= b < empty_cells@.len() ==> !empty_cells@[b],
            target == Seq::new((n + 2 * p) as nat, |b: int| p <= b < p + n && row@[b - p]),
            k <= p,
            padded@ == target.take(k as int),
        decreases p - k,
    {
        padded.push(empty_cells[k]);
        k = k + 1;
        assert(padded@ =~= target.take(k as int));
    }
    let mut k: usize = 0;
    while k < n
        invariant
            p == empty_cells@.len(),
            n == row@.len(),
            n + 2 * p <= usize::MAX,
            target == Seq::new((n + 2 * p) as nat, |b: int| p <= b < p + n && row@[b - p]),
            k <= n,
            padded@ == target.take(p + k),
        decreases n - k,
    {
        padded.push(row[k]);
        k = k + 1;
        assert(padded@ =~= target.take(p + k));
    }
    let mut k: usize = 0;
    while k < p
        invariant
            p == empty_cells@.len(),
            n == row@.len(),
            n + 2 * p <= usize::MAX,
            forall|b: int| 0 <= b < empty_cells@.len() ==> !empty_cells@[b],
            target == Seq::new((n + 2 * p) as nat, |b: int| p <= b < p + n && row@[b - p]),
            k <= p,
            padded@ == target.take(p + n + k),
        decreases p - k,
    {
        padded.push(empty_cells[k]);
        k = k + 1;
        assert(padded@ =~= target.take(p + n + k));
    }
    assert(padded@ =~= target);
    padded
}

/// The raster surrounded by `padding` empty cells on every side.
fn create_padded_point_cloud(point_cloud: &Vec<Vec<bool>>, padding: usize) -> (padded: Vec<
    Vec<bool>,
>)
    requires
        fits_with_margin(cells(point_cloud), padding as nat),
    ensures
        cells(&padded) == padded_grid(cells(point_cloud), padding as nat),
{
    let ghost g = cells(point_cloud);
    let ghost target = padded_grid(g, padding as nat);
    let empty_cells = empty_vector(padding);
    let cols: usize = if point_cloud.len() == 0 {
        0
    } else {
        point_cloud[0].len()
    };
    let mut padded: Vec<Vec<bool>> = Vec::new();
    let mut i: usize = 0;
    while i < padding
        invariant
            g == cells(point_cloud),
            target == padded_grid(g, padding as nat),
            fits_with_margin(g, padding as nat),
            cols == width(g),
            i <= padding,
            padded@.len() == i,
            forall|a: int| 0 <= a < i ==> #[trigger] padded@[a]@ == target[a],
        decreases padding - i,
    {
        let row = empty_vector(cols + padding * 2);
        proof {
            assert(row@ =~= target[i as int]);
        }
        padded.push(row);
        i = i + 1;
    }
    let mut r: usize = 0;
    while r < point_cloud.len()
        invariant
            g == cells(point_cloud),
            target == padded_grid(g, padding as nat),
            fits_with_margin(g, padding as nat),
            empty_cells@ == Seq::new(padding as nat, |_i: int| false),
            r <= point_cloud@.len(),
            padded@.len() == padding + r,
            forall|a: int| 0 <= a < padding + r ==> #[trigger] padded@[a]@ == target[a],
        decreases point_cloud@.len() - r,
    {
        assert(g[r as int] == point_cloud@[r as int]@);
        let row = pad_row(&point_cloud[r], &empty_cells);
        proof {
            assert(row@ =~= target[padding + r]);
        }
        padded.push(row);
        r = r + 1;
    }
    let mut i: usize = padding;
    while i < padding * 2
        invariant
            g == cells(point_cloud),
            target == padded_grid(g, padding as nat),
            fits_with_margin(g, padding as nat),
            cols == width(g),
            padding <= i <= 2 * padding,
            padded@.len() == point_cloud@.len() + i,
            forall|a: int| 0 <= a < point_cloud@.len() + i ==> #[trigger] padded@[a]@ == target[a],
        decreases 2 * padding - i,
    {
        let row = empty_vector(cols + padding * 2);
        proof {
            assert(row@ =~= target[point_cloud@.len() + i]);
        }
        padded.push(row);
        i = i + 1;
    }
    assert(cells(&padded) =~= target);
    padded
}


/// 1 for an occupied cell, 0 for an empty one.
fn b2u(b: bool) -> (n: usize)
    ensures
        n == b2n(b),
{
    if b {
        1
    } else {
        0
    }
}

/// A cell of the padded raster, in range or not, is the cell of the raster
/// it stands over.
proof fn lemma_padded_at(g: Seq<Seq<bool>>, p: nat, a: int, b: int)
    ensures
        at(padded_grid(g, p), a, b) == at(g, a - p, b - p),
{
}

/// The cell at row `a`, column `b` of a vector of rows, empty when out of range.
fn cell(grid: &Vec<Vec<bool>>, a: usize, b: usize) -> (v: bool)
    ensures
        v == at(cells(grid), a as int, b as int),
{
    a < grid.len() && b < grid[a].len() && grid[a][b]
}

/// The cell at row `a`, column `b` of the raster padded by `p`, as a cell of
/// the raster itself.
fn padded_cell(padded: &Vec<Vec<bool>>, a: usize, b: usize, Ghost(g): Ghost<Seq<Seq<bool>>>, Ghost(p): Ghost<nat>) -> (v: bool)
    requires
        cells(padded) == padded_grid(g, p),
    ensures
        v == at(g, a - p, b - p),
{
    proof {
        lemma_padded_at(g, p, a as int, b as int);
    }
    cell(padded, a, b)
}
/// The padded vector has the padded number of rows, and the padded row that
/// holds row `a - p` of the raster is that row plus the margins.
proof fn lemma_padded_len(padded: &Vec<Vec<bool>>, g: Seq<Seq<bool>>, p: nat, a: int)
    requires
        cells(padded) == padded_grid(g, p),
        p <= a < g.len() + p,
    ensures
        padded@.len() == g.len() + 2 * p,
        padded@[a]@.len() == g[a - p].len() + 2 * p,
{
    assert(cells(padded).len() == padded@.len());
    assert(cells(padded)[a] == padded@[a]@);
}

/// Whether cell `(r, c)` is kept by the 8-neighbourhood erosion, read from
/// the raster padded by one cell.
fn erode4_cell(padded: &Vec<Vec<bool>>, r: usize, c: usize, Ghost(g): Ghost<Seq<Seq<bool>>>) -> (keep: bool)
    requires
        cells(padded) == padded_grid(g, 1),
        fits_with_margin(g, 1),
        r < g.len(),
        c < g[r as int].len(),
    ensures
        keep == (g[r as int][c as int] && survives_erode4(g, r as int, c as int)),
{
    let i = r + 1;
    let j = c + 1;
    let ghost (ri, ci) = (r as int, c as int);
    proof {
        lemma_padded_len(padded, g, 1, i as int);
    }
    if padded_cell(padded, i, j, Ghost(g), Ghost(1)) {
        let min_neighbours: usize = if i == 1 || j == 1 || i == padded.len() - 2 || j == padded[i].len() - 2 {
            1
        } else {
            2
        };
        assert((min_neighbours == 1) == on_border(g, ri, ci));
        let s = padded_cell(padded, i + 1, j, Ghost(g), Ghost(1));
        let n = padded_cell(padded, i - 1, j, Ghost(g), Ghost(1));
        let e = padded_cell(padded, i, j + 1, Ghost(g), Ghost(1));
        let w = padded_cell(padded, i, j - 1, Ghost(g), Ghost(1));
        let se = padded_cell(padded, i + 1, j + 1, Ghost(g), Ghost(1));
        let nw = padded_cell(padded, i - 1, j - 1, Ghost(g), Ghost(1));
        let ne = padded_cell(padded, i - 1, j + 1, Ghost(g), Ghost(1));
        let sw = padded_cell(padded, i + 1, j - 1, Ghost(g), Ghost(1));
        let count: usize = b2u(s) + b2u(n) + b2u(e) + b2u(w) + b2u(se) + b2u(nw) + b2u(ne) + b2u(sw);
        assert(count == neighbours8(g, ri, ci));
        count >= min_neighbours
    } else {
        false
    }
}

/// The 8-neighbourhood erosion: an occupied cell stays occupied when at
/// least one of its eight neighbours is occupied on the border of the
/// raster, or at least two inside it.
fn erode_4(point_cloud: &Vec<Vec<bool>>) -> (eroded: Vec<Vec<bool>>)
    requires
        fits_with_margin(cells(point_cloud), 1),
    ensures
        cells(&eroded) == erosion(cells(point_cloud), 0),
{
    let ghost g = cells(point_cloud);
    let ghost target = erosion(g, 0);
    let padded: Vec<Vec<bool>> = create_padded_point_cloud(point_cloud, 1);
    let mut eroded: Vec<Vec<bool>> = Vec::new();
    let mut r: usize = 0;
    while r < point_cloud.len()
        invariant
            g == cells(point_cloud),
            target == erosion(g, 0),
            cells(&padded) == padded_grid(g, 1),
            fits_with_margin(g, 1),
            r <= g.len(),
            eroded@.len() == r,
            forall|a: int| 0 <= a < r ==> #[trigger] eroded@[a]@ == target[a],
        decreases g.len() - r,
    {
        let mut row: Vec<bool> = Vec::new();
        let mut c: usize = 0;
        assert(g[r as int] == point_cloud@[r as int]@);
        while c < point_cloud[r].len()
            invariant
                g == cells(point_cloud),
                target == erosion(g, 0),
                cells(&padded) == padded_grid(g, 1),
                fits_with_margin(g, 1),
                r < g.len(),
                g[r as int] == point_cloud@[r as int]@,
                c <= g[r as int].len(),
                row@.len() == c,
                forall|b: int| 0 <= b < c ==> #[trigger] row@[b] == target[r as int][b],
            decreases g[r as int].len() - c,
        {
            let keep = erode4_cell(&padded, r, c, Ghost(g));
            assert(keep == target[r as int][c as int]);
            row.push(keep);
            c = c + 1;
        }
        assert(row@ =~= target[r as int]);
        eroded.push(row);
        r = r + 1;
    }
    assert(cells(&eroded) =~= target);
    eroded
}

/// Whether cell `(r, c)` is occupied after dilation, read from the raster
/// padded by one cell.
fn dilate_cell(padded: &Vec<Vec<bool>>, r: usize, c: usize, Ghost(g): Ghost<Seq<Seq<bool>>>) -> (fill: bool)
    requires
        cells(padded) == padded_grid(g, 1),
        fits_with_margin(g, 1),
        r < g.len(),
        c < g[r as int].len(),
    ensures
        fill == (g[r as int][c as int] || gap_between(g, r as int, c as int)),
{
    let i = r + 1;
    let j = c + 1;
    if padded_cell(padded, i, j, Ghost(g), Ghost(1)) {
        return true;
    }
    let mut fill_gap = false;
    if padded_cell(padded, i - 1, j, Ghost(g), Ghost(1)) && padded_cell(padded, i + 1, j, Ghost(g), Ghost(1)) {
        fill_gap = true;
    } else if padded_cell(padded, i, j - 1, Ghost(g), Ghost(1)) && padded_cell(padded, i, j + 1, Ghost(g), Ghost(1)) {
        fill_gap = true;
    } else if padded_cell(padded, i - 1, j - 1, Ghost(g), Ghost(1)) && padded_cell(padded, i + 1, j + 1, Ghost(g), Ghost(1)) {
        fill_gap = true;
    } else if padded_cell(padded, i - 1, j + 1, Ghost(g), Ghost(1)) && padded_cell(padded, i + 1, j - 1, Ghost(g), Ghost(1)) {
        fill_gap = true;
    }
    fill_gap
}

/// The dilation: an occupied cell stays occupied, and an empty cell is
/// filled when both cells of an opposite pair around it are occupied.
pub fn dilate(filtered: &Vec<Vec<bool>>) -> (dilated: Vec<Vec<bool>>)
    requires
        fits_with_margin(cells(filtered), 1),
    ensures
        cells(&dilated) == dilation(cells(filtered)),
{
    let ghost g = cells(filtered);
    let ghost target = dilation(g);
    let padded: Vec<Vec<bool>> = create_padded_point_cloud(filtered, 1);
    let mut dilated: Vec<Vec<bool>> = Vec::new();
    let mut r: usize = 0;
    while r < filtered.len()
        invariant
            g == cells(filtered),
            target == dilation(g),
            cells(&padded) == padded_grid(g, 1),
            fits_with_margin(g, 1),
            r <= g.len(),
            dilated@.len() == r,
            forall|a: int| 0 <= a < r ==> #[trigger] dilated@[a]@ == target[a],
        decreases g.len() - r,
    {
        let mut row: Vec<bool> = Vec::new();
        let mut c: usize = 0;
        assert(g[r as int] == filtered@[r as int]@);
        while c < filtered[r].len()
            invariant
                g == cells(filtered),
                target == dilation(g),
                cells(&padded) == padded_grid(g, 1),
                fits_with_margin(g, 1),
                r < g.len(),
                g[r as int] == filtered@[r as int]@,
                c <= g[r as int].len(),
                row@.len() == c,
                forall|b: int| 0 <= b < c ==> #[trigger] row@[b] == target[r as int][b],
            decreases g[r as int].len() - c,
        {
            let fill = dilate_cell(&padded, r, c, Ghost(g));
            assert(fill == target[r as int][c as int]);
            row.push(fill);
            c = c + 1;
        }
        assert(row@ =~= target[r as int]);
        dilated.push(row);
        r = r + 1;
    }
    assert(cells(&dilated) =~= target);
    dilated
}

/// The number of occupied cells of padded row `a` between columns `lo` and
/// `hi`, as counted on the raster itself.
fn row_span_count(padded: &Vec<Vec<bool>>, a: usize, lo: usize, hi: usize, Ghost(g): Ghost<Seq<Seq<bool>>>, Ghost(p): Ghost<nat>) -> (n: usize)
    requires
        cells(padded) == padded_grid(g, p),
        lo <= hi,
    ensures
        n == count_row(g, a - p, lo - p, hi - p),
{
    let mut n: usize = 0;
    let mut l: usize = lo;
    while l < hi
        invariant
            cells(padded) == padded_grid(g, p),
            lo <= l <= hi,
            n <= l - lo,
            n == count_row(g, a - p, lo - p, l - p),
        decreases hi - l,
    {
        let v = padded_cell(padded, a, l, Ghost(g), Ghost(p));
        n = n + b2u(v);
        l = l + 1;
    }
    n
}

/// The number of occupied cells of padded column `b` between rows `lo` and
/// `hi`, as counted on the raster itself.
fn col_span_count(padded: &Vec<Vec<bool>>, b: usize, lo: usize, hi: usize, Ghost(g): Ghost<Seq<Seq<bool>>>, Ghost(p): Ghost<nat>) -> (n: usize)
    requires
        cells(padded) == padded_grid(g, p),
        lo <= hi,
    ensures
        n == count_col(g, b - p, lo - p, hi - p),
{
    let mut n: usize = 0;
    let mut k: usize = lo;
    while k < hi
        invariant
            cells(padded) == padded_grid(g, p),
            lo <= k <= hi,
            n <= k - lo,
            n == count_col(g, b - p, lo - p, k - p),
        decreases hi - k,
    {
        let v = padded_cell(padded, k, b, Ghost(g), Ghost(p));
        n = n + b2u(v);
        k = k + 1;
    }
    n
}

/// Whether two counts together reach a threshold of one or two; each count
/// only matters up to two.
fn reaches(n1: usize, n2: usize, threshold: usize) -> (ok: bool)
    requires
        1 <= threshold <= 2,
    ensures
        ok == (n1 + n2 >= threshold),
{
    let a: usize = if n1 > 2 {
        2
    } else {
        n1
    };
    let b: usize = if n2 > 2 {
        2
    } else {
        n2
    };
    a + b >= threshold
}

/// Whether every level of the vertical profile of cell `(r, c)` reaches its
/// threshold.
fn vertical_support(padded: &Vec<Vec<bool>>, r: usize, c: usize, p: usize, border: bool, Ghost(g): Ghost<Seq<Seq<bool>>>) -> (ok: bool)
    requires
        cells(padded) == padded_grid(g, p as nat),
        fits_with_margin(g, p as nat),
        r < g.len(),
        c < g[r as int].len(),
        border == on_border(g, r as int, c as int),
    ensures
        ok == vertically_supported(g, r as int, c as int, p as int),
{
    let mut x: usize = 0;
    while x < p
        invariant
            cells(padded) == padded_grid(g, p as nat),
            fits_with_margin(g, p as nat),
            r < g.len(),
            c < g[r as int].len(),
            border == on_border(g, r as int, c as int),
            x <= p,
            forall|y: int| 0 <= y < x ==> #[trigger] vertical_level(g, r as int, c as int, p as int, y) >= level_threshold(g, r as int, c as int, y),
        decreases p - x,
    {
        let n1 = row_span_count(padded, r + x, c, c + 2 * p + 1, Ghost(g), Ghost(p as nat));
        let n2 = row_span_count(padded, r + p + x, c, c + 2 * p + 1, Ghost(g), Ghost(p as nat));
        let threshold: usize = if border || x <= r {
            1
        } else {
            2
        };
        assert(n1 + n2 == vertical_level(g, r as int, c as int, p as int, x as int));
        if !reaches(n1, n2, threshold) {
            return false;
        }
        x = x + 1;
    }
    p > 0
}

/// Whether every level of the horizontal profile of cell `(r, c)` reaches
/// its threshold.
fn horizontal_support(padded: &Vec<Vec<bool>>, r: usize, c: usize, p: usize, border: bool, Ghost(g): Ghost<Seq<Seq<bool>>>) -> (ok: bool)
    requires
        cells(padded) == padded_grid(g, p as nat),
        fits_with_margin(g, p as nat),
        r < g.len(),
        c < g[r as int].len(),
        border == on_border(g, r as int, c as int),
    ensures
        ok == horizontally_supported(g, r as int, c as int, p as int),
{
    let mut x: usize = 0;
    while x < p
        invariant
            cells(padded) == padded_grid(g, p as nat),
            fits_with_margin(g, p as nat),
            r < g.len(),
            c < g[r as int].len(),
            border == on_border(g, r as int, c as int),
            x <= p,
            forall|y: int| 0 <= y < x ==> #[trigger] horizontal_level(g, r as int, c as int, p as int, y) >= level_threshold(g, r as int, c as int, y),
        decreases p - x,
    {
        let n1 = col_span_count(padded, c + x, r, r + 2 * p + 1, Ghost(g), Ghost(p as nat));
        let n2 = col_span_count(padded, c + p + x, r, r + 2 * p + 1, Ghost(g), Ghost(p as nat));
        let threshold: usize = if border || x <= r {
            1
        } else {
            2
        };
        assert(n1 + n2 == horizontal_level(g, r as int, c as int, p as int, x as int));
        if !reaches(n1, n2, threshold) {
            return false;
        }
        x = x + 1;
    }
    p > 0
}

/// Whether cell `(r, c)` is kept by the neighbourhood erosion of reach
/// `padding`, read from the raster padded by `padding` cells.
fn erode_reach_cell(padded: &Vec<Vec<bool>>, r: usize, c: usize, padding: usize, Ghost(g): Ghost<Seq<Seq<bool>>>) -> (keep: bool)
    requires
        cells(padded) == padded_grid(g, padding as nat),
        fits_with_margin(g, padding as nat),
        r < g.len(),
        c < g[r as int].len(),
    ensures
        keep == (g[r as int][c as int] && survives_erode_reach(g, r as int, c as int, padding as int)),
{
    let i = r + padding;
    let j = c + padding;
    proof {
        lemma_padded_len(padded, g, padding as nat, i as int);
    }
    if padded_cell(padded, i, j, Ghost(g), Ghost(padding as nat)) {
        let border_cell = i == padding || j == padding || i == padded.len() - (padding + 1) || j
            == padded[i].len() - (padding + 1);
        let has_neighbour = vertical_support(padded, r, c, padding, border_cell, Ghost(g))
            || horizontal_support(padded, r, c, padding, border_cell, Ghost(g));
        has_neighbour
    } else {
        false
    }
}

/// The neighbourhood erosion of reach `padding`: an occupied cell stays
/// occupied when its vertical or its horizontal profile is supported.
fn erode_neighborhood(point_cloud: &Vec<Vec<bool>>, padding: usize) -> (eroded: Vec<Vec<bool>>)
    requires
        padding > 0,
        fits_with_margin(cells(point_cloud), padding as nat),
    ensures
        cells(&eroded) == erosion(cells(point_cloud), padding as nat),
{
    let ghost g = cells(point_cloud);
    let ghost target = erosion(g, padding as nat);
    let padded: Vec<Vec<bool>> = create_padded_point_cloud(point_cloud, padding);
    let mut eroded: Vec<Vec<bool>> = Vec::new();
    let mut r: usize = 0;
    while r < point_cloud.len()
        invariant
            padding > 0,
            g == cells(point_cloud),
            target == erosion(g, padding as nat),
            cells(&padded) == padded_grid(g, padding as nat),
            fits_with_margin(g, padding as nat),
            r <= g.len(),
            eroded@.len() == r,
            forall|a: int| 0 <= a < r ==> #[trigger] eroded@[a]@ == target[a],
        decreases g.len() - r,
    {
        let mut row: Vec<bool> = Vec::new();
        let mut c: usize = 0;
        assert(g[r as int] == point_cloud@[r as int]@);
        while c < point_cloud[r].len()
            invariant
                padding > 0,
                g == cells(point_cloud),
                target == erosion(g, padding as nat),
                cells(&padded) == padded_grid(g, padding as nat),
                fits_with_margin(g, padding as nat),
                r < g.len(),
                g[r as int] == point_cloud@[r as int]@,
                c <= g[r as int].len(),
                row@.len() == c,
                forall|b: int| 0 <= b < c ==> #[trigger] row@[b] == target[r as int][b],
            decreases g[r as int].len() - c,
        {
            let keep = erode_reach_cell(&padded, r, c, padding, Ghost(g));
            assert(keep == target[r as int][c as int]);
            row.push(keep);
            c = c + 1;
        }
        assert(row@ =~= target[r as int]);
        eroded.push(row);
        r = r + 1;
    }
    assert(cells(&eroded) =~= target);
    eroded
}

/// Erosion of the raster: reach 0 is the 8-neighbourhood erosion, any other
/// reach the profile erosion of that reach.
pub fn erode(filtered: &Vec<Vec<bool>>, neighbourhood: usize) -> (eroded: Vec<Vec<bool>>)
    requires
        fits_with_margin(
            cells(filtered),
            if neighbourhood == 0 {
                1nat
            } else {
                neighbourhood as nat
            },
        ),
    ensures
        cells(&eroded) == erosion(cells(filtered), neighbourhood as nat),
{
    match neighbourhood {
        0 => {
            return erode_4(filtered);
        },
        _ => {
            return erode_neighborhood(filtered, neighbourhood);
        },
    }
}


/// The raster of the cells of a grid that hold at least one item.
pub open spec fn occupancy<T>(point_cloud: Seq<Vec<Vec<T>>>) -> Seq<Seq<bool>> {
    Seq::new(
        point_cloud.len(),
        |i: int| Seq::new(point_cloud[i]@.len(), |j: int| point_cloud[i]@[j]@.len() > 0),
    )
}

/// The occupancy raster of a grid: a cell is occupied exactly when it holds
/// at least one item, and the raster has the grid's shape.
pub fn convert_to_binary<T>(point_cloud: &Vec<Vec<Vec<T>>>) -> (binary: Vec<Vec<bool>>)
    ensures
        cells(&binary) == occupancy(point_cloud@),
{
    let ghost target = occupancy(point_cloud@);
    let mut binary: Vec<Vec<bool>> = Vec::new();
    let mut i: usize = 0;
    while i < point_cloud.len()
        invariant
            target == occupancy(point_cloud@),
            i <= point_cloud@.len(),
            binary@.len() == i,
            forall|a: int| 0 <= a < i ==> #[trigger] binary@[a]@ == target[a],
        decreases point_cloud@.len() - i,
    {
        let mut row: Vec<bool> = Vec::new();
        let mut j: usize = 0;
        while j < point_cloud[i].len()
            invariant
                target == occupancy(point_cloud@),
                i < point_cloud@.len(),
                j <= point_cloud@[i as int]@.len(),
                row@.len() == j,
                forall|b: int| 0 <= b < j ==> #[trigger] row@[b] == target[i as int][b],
            decreases point_cloud@[i as int]@.len() - j,
        {
            if point_cloud[i][j].len() > 0 {
                row.push(true);
            } else {
                row.push(false);
            }
            j = j + 1;
        }
        assert(row@ =~= target[i as int]);
        binary.push(row);
        i = i + 1;
    }
    assert(cells(&binary) =~= target);
    binary
}

/// The number of occupied cells of the raster.
pub fn count_occupied(grid: &Vec<Vec<bool>>) -> (count: usize)
    requires
        occupied(cells(grid)) <= usize::MAX,
    ensures
        count == occupied(cells(grid)),
{
    let ghost g = cells(grid);
    let mut count: usize = 0;
    let mut r: usize = 0;
    while r < grid.len()
        invariant
            g == cells(grid),
            occupied(g) <= usize::MAX,
            r <= g.len(),
            count == occupied_rows(g, r as int),
        decreases g.len() - r,
    {
        proof {
            lemma_occupied_rows_monotone(g, r as int + 1, g.len() as int);
        }
        assert(g[r as int] == grid@[r as int]@);
        let mut c: usize = 0;
        let ghost before = count;
        while c < grid[r].len()
            invariant
                g == cells(grid),
                r < g.len(),
                g[r as int] == grid@[r as int]@,
                c <= g[r as int].len(),
                count == before + row_occupied(g[r as int], c as int),
                before + row_occupied(g[r as int], g[r as int].len() as int) <= usize::MAX,
            decreases g[r as int].len() - c,
        {
            proof {
                lemma_row_occupied_monotone(g[r as int], c as int + 1, g[r as int].len() as int);
            }
            if grid[r][c] {
                count = count + 1;
            }
            c = c + 1;
        }
        r = r + 1;
    }
    count
}

/// Counting more cells of a row never gives fewer occupied ones.
proof fn lemma_row_occupied_monotone(row: Seq<bool>, m: int, n: int)
    requires
        m <= n,
    ensures
        row_occupied(row, m) <= row_occupied(row, n),
    decreases n - m,
{
    if m < n {
        lemma_row_occupied_monotone(row, m, n - 1);
    }
}

/// Counting more rows never gives fewer occupied cells.
proof fn lemma_occupied_rows_monotone(g: Seq<Seq<bool>>, m: int, n: int)
    requires
        m <= n,
    ensures
        occupied_rows(g, m) <= occupied_rows(g, n),
    decreases n - m,
{
    if m < n {
        lemma_occupied_rows_monotone(g, m, n - 1);
    }
}

/// A row whose occupied cells are all occupied in another row of the same
/// length has no more occupied cells among its first `n`.
proof fn lemma_row_covered(a: Seq<bool>, b: Seq<bool>, n: int)
    requires
        a.len() == b.len(),
        n <= a.len(),
        forall|c: int| 0 <= c < a.len() && #[trigger] a[c] ==> b[c],
    ensures
        row_occupied(a, n) <= row_occupied(b, n),
    decreases n,
{
    if n > 0 {
        lemma_row_covered(a, b, n - 1);
    }
}

/// A raster covered by another has no more occupied cells.
pub proof fn lemma_covered_occupied(a: Seq<Seq<bool>>, b: Seq<Seq<bool>>)
    requires
        covered_by(a, b),
    ensures
        occupied(a) <= occupied(b),
{
    lemma_covered_rows(a, b, a.len() as int);
}

/// The first `n` rows of a covered raster hold no more occupied cells.
proof fn lemma_covered_rows(a: Seq<Seq<bool>>, b: Seq<Seq<bool>>, n: int)
    requires
        covered_by(a, b),
        n <= a.len(),
    ensures
        occupied_rows(a, n) <= occupied_rows(b, n),
    decreases n,
{
    if n > 0 {
        lemma_covered_rows(a, b, n - 1);
        assert forall|c: int| 0 <= c < a[n - 1].len() && #[trigger] a[n - 1][c] implies b[n - 1][c] by {
        }
        lemma_row_covered(a[n - 1], b[n - 1], a[n - 1].len() as int);
    }
}

/// Erosion never occupies a cell: every cell occupied after erosion was
/// occupied before, whatever the reach, and the raster keeps its shape.
pub proof fn lemma_erosion_shrinks(g: Seq<Seq<bool>>, reach: nat)
    ensures
        covered_by(erosion(g, reach), g),
        occupied(erosion(g, reach)) <= occupied(g),
{
    assert(covered_by(erosion(g, reach), g));
    lemma_covered_occupied(erosion(g, reach), g);
}

/// Dilation never empties a cell: every occupied cell stays occupied, and
/// the raster keeps its shape.
pub proof fn lemma_dilation_grows(g: Seq<Seq<bool>>)
    ensures
        covered_by(g, dilation(g)),
        occupied(g) <= occupied(dilation(g)),
{
    assert(covered_by(g, dilation(g)));
    lemma_covered_occupied(g, dilation(g));
}

/// Dilation only fills a cell that lies between two occupied cells: a
/// raster with no occupied cell stays without one.
pub proof fn lemma_dilation_of_empty(g: Seq<Seq<bool>>)
    requires
        forall|r: int, c: int| !#[trigger] at(g, r, c),
    ensures
        forall|r: int, c: int| !#[trigger] at(dilation(g), r, c),
{
    assert forall|r: int, c: int| !#[trigger] at(dilation(g), r, c) by {
        if 0 <= r < g.len() && 0 <= c < g[r].len() {
            assert(!at(g, r, c));
            assert(!at(g, r - 1, c));
            assert(!at(g, r, c - 1));
            assert(!at(g, r - 1, c - 1));
            assert(!at(g, r - 1, c + 1));
        }
    }
}

} // verus!
