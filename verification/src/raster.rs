//! Mathematical model of an occupancy raster: a grid of cells, each either
//! occupied (`true`) or empty (`false`), seen as a sequence of rows.
use vstd::prelude::*;

verus! {

/// The raster held by a vector of rows, as a sequence of sequences.
pub open spec fn cells(g: &Vec<Vec<bool>>) -> Seq<Seq<bool>> {
    g@.map_values(|row: Vec<bool>| row@)
}

/// Whether the cell at row `a`, column `b` exists and is occupied.
/// Cells outside the raster count as empty.
pub open spec fn at(g: Seq<Seq<bool>>, a: int, b: int) -> bool {
    0 <= a < g.len() && 0 <= b < g[a].len() && g[a][b]
}

/// The number of columns, read from the first row (zero for no rows).
pub open spec fn width(g: Seq<Seq<bool>>) -> nat {
    if g.len() == 0 {
        0
    } else {
        g[0].len()
    }
}

/// Every row has as many cells as the first one.
pub open spec fn is_rectangular(g: Seq<Seq<bool>>) -> bool {
    forall|r: int| 0 <= r < g.len() ==> #[trigger] g[r].len() == width(g)
}

/// The raster mirrored left to right.
pub open spec fn mirrored(g: Seq<Seq<bool>>) -> Seq<Seq<bool>> {
    Seq::new(g.len(), |r: int| Seq::new(g[r].len(), |c: int| g[r][g[r].len() - 1 - c]))
}

/// The raster turned upside down.
pub open spec fn flipped(g: Seq<Seq<bool>>) -> Seq<Seq<bool>> {
    Seq::new(g.len(), |r: int| g[g.len() - 1 - r])
}

/// The raster has room for `margin` extra cells on each side of every
/// dimension without leaving the range of `usize`.
pub open spec fn fits_with_margin(g: Seq<Seq<bool>>, margin: nat) -> bool {
    &&& g.len() + 2 * margin <= usize::MAX
    &&& width(g) + 2 * margin <= usize::MAX
    &&& forall|r: int| 0 <= r < g.len() ==> #[trigger] g[r].len() + 2 * margin <= usize::MAX
}

/// 1 for an occupied cell, 0 for an empty one.
pub open spec fn b2n(b: bool) -> nat {
    if b {
        1
    } else {
        0
    }
}

/// The raster surrounded by `p` empty rows above and below and `p` empty
/// cells left and right of every row. Padding rows are as long as the first
/// row plus the margins.
pub open spec fn padded_grid(g: Seq<Seq<bool>>, p: nat) -> Seq<Seq<bool>> {
    Seq::new(
        (g.len() + 2 * p) as nat,
        |a: int|
            if p <= a < g.len() + p {
                Seq::new((g[a - p].len() + 2 * p) as nat, |b: int| at(g, a - p, b - p))
            } else {
                Seq::new((width(g) + 2 * p) as nat, |_b: int| false)
            },
    )
}

/// The raster with the shape of `g` whose cell `(r, c)` is `f(r, c)`.
pub open spec fn map_cells(g: Seq<Seq<bool>>, f: spec_fn(int, int) -> bool) -> Seq<Seq<bool>> {
    Seq::new(g.len(), |r: int| Seq::new(g[r].len(), |c: int| f(r, c)))
}

/// Two rasters of one shape where every cell occupied in `a` is occupied in `b`.
pub open spec fn covered_by(a: Seq<Seq<bool>>, b: Seq<Seq<bool>>) -> bool {
    &&& a.len() == b.len()
    &&& forall|r: int| 0 <= r < a.len() ==> #[trigger] a[r].len() == b[r].len()
    &&& forall|r: int, c: int| 0 <= r < a.len() && 0 <= c < a[r].len() && #[trigger] a[r][c] ==> b[r][c]
}

/// The number of occupied cells among the first `n` of a row.
pub open spec fn row_occupied(row: Seq<bool>, n: int) -> nat
    decreases n,
{
    if n <= 0 {
        0
    } else {
        row_occupied(row, n - 1) + b2n(row[n - 1])
    }
}

/// The number of occupied cells in the first `n` rows.
pub open spec fn occupied_rows(g: Seq<Seq<bool>>, n: int) -> nat
    decreases n,
{
    if n <= 0 {
        0
    } else {
        occupied_rows(g, n - 1) + row_occupied(g[n - 1], g[n - 1].len() as int)
    }
}

/// The number of occupied cells of the raster.
pub open spec fn occupied(g: Seq<Seq<bool>>) -> nat {
    occupied_rows(g, g.len() as int)
}

/// The number of occupied cells in row `a` from column `lo` up to, not
/// including, column `hi`.
pub open spec fn count_row(g: Seq<Seq<bool>>, a: int, lo: int, hi: int) -> nat
    decreases hi - lo,
{
    if hi <= lo {
        0
    } else {
        count_row(g, a, lo, hi - 1) + b2n(at(g, a, hi - 1))
    }
}

/// The number of occupied cells in column `b` from row `lo` up to, not
/// including, row `hi`.
pub open spec fn count_col(g: Seq<Seq<bool>>, b: int, lo: int, hi: int) -> nat
    decreases hi - lo,
{
    if hi <= lo {
        0
    } else {
        count_col(g, b, lo, hi - 1) + b2n(at(g, hi - 1, b))
    }
}

/// Whether cell `(r, c)` lies on the first or last row or column.
pub open spec fn on_border(g: Seq<Seq<bool>>, r: int, c: int) -> bool {
    r == 0 || c == 0 || r == g.len() - 1 || c == g[r].len() - 1
}

/// The number of occupied cells among the eight that touch `(r, c)`.
pub open spec fn neighbours8(g: Seq<Seq<bool>>, r: int, c: int) -> nat {
    b2n(at(g, r + 1, c)) + b2n(at(g, r - 1, c)) + b2n(at(g, r, c + 1)) + b2n(at(g, r, c - 1))
        + b2n(at(g, r + 1, c + 1)) + b2n(at(g, r - 1, c - 1)) + b2n(at(g, r - 1, c + 1))
        + b2n(at(g, r + 1, c - 1))
}

/// An occupied cell survives the 8-neighbourhood erosion when it has at
/// least one occupied neighbour on the border, and at least two inside.
pub open spec fn survives_erode4(g: Seq<Seq<bool>>, r: int, c: int) -> bool {
    neighbours8(g, r, c) >= if on_border(g, r, c) {
        1nat
    } else {
        2nat
    }
}

/// The least count that level `x` of the neighbourhood of `(r, c)` must
/// reach: one on the border or for a level no deeper than the row index,
/// two otherwise.
pub open spec fn level_threshold(g: Seq<Seq<bool>>, r: int, c: int, x: int) -> nat {
    if on_border(g, r, c) || x <= r {
        1
    } else {
        2
    }
}

/// Level `x` of the vertical profile of `(r, c)` at reach `p`: the occupied
/// cells of row `r - p + x` and of row `r + x`, over columns `c - p ..= c + p`.
pub open spec fn vertical_level(g: Seq<Seq<bool>>, r: int, c: int, p: int, x: int) -> nat {
    count_row(g, r - p + x, c - p, c + p + 1) + count_row(g, r + x, c - p, c + p + 1)
}

/// Level `x` of the horizontal profile of `(r, c)` at reach `p`: the occupied
/// cells of column `c - p + x` and of column `c + x`, over rows `r - p ..= r + p`.
pub open spec fn horizontal_level(g: Seq<Seq<bool>>, r: int, c: int, p: int, x: int) -> nat {
    count_col(g, c - p + x, r - p, r + p + 1) + count_col(g, c + x, r - p, r + p + 1)
}

/// Every level of the vertical profile reaches its threshold (and there is
/// at least one level).
pub open spec fn vertically_supported(g: Seq<Seq<bool>>, r: int, c: int, p: int) -> bool {
    p > 0 && forall|x: int|
        0 <= x < p ==> #[trigger] vertical_level(g, r, c, p, x) >= level_threshold(g, r, c, x)
}

/// Every level of the horizontal profile reaches its threshold (and there is
/// at least one level).
pub open spec fn horizontally_supported(g: Seq<Seq<bool>>, r: int, c: int, p: int) -> bool {
    p > 0 && forall|x: int|
        0 <= x < p ==> #[trigger] horizontal_level(g, r, c, p, x) >= level_threshold(g, r, c, x)
}

/// An occupied cell survives the erosion of reach `p` when its vertical or
/// its horizontal profile is supported.
pub open spec fn survives_erode_reach(g: Seq<Seq<bool>>, r: int, c: int, p: int) -> bool {
    vertically_supported(g, r, c, p) || horizontally_supported(g, r, c, p)
}

/// The erosion of the raster: reach 0 is the 8-neighbourhood erosion, any
/// other reach the profile erosion. Empty cells stay empty.
pub open spec fn erosion(g: Seq<Seq<bool>>, reach: nat) -> Seq<Seq<bool>> {
    map_cells(
        g,
        |r: int, c: int|
            g[r][c] && if reach == 0 {
                survives_erode4(g, r, c)
            } else {
                survives_erode_reach(g, r, c, reach as int)
            },
    )
}

/// An empty cell is filled when both cells of an opposite pair around it
/// (above and below, left and right, or either diagonal) are occupied.
pub open spec fn gap_between(g: Seq<Seq<bool>>, r: int, c: int) -> bool {
    (at(g, r - 1, c) && at(g, r + 1, c)) || (at(g, r, c - 1) && at(g, r, c + 1)) || (at(
        g,
        r - 1,
        c - 1,
    ) && at(g, r + 1, c + 1)) || (at(g, r - 1, c + 1) && at(g, r + 1, c - 1))
}

/// The dilation of the raster: occupied cells stay, gaps are filled.
pub open spec fn dilation(g: Seq<Seq<bool>>) -> Seq<Seq<bool>> {
    map_cells(g, |r: int, c: int| g[r][c] || gap_between(g, r, c))
}

} // verus!
