//! Laws of the raster morphology, stated over the cells of the raster
//! themselves: what erosion keeps and what dilation fills.
use vstd::prelude::*;
use crate::raster::{
    at, b2n, count_col, count_row, dilation, erosion, flipped, horizontal_level, horizontally_supported,
    is_rectangular, level_threshold, mirrored, on_border, vertical_level, vertically_supported, width,
};

verus! {

/// Occupied cells of row `a` among the three columns `c - 1 ..= c + 1`.
proof fn lemma_count_three(g: Seq<Seq<bool>>, a: int, c: int)
    ensures
        count_row(g, a, c - 1, c + 2) == b2n(at(g, a, c - 1)) + b2n(at(g, a, c)) + b2n(at(g, a, c + 1)),
{
    reveal_with_fuel(count_row, 4);
}

/// The 8-neighbourhood erosion (reach 0) counts all eight cells that touch
/// a cell: an occupied cell stays occupied exactly when the 3 x 3 block
/// around it (the cell itself included) holds at least two occupied cells
/// on the border of the raster, and at least three inside it.
pub proof fn lemma_erode4_counts_all_eight(g: Seq<Seq<bool>>, r: int, c: int)
    requires
        0 <= r < g.len(),
        0 <= c < g[r].len(),
    ensures
        erosion(g, 0)[r][c] == (g[r][c] && count_row(g, r - 1, c - 1, c + 2) + count_row(g, r, c - 1, c + 2)
            + count_row(g, r + 1, c - 1, c + 2) >= if r == 0 || c == 0 || r == g.len() - 1 || c == g[r].len() - 1 {
            2nat
        } else {
            3nat
        }),
{
    lemma_count_three(g, r - 1, c);
    lemma_count_three(g, r, c);
    lemma_count_three(g, r + 1, c);
    assert(at(g, r, c) == g[r][c]);
}

/// A cell of the mirrored raster is the cell of the raster at the mirrored
/// column.
proof fn lemma_mirror_at(g: Seq<Seq<bool>>, a: int, b: int)
    requires
        is_rectangular(g),
    ensures
        at(mirrored(g), a, b) == at(g, a, width(g) - 1 - b),
{
    if 0 <= a < g.len() {
        assert(g[a].len() == width(g));
    }
}

/// A cell of the flipped raster is the cell of the raster at the mirrored
/// row.
proof fn lemma_flip_at(g: Seq<Seq<bool>>, a: int, b: int)
    ensures
        at(flipped(g), a, b) == at(g, g.len() - 1 - a, b),
{
}

/// The 8-neighbourhood erosion treats left and right alike: eroding the
/// mirrored raster gives the mirrored erosion.
pub proof fn lemma_erode4_mirror(g: Seq<Seq<bool>>)
    requires
        is_rectangular(g),
    ensures
        erosion(mirrored(g), 0) == mirrored(erosion(g, 0)),
{
    let m = mirrored(g);
    let w = width(g) as int;
    assert forall|r: int| 0 <= r < g.len() implies #[trigger] erosion(m, 0)[r] =~= mirrored(erosion(g, 0))[r] by {
        assert(g[r].len() == w);
        assert forall|c: int| 0 <= c < w implies erosion(m, 0)[r][c] == mirrored(erosion(g, 0))[r][c] by {
            let c2 = w - 1 - c;
            lemma_mirror_at(g, r, c);
            lemma_mirror_at(g, r + 1, c);
            lemma_mirror_at(g, r - 1, c);
            lemma_mirror_at(g, r, c + 1);
            lemma_mirror_at(g, r, c - 1);
            lemma_mirror_at(g, r + 1, c + 1);
            lemma_mirror_at(g, r - 1, c - 1);
            lemma_mirror_at(g, r - 1, c + 1);
            lemma_mirror_at(g, r + 1, c - 1);
            assert(m[r][c] == g[r][c2]);
        }
    }
    assert(erosion(m, 0) =~= mirrored(erosion(g, 0)));
}

/// The 8-neighbourhood erosion treats up and down alike: eroding the
/// flipped raster gives the flipped erosion.
pub proof fn lemma_erode4_flip(g: Seq<Seq<bool>>)
    requires
        is_rectangular(g),
    ensures
        erosion(flipped(g), 0) == flipped(erosion(g, 0)),
{
    let f = flipped(g);
    let n = g.len() as int;
    assert forall|r: int| 0 <= r < n implies #[trigger] erosion(f, 0)[r] =~= flipped(erosion(g, 0))[r] by {
        let r2 = n - 1 - r;
        assert(g[r2].len() == width(g));
        assert(g[r].len() == width(g));
        assert forall|c: int| 0 <= c < f[r].len() implies erosion(f, 0)[r][c] == flipped(erosion(g, 0))[r][c] by {
            lemma_flip_at(g, r, c);
            lemma_flip_at(g, r + 1, c);
            lemma_flip_at(g, r - 1, c);
            lemma_flip_at(g, r, c + 1);
            lemma_flip_at(g, r, c - 1);
            lemma_flip_at(g, r + 1, c + 1);
            lemma_flip_at(g, r - 1, c - 1);
            lemma_flip_at(g, r - 1, c + 1);
            lemma_flip_at(g, r + 1, c - 1);
        }
    }
    assert(erosion(f, 0) =~= flipped(erosion(g, 0)));
}

/// Dilation fills exactly the midpoints: a cell is occupied after dilation
/// when it was occupied, or when it lies halfway between two occupied cells
/// that touch it from opposite sides (a step `(dr, dc)` one way and the
/// same step back the other way).
pub proof fn lemma_dilation_fills_midpoints(g: Seq<Seq<bool>>, r: int, c: int)
    requires
        0 <= r < g.len(),
        0 <= c < g[r].len(),
    ensures
        dilation(g)[r][c] == (g[r][c] || exists|dr: int, dc: int|
            -1 <= dr <= 1 && -1 <= dc <= 1 && (dr != 0 || dc != 0) && #[trigger] at(g, r + dr, c + dc) && at(
                g,
                r - dr,
                c - dc,
            )),
{
    let pair = exists|dr: int, dc: int|
        -1 <= dr <= 1 && -1 <= dc <= 1 && (dr != 0 || dc != 0) && #[trigger] at(g, r + dr, c + dc) && at(
            g,
            r - dr,
            c - dc,
        );
    if at(g, r - 1, c) && at(g, r + 1, c) {
        assert(at(g, r + 1, c + 0) && at(g, r - 1, c - 0));
    }
    if at(g, r, c - 1) && at(g, r, c + 1) {
        assert(at(g, r + 0, c + 1) && at(g, r - 0, c - 1));
    }
    if at(g, r - 1, c - 1) && at(g, r + 1, c + 1) {
        assert(at(g, r + 1, c + 1) && at(g, r - 1, c - 1));
    }
    if at(g, r - 1, c + 1) && at(g, r + 1, c - 1) {
        assert(at(g, r + 1, c + -1) && at(g, r - 1, c - -1));
    }
    if pair {
        let (dr, dc) = choose|dr: int, dc: int|
            -1 <= dr <= 1 && -1 <= dc <= 1 && (dr != 0 || dc != 0) && #[trigger] at(g, r + dr, c + dc) && at(
                g,
                r - dr,
                c - dc,
            );
        assert(dilation(g)[r][c]);
    }
}

/// Dilation treats left and right alike: dilating the mirrored raster
/// gives the mirrored dilation.
pub proof fn lemma_dilation_mirror(g: Seq<Seq<bool>>)
    requires
        is_rectangular(g),
    ensures
        dilation(mirrored(g)) == mirrored(dilation(g)),
{
    let m = mirrored(g);
    let w = width(g) as int;
    assert forall|r: int| 0 <= r < g.len() implies #[trigger] dilation(m)[r] =~= mirrored(dilation(g))[r] by {
        assert(g[r].len() == w);
        assert forall|c: int| 0 <= c < w implies dilation(m)[r][c] == mirrored(dilation(g))[r][c] by {
            let c2 = w - 1 - c;
            lemma_mirror_at(g, r + 1, c);
            lemma_mirror_at(g, r - 1, c);
            lemma_mirror_at(g, r, c + 1);
            lemma_mirror_at(g, r, c - 1);
            lemma_mirror_at(g, r + 1, c + 1);
            lemma_mirror_at(g, r - 1, c - 1);
            lemma_mirror_at(g, r - 1, c + 1);
            lemma_mirror_at(g, r + 1, c - 1);
            assert(m[r][c] == g[r][c2]);
        }
    }
    assert(dilation(m) =~= mirrored(dilation(g)));
}

/// A row span with an occupied count holds an occupied cell.
proof fn lemma_row_witness(g: Seq<Seq<bool>>, a: int, lo: int, hi: int)
    requires
        count_row(g, a, lo, hi) > 0,
    ensures
        exists|b: int| lo <= b < hi && #[trigger] at(g, a, b),
    decreases hi - lo,
{
    if hi > lo {
        if !at(g, a, hi - 1) {
            lemma_row_witness(g, a, lo, hi - 1);
            let b = choose|b: int| lo <= b < hi - 1 && #[trigger] at(g, a, b);
            assert(lo <= b < hi && at(g, a, b));
        }
    }
}

/// A column span with an occupied count holds an occupied cell.
proof fn lemma_col_witness(g: Seq<Seq<bool>>, b: int, lo: int, hi: int)
    requires
        count_col(g, b, lo, hi) > 0,
    ensures
        exists|a: int| lo <= a < hi && #[trigger] at(g, a, b),
    decreases hi - lo,
{
    if hi > lo {
        if !at(g, hi - 1, b) {
            lemma_col_witness(g, b, lo, hi - 1);
            let a = choose|a: int| lo <= a < hi - 1 && #[trigger] at(g, a, b);
            assert(lo <= a < hi && at(g, a, b));
        }
    }
}

/// Some cell of row `r - p + x` or of row `r + x`, within columns
/// `c - p ..= c + p`, is occupied.
pub open spec fn vertical_level_occupied(g: Seq<Seq<bool>>, r: int, c: int, p: int, x: int) -> bool {
    exists|b: int|
        #![trigger at(g, r - p + x, b)]
        #![trigger at(g, r + x, b)]
        c - p <= b <= c + p && (at(g, r - p + x, b) || at(g, r + x, b))
}

/// Some cell of column `c - p + x` or of column `c + x`, within rows
/// `r - p ..= r + p`, is occupied.
pub open spec fn horizontal_level_occupied(g: Seq<Seq<bool>>, r: int, c: int, p: int, x: int) -> bool {
    exists|a: int|
        #![trigger at(g, a, c - p + x)]
        #![trigger at(g, a, c + x)]
        r - p <= a <= r + p && (at(g, a, c - p + x) || at(g, a, c + x))
}

/// The profile erosion of reach `p > 0` keeps an occupied cell, on the
/// border or not, only when one of its profiles has an occupied cell at
/// every level: for each `x < p`, the vertical profile has one in row
/// `r - p + x` or row `r + x` within columns `c - p ..= c + p`, or, for
/// each `x < p`, the horizontal profile has one in column `c - p + x` or
/// column `c + x` within rows `r - p ..= r + p`.
pub proof fn lemma_erosion_reach_needs_every_level(g: Seq<Seq<bool>>, r: int, c: int, p: int)
    requires
        p > 0,
        0 <= r < g.len(),
        0 <= c < g[r].len(),
        erosion(g, p as nat)[r][c],
    ensures
        g[r][c],
        (forall|x: int| 0 <= x < p ==> #[trigger] vertical_level_occupied(g, r, c, p, x)) || (forall|x: int|
            0 <= x < p ==> #[trigger] horizontal_level_occupied(g, r, c, p, x)),
{
    let vertical = forall|x: int|
        0 <= x < p ==> #[trigger] count_row(g, r - p + x, c - p, c + p + 1) + count_row(g, r + x, c - p, c + p + 1)
            >= 1;
    if vertical {
        assert forall|x: int| 0 <= x < p implies #[trigger] vertical_level_occupied(g, r, c, p, x) by {
            assert(count_row(g, r - p + x, c - p, c + p + 1) + count_row(g, r + x, c - p, c + p + 1) >= 1);
            if count_row(g, r - p + x, c - p, c + p + 1) > 0 {
                lemma_row_witness(g, r - p + x, c - p, c + p + 1);
                let b = choose|b: int| c - p <= b < c + p + 1 && #[trigger] at(g, r - p + x, b);
                assert(c - p <= b <= c + p && at(g, r - p + x, b));
            } else {
                lemma_row_witness(g, r + x, c - p, c + p + 1);
                let b = choose|b: int| c - p <= b < c + p + 1 && #[trigger] at(g, r + x, b);
                assert(c - p <= b <= c + p && at(g, r - p + x, b) || at(g, r + x, b));
            }
        }
    } else {
        assert(!vertically_supported(g, r, c, p)) by {
            if vertically_supported(g, r, c, p) {
                assert forall|x: int| 0 <= x < p implies #[trigger] count_row(g, r - p + x, c - p, c + p + 1) + count_row(g, r + x, c - p, c + p + 1) >= 1 by {
                    assert(vertical_level(g, r, c, p, x) >= level_threshold(g, r, c, x));
                }
            }
        }
        assert(horizontally_supported(g, r, c, p));
        assert forall|x: int| 0 <= x < p implies #[trigger] horizontal_level_occupied(g, r, c, p, x) by {
            assert(horizontal_level(g, r, c, p, x) >= level_threshold(g, r, c, x));
            assert(count_col(g, c - p + x, r - p, r + p + 1) + count_col(g, c + x, r - p, r + p + 1) >= 1);
            if count_col(g, c - p + x, r - p, r + p + 1) > 0 {
                lemma_col_witness(g, c - p + x, r - p, r + p + 1);
                let a = choose|a: int| r - p <= a < r + p + 1 && #[trigger] at(g, a, c - p + x);
                assert(r - p <= a <= r + p && at(g, a, c - p + x));
            } else {
                lemma_col_witness(g, c + x, r - p, r + p + 1);
                let a = choose|a: int| r - p <= a < r + p + 1 && #[trigger] at(g, a, c + x);
                assert(r - p <= a <= r + p && at(g, a, c - p + x) || at(g, a, c + x));
            }
        }
    }
}

/// An occupied cell with no other occupied cell within `p` rows and `p`
/// columns of it is emptied by every profile erosion of reach `p >= 2`,
/// wherever it lies, the border included.
pub proof fn lemma_erosion_reach_empties_isolated(g: Seq<Seq<bool>>, r: int, c: int, p: int)
    requires
        p >= 2,
        0 <= r < g.len(),
        0 <= c < g[r].len(),
        forall|a: int, b: int|
            r - p <= a <= r + p && c - p <= b <= c + p && (a != r || b != c) ==> !#[trigger] at(g, a, b),
    ensures
        !erosion(g, p as nat)[r][c],
{
    if erosion(g, p as nat)[r][c] {
        lemma_erosion_reach_needs_every_level(g, r, c, p);
        if forall|x: int| 0 <= x < p ==> #[trigger] vertical_level_occupied(g, r, c, p, x) {
            assert(vertical_level_occupied(g, r, c, p, 1));
            let b = choose|b: int| c - p <= b <= c + p && (#[trigger] at(g, r - p + 1, b) || at(g, r + 1, b));
            assert(!at(g, r - p + 1, b));
            assert(!at(g, r + 1, b));
        } else {
            assert(horizontal_level_occupied(g, r, c, p, 1));
            let a = choose|a: int| r - p <= a <= r + p && (#[trigger] at(g, a, c - p + 1) || at(g, a, c + 1));
            assert(!at(g, a, c - p + 1));
            assert(!at(g, a, c + 1));
        }
    }
}

/// An occupied cell whose vertical profile holds at least two occupied
/// cells at every level survives the profile erosion of reach `p > 0`, and
/// so does one whose horizontal profile does.
pub proof fn lemma_erosion_reach_keeps_dense_profiles(g: Seq<Seq<bool>>, r: int, c: int, p: int)
    requires
        p > 0,
        0 <= r < g.len(),
        0 <= c < g[r].len(),
        g[r][c],
        (forall|x: int|
            0 <= x < p ==> #[trigger] count_row(g, r - p + x, c - p, c + p + 1) + count_row(g, r + x, c - p, c + p + 1)
                >= 2) || (forall|x: int|
            0 <= x < p ==> #[trigger] count_col(g, c - p + x, r - p, r + p + 1) + count_col(g, c + x, r - p, r + p + 1)
                >= 2),
    ensures
        erosion(g, p as nat)[r][c],
{
}

/// The profile erosion of reach `p > 0` in full: an occupied cell is kept
/// exactly when, at every level `x < p`, the occupied cells of row
/// `r - p + x` and row `r + x` within columns `c - p ..= c + p` number at
/// least the level's threshold, or the same holds of columns `c - p + x`
/// and `c + x` within rows `r - p ..= r + p`. The threshold is one for a
/// cell on the border or a level no deeper than the row index, two
/// otherwise.
pub proof fn lemma_erosion_reach_thresholds(g: Seq<Seq<bool>>, r: int, c: int, p: int)
    requires
        p > 0,
        0 <= r < g.len(),
        0 <= c < g[r].len(),
    ensures
        erosion(g, p as nat)[r][c] == (g[r][c] && ((forall|x: int|
            0 <= x < p ==> #[trigger] count_row(g, r - p + x, c - p, c + p + 1) + count_row(g, r + x, c - p, c + p + 1)
                >= if r == 0 || c == 0 || r == g.len() - 1 || c == g[r].len() - 1 || x <= r {
                1nat
            } else {
                2nat
            }) || (forall|x: int|
            0 <= x < p ==> #[trigger] count_col(g, c - p + x, r - p, r + p + 1) + count_col(g, c + x, r - p, r + p + 1)
                >= if r == 0 || c == 0 || r == g.len() - 1 || c == g[r].len() - 1 || x <= r {
                1nat
            } else {
                2nat
            }))),
{
    let border = r == 0 || c == 0 || r == g.len() - 1 || c == g[r].len() - 1;
    assert(border == on_border(g, r, c));
    let vlaw = forall|x: int|
        0 <= x < p ==> #[trigger] count_row(g, r - p + x, c - p, c + p + 1) + count_row(g, r + x, c - p, c + p + 1)
            >= if border || x <= r {
            1nat
        } else {
            2nat
        };
    let hlaw = forall|x: int|
        0 <= x < p ==> #[trigger] count_col(g, c - p + x, r - p, r + p + 1) + count_col(g, c + x, r - p, r + p + 1)
            >= if border || x <= r {
            1nat
        } else {
            2nat
        };
    if vertically_supported(g, r, c, p) {
        assert forall|x: int| 0 <= x < p implies #[trigger] count_row(g, r - p + x, c - p, c + p + 1) + count_row(g, r + x, c - p, c + p + 1)
            >= if border || x <= r { 1nat } else { 2nat } by {
            assert(vertical_level(g, r, c, p, x) >= level_threshold(g, r, c, x));
        }
    }
    if vlaw {
        assert forall|x: int| 0 <= x < p implies #[trigger] vertical_level(g, r, c, p, x) >= level_threshold(g, r, c, x) by {
            assert(count_row(g, r - p + x, c - p, c + p + 1) + count_row(g, r + x, c - p, c + p + 1)
                >= if border || x <= r { 1nat } else { 2nat });
        }
    }
    if horizontally_supported(g, r, c, p) {
        assert forall|x: int| 0 <= x < p implies #[trigger] count_col(g, c - p + x, r - p, r + p + 1) + count_col(g, c + x, r - p, r + p + 1)
            >= if border || x <= r { 1nat } else { 2nat } by {
            assert(horizontal_level(g, r, c, p, x) >= level_threshold(g, r, c, x));
        }
    }
    if hlaw {
        assert forall|x: int| 0 <= x < p implies #[trigger] horizontal_level(g, r, c, p, x) >= level_threshold(g, r, c, x) by {
            assert(count_col(g, c - p + x, r - p, r + p + 1) + count_col(g, c + x, r - p, r + p + 1)
                >= if border || x <= r { 1nat } else { 2nat });
        }
    }
}

} // verus!
