//! Integer geometry of voxel space: boxes of grid points, the blocks that
//! tiles expand to, and how many points they hold.

use vstd::arithmetic::div_mod::{lemma_fundamental_div_mod_converse, lemma_mod_bound};
use vstd::prelude::*;
use vstd::set_lib::lemma_set_disjoint_lens;

verus! {

/// A grid point.
pub type Point = (int, int, int);

/// The points `p` with `lo <= p < lo + dims` on every axis.
pub open spec fn box_set(lo: Point, dims: Point) -> Set<Point> {
    Set::new(
        |p: Point|
            lo.0 <= p.0 < lo.0 + dims.0 && lo.1 <= p.1 < lo.1 + dims.1 && lo.2 <= p.2 < lo.2
                + dims.2,
    )
}

/// A box holds as many points as the product of its edge lengths.
pub proof fn lemma_box_len(lo: Point, dims: Point)
    requires
        dims.0 >= 0,
        dims.1 >= 0,
        dims.2 >= 0,
    ensures
        box_set(lo, dims).finite(),
        box_set(lo, dims).len() == dims.0 * dims.1 * dims.2,
    decreases dims.2, dims.1, dims.0,
{
    let (n, m, p) = dims;
    let whole = box_set(lo, dims);
    if n == 0 || m == 0 || p == 0 {
        assert(whole =~= Set::empty());
        assert(n * m * p == 0) by (nonlinear_arith)
            requires
                n == 0 || m == 0 || p == 0,
        ;
    } else if p > 1 {
        let below = box_set(lo, (n, m, p - 1));
        let top = box_set((lo.0, lo.1, lo.2 + p - 1), (n, m, 1));
        lemma_box_len(lo, (n, m, p - 1));
        lemma_box_len((lo.0, lo.1, lo.2 + p - 1), (n, m, 1));
        assert(whole =~= below + top);
        assert(below.disjoint(top));
        lemma_set_disjoint_lens(below, top);
        assert(n * m * p == n * m * (p - 1) + n * m * 1) by (nonlinear_arith);
    } else if m > 1 {
        let below = box_set(lo, (n, m - 1, 1));
        let top = box_set((lo.0, lo.1 + m - 1, lo.2), (n, 1, 1));
        lemma_box_len(lo, (n, m - 1, 1));
        lemma_box_len((lo.0, lo.1 + m - 1, lo.2), (n, 1, 1));
        assert(whole =~= below + top);
        assert(below.disjoint(top));
        lemma_set_disjoint_lens(below, top);
        assert(n * m * 1 == n * (m - 1) * 1 + n * 1 * 1) by (nonlinear_arith);
    } else if n > 1 {
        let below = box_set(lo, (n - 1, 1, 1));
        let top = box_set((lo.0 + n - 1, lo.1, lo.2), (1, 1, 1));
        lemma_box_len(lo, (n - 1, 1, 1));
        lemma_box_len((lo.0 + n - 1, lo.1, lo.2), (1, 1, 1));
        assert(whole =~= below + top);
        assert(below.disjoint(top));
        lemma_set_disjoint_lens(below, top);
    } else {
        assert(whole =~= Set::empty().insert(lo));
    }
}

/// Row-major numbering of a box with edges `n0`, `n1`, `n2`, the first
/// coordinate varying fastest: the number of an in-range point is below
/// the box's volume, and the point can be read back from it.
pub proof fn lemma_linear(n0: int, n1: int, n2: int, a: int, b: int, c: int)
    requires
        0 <= a < n0,
        0 <= b < n1,
        0 <= c < n2,
    ensures
        0 <= c * n1 + b < n2 * n1,
        0 <= (c * n1 + b) * n0 + a < n2 * n1 * n0,
        ((c * n1 + b) * n0 + a) % n0 == a,
        ((c * n1 + b) * n0 + a) / n0 % n1 == b,
        ((c * n1 + b) * n0 + a) / n0 / n1 == c,
{
    let row = c * n1 + b;
    let i = row * n0 + a;
    assert(0 <= row < n2 * n1 && 0 <= i < n2 * n1 * n0) by (nonlinear_arith)
        requires
            0 <= a < n0,
            0 <= b < n1,
            0 <= c < n2,
            row == c * n1 + b,
            i == row * n0 + a,
    ;
    lemma_fundamental_div_mod_converse(i, n0, row, a);
    lemma_fundamental_div_mod_converse(row, n1, c, b);
}

/// Every number below the volume of a box with edges `n0`, `n1`, `n2`
/// is the row-major number of exactly one point of the box.
pub proof fn lemma_linear_inverse(n0: int, n1: int, n2: int, i: int)
    requires
        n0 >= 0,
        n1 >= 0,
        n2 >= 0,
        0 <= i < n2 * n1 * n0,
    ensures
        0 <= i % n0 < n0,
        0 <= i / n0 % n1 < n1,
        0 <= i / n0 / n1 < n2,
        (i / n0 / n1 * n1 + i / n0 % n1) * n0 + i % n0 == i,
{
    assert(n0 >= 1 && n1 >= 1 && n2 >= 1) by (nonlinear_arith)
        requires
            0 <= i < n2 * n1 * n0,
            n0 >= 0,
            n1 >= 0,
            n2 >= 0,
    ;
    let row = i / n0;
    assert(i == n0 * row + i % n0 && 0 <= i % n0 < n0 && 0 <= row && row == n1 * (row / n1) + row
        % n1 && 0 <= row % n1 < n1 && 0 <= row / n1 < n2) by (nonlinear_arith)
        requires
            0 <= i < n2 * n1 * n0,
            n0 >= 1,
            n1 >= 1,
            n2 >= 1,
            row == i / n0,
    {
        assert(i == n0 * (i / n0) + i % n0);
        assert(row < n2 * n1) by {
            if row >= n2 * n1 {
                assert(n0 * row >= n0 * (n2 * n1));
                assert(n0 * (n2 * n1) == n2 * n1 * n0);
            }
        }
        assert(row == n1 * (row / n1) + row % n1);
        if row / n1 >= n2 {
            assert(n1 * (row / n1) >= n1 * n2);
            assert(n1 * n2 == n2 * n1);
        }
    }
    assert((row / n1 * n1 + row % n1) * n0 + i % n0 == i) by (nonlinear_arith)
        requires
            i == n0 * row + i % n0,
            row == n1 * (row / n1) + row % n1,
    ;
}

/// A position is fixed by its quotient and remainder.
pub proof fn lemma_div_mod_unique(g: int, h: int, d: int)
    requires
        d >= 1,
        g / d == h / d,
        g % d == h % d,
    ensures
        g == h,
{
    assert(g == d * (g / d) + g % d && h == d * (h / d) + h % d) by (nonlinear_arith)
        requires
            d >= 1,
    ;
}

/// The floor of `g / d`: for a coordinate `g`, of either sign, the number
/// of the cell of width `d` that holds it. Rounds down, where `/` on
/// machine integers rounds towards zero.
pub fn floor_div(g: i64, d: i64) -> (q: i64)
    requires
        d >= 1,
    ensures
        q == g as int / d as int,
{
    if g >= 0 {
        g / d
    } else {
        let m = -(g + 1);
        proof {
            let r = m as int % d as int;
            let k = m as int / d as int;
            assert(m == d * k + r && 0 <= r < d && 0 <= k <= m) by (nonlinear_arith)
                requires
                    d >= 1,
                    m >= 0,
                    r == m as int % d as int,
                    k == m as int / d as int,
            ;
            assert(g == (-k - 1) * d + (d - r - 1)) by (nonlinear_arith)
                requires
                    m == d * k + r,
                    g == -(m + 1),
            ;
            lemma_fundamental_div_mod_converse(g as int, d as int, -k - 1, d - r - 1);
        }
        -(m / d) - 1
    }
}

/// The remainder of `g` by `d` that goes with [`floor_div`]: for a
/// coordinate `g`, of either sign, its place within its cell, never
/// negative.
pub fn floor_mod(g: i64, d: i64) -> (r: i64)
    requires
        d >= 1,
    ensures
        r == g as int % d as int,
        0 <= r < d,
{
    if g >= 0 {
        proof {
            lemma_mod_bound(g as int, d as int);
        }
        g % d
    } else {
        let m = -(g + 1);
        proof {
            let r = m as int % d as int;
            let k = m as int / d as int;
            assert(m == d * k + r && 0 <= r < d) by (nonlinear_arith)
                requires
                    d >= 1,
                    m >= 0,
                    r == m as int % d as int,
                    k == m as int / d as int,
            ;
            assert(g == (-k - 1) * d + (d - r - 1)) by (nonlinear_arith)
                requires
                    m == d * k + r,
                    g == -(m + 1),
            ;
            lemma_fundamental_div_mod_converse(g as int, d as int, -k - 1, d - r - 1);
        }
        d - 1 - m % d
    }
}

/// Number of chunks of edge `cs` needed to cover `count` tiles of `e`
/// voxels each.
pub open spec fn chunks_along(count: int, e: int, cs: int) -> int {
    (count * e + cs - 1) / cs
}

/// The chunks counted by `chunks_along` cover every voxel of the tiles.
pub proof fn lemma_chunks_cover(count: int, e: int, cs: int, g: int)
    requires
        cs >= 1,
        e >= 0,
        0 <= g < count * e,
    ensures
        0 <= g / cs < chunks_along(count, e, cs),
        0 <= g % cs < cs,
{
    let n = chunks_along(count, e, cs);
    let top = count * e + cs - 1;
    assert(0 <= g / cs < n) by (nonlinear_arith)
        requires
            cs >= 1,
            0 <= g,
            g + cs <= top,
            n == top / cs,
    {
        assert(g == cs * (g / cs) + g % cs);
        assert(top == cs * (top / cs) + top % cs);
        assert(0 <= g % cs < cs);
        assert(0 <= top % cs < cs);
        if g / cs >= n {
            assert(cs * (g / cs) >= cs * n);
        }
    }
}

/// The tile that voxel `g` belongs to when every tile is `e` voxels wide.
pub open spec fn tile_of(g: Point, e: int) -> Point {
    (g.0 / e, g.1 / e, g.2 / e)
}

/// The voxels of tile `t`: a cube of edge `e` at `t * e`.
pub open spec fn block(t: Point, e: int) -> Set<Point> {
    box_set((t.0 * e, t.1 * e, t.2 * e), (e, e, e))
}

/// On one axis, the run of `e` positions that starts at `t * e` holds
/// exactly the positions whose quotient by `e` is `t`.
pub proof fn lemma_run_div(g: int, t: int, e: int)
    requires
        e >= 1,
    ensures
        (t * e <= g < t * e + e) <==> g / e == t,
{
    if t * e <= g < t * e + e {
        lemma_fundamental_div_mod_converse(g, e, t, g - t * e);
    }
    if g / e == t {
        assert(t * e <= g < t * e + e) by (nonlinear_arith)
            requires
                e >= 1,
                g / e == t,
        {
            assert(g == e * (g / e) + g % e);
            assert(0 <= g % e < e);
        }
    }
}

/// A voxel lies in the block of the tile it belongs to, and in no other.
pub proof fn lemma_block_tile(g: Point, t: Point, e: int)
    requires
        e >= 1,
    ensures
        block(t, e).contains(g) <==> tile_of(g, e) == t,
{
    lemma_run_div(g.0, t.0, e);
    lemma_run_div(g.1, t.1, e);
    lemma_run_div(g.2, t.2, e);
}

/// Whether `p` comes before `at` in a sweep that runs through `y`, within
/// it through `z`, and within that through `x`.
pub open spec fn sweeps_before(p: Point, at: Point) -> bool {
    p.1 < at.1 || (p.1 == at.1 && (p.2 < at.2 || (p.2 == at.2 && p.0 < at.0)))
}

/// The part of `set` that a sweep has passed when it stands at `at`.
pub open spec fn swept(set: Set<Point>, at: Point) -> Set<Point> {
    Set::new(|p: Point| set.contains(p) && sweeps_before(p, at))
}

/// Whether a world of chunks of edge `cs` can hold a map of `dims` tiles
/// at `e` voxels per tile edge: both scales are at least one, a chunk's
/// voxels can be addressed, and so can the chunks of the grid.
pub open spec fn scale_fits(dims: Point, e: int, cs: int) -> bool {
    let nx = chunks_along(dims.0, e, cs);
    let ny = chunks_along(dims.1, e, cs);
    let nz = chunks_along(dims.2, e, cs);
    &&& e >= 1
    &&& cs >= 1
    &&& cs * cs * cs <= usize::MAX
    &&& nx <= usize::MAX
    &&& ny <= usize::MAX
    &&& nz <= usize::MAX
    &&& ny * nz * nx <= usize::MAX
}

/// The voxels of all tiles in `tiles`.
pub open spec fn blocks(tiles: Set<Point>, e: int) -> Set<Point> {
    Set::new(|g: Point| tiles.contains(tile_of(g, e)))
}

/// The blocks of finitely many tiles hold `e³` voxels per tile.
pub proof fn lemma_blocks_len(tiles: Set<Point>, e: int)
    requires
        tiles.finite(),
        e >= 1,
    ensures
        blocks(tiles, e).finite(),
        blocks(tiles, e).len() == tiles.len() * (e * e * e),
    decreases tiles.len(),
{
    if tiles.len() == 0 {
        assert(tiles =~= Set::empty());
        assert(blocks(tiles, e) =~= Set::empty());
    } else {
        let t = tiles.choose();
        let rest = tiles.remove(t);
        lemma_blocks_len(rest, e);
        lemma_box_len((t.0 * e, t.1 * e, t.2 * e), (e, e, e));
        assert forall|g: Point|
            blocks(tiles, e).contains(g) <==> blocks(rest, e).contains(g) || block(t, e).contains(
                g,
            ) by {
            lemma_block_tile(g, t, e);
        }
        assert forall|g: Point| !(blocks(rest, e).contains(g) && block(t, e).contains(g)) by {
            lemma_block_tile(g, t, e);
        }
        assert(blocks(tiles, e) =~= blocks(rest, e) + block(t, e));
        assert(blocks(rest, e).disjoint(block(t, e)));
        lemma_set_disjoint_lens(blocks(rest, e), block(t, e));
        assert(tiles.len() * (e * e * e) == rest.len() * (e * e * e) + e * e * e)
            by (nonlinear_arith)
            requires
                tiles.len() == rest.len() + 1,
        ;
    }
}

} // verus!
