//! The mathematical model of the game: flat-index coordinate mapping,
//! toroidal wrapping, the 8-neighbor live count, and the Life rule itself.

use vstd::prelude::*;
use vstd::arithmetic::div_mod::lemma_fundamental_div_mod_converse;

verus! {

/// Flat index of the cell at column `x`, row `y`, on a grid `w` cells wide.
pub open spec fn idx_of(w: int, x: int, y: int) -> int {
    y * w + x
}

/// Toroidal step one to the left (or up): wraps `0` to `m - 1`.
pub open spec fn wrap_dec(v: int, m: int) -> int {
    if v == 0 {
        m - 1
    } else {
        v - 1
    }
}

/// Toroidal step one to the right (or down): wraps `m - 1` to `0`.
pub open spec fn wrap_inc(v: int, m: int) -> int {
    if v + 1 == m {
        0
    } else {
        v + 1
    }
}

/// 1 if the cell at `(x, y)` of grid `g` (width `w`) is alive, else 0.
pub open spec fn live_at(g: Seq<u8>, w: int, x: int, y: int) -> int {
    if g[idx_of(w, x, y)] == 1 {
        1
    } else {
        0
    }
}

/// The number of live cells among the 8 toroidal neighbors of `(x, y)`:
/// the 3x3 block centered at `(x, y)`, wrapped at the edges, minus the
/// center itself. On a 2-wide or 2-high grid a cell can appear under
/// several of the 8 neighbor positions and is then counted once per
/// position.
pub open spec fn neighbor_count(g: Seq<u8>, w: int, h: int, x: int, y: int) -> int {
    let xl = wrap_dec(x, w);
    let xr = wrap_inc(x, w);
    let yu = wrap_dec(y, h);
    let yd = wrap_inc(y, h);
    live_at(g, w, xl, yu) + live_at(g, w, x, yu) + live_at(g, w, xr, yu) + live_at(g, w, xl, y)
        + live_at(g, w, xr, y) + live_at(g, w, xl, yd) + live_at(g, w, x, yd) + live_at(
        g,
        w,
        xr,
        yd,
    )
}

/// The standard Life rule: a cell is alive on the next step iff it has
/// exactly 3 live neighbors (birth or survival), or it is alive now and
/// has exactly 2 (survival).
pub open spec fn life_rule(alive_now: bool, neighbors: int) -> bool {
    neighbors == 3 || (neighbors == 2 && alive_now)
}

/// The next value of the cell at `(x, y)`, from the whole current grid.
pub open spec fn next_cell(g: Seq<u8>, w: int, h: int, x: int, y: int) -> u8 {
    if life_rule(g[idx_of(w, x, y)] == 1, neighbor_count(g, w, h, x, y)) {
        1u8
    } else {
        0u8
    }
}

/// `v` lies within one toroidal step of `c` (modulus `m`).
pub open spec fn in_tri(v: int, c: int, m: int) -> bool {
    v == wrap_dec(c, m) || v == c || v == wrap_inc(c, m)
}

/// Cell index `j` lies in the toroidal 3x3 neighborhood centered at
/// `(cx, cy)` on a `w` by `h` grid.
pub open spec fn in_nbhd(w: int, h: int, cx: int, cy: int, j: int) -> bool {
    &&& 0 <= j < w * h
    &&& in_tri(j % w, cx, w)
    &&& in_tri(j / w, cy, h)
}

/// Whether the step taking grid `g0` to grid `g1` (same `w` by `h` shape)
/// makes `j` dirty: some cell changed and `j` lies in its 3x3 neighborhood.
pub open spec fn step_dirty(g0: Seq<u8>, g1: Seq<u8>, w: int, h: int, j: int) -> bool {
    exists|c: int|
        0 <= c < w * h && g1[c] != g0[c] && in_nbhd(w, h, c % w, c / w, j)
}

/// A flat index decomposes into the coordinates it was built from.
pub proof fn lemma_idx_coords(w: int, x: int, y: int)
    requires
        w >= 1,
        0 <= x < w,
        0 <= y,
    ensures
        idx_of(w, x, y) % w == x,
        idx_of(w, x, y) / w == y,
{
    lemma_fundamental_div_mod_converse(y * w + x, w, y, x);
}

/// Coordinates recovered from an in-range flat index are in range, and
/// rebuild the index.
pub proof fn lemma_coords_of_idx(w: int, h: int, j: int)
    requires
        w >= 1,
        h >= 1,
        0 <= j < w * h,
    ensures
        0 <= j % w < w,
        0 <= j / w < h,
        idx_of(w, j % w, j / w) == j,
{
    vstd::arithmetic::div_mod::lemma_fundamental_div_mod(j, w);
    vstd::arithmetic::div_mod::lemma_mod_bound(j, w);
    vstd::arithmetic::div_mod::lemma_div_pos_is_pos(j, w);
    vstd::arithmetic::mul::lemma_mul_is_commutative(w, j / w);
    vstd::arithmetic::mul::lemma_mul_is_commutative(w, h);
    if j / w >= h {
        vstd::arithmetic::mul::lemma_mul_inequality(h, j / w, w);
    }
}

/// The flat index of in-range coordinates is in range.
pub proof fn lemma_idx_in_range(w: int, h: int, x: int, y: int)
    requires
        w >= 1,
        h >= 1,
        0 <= x < w,
        0 <= y < h,
    ensures
        0 <= idx_of(w, x, y) < w * h,
{
    assert(0 <= y * w + x < w * h) by (nonlinear_arith)
        requires
            0 <= x && x < w && 0 <= y && y < h,
    ;
}

/// Every cell lies in its own 3x3 neighborhood.
pub proof fn lemma_nbhd_reflexive(w: int, h: int, j: int)
    requires
        w >= 1,
        h >= 1,
        0 <= j < w * h,
    ensures
        in_nbhd(w, h, j % w, j / w, j),
{
    lemma_coords_of_idx(w, h, j);
}

/// The 3x3 neighborhood relation is symmetric: if `j` lies in the
/// neighborhood of `c`, then `c` lies in the neighborhood of `j`.
pub proof fn lemma_nbhd_symmetric(w: int, h: int, c: int, j: int)
    requires
        w >= 2,
        h >= 2,
        0 <= c < w * h,
        0 <= j < w * h,
        in_nbhd(w, h, c % w, c / w, j),
    ensures
        in_nbhd(w, h, j % w, j / w, c),
{
    lemma_coords_of_idx(w, h, c);
    lemma_coords_of_idx(w, h, j);
    assert(in_tri(c % w, j % w, w));
    assert(in_tri(c / w, j / w, h));
}

/// The next value of a cell depends only on the cell's own 3x3 toroidal
/// neighborhood: two grids that agree there step that cell alike.
pub proof fn lemma_next_cell_local(g0: Seq<u8>, g1: Seq<u8>, w: int, h: int, x: int, y: int)
    requires
        w >= 2,
        h >= 2,
        g0.len() == w * h,
        g1.len() == w * h,
        0 <= x < w,
        0 <= y < h,
        forall|j: int| 0 <= j < w * h && #[trigger] in_nbhd(w, h, x, y, j) ==> g1[j] == g0[j],
    ensures
        next_cell(g1, w, h, x, y) == next_cell(g0, w, h, x, y),
{
    let xl = wrap_dec(x, w);
    let xr = wrap_inc(x, w);
    let yu = wrap_dec(y, h);
    let yd = wrap_inc(y, h);
    assert forall|nx: int, ny: int|
        in_tri(nx, x, w) && in_tri(ny, y, h) implies g1[idx_of(w, nx, ny)] == g0[idx_of(
        w,
        nx,
        ny,
    )] by {
        lemma_idx_in_range(w, h, nx, ny);
        lemma_idx_coords(w, nx, ny);
        assert(in_nbhd(w, h, x, y, idx_of(w, nx, ny)));
    }
    assert(g1[idx_of(w, xl, yu)] == g0[idx_of(w, xl, yu)]);
    assert(g1[idx_of(w, x, yu)] == g0[idx_of(w, x, yu)]);
    assert(g1[idx_of(w, xr, yu)] == g0[idx_of(w, xr, yu)]);
    assert(g1[idx_of(w, xl, y)] == g0[idx_of(w, xl, y)]);
    assert(g1[idx_of(w, x, y)] == g0[idx_of(w, x, y)]);
    assert(g1[idx_of(w, xr, y)] == g0[idx_of(w, xr, y)]);
    assert(g1[idx_of(w, xl, yd)] == g0[idx_of(w, xl, yd)]);
    assert(g1[idx_of(w, x, yd)] == g0[idx_of(w, x, yd)]);
    assert(g1[idx_of(w, xr, yd)] == g0[idx_of(w, xr, yd)]);
    assert(neighbor_count(g1, w, h, x, y) == neighbor_count(g0, w, h, x, y));
}

/// Toroidal wrap: a live cell at `(0, 0)` is counted as a neighbor of the
/// three opposite corners `(w-1, h-1)`, `(w-1, 0)` and `(0, h-1)`.
pub proof fn lemma_toroidal_wrap(g: Seq<u8>, w: int, h: int)
    requires
        w >= 2,
        h >= 2,
        g.len() == w * h,
        g[0] == 1,
    ensures
        neighbor_count(g, w, h, w - 1, h - 1) >= 1,
        neighbor_count(g, w, h, w - 1, 0) >= 1,
        neighbor_count(g, w, h, 0, h - 1) >= 1,
{
    assert(wrap_inc(w - 1, w) == 0);
    assert(wrap_inc(h - 1, h) == 0);
    assert(live_at(g, w, 0, 0) == 1);
}

} // verus!
