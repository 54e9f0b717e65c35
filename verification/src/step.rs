//! One simulation step: every cell on the dirty worklist is re-evaluated
//! against the current buffer, the results are written to the other buffer,
//! the worklist is rebuilt from the cells that actually changed, and the
//! buffers swap roles.

use vstd::prelude::*;
use crate::rules::{
    idx_of, neighbor_count, next_cell, in_nbhd, step_dirty, lemma_idx_coords, lemma_idx_in_range,
    lemma_nbhd_reflexive, lemma_nbhd_symmetric, lemma_next_cell_local, lemma_coords_of_idx,
};
use crate::grid::{Life, wrap_dec_e, wrap_inc_e};

verus! {

/// Cell `i` occurs among the first `k` entries of the index list `s`.
pub open spec fn in_prefix(s: Seq<u32>, k: int, i: int) -> bool {
    exists|t: int| 0 <= t < k && s[t] as int == i
}

/// The Life rule changes the cell with flat index `c` of grid `g0`.
pub open spec fn cell_changed(g0: Seq<u8>, w: int, h: int, c: int) -> bool {
    next_cell(g0, w, h, c % w, c / w) != g0[c]
}

/// `j` lies in the 3x3 neighborhood of a cell among the first `k` entries
/// of `s` that the rule changes.
pub open spec fn marked_by_prefix(
    g0: Seq<u8>,
    w: int,
    h: int,
    s: Seq<u32>,
    k: int,
    j: int,
) -> bool {
    exists|t: int|
        0 <= t < k && cell_changed(g0, w, h, s[t] as int) && in_nbhd(
            w,
            h,
            (s[t] as int) % w,
            (s[t] as int) / w,
            j,
        )
}

/// How one simulation step relates the state before (`pre`) to the state
/// after (`post`): the worklist cells are rewritten under the Life rule
/// from `pre`'s readable grid, every other cell is unchanged, the buffers
/// swap roles, and the new worklist holds exactly the neighborhoods of the
/// cells that changed.
pub open spec fn step_rel(pre: Life, post: Life) -> bool {
    &&& post.w == pre.w
    &&& post.h == pre.h
    &&& post.cur == (if pre.cur == 1 { 0u32 } else { 1u32 })
    &&& post.write_view() == pre.read_view()
    &&& forall|i: int|
        0 <= i < post.area() ==> (#[trigger] post.read_view()[i]) == (if pre.dirty(i) {
            next_cell(
                pre.read_view(),
                pre.w as int,
                pre.h as int,
                i % (pre.w as int),
                i / (pre.w as int),
            )
        } else {
            pre.read_view()[i]
        })
    &&& forall|j: int|
        0 <= j < post.area() ==> ((#[trigger] post.dirty(j)) <==> step_dirty(
            pre.read_view(),
            post.read_view(),
            pre.w as int,
            pre.h as int,
            j,
        ))
    &&& forall|cx: int, cy: int, j: int|
        0 <= cx < pre.w as int && 0 <= cy < pre.h as int && post.read_view()[idx_of(
            pre.w as int,
            cx,
            cy,
        )] != pre.read_view()[idx_of(pre.w as int, cx, cy)] && #[trigger] in_nbhd(
            pre.w as int,
            pre.h as int,
            cx,
            cy,
            j,
        ) ==> post.dirty(j)
}

/// Every cell off the dirty worklist is already stable under the Life
/// rule: stepping it would not change it. This is what the worklist is
/// for — cells it omits need no re-evaluation.
pub open spec fn quiescent(s: Life) -> bool {
    forall|c: int|
        0 <= c < s.area() && !s.dirty(c) ==> #[trigger] next_cell(
            s.read_view(),
            s.w as int,
            s.h as int,
            c % (s.w as int),
            c / (s.w as int),
        ) == s.read_view()[c]
}

/// The worklist covers the whole neighborhood of every cell live in grid
/// `g`: the tracker `s` has marked each such cell's 3x3 block dirty.
pub open spec fn marks_cover_live(g: Seq<u8>, s: Life) -> bool {
    forall|px: int, py: int, j: int|
        0 <= px < s.w as int && 0 <= py < s.h as int && g[idx_of(s.w as int, px, py)] == 1
            && #[trigger] in_nbhd(s.w as int, s.h as int, px, py, j) ==> s.dirty(j)
}

/// A freshly seeded state is quiescent: when the worklist covers the full
/// neighborhood of every live cell, every off-worklist cell is dead with
/// no live neighbor, and so already stable under the rule.
pub proof fn lemma_seeded_quiescent(s: Life)
    requires
        s.wf(),
        s.w >= 2,
        s.h >= 2,
        marks_cover_live(s.read_view(), s),
    ensures
        quiescent(s),
{
    let w = s.w as int;
    let h = s.h as int;
    let g = s.read_view();
    assert forall|c: int|
        0 <= c < s.area() && !s.dirty(c) implies (#[trigger] next_cell(g, w, h, c % w, c / w))
        == g[c] by {
        lemma_coords_of_idx(w, h, c);
        assert forall|j: int|
            0 <= j < w * h && #[trigger] in_nbhd(w, h, c % w, c / w, j) implies g[j] == 0 by {
            if g[j] == 1 {
                lemma_nbhd_symmetric(w, h, c, j);
                lemma_coords_of_idx(w, h, j);
                assert(g[idx_of(w, j % w, j / w)] == 1);
                assert(s.dirty(c));
            }
        }
        assert forall|nx: int, ny: int|
            crate::rules::in_tri(nx, c % w, w) && crate::rules::in_tri(ny, c / w, h) implies g[idx_of(
            w,
            nx,
            ny,
        )] == 0 by {
            lemma_idx_in_range(w, h, nx, ny);
            lemma_idx_coords(w, nx, ny);
            assert(in_nbhd(w, h, c % w, c / w, idx_of(w, nx, ny)));
        }
        let xl = crate::rules::wrap_dec(c % w, w);
        let xr = crate::rules::wrap_inc(c % w, w);
        let yu = crate::rules::wrap_dec(c / w, h);
        let yd = crate::rules::wrap_inc(c / w, h);
        assert(g[idx_of(w, xl, yu)] == 0);
        assert(g[idx_of(w, c % w, yu)] == 0);
        assert(g[idx_of(w, xr, yu)] == 0);
        assert(g[idx_of(w, xl, c / w)] == 0);
        assert(g[idx_of(w, c % w, c / w)] == 0);
        assert(g[idx_of(w, xr, c / w)] == 0);
        assert(g[idx_of(w, xl, yd)] == 0);
        assert(g[idx_of(w, c % w, yd)] == 0);
        assert(g[idx_of(w, xr, yd)] == 0);
        assert(neighbor_count(g, w, h, c % w, c / w) == 0);
    }
}

/// Forcing one cell alive and marking its neighborhood, as `click` does,
/// keeps every off-worklist cell stable: the only changed cell lies inside
/// the marked block, so it touches no unmarked cell's neighborhood.
pub proof fn lemma_click_quiescent(pre: Life, post: Life, cx: int, cy: int)
    requires
        pre.wf(),
        post.wf(),
        pre.w >= 2,
        pre.h >= 2,
        post.w == pre.w,
        post.h == pre.h,
        0 <= cx < pre.w as int,
        0 <= cy < pre.h as int,
        quiescent(pre),
        post.read_view() == pre.read_view().update(idx_of(pre.w as int, cx, cy), 1u8),
        forall|j: int|
            0 <= j < post.area() ==> ((#[trigger] post.dirty(j)) <==> pre.dirty(j) || in_nbhd(
                pre.w as int,
                pre.h as int,
                cx,
                cy,
                j,
            )),
    ensures
        quiescent(post),
{
    let w = pre.w as int;
    let h = pre.h as int;
    let g0 = pre.read_view();
    let g1 = post.read_view();
    let cell = idx_of(w, cx, cy);
    assert forall|c: int|
        0 <= c < post.area() && !post.dirty(c) implies (#[trigger] next_cell(
        g1,
        post.w as int,
        post.h as int,
        c % (post.w as int),
        c / (post.w as int),
    )) == g1[c] by {
        lemma_coords_of_idx(w, h, c);
        lemma_idx_in_range(w, h, cx, cy);
        lemma_idx_coords(w, cx, cy);
        assert(!pre.dirty(c) && !in_nbhd(w, h, cx, cy, c));
        assert forall|j: int|
            0 <= j < w * h && #[trigger] in_nbhd(w, h, c % w, c / w, j) implies g1[j] == g0[j] by {
            if j == cell {
                lemma_nbhd_symmetric(w, h, c, cell);
                assert(in_nbhd(w, h, cx, cy, c));
            }
        }
        lemma_next_cell_local(g0, g1, w, h, c % w, c / w);
        lemma_nbhd_reflexive(w, h, c);
        assert(c != cell);
        assert(g1[c] == g0[c]);
    }
}

/// The dirty worklist is conservative. When every off-worklist cell is
/// already stable under the rule, one incremental step — which only
/// re-evaluates worklist cells — computes the full Life step of the whole
/// grid; and the stability of off-worklist cells holds again afterwards,
/// so the argument carries from each step to the next.
pub proof fn lemma_step_computes_full_life(pre: Life, post: Life)
    requires
        pre.wf(),
        post.wf(),
        pre.w >= 2,
        pre.h >= 2,
        quiescent(pre),
        step_rel(pre, post),
    ensures
        forall|c: int|
            0 <= c < post.area() ==> (#[trigger] post.read_view()[c]) == next_cell(
                pre.read_view(),
                pre.w as int,
                pre.h as int,
                c % (pre.w as int),
                c / (pre.w as int),
            ),
        quiescent(post),
{
    let w = pre.w as int;
    let h = pre.h as int;
    let g0 = pre.read_view();
    let g1 = post.read_view();
    assert forall|c: int|
        0 <= c < post.area() implies (#[trigger] g1[c]) == next_cell(g0, w, h, c % w, c / w) by {
        if !pre.dirty(c) {
            assert(next_cell(g0, w, h, c % w, c / w) == g0[c]);
        }
    }
    assert forall|c: int|
        0 <= c < post.area() && !post.dirty(c) implies (#[trigger] next_cell(
        g1,
        post.w as int,
        post.h as int,
        c % (post.w as int),
        c / (post.w as int),
    )) == g1[c] by {
        lemma_coords_of_idx(w, h, c);
        assert forall|j: int|
            0 <= j < w * h && #[trigger] in_nbhd(w, h, c % w, c / w, j) implies g1[j] == g0[j] by {
            if g1[j] != g0[j] {
                lemma_nbhd_symmetric(w, h, c, j);
                assert(step_dirty(g0, g1, w, h, c)) by {
                    assert(0 <= j < w * h && g1[j] != g0[j] && in_nbhd(w, h, j % w, j / w, c));
                }
                assert(post.dirty(c));
            }
        }
        lemma_next_cell_local(g0, g1, w, h, c % w, c / w);
        lemma_nbhd_reflexive(w, h, c);
        assert(g1[c] == g0[c]);
        assert(g1[c] == next_cell(g0, w, h, c % w, c / w));
    }
}

/// A step relation is insensitive to which struct value carries the
/// post-state, as long as the grid, selector and worklist agree.
pub proof fn lemma_step_rel_same_state(pre: Life, a: Life, b: Life)
    requires
        step_rel(pre, a),
        b.w == a.w,
        b.h == a.h,
        b.cur == a.cur,
        b.read_view() == a.read_view(),
        b.write_view() == a.write_view(),
        b.near_alive@ == a.near_alive@,
    ensures
        step_rel(pre, b),
{
    assert forall|i: int|
        0 <= i < b.area() implies (#[trigger] b.read_view()[i]) == (if pre.dirty(i) {
        next_cell(
            pre.read_view(),
            pre.w as int,
            pre.h as int,
            i % (pre.w as int),
            i / (pre.w as int),
        )
    } else {
        pre.read_view()[i]
    }) by {
        assert(a.read_view()[i] == b.read_view()[i]);
    }
    assert forall|j: int|
        0 <= j < b.area() implies ((#[trigger] b.dirty(j)) <==> step_dirty(
        pre.read_view(),
        b.read_view(),
        pre.w as int,
        pre.h as int,
        j,
    )) by {
        assert(b.dirty(j) <==> a.dirty(j));
        assert(step_dirty(pre.read_view(), b.read_view(), pre.w as int, pre.h as int, j)
            <==> step_dirty(pre.read_view(), a.read_view(), pre.w as int, pre.h as int, j)) by {
            assert(b.read_view() == a.read_view());
        }
    }
    assert forall|cx: int, cy: int, j: int|
        0 <= cx < pre.w as int && 0 <= cy < pre.h as int && b.read_view()[idx_of(
            pre.w as int,
            cx,
            cy,
        )] != pre.read_view()[idx_of(pre.w as int, cx, cy)] && #[trigger] in_nbhd(
            pre.w as int,
            pre.h as int,
            cx,
            cy,
            j,
        ) implies b.dirty(j) by {
        assert(a.read_view()[idx_of(pre.w as int, cx, cy)] != pre.read_view()[idx_of(
            pre.w as int,
            cx,
            cy,
        )]);
        assert(a.dirty(j));
        assert(b.dirty(j) <==> a.dirty(j));
    }
}

impl Life {
    /// The number of live cells among the 8 toroidal neighbors of `(x, y)`
    /// in the current buffer, computed as a scan of the full 3x3 block
    /// followed by subtracting the center's own value, and proved equal to
    /// the direct 8-term recount `neighbor_count`.
    pub fn live_neighbors(&self, x: u32, y: u32) -> (r: u8)
        requires
            self.wf(),
            x < self.w,
            y < self.h,
        ensures
            r as int == neighbor_count(
                self.read_view(),
                self.w as int,
                self.h as int,
                x as int,
                y as int,
            ),
            r <= 8,
    {
        let xl = wrap_dec_e(x, self.w);
        let xr = wrap_inc_e(x, self.w);
        let yu = wrap_dec_e(y, self.h);
        let yd = wrap_inc_e(y, self.h);
        let mut alive: u8 = 0;
        if self.get(xl, yu) == 1 {
            alive = alive + 1;
        }
        if self.get(x, yu) == 1 {
            alive = alive + 1;
        }
        if self.get(xr, yu) == 1 {
            alive = alive + 1;
        }
        if self.get(xl, y) == 1 {
            alive = alive + 1;
        }
        if self.get(x, y) == 1 {
            alive = alive + 1;
        }
        if self.get(xr, y) == 1 {
            alive = alive + 1;
        }
        if self.get(xl, yd) == 1 {
            alive = alive + 1;
        }
        if self.get(x, yd) == 1 {
            alive = alive + 1;
        }
        if self.get(xr, yd) == 1 {
            alive = alive + 1;
        }
        let cell = self.get(x, y);
        if cell == 1 {
            alive = alive - 1;
        }
        alive
    }

    /// One full simulation step. Exactly the cells on the dirty worklist
    /// are re-evaluated under the Life rule against the pre-step state; all
    /// other cells keep their value. Afterwards the worklist holds exactly
    /// the cells in the 3x3 neighborhood of some cell that changed, so that
    /// nothing that could change on the following step is missed.
    #[verifier::loop_isolation(false)]
    #[verifier::rlimit(60)]
    pub fn update(&mut self)
        requires
            old(self).inv(),
            old(self).w >= 2,
            old(self).h >= 2,
        ensures
            final(self).inv(),
            final(self).clear == old(self).clear,
            step_rel(*old(self), *final(self)),
    {
        let ghost w = self.w as int;
        let ghost h = self.h as int;
        let ghost aa = self.area();
        let ghost g0 = self.read_view();
        let ghost w0 = self.write_view();
        let ghost s0 = self.dirty_seq();

        let snap = self.near_alive_list.split_off(0);
        proof {
            assert(snap@ =~= s0);
            assert(self.dirty_seq() =~= Seq::<u32>::empty());
        }
        let mut i: usize = 0;
        while i < self.near_alive.len()
            invariant
                i <= self.near_alive.len(),
                self.w == old(self).w,
                self.h == old(self).h,
                self.cur == old(self).cur,
                self.clear == old(self).clear,
                self.field1@ == old(self).field1@,
                self.field2@ == old(self).field2@,
                self.near_alive@.len() == aa,
                self.near_alive_list@.len() == 0,
                forall|t: int| 0 <= t < i ==> (#[trigger] self.near_alive@[t]) == 0,
            decreases self.near_alive.len() - i,
        {
            self.near_alive[i] = 0;
            i = i + 1;
        }
        proof {
            assert(self.wf());
            assert(self.read_view() == g0);
            assert(self.write_view() == w0);
        }
        let ghost s = snap@;
        let mut k: usize = 0;
        while k < snap.len()
            invariant
                k <= snap.len(),
                self.wf(),
                self.w == old(self).w,
                self.h == old(self).h,
                self.cur == old(self).cur,
                self.clear == old(self).clear,
                self.read_view() == g0,
                self.write_view().len() == aa,
                forall|i2: int|
                    0 <= i2 < aa ==> (#[trigger] self.write_view()[i2]) == (if in_prefix(
                        s,
                        k as int,
                        i2,
                    ) {
                        next_cell(g0, w, h, i2 % w, i2 / w)
                    } else {
                        w0[i2]
                    }),
                forall|j: int|
                    0 <= j < aa ==> ((#[trigger] self.dirty(j)) <==> marked_by_prefix(
                        g0,
                        w,
                        h,
                        s,
                        k as int,
                        j,
                    )),
            decreases snap.len() - k,
        {
            let idx = snap[k];
            proof {
                assert(s0[k as int] == idx);
            }
            let xy = self.idx2coord(idx);
            let x = xy.0;
            let y = xy.1;
            let n = self.live_neighbors(x, y);
            let cell = self.get(x, y);
            let newv: u8 = if n == 3 {
                1
            } else if n == 2 && cell == 1 {
                1
            } else {
                0
            };
            let ghost c = idx as int;
            proof {
                assert(x as int == c % w && y as int == c / w);
                assert(newv == next_cell(g0, w, h, c % w, c / w));
                assert(!in_prefix(s, k as int, c)) by {
                    if in_prefix(s, k as int, c) {
                        let t = choose|t: int| 0 <= t < k as int && s[t] as int == c;
                        assert(s0[t] == s0[k as int]);
                    }
                }
                assert(self.read_view()[idx_of(w, x as int, y as int)] == g0[c]);
            }
            let ghost m = *self;
            self.set(x, y, newv);
            proof {
                assert forall|i2: int|
                    0 <= i2 < aa implies (#[trigger] self.write_view()[i2]) == (if in_prefix(
                    s,
                    k as int + 1,
                    i2,
                ) {
                    next_cell(g0, w, h, i2 % w, i2 / w)
                } else {
                    w0[i2]
                }) by {
                    if i2 == c {
                        assert(in_prefix(s, k as int + 1, i2)) by {
                            assert(s[k as int] as int == i2);
                        }
                        assert(self.write_view()[i2] == newv);
                    } else {
                        assert(self.write_view()[i2] == m.write_view()[i2]);
                        assert(in_prefix(s, k as int + 1, i2) <==> in_prefix(s, k as int, i2)) by {
                            if in_prefix(s, k as int + 1, i2) {
                                let t = choose|t: int|
                                    0 <= t < k as int + 1 && s[t] as int == i2;
                                if t < k as int {
                                    assert(in_prefix(s, k as int, i2));
                                }
                            }
                            if in_prefix(s, k as int, i2) {
                                let t = choose|t: int| 0 <= t < k as int && s[t] as int == i2;
                                assert(0 <= t < k as int + 1 && s[t] as int == i2);
                            }
                        }
                    }
                }
                assert forall|j: int|
                    0 <= j < aa implies ((#[trigger] self.dirty(j)) <==> marked_by_prefix(
                    g0,
                    w,
                    h,
                    s,
                    k as int + 1,
                    j,
                )) by {
                    if newv != g0[c] {
                        assert(cell_changed(g0, w, h, c));
                        if self.dirty(j) {
                            if m.dirty(j) {
                                let t = choose|t: int|
                                    0 <= t < k as int && cell_changed(g0, w, h, s[t] as int)
                                        && in_nbhd(w, h, (s[t] as int) % w, (s[t] as int) / w, j);
                                assert(0 <= t < k as int + 1 && cell_changed(g0, w, h, s[t] as int)
                                    && in_nbhd(w, h, (s[t] as int) % w, (s[t] as int) / w, j));
                            } else {
                                assert(in_nbhd(w, h, x as int, y as int, j));
                                assert(s[k as int] as int == c);
                                assert(cell_changed(g0, w, h, s[k as int] as int) && in_nbhd(
                                    w,
                                    h,
                                    (s[k as int] as int) % w,
                                    (s[k as int] as int) / w,
                                    j,
                                ));
                            }
                            assert(marked_by_prefix(g0, w, h, s, k as int + 1, j));
                        }
                        if marked_by_prefix(g0, w, h, s, k as int + 1, j) {
                            let t = choose|t: int|
                                0 <= t < k as int + 1 && cell_changed(g0, w, h, s[t] as int)
                                    && in_nbhd(w, h, (s[t] as int) % w, (s[t] as int) / w, j);
                            if t < k as int {
                                assert(marked_by_prefix(g0, w, h, s, k as int, j));
                                assert(m.dirty(j));
                                assert(self.dirty(j));
                            } else {
                                assert(s[t] as int == c);
                                assert(in_nbhd(w, h, x as int, y as int, j));
                                assert(self.dirty(j));
                            }
                        }
                    } else {
                        assert(!cell_changed(g0, w, h, c));
                        assert(self.near_alive@ == m.near_alive@);
                        assert(self.dirty(j) <==> m.dirty(j));
                        assert(marked_by_prefix(g0, w, h, s, k as int + 1, j) <==> marked_by_prefix(
                            g0,
                            w,
                            h,
                            s,
                            k as int,
                            j,
                        )) by {
                            if marked_by_prefix(g0, w, h, s, k as int + 1, j) {
                                let t = choose|t: int|
                                    0 <= t < k as int + 1 && cell_changed(g0, w, h, s[t] as int)
                                        && in_nbhd(w, h, (s[t] as int) % w, (s[t] as int) / w, j);
                                if t < k as int {
                                    assert(marked_by_prefix(g0, w, h, s, k as int, j));
                                }
                            }
                            if marked_by_prefix(g0, w, h, s, k as int, j) {
                                let t = choose|t: int|
                                    0 <= t < k as int && cell_changed(g0, w, h, s[t] as int)
                                        && in_nbhd(w, h, (s[t] as int) % w, (s[t] as int) / w, j);
                                assert(0 <= t < k as int + 1 && cell_changed(g0, w, h, s[t] as int)
                                    && in_nbhd(w, h, (s[t] as int) % w, (s[t] as int) / w, j));
                            }
                        }
                    }
                }
            }
            k = k + 1;
        }
        let ghost pre = *self;
        self.toggle();
        proof {
            let g1 = self.read_view();
            assert(g1 == pre.write_view());
            assert(self.write_view() == g0);
            // Membership in the old worklist is exactly the old dirty mark.
            assert forall|i2: int|
                0 <= i2 < aa implies (in_prefix(s, s.len() as int, i2) <==> old(self).dirty(
                i2,
            )) by {
                if in_prefix(s, s.len() as int, i2) {
                    let t = choose|t: int| 0 <= t < s.len() as int && s[t] as int == i2;
                    assert(old(self).dirty_seq().contains(i2 as u32));
                }
                if old(self).dirty(i2) {
                    assert(old(self).dirty_seq().contains(i2 as u32));
                    let t = choose|t: int| 0 <= t < s0.len() && s0[t] == i2 as u32;
                    assert(s[t] as int == i2);
                }
            }
            // The per-cell result.
            assert forall|i2: int|
                0 <= i2 < aa implies (#[trigger] g1[i2]) == (if old(self).dirty(i2) {
                next_cell(g0, w, h, i2 % w, i2 / w)
            } else {
                g0[i2]
            }) by {
                if !old(self).dirty(i2) {
                    assert(old(self).near_alive@[i2] == 0);
                    assert(w0[i2] == g0[i2]);
                }
            }
            // The new dirty set is exactly what the changes marked.
            assert forall|j: int|
                0 <= j < aa implies ((#[trigger] self.dirty(j)) <==> step_dirty(g0, g1, w, h, j)) by {
                assert(self.dirty(j) <==> pre.dirty(j));
                if pre.dirty(j) {
                    let t = choose|t: int|
                        0 <= t < s.len() as int && cell_changed(g0, w, h, s[t] as int) && in_nbhd(
                            w,
                            h,
                            (s[t] as int) % w,
                            (s[t] as int) / w,
                            j,
                        );
                    let cc = s[t] as int;
                    assert(in_prefix(s, s.len() as int, cc)) by {
                        assert(s[t] as int == cc);
                    }
                    assert(g1[cc] != g0[cc]);
                    assert(step_dirty(g0, g1, w, h, j)) by {
                        assert(0 <= cc < w * h && g1[cc] != g0[cc] && in_nbhd(
                            w,
                            h,
                            cc % w,
                            cc / w,
                            j,
                        ));
                    }
                }
                if step_dirty(g0, g1, w, h, j) {
                    let cc = choose|cc: int|
                        0 <= cc < w * h && g1[cc] != g0[cc] && in_nbhd(w, h, cc % w, cc / w, j);
                    assert(in_prefix(s, s.len() as int, cc));
                    assert(cell_changed(g0, w, h, cc));
                    let t = choose|t: int| 0 <= t < s.len() as int && s[t] as int == cc;
                    assert(cell_changed(g0, w, h, s[t] as int) && in_nbhd(
                        w,
                        h,
                        (s[t] as int) % w,
                        (s[t] as int) / w,
                        j,
                    ));
                    assert(pre.dirty(j));
                }
            }
            // Agreement off the new dirty set.
            assert forall|i2: int|
                0 <= i2 < aa && self.near_alive@[i2] == 0 implies (#[trigger] self.read_view()[i2])
                    == self.write_view()[i2] by {
                if g1[i2] != g0[i2] {
                    lemma_nbhd_reflexive(w, h, i2);
                    assert(step_dirty(g0, g1, w, h, i2)) by {
                        assert(0 <= i2 < w * h && g1[i2] != g0[i2] && in_nbhd(
                            w,
                            h,
                            i2 % w,
                            i2 / w,
                            i2,
                        ));
                    }
                    assert(self.dirty(i2));
                }
            }
            assert(self.inv());
            // Dirty completeness in coordinate form.
            assert forall|cx: int, cy: int, j: int|
                0 <= cx < w && 0 <= cy < h && g1[idx_of(w, cx, cy)] != g0[idx_of(w, cx, cy)]
                    && #[trigger] in_nbhd(w, h, cx, cy, j) implies self.dirty(j) by {
                lemma_idx_in_range(w, h, cx, cy);
                lemma_idx_coords(w, cx, cy);
                let cc = idx_of(w, cx, cy);
                assert(step_dirty(g0, g1, w, h, j)) by {
                    assert(0 <= cc < w * h && g1[cc] != g0[cc] && in_nbhd(w, h, cc % w, cc / w, j));
                }
            }
        }
    }
}

} // verus!
