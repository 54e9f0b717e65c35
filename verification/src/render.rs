//! Rendering and pointer input. The renderer never touches a drawing
//! surface itself: it emits a sequence of drawing commands covering only
//! the dirty cells (plus a full background fill when a repaint was
//! requested), and the caller replays them on whatever surface it owns.

use vstd::prelude::*;
use crate::rules::{idx_of, in_nbhd, lemma_idx_coords};
use crate::grid::Life;

verus! {

/// The fill color of a drawing command.
#[derive(Clone, Copy, PartialEq, Eq, Structural, Debug)]
pub enum Color {
    /// The background (dead cells, full-surface repaint).
    Background,
    /// The foreground (live cells).
    Foreground,
    /// The translucent overlay of the debug view.
    Highlight,
}

/// One drawing command for the host surface.
#[derive(Clone, Copy, PartialEq, Eq, Structural, Debug)]
pub enum DrawOp {
    /// Erase the `w` by `h` pixel rectangle at the origin.
    Clear { w: u32, h: u32 },
    /// Fill the `w` by `h` pixel rectangle at `(x, y)` with `color`.
    Fill { color: Color, x: u32, y: u32, w: u32, h: u32 },
}

/// The fill emitted for entry `k` of the worklist `list`: the cell's pixel
/// rectangle under the per-cell scale factors `cw / w` and `ch / h`,
/// foreground if the cell is live in grid `g`, else background.
pub open spec fn cell_fill(
    g: Seq<u8>,
    list: Seq<u32>,
    w: u32,
    h: u32,
    cw: u32,
    ch: u32,
    k: int,
) -> DrawOp {
    let idx = list[k] as int;
    let xf = cw as int / w as int;
    let yf = ch as int / h as int;
    DrawOp::Fill {
        color: if g[idx] == 1 {
            Color::Foreground
        } else {
            Color::Background
        },
        x: ((idx % (w as int)) * xf) as u32,
        y: ((idx / (w as int)) * yf) as u32,
        w: xf as u32,
        h: yf as u32,
    }
}

/// The per-cell fills of one render pass, in worklist order.
pub open spec fn cell_fills(g: Seq<u8>, list: Seq<u32>, w: u32, h: u32, cw: u32, ch: u32) -> Seq<
    DrawOp,
> {
    Seq::new(list.len(), |k: int| cell_fill(g, list, w, h, cw, ch, k))
}

/// Everything one render pass emits: a full background fill first when a
/// repaint was requested, then the per-cell fills.
pub open spec fn render_ops(
    clear: bool,
    g: Seq<u8>,
    list: Seq<u32>,
    w: u32,
    h: u32,
    cw: u32,
    ch: u32,
) -> Seq<DrawOp> {
    if clear {
        seq![(DrawOp::Fill { color: Color::Background, x: 0, y: 0, w: cw, h: ch })] + cell_fills(
            g,
            list,
            w,
            h,
            cw,
            ch,
        )
    } else {
        cell_fills(g, list, w, h, cw, ch)
    }
}

/// The highlight emitted for entry `k` of the worklist by the debug view:
/// the same pixel rectangle as `cell_fill`, always `Highlight`.
pub open spec fn highlight_fill(list: Seq<u32>, w: u32, h: u32, cw: u32, ch: u32, k: int) -> DrawOp {
    let idx = list[k] as int;
    let xf = cw as int / w as int;
    let yf = ch as int / h as int;
    DrawOp::Fill {
        color: Color::Highlight,
        x: ((idx % (w as int)) * xf) as u32,
        y: ((idx / (w as int)) * yf) as u32,
        w: xf as u32,
        h: yf as u32,
    }
}

/// Everything the debug view emits: erase the surface, then one highlight
/// per worklist entry.
pub open spec fn debug_ops(list: Seq<u32>, w: u32, h: u32, cw: u32, ch: u32) -> Seq<DrawOp> {
    seq![(DrawOp::Clear { w: cw, h: ch })] + Seq::new(
        list.len(),
        |k: int| highlight_fill(list, w, h, cw, ch, k),
    )
}

/// A cell coordinate scaled by a per-cell factor stays within the canvas.
proof fn lemma_scale_bound(a: int, w: int, cw: int)
    requires
        0 <= a < w,
        w >= 1,
        cw >= 0,
    ensures
        0 <= a * (cw / w) <= cw,
{
    let q = cw / w;
    vstd::arithmetic::div_mod::lemma_div_pos_is_pos(cw, w);
    vstd::arithmetic::div_mod::lemma_fundamental_div_mod(cw, w);
    vstd::arithmetic::div_mod::lemma_mod_bound(cw, w);
    vstd::arithmetic::mul::lemma_mul_inequality(a, w - 1, q);
    assert((w - 1) * q == w * q - q) by (nonlinear_arith);
    vstd::arithmetic::mul::lemma_mul_is_commutative(w, q);
    vstd::arithmetic::mul::lemma_mul_nonnegative(a, q);
}

/// The scale factor of a canvas at least as large as the grid is positive.
proof fn lemma_factor_positive(cw: int, w: int)
    requires
        1 <= w <= cw,
    ensures
        cw / w >= 1,
{
    vstd::arithmetic::div_mod::lemma_fundamental_div_mod(cw, w);
    vstd::arithmetic::div_mod::lemma_mod_bound(cw, w);
    vstd::arithmetic::div_mod::lemma_div_pos_is_pos(cw, w);
    if cw / w == 0 {
        assert(cw == w * 0 + cw % w);
        assert(false);
    }
}

/// A repaint with no intervening step is idempotent. After a render the
/// repaint flag is down and the grid and worklist are untouched, so a
/// second render emits exactly the per-cell fills of the first — the same
/// cells, in the same order, with the same rectangles and colors; the
/// first pass differs only by the full background fill it may open with.
pub proof fn lemma_render_idempotent(
    clear: bool,
    g: Seq<u8>,
    list: Seq<u32>,
    w: u32,
    h: u32,
    cw: u32,
    ch: u32,
)
    ensures
        render_ops(false, g, list, w, h, cw, ch) == cell_fills(g, list, w, h, cw, ch),
        render_ops(clear, g, list, w, h, cw, ch).skip(
            if clear {
                1int
            } else {
                0int
            },
        ) == cell_fills(g, list, w, h, cw, ch),
{
    assert(render_ops(false, g, list, w, h, cw, ch) =~= cell_fills(g, list, w, h, cw, ch));
    assert(render_ops(clear, g, list, w, h, cw, ch).skip(
        if clear {
            1int
        } else {
            0int
        },
    ) =~= cell_fills(g, list, w, h, cw, ch));
}

impl Life {
    /// Emits one render pass for a `cwidth` by `cheight` pixel surface:
    /// a full background fill if a repaint was requested (and the request
    /// is taken down), then one fill per dirty cell, colored by the cell's
    /// current state. Nothing else of the state changes.
    #[verifier::loop_isolation(false)]
    pub fn render(&mut self, cwidth: u32, cheight: u32) -> (ops: Vec<DrawOp>)
        requires
            old(self).inv(),
            old(self).w >= 1,
            old(self).h >= 1,
        ensures
            final(self).inv(),
            final(self).w == old(self).w,
            final(self).h == old(self).h,
            final(self).cur == old(self).cur,
            final(self).same_cells(*old(self)),
            final(self).near_alive@ == old(self).near_alive@,
            final(self).dirty_seq() == old(self).dirty_seq(),
            final(self).read_view() == old(self).read_view(),
            final(self).write_view() == old(self).write_view(),
            final(self).clear == false,
            ops@ == render_ops(
                old(self).clear,
                old(self).read_view(),
                old(self).dirty_seq(),
                old(self).w,
                old(self).h,
                cwidth,
                cheight,
            ),
    {
        let ghost w = self.w as int;
        let ghost g0 = self.read_view();
        let ghost list = self.dirty_seq();
        let xf = cwidth / self.w;
        let yf = cheight / self.h;
        let mut ops: Vec<DrawOp> = Vec::new();
        if self.clear {
            ops.push(DrawOp::Fill { color: Color::Background, x: 0, y: 0, w: cwidth, h: cheight });
            self.clear = false;
        }
        proof {
            assert(self.wf());
            assert(self.agree());
            assert(ops@ =~= render_ops(
                old(self).clear,
                g0,
                list,
                self.w,
                self.h,
                cwidth,
                cheight,
            ).take(ops@.len() as int));
        }
        let ghost base = ops@;
        let mut k: usize = 0;
        while k < self.near_alive_list.len()
            invariant
                k <= self.near_alive_list.len(),
                ops@ == base + cell_fills(g0, list, self.w, self.h, cwidth, cheight).take(k as int),
            decreases self.near_alive_list.len() - k,
        {
            let idx = self.near_alive_list[k];
            let xy = self.idx2coord(idx);
            let v = self.get(xy.0, xy.1);
            proof {
                lemma_scale_bound(xy.0 as int, w, cwidth as int);
                lemma_scale_bound(xy.1 as int, self.h as int, cheight as int);
            }
            let px = xy.0 * xf;
            let py = xy.1 * yf;
            let color = if v == 1 {
                Color::Foreground
            } else {
                Color::Background
            };
            ops.push(DrawOp::Fill { color, x: px, y: py, w: xf, h: yf });
            proof {
                let fills = cell_fills(g0, list, self.w, self.h, cwidth, cheight);
                assert(ops@.last() == cell_fill(
                    g0,
                    list,
                    self.w,
                    self.h,
                    cwidth,
                    cheight,
                    k as int,
                ));
                assert(ops@ =~= base + fills.take(k as int + 1));
            }
            k = k + 1;
        }
        proof {
            let fills = cell_fills(g0, list, self.w, self.h, cwidth, cheight);
            assert(fills.take(fills.len() as int) =~= fills);
            assert(ops@ =~= render_ops(old(self).clear, g0, list, self.w, self.h, cwidth, cheight));
        }
        ops
    }

    /// Emits the debug view for a `cwidth` by `cheight` pixel surface: the
    /// surface is erased, then every dirty cell is drawn with a translucent
    /// highlight regardless of its state, to visualize the working set.
    #[verifier::loop_isolation(false)]
    pub fn draw_debug(&self, cwidth: u32, cheight: u32) -> (ops: Vec<DrawOp>)
        requires
            self.wf(),
            self.w >= 1,
            self.h >= 1,
        ensures
            ops@ == debug_ops(self.dirty_seq(), self.w, self.h, cwidth, cheight),
    {
        let ghost w = self.w as int;
        let ghost list = self.dirty_seq();
        let xf = cwidth / self.w;
        let yf = cheight / self.h;
        let mut ops: Vec<DrawOp> = Vec::new();
        ops.push(DrawOp::Clear { w: cwidth, h: cheight });
        let mut k: usize = 0;
        while k < self.near_alive_list.len()
            invariant
                k <= self.near_alive_list.len(),
                ops@ == debug_ops(list, self.w, self.h, cwidth, cheight).take(k as int + 1),
            decreases self.near_alive_list.len() - k,
        {
            let idx = self.near_alive_list[k];
            let xy = self.idx2coord(idx);
            proof {
                lemma_scale_bound(xy.0 as int, w, cwidth as int);
                lemma_scale_bound(xy.1 as int, self.h as int, cheight as int);
            }
            let px = xy.0 * xf;
            let py = xy.1 * yf;
            ops.push(DrawOp::Fill { color: Color::Highlight, x: px, y: py, w: xf, h: yf });
            proof {
                let all = debug_ops(list, self.w, self.h, cwidth, cheight);
                assert(ops@.last() == all[k as int + 1]);
                assert(ops@ =~= all.take(k as int + 2));
            }
            k = k + 1;
        }
        proof {
            let all = debug_ops(list, self.w, self.h, cwidth, cheight);
            assert(ops@ =~= all);
        }
        ops
    }

    /// Runs one simulation step when `advance` asks for one, then emits a
    /// render pass for a `cwidth` by `cheight` pixel surface.
    pub fn draw(&mut self, cwidth: u32, cheight: u32, advance: bool) -> (ops: Vec<DrawOp>)
        requires
            old(self).inv(),
            old(self).w >= 1,
            old(self).h >= 1,
            advance ==> old(self).w >= 2 && old(self).h >= 2,
        ensures
            final(self).inv(),
            final(self).w == old(self).w,
            final(self).h == old(self).h,
            final(self).clear == false,
            ops@ == render_ops(
                old(self).clear,
                final(self).read_view(),
                final(self).dirty_seq(),
                old(self).w,
                old(self).h,
                cwidth,
                cheight,
            ),
            advance ==> crate::step::step_rel(*old(self), *final(self)),
            !advance ==> final(self).cur == old(self).cur && final(self).read_view() == old(self).read_view()
                && final(self).write_view() == old(self).write_view()
                && final(self).dirty_seq() == old(self).dirty_seq(),
    {
        if advance {
            self.update();
        }
        let ghost mid = *self;
        let ops = self.render(cwidth, cheight);
        proof {
            if advance {
                crate::step::lemma_step_rel_same_state(*old(self), mid, *self);
            }
        }
        ops
    }

    /// Maps a pixel position to a grid cell by the render scale factors,
    /// forces that cell alive in the current buffer, and marks its 3x3
    /// neighborhood dirty regardless of the cell's prior value. A pixel
    /// mapping outside the grid is silently ignored.
    pub fn click(&mut self, x: u32, y: u32, cwidth: u32, cheight: u32)
        requires
            old(self).inv(),
            old(self).w >= 1,
            old(self).h >= 1,
            cwidth >= old(self).w,
            cheight >= old(self).h,
        ensures
            final(self).inv(),
            final(self).same_shape(*old(self)),
            final(self).write_view() == old(self).write_view(),
            ({
                let xf = cwidth as int / old(self).w as int;
                let yf = cheight as int / old(self).h as int;
                let cx = x as int / xf;
                let cy = y as int / yf;
                if cx < old(self).w as int && cy < old(self).h as int {
                    let idx = idx_of(old(self).w as int, cx, cy);
                    &&& final(self).read_view() == old(self).read_view().update(idx, 1u8)
                    &&& forall|j: int|
                        0 <= j < final(self).area() ==> ((#[trigger] final(self).dirty(j))
                            <==> old(self).dirty(j) || in_nbhd(
                            old(self).w as int,
                            old(self).h as int,
                            cx,
                            cy,
                            j,
                        ))
                } else {
                    *final(self) == *old(self)
                }
            }),
    {
        proof {
            lemma_factor_positive(cwidth as int, self.w as int);
            lemma_factor_positive(cheight as int, self.h as int);
        }
        let xf = cwidth / self.w;
        let yf = cheight / self.h;
        let cx = x / xf;
        let cy = y / yf;
        if cx < self.w && cy < self.h {
            self.append_near(cx, cy);
            let idx = self.coord2idx(cx, cy);
            let ghost m = *self;
            if self.cur == 0 {
                self.field2[idx as usize] = 1;
            } else {
                self.field1[idx as usize] = 1;
            }
            proof {
                lemma_idx_coords(self.w as int, cx as int, cy as int);
                assert(m.dirty(idx as int));
                assert forall|j: int|
                    0 <= j < self.area() implies ((#[trigger] self.dirty(j)) <==> old(self).dirty(j)
                    || in_nbhd(
                    old(self).w as int,
                    old(self).h as int,
                    cx as int,
                    cy as int,
                    j,
                )) by {
                    assert(self.dirty(j) <==> m.dirty(j));
                }
                assert forall|i: int|
                    0 <= i < self.area() && self.near_alive@[i] == 0 implies (
                #[trigger] self.read_view()[i]) == self.write_view()[i] by {
                    assert(i != idx as int);
                    assert(m.near_alive@[i] == 0);
                    assert(m.read_view()[i] == m.write_view()[i]);
                }
                assert(self.wf());
            }
        }
    }
}

} // verus!
