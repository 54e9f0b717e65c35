//! The grid store and dirty tracker: double-buffered cell state with
//! toroidal coordinate mapping, and the deduplicated worklist of cell
//! indices that might change on the next step.

use vstd::prelude::*;
use crate::rules::{
    idx_of, wrap_dec, wrap_inc, in_nbhd, lemma_idx_coords, lemma_coords_of_idx,
};

verus! {

/// The whole simulation state: a `w` by `h` toroidal grid held in two flat
/// byte buffers (one readable, one being written), the dirty-cell tracker
/// (membership array plus insertion-ordered index list), and the flag that
/// asks the renderer for a full repaint.
pub struct Life {
    pub w: u32,
    pub h: u32,
    pub field1: Vec<u8>,
    pub field2: Vec<u8>,
    pub cur: u32,
    pub near_alive: Vec<u8>,
    pub near_alive_list: Vec<u32>,
    pub clear: bool,
}

impl Life {
    /// Number of cells.
    pub open spec fn area(self) -> int {
        self.w as int * self.h as int
    }

    /// The buffer holding the authoritative, readable state: `field2` when
    /// `cur == 0`, else `field1`.
    pub open spec fn read_view(self) -> Seq<u8> {
        if self.cur == 0 {
            self.field2@
        } else {
            self.field1@
        }
    }

    /// The buffer a step writes into: the one `read_view` does not select.
    pub open spec fn write_view(self) -> Seq<u8> {
        if self.cur == 0 {
            self.field1@
        } else {
            self.field2@
        }
    }

    /// The dirty list, in insertion order.
    pub open spec fn dirty_seq(self) -> Seq<u32> {
        self.near_alive_list@
    }

    /// Cell index `i` is marked dirty.
    pub open spec fn dirty(self, i: int) -> bool {
        0 <= i < self.area() && self.near_alive@[i] == 1
    }

    /// Structural well-formedness: buffer lengths match the dimensions, all
    /// cells and marks are 0 or 1, the buffer selector is 0 or 1, and the
    /// dirty list holds exactly the marked indices, each once, all in range.
    pub open spec fn wf(self) -> bool {
        &&& self.area() <= u32::MAX
        &&& self.field1@.len() == self.area()
        &&& self.field2@.len() == self.area()
        &&& self.near_alive@.len() == self.area()
        &&& self.cur == 0 || self.cur == 1
        &&& forall|i: int| 0 <= i < self.area() ==> (#[trigger] self.field1@[i]) <= 1
        &&& forall|i: int| 0 <= i < self.area() ==> (#[trigger] self.field2@[i]) <= 1
        &&& forall|i: int| 0 <= i < self.area() ==> (#[trigger] self.near_alive@[i]) <= 1
        &&& forall|i: int|
            0 <= i < self.area() ==> ((#[trigger] self.near_alive@[i]) == 1 <==> self.dirty_seq().contains(
                i as u32,
            ))
        &&& forall|k: int|
            0 <= k < self.dirty_seq().len() ==> (#[trigger] self.dirty_seq()[k]) < self.area()
        &&& forall|k1: int, k2: int|
            0 <= k1 < k2 < self.dirty_seq().len() ==> self.dirty_seq()[k1] != self.dirty_seq()[k2]
    }

    /// The two buffers agree on every cell that is not marked dirty: a cell
    /// off the worklist looks the same whichever buffer is current.
    pub open spec fn agree(self) -> bool {
        forall|i: int|
            0 <= i < self.area() && self.near_alive@[i] == 0 ==> (#[trigger] self.read_view()[i])
                == self.write_view()[i]
    }

    /// The full invariant every public operation preserves.
    pub open spec fn inv(self) -> bool {
        self.wf() && self.agree()
    }

    /// Dimensions, buffer selector and repaint flag are unchanged.
    pub open spec fn same_shape(self, o: Life) -> bool {
        self.w == o.w && self.h == o.h && self.cur == o.cur && self.clear == o.clear
    }

    /// Both cell buffers are unchanged.
    pub open spec fn same_cells(self, o: Life) -> bool {
        self.field1@ == o.field1@ && self.field2@ == o.field2@
    }

    /// An empty state, as before the first initialization: a 0-by-0 grid.
    pub fn new() -> (r: Life)
        ensures
            r.inv(),
            r.w == 0,
            r.h == 0,
            r.cur == 1,
            r.clear == false,
            r.dirty_seq().len() == 0,
    {
        Life {
            w: 0,
            h: 0,
            field1: Vec::new(),
            field2: Vec::new(),
            cur: 1,
            near_alive: Vec::new(),
            near_alive_list: Vec::new(),
            clear: false,
        }
    }

    /// Flat index of the cell at `(x, y)`.
    pub fn coord2idx(&self, x: u32, y: u32) -> (r: u32)
        requires
            self.wf(),
            x < self.w,
            y < self.h,
        ensures
            r as int == idx_of(self.w as int, x as int, y as int),
            (r as int) < self.area(),
    {
        proof {
            assert((y as int) * (self.w as int) + (x as int) < (self.w as int) * (self.h as int))
                by (nonlinear_arith)
                requires
                    0 <= (x as int) && (x as int) < (self.w as int),
                    0 <= (y as int) && (y as int) < (self.h as int),
            ;
        }
        y * self.w + x
    }

    /// Coordinates of the cell with flat index `i`.
    pub fn idx2coord(&self, i: u32) -> (r: (u32, u32))
        requires
            self.wf(),
            self.w >= 1,
            (i as int) < self.area(),
        ensures
            r.0 as int == i as int % self.w as int,
            r.1 as int == i as int / self.w as int,
            r.0 < self.w,
            r.1 < self.h,
            idx_of(self.w as int, r.0 as int, r.1 as int) == i as int,
    {
        proof {
            lemma_coords_of_idx(self.w as int, self.h as int, i as int);
        }
        (i % self.w, i / self.w)
    }

    /// Cell value at `(x, y)` in the current (readable) buffer.
    pub fn get(&self, x: u32, y: u32) -> (r: u8)
        requires
            self.wf(),
            x < self.w,
            y < self.h,
        ensures
            r == self.read_view()[idx_of(self.w as int, x as int, y as int)],
            r <= 1,
    {
        let idx = self.coord2idx(x, y);
        if self.cur == 0 {
            self.field2[idx as usize]
        } else {
            self.field1[idx as usize]
        }
    }

    /// Flips which buffer is current: the buffer written so far becomes the
    /// readable one and the old readable buffer becomes the write target.
    pub fn toggle(&mut self)
        requires
            old(self).wf(),
        ensures
            final(self).wf(),
            old(self).inv() ==> final(self).inv(),
            final(self).cur == (if old(self).cur == 1 { 0u32 } else { 1u32 }),
            final(self).w == old(self).w,
            final(self).h == old(self).h,
            final(self).clear == old(self).clear,
            final(self).same_cells(*old(self)),
            final(self).near_alive@ == old(self).near_alive@,
            final(self).dirty_seq() == old(self).dirty_seq(),
            final(self).read_view() == old(self).write_view(),
            final(self).write_view() == old(self).read_view(),
    {
        if self.cur == 1 {
            self.cur = 0;
        } else {
            self.cur = 1;
        }
        proof {
            assert(self.near_alive@ == old(self).near_alive@);
            assert(self.dirty_seq() == old(self).dirty_seq());
            assert(self.area() == old(self).area());
            assert(self.wf());
            if old(self).inv() {
                assert forall|i: int|
                    0 <= i < self.area() && self.near_alive@[i] == 0 implies (
                #[trigger] self.read_view()[i]) == self.write_view()[i] by {
                    assert(old(self).read_view()[i] == old(self).write_view()[i]);
                }
            }
        }
    }

    /// Marks one in-range cell index dirty; appends it to the list only if
    /// it was not marked yet.
    fn mark(&mut self, idx: u32)
        requires
            old(self).wf(),
            (idx as int) < old(self).area(),
        ensures
            final(self).wf(),
            old(self).agree() ==> final(self).agree(),
            final(self).same_shape(*old(self)),
            final(self).same_cells(*old(self)),
            forall|j: int|
                0 <= j < final(self).area() ==> ((#[trigger] final(self).dirty(j)) <==> old(
                    self,
                ).dirty(j) || j == idx as int),
            old(self).dirty_seq().is_prefix_of(final(self).dirty_seq()),
            final(self).dirty_seq() == old(self).dirty_seq() || final(self).dirty_seq() == old(
                self,
            ).dirty_seq().push(idx),
    {
        if self.near_alive[idx as usize] == 0 {
            self.near_alive[idx as usize] = 1;
            self.near_alive_list.push(idx);
            proof {
                let s0 = old(self).dirty_seq();
                let s1 = self.dirty_seq();
                assert(s1 == s0.push(idx));
                assert(s1[s1.len() - 1] == idx);
                assert forall|v: u32| s1.contains(v) implies s0.contains(v) || v == idx by {
                    let k = choose|k: int| 0 <= k < s1.len() && s1[k] == v;
                    if k < s0.len() {
                        assert(s0[k] == v);
                    }
                }
                assert forall|v: u32| s0.contains(v) implies s1.contains(v) by {
                    let k = choose|k: int| 0 <= k < s0.len() && s0[k] == v;
                    assert(s1[k] == v);
                }
                assert(s1.contains(idx));
                assert(!s0.contains(idx));
                assert(s0.is_prefix_of(s1)) by {
                    assert(s1.subrange(0, s0.len() as int) =~= s0);
                }
            }
        } else {
            proof {
                assert(self.dirty_seq().is_prefix_of(self.dirty_seq())) by {
                    assert(self.dirty_seq().subrange(0, self.dirty_seq().len() as int)
                        =~= self.dirty_seq());
                }
            }
        }
        proof {
            if old(self).agree() {
                assert forall|i: int|
                    0 <= i < self.area() && self.near_alive@[i] == 0 implies (
                #[trigger] self.read_view()[i]) == self.write_view()[i] by {
                    assert(old(self).near_alive@[i] == 0);
                    assert(old(self).read_view()[i] == old(self).write_view()[i]);
                }
            }
        }
    }

    /// Marks the whole toroidal 3x3 neighborhood of `(x, y)` dirty. Called
    /// whenever the cell at `(x, y)` changes, so that every cell whose live
    /// count that change affects is re-evaluated on the next step.
    pub fn append_near(&mut self, x: u32, y: u32)
        requires
            old(self).wf(),
            x < old(self).w,
            y < old(self).h,
        ensures
            final(self).wf(),
            old(self).agree() ==> final(self).agree(),
            final(self).same_shape(*old(self)),
            final(self).same_cells(*old(self)),
            forall|j: int|
                0 <= j < final(self).area() ==> ((#[trigger] final(self).dirty(j)) <==> old(
                    self,
                ).dirty(j) || in_nbhd(
                    final(self).w as int,
                    final(self).h as int,
                    x as int,
                    y as int,
                    j,
                )),
            old(self).dirty_seq().is_prefix_of(final(self).dirty_seq()),
    {
        let ghost w = self.w as int;
        let ghost h = self.h as int;
        let xl = wrap_dec_e(x, self.w);
        let xr = wrap_inc_e(x, self.w);
        let yu = wrap_dec_e(y, self.h);
        let yd = wrap_inc_e(y, self.h);
        let i0 = self.coord2idx(xl, yu);
        let i1 = self.coord2idx(x, yu);
        let i2 = self.coord2idx(xr, yu);
        let i3 = self.coord2idx(xl, y);
        let i4 = self.coord2idx(x, y);
        let i5 = self.coord2idx(xr, y);
        let i6 = self.coord2idx(xl, yd);
        let i7 = self.coord2idx(x, yd);
        let i8 = self.coord2idx(xr, yd);
        proof {
            lemma_idx_coords(w, xl as int, yu as int);
            lemma_idx_coords(w, x as int, yu as int);
            lemma_idx_coords(w, xr as int, yu as int);
            lemma_idx_coords(w, xl as int, y as int);
            lemma_idx_coords(w, x as int, y as int);
            lemma_idx_coords(w, xr as int, y as int);
            lemma_idx_coords(w, xl as int, yd as int);
            lemma_idx_coords(w, x as int, yd as int);
            lemma_idx_coords(w, xr as int, yd as int);
        }
        let ghost d0 = self.dirty_seq();
        self.mark(i0);
        let ghost d1 = self.dirty_seq();
        self.mark(i1);
        proof {
            lemma_prefix_trans(d0, d1, self.dirty_seq());
        }
        let ghost d2 = self.dirty_seq();
        self.mark(i2);
        proof {
            lemma_prefix_trans(d0, d2, self.dirty_seq());
        }
        let ghost d3 = self.dirty_seq();
        self.mark(i3);
        proof {
            lemma_prefix_trans(d0, d3, self.dirty_seq());
        }
        let ghost d4 = self.dirty_seq();
        self.mark(i4);
        proof {
            lemma_prefix_trans(d0, d4, self.dirty_seq());
        }
        let ghost d5 = self.dirty_seq();
        self.mark(i5);
        proof {
            lemma_prefix_trans(d0, d5, self.dirty_seq());
        }
        let ghost d6 = self.dirty_seq();
        self.mark(i6);
        proof {
            lemma_prefix_trans(d0, d6, self.dirty_seq());
        }
        let ghost d7 = self.dirty_seq();
        self.mark(i7);
        proof {
            lemma_prefix_trans(d0, d7, self.dirty_seq());
        }
        let ghost d8 = self.dirty_seq();
        self.mark(i8);
        proof {
            lemma_prefix_trans(d0, d8, self.dirty_seq());
        }
        proof {
            assert forall|j: int|
                0 <= j < self.area() && in_nbhd(w, h, x as int, y as int, j) implies (j
                == i0 as int || j == i1 as int || j == i2 as int || j == i3 as int || j == i4 as int
                || j == i5 as int || j == i6 as int || j == i7 as int || j == i8 as int) by {
                lemma_coords_of_idx(w, h, j);
            }
        }
    }

    /// Writes `val` into the cell at `(x, y)` of the write buffer. If the
    /// new value differs from the cell's current (readable) value, the 3x3
    /// neighborhood of `(x, y)` is marked dirty first. Out-of-range
    /// coordinates are silently ignored.
    pub fn set(&mut self, x: u32, y: u32, val: u8)
        requires
            old(self).wf(),
            val <= 1,
        ensures
            final(self).wf(),
            old(self).agree() ==> final(self).agree(),
            final(self).same_shape(*old(self)),
            !(x < old(self).w && y < old(self).h) ==> *final(self) == *old(self),
            x < old(self).w && y < old(self).h ==> {
                let idx = idx_of(old(self).w as int, x as int, y as int);
                &&& final(self).read_view() == old(self).read_view()
                &&& final(self).write_view() == old(self).write_view().update(idx, val)
                &&& old(self).dirty_seq().is_prefix_of(final(self).dirty_seq())
                &&& (old(self).read_view()[idx] == val ==> final(self).near_alive@ == old(
                    self,
                ).near_alive@ && final(self).dirty_seq() == old(self).dirty_seq())
                &&& (old(self).read_view()[idx] != val ==> forall|j: int|
                    0 <= j < final(self).area() ==> ((#[trigger] final(self).dirty(j)) <==> old(
                        self,
                    ).dirty(j) || in_nbhd(
                        old(self).w as int,
                        old(self).h as int,
                        x as int,
                        y as int,
                        j,
                    )))
            },
    {
        if x >= self.w || y >= self.h {
            return ;
        }
        let idx = self.coord2idx(x, y);
        let prev = self.get(x, y);
        if prev != val {
            self.append_near(x, y);
        } else {
            proof {
                assert(self.dirty_seq().is_prefix_of(self.dirty_seq())) by {
                    assert(self.dirty_seq().subrange(0, self.dirty_seq().len() as int)
                        =~= self.dirty_seq());
                }
            }
        }
        proof {
            if prev != val {
                lemma_idx_coords(self.w as int, x as int, y as int);
                assert(self.dirty(idx as int));
            }
        }
        let ghost m = *self;
        if self.cur == 0 {
            self.field1[idx as usize] = val;
        } else {
            self.field2[idx as usize] = val;
        }
        proof {
            if prev != val {
                assert forall|j: int|
                    0 <= j < self.area() implies ((#[trigger] self.dirty(j)) <==> old(self).dirty(
                    j,
                ) || in_nbhd(
                    old(self).w as int,
                    old(self).h as int,
                    x as int,
                    y as int,
                    j,
                )) by {
                    assert(self.dirty(j) <==> m.dirty(j));
                }
            }
            if old(self).agree() {
                assert forall|i: int|
                    0 <= i < self.area() && self.near_alive@[i] == 0 implies (
                #[trigger] self.read_view()[i]) == self.write_view()[i] by {
                    if i != idx as int {
                        assert(m.near_alive@[i] == 0);
                        assert(m.read_view()[i] == m.write_view()[i]);
                    }
                }
            }
        }
    }
}

/// A prefix of a prefix of `c` is a prefix of `c`.
proof fn lemma_prefix_trans(a: Seq<u32>, b: Seq<u32>, c: Seq<u32>)
    requires
        a.is_prefix_of(b),
        b.is_prefix_of(c),
    ensures
        a.is_prefix_of(c),
{
    assert(a =~= c.subrange(0, a.len() as int));
}

/// One toroidal step down: `v - 1`, wrapping `0` to `m - 1`.
pub fn wrap_dec_e(v: u32, m: u32) -> (r: u32)
    requires
        v < m,
    ensures
        r as int == wrap_dec(v as int, m as int),
        r < m,
{
    if v == 0 {
        m - 1
    } else {
        v - 1
    }
}

/// One toroidal step up: `v + 1`, wrapping `m - 1` to `0`.
pub fn wrap_inc_e(v: u32, m: u32) -> (r: u32)
    requires
        v < m,
    ensures
        r as int == wrap_inc(v as int, m as int),
        r < m,
{
    if v + 1 == m {
        0
    } else {
        v + 1
    }
}

} // verus!
