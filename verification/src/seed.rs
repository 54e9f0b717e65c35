//! (Re)initialization: sizing the buffers, and stamping a deterministic
//! pseudo-random starting pattern driven by a linear-congruential generator.

use vstd::prelude::*;
use crate::rules::{idx_of, in_nbhd, lemma_idx_coords, lemma_idx_in_range};
use crate::grid::Life;
use crate::step::marks_cover_live;

verus! {

/// The next state of the linear-congruential generator:
/// `seed * 1103515245 + 12345`, reduced modulo 2^32.
pub open spec fn lcg_next(seed: int) -> int {
    (seed * 1103515245 + 12345) % 0x1_0000_0000
}

/// One draw of the pseudo-random generator used for seeding.
pub fn rand(seed: u32) -> (r: u32)
    ensures
        r as int == lcg_next(seed as int),
{
    proof {
        vstd::arithmetic::mul::lemma_mul_inequality(seed as int, u32::MAX as int, 1103515245);
    }
    let prod: u64 = (seed as u64) * 1103515245u64 + 12345u64;
    (prod % 0x1_0000_0000u64) as u32
}

/// A vector of `n` zero bytes.
fn zero_vec(n: usize) -> (r: Vec<u8>)
    ensures
        r@.len() == n,
        forall|i: int| 0 <= i < n ==> r@[i] == 0,
{
    let mut v: Vec<u8> = Vec::new();
    while v.len() < n
        invariant
            v@.len() <= n,
            forall|i: int| 0 <= i < v@.len() ==> v@[i] == 0,
        decreases n - v.len(),
    {
        v.push(0);
    }
    v
}

impl Life {
    /// Forces one cell of the write buffer alive while the read buffer is
    /// all dead, keeping every live cell's neighborhood on the worklist.
    fn seed_cell(&mut self, x: u32, y: u32)
        requires
            old(self).wf(),
            old(self).cur == 0,
            x < old(self).w,
            y < old(self).h,
            forall|i: int| 0 <= i < old(self).area() ==> (#[trigger] old(self).read_view()[i]) == 0,
            forall|i: int|
                0 <= i < old(self).area() ==> ((#[trigger] old(self).write_view()[i]) == 1 ==> old(
                    self,
                ).dirty(i)),
            marks_cover_live(old(self).write_view(), *old(self)),
        ensures
            final(self).wf(),
            final(self).w == old(self).w,
            final(self).h == old(self).h,
            final(self).cur == 0,
            final(self).clear == old(self).clear,
            forall|i: int| 0 <= i < final(self).area() ==> (#[trigger] final(self).read_view()[i]) == 0,
            forall|i: int|
                0 <= i < final(self).area() ==> ((#[trigger] final(self).write_view()[i]) == 1
                    ==> final(self).dirty(i)),
            final(self).write_view() == old(self).write_view().update(
                idx_of(old(self).w as int, x as int, y as int),
                1u8,
            ),
            marks_cover_live(final(self).write_view(), *final(self)),
    {
        let ghost w = self.w as int;
        let ghost h = self.h as int;
        let ghost pre = *self;
        self.set(x, y, 1);
        proof {
            lemma_idx_coords(w, x as int, y as int);
            lemma_idx_in_range(w, h, x as int, y as int);
            let idx = idx_of(w, x as int, y as int);
            assert(pre.read_view()[idx] == 0);
            assert(in_nbhd(w, h, x as int, y as int, idx));
            assert(self.dirty(idx));
            assert forall|i: int|
                0 <= i < self.area() && (#[trigger] self.write_view()[i]) == 1 implies self.dirty(
                i,
            ) by {
                if i != idx {
                    assert(pre.write_view()[i] == 1);
                    assert(pre.dirty(i));
                }
            }
            assert forall|px: int, py: int, j: int|
                0 <= px < w && 0 <= py < h && self.write_view()[idx_of(w, px, py)] == 1
                    && #[trigger] in_nbhd(w, h, px, py, j) implies self.dirty(j) by {
                lemma_idx_in_range(w, h, px, py);
                if px == x as int && py == y as int {
                    assert(self.dirty(j));
                } else {
                    lemma_idx_coords(w, px, py);
                    assert(idx_of(w, px, py) != idx);
                    assert(pre.write_view()[idx_of(w, px, py)] == 1);
                    assert(pre.dirty(j));
                }
            }
        }
    }

    /// Resizes the grid to `width` by `height`, clears all state, requests
    /// a full repaint, and stamps a deterministic pseudo-random pattern of
    /// small shapes derived from `rand_seed`. Afterwards every live cell is
    /// on the dirty worklist (with its whole neighborhood) and the write
    /// buffer is all dead, so a following step sees a consistent state.
    #[verifier::loop_isolation(false)]
    pub fn init(&mut self, width: u32, height: u32, rand_seed: u32)
        requires
            width >= 9,
            height >= 9,
            width as int * height as int <= u32::MAX,
        ensures
            final(self).inv(),
            final(self).w == width,
            final(self).h == height,
            final(self).cur == 1,
            final(self).clear == true,
            forall|i: int|
                0 <= i < final(self).area() ==> ((#[trigger] final(self).read_view()[i]) == 1
                    ==> final(self).dirty(i)),
            forall|i: int|
                0 <= i < final(self).area() ==> (#[trigger] final(self).write_view()[i]) == 0,
            exists|i: int| 0 <= i < final(self).area() && final(self).read_view()[i] == 1,
            marks_cover_live(final(self).read_view(), *final(self)),
    {
        self.reset_buffers(width, height);
        let mut seed = rand_seed;

        let mut round: u32 = 0;
        while round < 50
            invariant
                self.seeding_ok(width, height),
                round > 0 ==> exists|i: int|
                    0 <= i < self.area() && #[trigger] self.write_view()[i] == 1,
            decreases 50 - round,
        {
            seed = rand(seed);
            let x = seed % (width - 8) + 4;
            seed = rand(seed);
            let y = seed % (height - 8) + 4;
            self.seed_cell(x + 1, y);
            self.seed_cell(x + 2, y + 1);
            self.seed_cell(x, y + 2);
            self.seed_cell(x + 1, y + 2);
            self.seed_cell(x + 2, y + 2);
            proof {
                lemma_idx_in_range(self.w as int, self.h as int, (x + 2) as int, (y + 2) as int);
                assert(self.write_view()[idx_of(self.w as int, (x + 2) as int, (y + 2) as int)]
                    == 1);
            }
            round = round + 1;
        }
        round = 0;
        while round < 50
            invariant
                self.seeding_ok(width, height),
                exists|i: int| 0 <= i < self.area() && #[trigger] self.write_view()[i] == 1,
            decreases 50 - round,
        {
            seed = rand(seed);
            let x = seed % (width - 8) + 4;
            seed = rand(seed);
            let y = seed % (height - 8) + 4;
            self.seed_cell(x - 1, y);
            self.seed_cell(x - 2, y - 1);
            self.seed_cell(x, y - 2);
            self.seed_cell(x - 1, y - 2);
            self.seed_cell(x - 2, y - 2);
            proof {
                lemma_idx_in_range(self.w as int, self.h as int, (x - 2) as int, (y - 2) as int);
                assert(self.write_view()[idx_of(self.w as int, (x - 2) as int, (y - 2) as int)] == 1);
            }
            round = round + 1;
        }
        round = 0;
        while round < 50
            invariant
                self.seeding_ok(width, height),
                exists|i: int| 0 <= i < self.area() && #[trigger] self.write_view()[i] == 1,
            decreases 50 - round,
        {
            seed = rand(seed);
            let x = seed % (width - 8) + 4;
            seed = rand(seed);
            let y = seed % (height - 8) + 4;
            self.seed_cell(x - 1, y);
            self.seed_cell(x, y - 1);
            self.seed_cell(x - 1, y - 1);
            self.seed_cell(x - 2, y - 1);
            proof {
                lemma_idx_in_range(self.w as int, self.h as int, (x - 2) as int, (y - 1) as int);
                assert(self.write_view()[idx_of(self.w as int, (x - 2) as int, (y - 1) as int)] == 1);
            }
            round = round + 1;
        }
        let ghost sk = *self;
        self.cur = 1;
        proof {
            assert(self.near_alive@ == sk.near_alive@);
            assert(self.dirty_seq() == sk.dirty_seq());
            assert(self.area() == sk.area());
            assert(self.read_view() == sk.write_view());
            assert(self.write_view() == sk.read_view());
            assert(self.wf());
            assert forall|i: int|
                0 <= i < self.area() && (#[trigger] self.read_view()[i]) == 1 implies self.dirty(
                i,
            ) by {
                assert(sk.write_view()[i] == 1);
                assert(sk.dirty(i));
            }
            assert forall|i: int|
                0 <= i < self.area() && self.near_alive@[i] == 0 implies (
            #[trigger] self.read_view()[i]) == self.write_view()[i] by {
                if self.read_view()[i] == 1 {
                    assert(self.dirty(i));
                }
                assert(self.read_view()[i] == 0);
                assert(sk.read_view()[i] == 0);
            }
            assert forall|px: int, py: int, j: int|
                0 <= px < self.w as int && 0 <= py < self.h as int && self.read_view()[idx_of(
                    self.w as int,
                    px,
                    py,
                )] == 1 && #[trigger] in_nbhd(self.w as int, self.h as int, px, py, j) implies self.dirty(
                j,
            ) by {
                assert(sk.write_view()[idx_of(sk.w as int, px, py)] == 1);
                assert(in_nbhd(sk.w as int, sk.h as int, px, py, j));
                assert(sk.dirty(j));
            }
        }
    }

    /// The invariant of the seeding phase: buffers sized, read buffer all
    /// dead, and every cell stamped live in the write buffer is on the
    /// worklist together with its whole 3x3 neighborhood.
    pub open spec fn seeding_ok(self, width: u32, height: u32) -> bool {
        &&& self.wf()
        &&& self.w == width
        &&& self.h == height
        &&& self.cur == 0
        &&& self.clear == true
        &&& forall|i: int| 0 <= i < self.area() ==> (#[trigger] self.read_view()[i]) == 0
        &&& forall|i: int|
            0 <= i < self.area() ==> ((#[trigger] self.write_view()[i]) == 1 ==> self.dirty(i))
        &&& marks_cover_live(self.write_view(), self)
    }

    /// Replaces both cell buffers and the dirty tracker with all-clear
    /// storage for a `width` by `height` grid, and requests a full repaint.
    fn reset_buffers(&mut self, width: u32, height: u32)
        requires
            width >= 1,
            height >= 1,
            width as int * height as int <= u32::MAX,
        ensures
            final(self).seeding_ok(width, height),
            final(self).dirty_seq().len() == 0,
            forall|i: int| 0 <= i < final(self).area() ==> (#[trigger] final(self).write_view()[i]) == 0,
    {
        let area = width * height;
        self.w = width;
        self.h = height;
        self.field1 = zero_vec(area as usize);
        self.field2 = zero_vec(area as usize);
        self.near_alive = zero_vec(area as usize);
        self.near_alive_list = Vec::new();
        self.clear = true;
        self.cur = 0;
        proof {
            assert forall|px: int, py: int, j: int|
                0 <= px < self.w as int && 0 <= py < self.h as int && self.write_view()[idx_of(
                    self.w as int,
                    px,
                    py,
                )] == 1 && #[trigger] in_nbhd(self.w as int, self.h as int, px, py, j) implies self.dirty(
                j,
            ) by {
                lemma_idx_in_range(self.w as int, self.h as int, px, py);
                assert(self.write_view()[idx_of(self.w as int, px, py)] == 0);
            }
        }
    }

    /// Resizes the grid to `width` by `height` with every cell dead, an
    /// empty dirty worklist, and a full repaint requested. The readable
    /// buffer is selected as after `init`.
    pub fn init_blank(&mut self, width: u32, height: u32)
        requires
            width >= 1,
            height >= 1,
            width as int * height as int <= u32::MAX,
        ensures
            final(self).inv(),
            final(self).w == width,
            final(self).h == height,
            final(self).cur == 1,
            final(self).clear == true,
            final(self).dirty_seq().len() == 0,
            forall|i: int| 0 <= i < final(self).area() ==> (#[trigger] final(self).read_view()[i]) == 0,
            forall|i: int| 0 <= i < final(self).area() ==> (#[trigger] final(self).write_view()[i]) == 0,
            forall|j: int| !final(self).dirty(j),
            marks_cover_live(final(self).read_view(), *final(self)),
    {
        self.reset_buffers(width, height);
        let ghost sk = *self;
        self.cur = 1;
        proof {
            assert(self.near_alive@ == sk.near_alive@);
            assert(self.dirty_seq() == sk.dirty_seq());
            assert(self.area() == sk.area());
            assert(self.read_view() == sk.write_view());
            assert(self.write_view() == sk.read_view());
            assert(self.wf());
            assert forall|px: int, py: int, j: int|
                0 <= px < self.w as int && 0 <= py < self.h as int && self.read_view()[idx_of(
                    self.w as int,
                    px,
                    py,
                )] == 1 && #[trigger] in_nbhd(self.w as int, self.h as int, px, py, j) implies self.dirty(
                j,
            ) by {
                lemma_idx_in_range(self.w as int, self.h as int, px, py);
                assert(self.read_view()[idx_of(self.w as int, px, py)] == 0);
            }
        }
    }
}

} // verus!
