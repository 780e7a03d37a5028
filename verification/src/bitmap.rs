//! A fixed-size boolean grid: the substrate for the board's occupancy,
//! emptiness and movability masks.

use vstd::prelude::*;
use crate::position::Pos;

verus! {

/// One boolean per cell of a width x height grid.
///
/// The bitmap is a pure value container: its only state is which cells
/// are set. Out-of-range coordinates are never set; mutating operations
/// demand in-range positions, which the owning board enforces.
pub struct GridBitmap {
    width: i32,
    height: i32,
    bits: Vec<bool>,
}

impl GridBitmap {
    /// The grid's width.
    pub closed spec fn spec_width(self) -> int {
        self.width as int
    }

    /// The grid's height.
    pub closed spec fn spec_height(self) -> int {
        self.height as int
    }

    /// The bitmap's internal shape is consistent with its dimensions.
    pub closed spec fn wf(self) -> bool {
        &&& 0 <= self.width
        &&& 0 <= self.height
        &&& self.bits@.len() == self.spec_width() * self.spec_height()
    }

    /// Whether the cell (x, y) is set; false off the grid.
    pub closed spec fn at(self, x: int, y: int) -> bool {
        &&& 0 <= x < self.spec_width()
        &&& 0 <= y < self.spec_height()
        &&& self.bits@[y * self.spec_width() + x]
    }

    /// Whether (x, y) lies on the grid.
    pub open spec fn in_range(self, x: int, y: int) -> bool {
        &&& 0 <= x < self.spec_width()
        &&& 0 <= y < self.spec_height()
    }

    /// Distinct in-range cells occupy distinct slots of the backing row-major
    /// vector.
    proof fn lemma_index_injective(self, x1: int, y1: int, x2: int, y2: int)
        requires
            self.in_range(x1, y1),
            self.in_range(x2, y2),
            !(x1 == x2 && y1 == y2),
        ensures
            y1 * self.spec_width() + x1 != y2 * self.spec_width() + x2,
    {
        let w = self.spec_width();
        assert(y1 * w + x1 != y2 * w + x2) by (nonlinear_arith)
            requires
                0 <= x1 < w,
                0 <= x2 < w,
                0 <= y1,
                0 <= y2,
                !(x1 == x2 && y1 == y2),
        ;
    }

    /// In-range cells index inside the backing vector.
    proof fn lemma_index_in_bounds(self, x: int, y: int)
        requires
            self.wf(),
            self.in_range(x, y),
        ensures
            0 <= y * self.spec_width() + x < self.bits@.len(),
    {
        let w = self.spec_width();
        let h = self.spec_height();
        assert(0 <= y * w + x < h * w) by (nonlinear_arith)
            requires
                0 <= x < w,
                0 <= y < h,
        ;
    }

    /// Cells off the grid are never set.
    pub proof fn lemma_out_of_range(self, x: int, y: int)
        requires
            !self.in_range(x, y),
        ensures
            !self.at(x, y),
    {
    }

    /// Creates a bitmap of the given dimensions with every cell unset.
    pub fn new(width: i32, height: i32) -> (r: GridBitmap)
        requires
            0 <= width,
            0 <= height,
            width * height <= usize::MAX,
        ensures
            r.wf(),
            r.spec_width() == width,
            r.spec_height() == height,
            forall|x: int, y: int| !r.at(x, y),
    {
        let n: usize = (width as usize) * (height as usize);
        let mut bits: Vec<bool> = Vec::new();
        let mut i: usize = 0;
        while i < n
            invariant
                i <= n,
                bits@.len() == i,
                forall|k: int| 0 <= k < i ==> !bits@[k],
            decreases n - i,
        {
            bits.push(false);
            i = i + 1;
        }
        let r = GridBitmap { width, height, bits };
        proof {
            assert forall|x: int, y: int| !r.at(x, y) by {
                if r.in_range(x, y) {
                    r.lemma_index_in_bounds(x, y);
                }
            }
        }
        r
    }

    /// The row-major slot of an in-range cell.
    fn index_of(&self, pos: Pos) -> (i: usize)
        requires
            self.wf(),
            self.in_range(pos.x as int, pos.y as int),
        ensures
            i == pos.y as int * self.spec_width() + pos.x as int,
            i < self.bits@.len(),
    {
        proof {
            self.lemma_index_in_bounds(pos.x as int, pos.y as int);
        }
        // reading the length gives the prover the bound that keeps the
        // index arithmetic inside usize
        let total: usize = self.bits.len();
        proof {
            assert((pos.y as int) * self.spec_width() + (pos.x as int) < (total as int));
        }
        (pos.y as usize) * (self.width as usize) + (pos.x as usize)
    }

    /// Whether the cell at `pos` is set.
    pub fn is_set(&self, pos: Pos) -> (r: bool)
        requires
            self.wf(),
            self.in_range(pos.x as int, pos.y as int),
        ensures
            r == self.at(pos.x as int, pos.y as int),
    {
        let idx: usize = self.index_of(pos);
        self.bits[idx]
    }

    /// Writes `value` into the cell at `pos`, leaving every other cell as
    /// it was.
    pub fn write(&mut self, pos: Pos, value: bool)
        requires
            old(self).wf(),
            old(self).in_range(pos.x as int, pos.y as int),
        ensures
            final(self).wf(),
            final(self).spec_width() == old(self).spec_width(),
            final(self).spec_height() == old(self).spec_height(),
            final(self).at(pos.x as int, pos.y as int) == value,
            forall|x: int, y: int|
                !(x == pos.x as int && y == pos.y as int) ==> (#[trigger] final(self).at(x, y))
                    == old(self).at(x, y),
    {
        let idx: usize = self.index_of(pos);
        self.bits[idx] = value;
        proof {
            assert forall|x: int, y: int|
                !(x == pos.x as int && y == pos.y as int) implies (#[trigger] self.at(x, y))
                == old(self).at(x, y) by {
                if old(self).in_range(x, y) {
                    old(self).lemma_index_injective(x, y, pos.x as int, pos.y as int);
                    old(self).lemma_index_in_bounds(x, y);
                }
            }
        }
    }

    /// Sets the cell at `pos`.
    pub fn set(&mut self, pos: Pos)
        requires
            old(self).wf(),
            old(self).in_range(pos.x as int, pos.y as int),
        ensures
            final(self).wf(),
            final(self).spec_width() == old(self).spec_width(),
            final(self).spec_height() == old(self).spec_height(),
            final(self).at(pos.x as int, pos.y as int),
            forall|x: int, y: int|
                !(x == pos.x as int && y == pos.y as int) ==> (#[trigger] final(self).at(x, y))
                    == old(self).at(x, y),
    {
        self.write(pos, true);
    }

    /// Unsets the cell at `pos`.
    pub fn unset(&mut self, pos: Pos)
        requires
            old(self).wf(),
            old(self).in_range(pos.x as int, pos.y as int),
        ensures
            final(self).wf(),
            final(self).spec_width() == old(self).spec_width(),
            final(self).spec_height() == old(self).spec_height(),
            !final(self).at(pos.x as int, pos.y as int),
            forall|x: int, y: int|
                !(x == pos.x as int && y == pos.y as int) ==> (#[trigger] final(self).at(x, y))
                    == old(self).at(x, y),
    {
        self.write(pos, false);
    }

    /// Exchanges the two cells' bits; a no-op when the positions are equal.
    pub fn swap(&mut self, first: Pos, second: Pos)
        requires
            old(self).wf(),
            old(self).in_range(first.x as int, first.y as int),
            old(self).in_range(second.x as int, second.y as int),
        ensures
            final(self).wf(),
            final(self).spec_width() == old(self).spec_width(),
            final(self).spec_height() == old(self).spec_height(),
            final(self).at(first.x as int, first.y as int) == old(self).at(
                second.x as int,
                second.y as int,
            ),
            final(self).at(second.x as int, second.y as int) == old(self).at(
                first.x as int,
                first.y as int,
            ),
            forall|x: int, y: int|
                !(x == first.x as int && y == first.y as int) && !(x == second.x as int && y
                    == second.y as int) ==> (#[trigger] final(self).at(x, y)) == old(self).at(x, y),
    {
        let first_bit = self.is_set(first);
        let second_bit = self.is_set(second);
        self.write(first, second_bit);
        self.write(second, first_bit);
    }
}

} // verus!
