//! A flat array of `u32` addressed as a stack of planes of rows.
use vstd::prelude::*;

verus! {

/// Cells are laid out plane by plane; within a plane, row by row, with a row
/// stride of `sy` cells. Cell `(x, y, z)` lives at `z * plane_size + y * sy + x`.
pub struct Array3D {
    pub data: Vec<u32>,
    pub plane_size: u32,
    pub sy: u32,
}

impl Array3D {
    pub open spec fn view(&self) -> Seq<u32> {
        self.data@
    }

    /// Every index of the array fits in a `u32`.
    pub open spec fn wf(&self) -> bool {
        self.data@.len() <= u32::MAX
    }

    /// The flat position of cell `(x, y, z)`.
    pub open spec fn index_of(&self, x: int, y: int, z: int) -> int {
        z * self.plane_size + y * self.sy + x
    }

    /// The value of cell `(x, y, z)`.
    pub open spec fn at(&self, x: int, y: int, z: int) -> u32 {
        self.data@[self.index_of(x, y, z)]
    }

    /// Wraps `data` as `sz` planes of `sx` by `sy` cells.
    pub fn from_raw(data: Vec<u32>, sx: u32, sy: u32, sz: u32) -> (r: Self)
        requires
            data@.len() == sx * sy * sz,
            sx * sy <= u32::MAX,
            sx * sy * sz <= u32::MAX,
        ensures
            r.wf(),
            r@ == data@,
            r.plane_size == sx * sy,
            r.sy == sy,
    {
        let plane_size = sx * sy;
        Array3D { data, plane_size, sy }
    }

    /// The value of cell `(x, y, z)`.
    pub fn get_xyz(&self, x: u32, y: u32, z: u32) -> (r: u32)
        requires
            self.wf(),
            0 <= self.index_of(x as int, y as int, z as int) < self@.len(),
        ensures
            r == self.at(x as int, y as int, z as int),
    {
        self.data[self.flat(x, y, z)]
    }

    /// The value of cell `(x, y)` of plane `h`.
    pub fn get_hxy(&self, h: u32, x: u32, y: u32) -> (r: u32)
        requires
            self.wf(),
            0 <= self.index_of(x as int, y as int, h as int) < self@.len(),
        ensures
            r == self.at(x as int, y as int, h as int),
    {
        self.data[self.flat(x, y, h)]
    }

    /// Sets cell `(x, y, z)`.
    pub fn set_xyz(&mut self, x: u32, y: u32, z: u32, value: u32)
        requires
            old(self).wf(),
            0 <= old(self).index_of(x as int, y as int, z as int) < old(self)@.len(),
        ensures
            final(self).wf(),
            final(self).plane_size == old(self).plane_size,
            final(self).sy == old(self).sy,
            final(self)@ == old(self)@.update(old(self).index_of(x as int, y as int, z as int), value),
    {
        let i = self.flat(x, y, z);
        self.data[i] = value;
    }

    /// Sets cell `(x, y)` of plane `h`.
    pub fn set_hxy(&mut self, h: u32, x: u32, y: u32, value: u32)
        requires
            old(self).wf(),
            0 <= old(self).index_of(x as int, y as int, h as int) < old(self)@.len(),
        ensures
            final(self).wf(),
            final(self).plane_size == old(self).plane_size,
            final(self).sy == old(self).sy,
            final(self)@ == old(self)@.update(old(self).index_of(x as int, y as int, h as int), value),
    {
        let i = self.flat(x, y, h);
        self.data[i] = value;
    }

    /// The flat position of the first cell of a plane.
    pub fn plane_idx(&self, plane: u32) -> (r: usize)
        requires
            plane * self.plane_size <= u32::MAX,
        ensures
            r == plane * self.plane_size,
    {
        (plane * self.plane_size) as usize
    }

    /// The flat position of the first cell of a row of a plane.
    pub fn row_idx(&self, plane: u32, row: u32) -> (r: usize)
        requires
            plane * self.plane_size + row * self.sy <= u32::MAX,
        ensures
            r == plane * self.plane_size + row * self.sy,
    {
        proof {
            lemma_sum_parts_fit(plane as int, self.plane_size as int, row as int, self.sy as int, 0);
        }
        (plane * self.plane_size + row * self.sy) as usize
    }

    /// Sets the cell at a flat position.
    pub fn set_idx(&mut self, idx: u32, value: u32)
        requires
            idx < old(self)@.len(),
        ensures
            final(self).plane_size == old(self).plane_size,
            final(self).sy == old(self).sy,
            final(self)@ == old(self)@.update(idx as int, value),
    {
        self.data[idx as usize] = value;
    }

    /// The cell at a flat position.
    pub fn get_idx(&self, idx: u32) -> (r: u32)
        requires
            idx < self@.len(),
        ensures
            r == self@[idx as int],
    {
        self.data[idx as usize]
    }

    /// Sets every cell of planes `from .. from + n` to `value`.
    pub fn fill_planes(&mut self, from: u32, n: u32, value: u32)
        requires
            old(self).wf(),
            from + n <= u32::MAX,
            (from + n) * old(self).plane_size <= old(self)@.len(),
        ensures
            final(self).wf(),
            final(self).plane_size == old(self).plane_size,
            final(self).sy == old(self).sy,
            final(self)@.len() == old(self)@.len(),
            forall|i: int|
                0 <= i < final(self)@.len() ==> #[trigger] final(self)@[i] == if from * old(self).plane_size
                    <= i < (from + n) * old(self).plane_size {
                    value
                } else {
                    old(self)@[i]
                },
    {
        proof {
            assert(from * self.plane_size <= (from + n) * self.plane_size) by (nonlinear_arith);
        }
        let start = (from * self.plane_size) as usize;
        let end = ((from + n) * self.plane_size) as usize;
        let ghost before = self@;
        let mut i: usize = start;
        while i < end
            invariant
                start <= i <= end,
                end <= self@.len(),
                self.wf(),
                self.plane_size == old(self).plane_size,
                self.sy == old(self).sy,
                start == from * self.plane_size,
                end == (from + n) * self.plane_size,
                self@.len() == before.len(),
                forall|k: int|
                    0 <= k < self@.len() ==> #[trigger] self@[k] == if start <= k < i {
                        value
                    } else {
                        before[k]
                    },
            decreases end - i,
        {
            self.data[i] = value;
            i += 1;
        }
    }

    /// The flat position of cell `(x, y, z)`, computed without overflow.
    fn flat(&self, x: u32, y: u32, z: u32) -> (r: usize)
        requires
            self.wf(),
            0 <= self.index_of(x as int, y as int, z as int) < self@.len(),
        ensures
            r == self.index_of(x as int, y as int, z as int),
    {
        proof {
            lemma_sum_parts_fit(z as int, self.plane_size as int, y as int, self.sy as int, x as int);
        }
        (z * self.plane_size + y * self.sy + x) as usize
    }
}

/// The parts of a sum of non-negative products are no larger than the sum.
proof fn lemma_sum_parts_fit(a: int, b: int, c: int, d: int, e: int)
    requires
        a >= 0,
        b >= 0,
        c >= 0,
        d >= 0,
        e >= 0,
    ensures
        a * b <= a * b + c * d + e,
        c * d <= a * b + c * d + e,
        a * b + c * d <= a * b + c * d + e,
{
    assert(a * b >= 0) by (nonlinear_arith)
        requires
            a >= 0,
            b >= 0,
    ;
    assert(c * d >= 0) by (nonlinear_arith)
        requires
            c >= 0,
            d >= 0,
    ;
}

} // verus!
