//! A fixed-size two-dimensional array stored row-major in one allocation.

use vstd::prelude::*;

verus! {

/// A `width` x `height` grid of values of type `T`.
/// Cell `(x, y)` lives at index `x + y * width` of `data`.
pub struct Matrix<T> {
    width: usize,
    height: usize,
    data: Vec<T>,
}

impl<T> Matrix<T> {
    /// Structural well-formedness: the backing vector covers the grid.
    pub closed spec fn wf(&self) -> bool {
        &&& self.data.len() == self.width * self.height
        &&& self.width * self.height <= usize::MAX
    }

    pub closed spec fn spec_width(&self) -> usize {
        self.width
    }

    pub closed spec fn spec_height(&self) -> usize {
        self.height
    }

    /// The value stored at cell `(x, y)`; meaningful for in-range cells only.
    pub closed spec fn spec_get(&self, x: int, y: int) -> T {
        self.data[x + y * self.width]
    }

    pub fn width(&self) -> (r: usize)
        ensures
            r == self.spec_width(),
    {
        self.width
    }

    pub fn height(&self) -> (r: usize)
        ensures
            r == self.spec_height(),
    {
        self.height
    }

    /// A reference to the cell at `(x, y)`, or `None` when the coordinate
    /// lies outside the grid.
    pub fn get(&self, x: usize, y: usize) -> (r: Option<&T>)
        requires
            self.wf(),
        ensures
            x < self.spec_width() && y < self.spec_height() ==> r == Some(
                &self.spec_get(x as int, y as int),
            ),
            !(x < self.spec_width() && y < self.spec_height()) ==> r is None,
    {
        if x < self.width && y < self.height {
            proof {
                lemma_row_major_index_in_range(
                    x as int,
                    y as int,
                    self.width as int,
                    self.height as int,
                );
            }
            Some(&self.data[x + y * self.width])
        } else {
            None
        }
    }

    /// Overwrites the cell at `(x, y)`.
    pub fn set(&mut self, x: usize, y: usize, value: T)
        requires
            old(self).wf(),
            x < old(self).spec_width(),
            y < old(self).spec_height(),
        ensures
            final(self).wf(),
            final(self).spec_width() == old(self).spec_width(),
            final(self).spec_height() == old(self).spec_height(),
            final(self).spec_get(x as int, y as int) == value,
            forall|i: int, j: int|
                0 <= i < old(self).spec_width() && 0 <= j < old(self).spec_height() && !(i == x
                    && j == y) ==> final(self).spec_get(i, j) == old(self).spec_get(i, j),
    {
        proof {
            lemma_row_major_index_in_range(
                x as int,
                y as int,
                self.width as int,
                self.height as int,
            );
        }
        let idx: usize = x + y * self.width;
        self.data.set(idx, value);
        proof {
            assert forall|i: int, j: int|
                0 <= i < self.width && 0 <= j < self.height && !(i == x && j == y) implies self
                .spec_get(i, j) == old(self).spec_get(i, j) by {
                lemma_row_major_index_in_range(i, j, self.width as int, self.height as int);
                if i + j * self.width == idx {
                    lemma_row_major_index_injective(
                        i,
                        j,
                        x as int,
                        y as int,
                        self.width as int,
                        self.height as int,
                    );
                }
            }
        }
    }
}

impl<T: Copy> Matrix<T> {
    /// A grid with every cell set to `value`.
    pub fn fill(value: T, width: usize, height: usize) -> (r: Self)
        requires
            width >= 1,
            height >= 1,
            width * height <= usize::MAX,
        ensures
            r.wf(),
            r.spec_width() == width,
            r.spec_height() == height,
            forall|i: int, j: int|
                0 <= i < width && 0 <= j < height ==> r.spec_get(i, j) == value,
    {
        let mut data: Vec<T> = Vec::new();
        let mut k: usize = 0;
        proof {
            vstd::arithmetic::mul::lemma_mul_strictly_positive(width as int, height as int);
        }
        let total: usize = width * height;
        while k < total
            invariant
                k <= total,
                data.len() == k,
                forall|i: int| 0 <= i < k ==> data[i] == value,
            decreases total - k,
        {
            data.push(value);
            k = k + 1;
        }
        let r = Self { width, height, data };
        proof {
            assert forall|i: int, j: int|
                0 <= i < width && 0 <= j < height implies r.spec_get(i, j) == value by {
                lemma_row_major_index_in_range(i, j, width as int, height as int);
            }
        }
        r
    }

    /// The value at `(x, y)`, or `default` when the coordinate lies outside
    /// the grid.
    pub fn get_or(&self, x: usize, y: usize, default: T) -> (r: T)
        requires
            self.wf(),
        ensures
            x < self.spec_width() && y < self.spec_height() ==> r == self.spec_get(
                x as int,
                y as int,
            ),
            !(x < self.spec_width() && y < self.spec_height()) ==> r == default,
    {
        match self.get(x, y) {
            Some(v) => *v,
            None => default,
        }
    }
}

/// For `0 <= x < w` and `0 <= y < h`, the row-major index `x + y * w`
/// stays below `w * h`.
pub proof fn lemma_row_major_index_in_range(x: int, y: int, w: int, h: int)
    requires
        0 <= x < w,
        0 <= y < h,
    ensures
        0 <= x + y * w < w * h,
{
    assert(x + y * w < w * h) by (nonlinear_arith)
        requires
            0 <= x < w,
            0 <= y < h,
    ;
}

/// Distinct in-range coordinates map to distinct row-major indices.
pub proof fn lemma_row_major_index_injective(x1: int, y1: int, x2: int, y2: int, w: int, h: int)
    requires
        0 <= x1 < w,
        0 <= y1 < h,
        0 <= x2 < w,
        0 <= y2 < h,
        x1 + y1 * w == x2 + y2 * w,
    ensures
        x1 == x2 && y1 == y2,
{
    assert(x1 == x2 && y1 == y2) by (nonlinear_arith)
        requires
            0 <= x1 < w,
            0 <= y1 < h,
            0 <= x2 < w,
            0 <= y2 < h,
            x1 + y1 * w == x2 + y2 * w,
    ;
}

} // verus!
