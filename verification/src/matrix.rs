use crate::pair::Pair;
use vstd::prelude::*;

verus! {

/// A two-dimensional array stored row by row: the cell at
/// `(left, right)` is at offset `left * dimensions.right + right`.
pub struct Matrix<T> {
    dimensions: Pair<usize>,
    slice: Vec<T>,
}

impl<T: Copy> Matrix<T> {
    /// The number of rows (`left`) and of columns (`right`).
    pub closed spec fn dims(&self) -> (nat, nat) {
        (self.dimensions.left as nat, self.dimensions.right as nat)
    }

    /// The cells, row by row.
    pub closed spec fn cells(&self) -> Seq<T> {
        self.slice@
    }

    pub closed spec fn wf(&self) -> bool {
        self.slice@.len() == self.dimensions.left * self.dimensions.right
    }

    /// The offset of the cell `(left, right)` in `cells`.
    pub open spec fn spec_offset(&self, left: nat, right: nat) -> nat {
        left * self.dims().1 + right
    }

    /// A matrix of the given dimensions whose every cell holds `value`.
    pub fn new(dimensions: Pair<usize>, value: T) -> (matrix: Self)
        requires
            dimensions.left * dimensions.right <= usize::MAX,
        ensures
            matrix.wf(),
            matrix.dims() == (dimensions.left as nat, dimensions.right as nat),
            matrix.cells() == Seq::new((dimensions.left * dimensions.right) as nat, |i: int| value),
    {
        let size = dimensions.left * dimensions.right;
        let mut slice: Vec<T> = Vec::with_capacity(size);
        let mut i: usize = 0;
        while i < size
            invariant
                i <= size,
                slice@ == Seq::new(i as nat, |k: int| value),
            decreases size - i,
        {
            slice.push(value);
            i = i + 1;
        }
        Self { dimensions, slice }
    }

    /// A well formed matrix holds one cell per row and column.
    pub proof fn lemma_len(&self)
        requires
            self.wf(),
        ensures
            self.cells().len() == self.dims().0 * self.dims().1,
    {
    }

    proof fn lemma_offset_in_bounds(&self, left: nat, right: nat)
        requires
            self.wf(),
            left < self.dims().0,
            right < self.dims().1,
        ensures
            self.spec_offset(left, right) < self.cells().len(),
    {
        let (n, m) = self.dims();
        assert(left * m + right < n * m) by (nonlinear_arith)
            requires
                left < n,
                right < m,
        ;
    }

    fn offset(&self, index: Pair<usize>) -> (offset: usize)
        requires
            self.wf(),
            index.left < self.dims().0,
            index.right < self.dims().1,
        ensures
            offset == self.spec_offset(index.left as nat, index.right as nat),
            offset < self.cells().len(),
    {
        let len = self.slice.len();
        proof {
            self.lemma_offset_in_bounds(index.left as nat, index.right as nat);
            assert(index.left * self.dimensions.right <= index.left * self.dimensions.right + index.right);
        }
        let row = index.left * self.dimensions.right;
        row + index.right
    }

    /// The number of rows and of columns.
    pub fn dimensions(&self) -> (dimensions: (usize, usize))
        ensures
            (dimensions.0 as nat, dimensions.1 as nat) == self.dims(),
    {
        (self.dimensions.left, self.dimensions.right)
    }

    /// The cell at `index`.
    pub fn get(&self, index: Pair<usize>) -> (value: &T)
        requires
            self.wf(),
            index.left < self.dims().0,
            index.right < self.dims().1,
        ensures
            *value == self.cells()[self.spec_offset(index.left as nat, index.right as nat) as int],
    {
        let offset = self.offset(index);
        &self.slice[offset]
    }

    /// Replaces the cell at `index` with `value`.
    pub fn set(&mut self, index: Pair<usize>, value: T)
        requires
            old(self).wf(),
            index.left < old(self).dims().0,
            index.right < old(self).dims().1,
        ensures
            final(self).wf(),
            final(self).dims() == old(self).dims(),
            final(self).cells() == old(self).cells().update(
                old(self).spec_offset(index.left as nat, index.right as nat) as int,
                value,
            ),
    {
        let offset = self.offset(index);
        self.slice.set(offset, value);
    }
}

} // verus!
