//! Dense two-dimensional arrays of residues, stored by `ndarray`.

use crate::utils::rows2;
use vstd::prelude::*;

verus! {

/// A two-dimensional array of `u32`, held as an `ndarray::Array2<u32>`.
#[verifier::external_body]
pub struct Matrix {
    inner: ndarray::Array2<u32>,
}

/// The rows of a matrix, each the sequence of its entries.
pub uninterp spec fn matrix_rows(m: Matrix) -> Seq<Seq<u32>>;

impl View for Matrix {
    type V = Seq<Seq<u32>>;

    open spec fn view(&self) -> Seq<Seq<u32>> {
        matrix_rows(*self)
    }
}

/// `rows` rows of `cols` entries each, all zero.
pub open spec fn zero_rows(rows: int, cols: int) -> Seq<Seq<u32>> {
    Seq::new(rows as nat, |i: int| Seq::new(cols as nat, |j: int| 0u32))
}

/// All rows have `cols` entries, and there are `rows` of them.
pub open spec fn has_shape(m: Seq<Seq<u32>>, rows: int, cols: int) -> bool {
    m.len() == rows && forall|i: int| 0 <= i < rows ==> (#[trigger] m[i]).len() == cols
}

impl Matrix {
    /// `ndarray::Array2::zeros((rows, cols))`: an array of that shape whose
    /// entries are all zero. `ndarray` panics where the number of entries
    /// overflows `isize`, and the vector behind it where their bytes do; the
    /// precondition keeps the bytes within `isize`.
    #[verifier::external_body]
    pub(crate) fn zeros(rows: usize, cols: usize) -> (m: Matrix)
        requires
            rows <= isize::MAX / 4,
            cols <= isize::MAX / 4,
            rows * cols <= isize::MAX / 4,
        ensures
            matrix_rows(m) == zero_rows(rows as int, cols as int),
    {
        Matrix { inner: ndarray::Array2::zeros((rows, cols)) }
    }

    /// Assignment to `array[[i, j]]`: that entry becomes `v`, all others stay.
    /// `ndarray` panics where the index is out of bounds.
    #[verifier::external_body]
    pub(crate) fn set(&mut self, i: usize, j: usize, v: u32)
        requires
            i < matrix_rows(*old(self)).len(),
            j < matrix_rows(*old(self))[i as int].len(),
        ensures
            matrix_rows(*final(self)) == matrix_rows(*old(self)).update(
                i as int,
                matrix_rows(*old(self))[i as int].update(j as int, v),
            ),
    {
        self.inner[[i, j]] = v;
    }

    /// `array.row(i).to_vec()`: the entries of row `i`, in the order of their
    /// columns. `ndarray` panics where there is no such row.
    #[verifier::external_body]
    pub(crate) fn row(&self, i: usize) -> (r: Vec<u32>)
        requires
            i < matrix_rows(*self).len(),
        ensures
            r@ == matrix_rows(*self)[i as int],
    {
        self.inner.row(i).to_vec()
    }

    /// `array.column(j).to_vec()`: the entries of column `j`, in the order of
    /// their rows. `ndarray` panics where there is no such column.
    #[verifier::external_body]
    pub(crate) fn column(&self, j: usize) -> (c: Vec<u32>)
        requires
            matrix_rows(*self).len() > 0,
            forall|i: int|
                0 <= i < matrix_rows(*self).len() ==> j < (#[trigger] matrix_rows(*self)[i]).len(),
        ensures
            c@ == Seq::new(matrix_rows(*self).len(), |i: int| matrix_rows(*self)[i][j as int]),
    {
        self.inner.column(j).to_vec()
    }
}

impl Matrix {
    /// The matrix with the given rows of `cols` entries each.
    pub fn from_rows(rows: &Vec<Vec<u32>>, cols: usize) -> (m: Matrix)
        requires
            rows@.len() <= isize::MAX / 4,
            cols <= isize::MAX / 4,
            rows@.len() * cols <= isize::MAX / 4,
            forall|i: int| 0 <= i < rows@.len() ==> (#[trigger] rows@[i])@.len() == cols,
        ensures
            m@ == rows2(rows@),
    {
        let n: usize = rows.len();
        let mut m: Matrix = Matrix::zeros(n, cols);
        let mut i: usize = 0;
        while i < n
            invariant
                n == rows@.len(),
                forall|r: int| 0 <= r < rows@.len() ==> (#[trigger] rows@[r])@.len() == cols,
                i <= n,
                has_shape(m@, n as int, cols as int),
                forall|r: int| 0 <= r < i ==> #[trigger] m@[r] == rows@[r]@,
            decreases n - i,
        {
            let row: &Vec<u32> = &rows[i];
            let mut j: usize = 0;
            while j < cols
                invariant
                    n == rows@.len(),
                    i < n,
                    row@.len() == cols,
                    j <= cols,
                    has_shape(m@, n as int, cols as int),
                    forall|r: int| 0 <= r < i ==> #[trigger] m@[r] == rows@[r]@,
                    forall|c: int| 0 <= c < j ==> #[trigger] m@[i as int][c] == row@[c],
                decreases cols - j,
            {
                let ghost before = m@;
                m.set(i, j, row[j]);
                proof {
                    assert forall|r: int| 0 <= r < n implies (#[trigger] m@[r]).len() == cols by {
                        assert(before[r].len() == cols);
                    }
                    assert forall|r: int| 0 <= r < i implies #[trigger] m@[r] == rows@[r]@ by {
                        assert(before[r] == rows@[r]@);
                    }
                }
                j = j + 1;
            }
            assert(m@[i as int] =~= rows@[i as int]@);
            i = i + 1;
        }
        assert(m@ =~= rows2(rows@));
        m
    }
}

} // verus!
