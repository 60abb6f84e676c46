//! The matrix container: construction, shape queries and row access.
use vstd::prelude::*;
use crate::arith::{lemma_cell_bounds, lemma_row_bounds, lemma_row_count};
use crate::error::{Dimension, MatrixError};
use crate::iter::{row_count, Rows, RowsMut};
use crate::scalar::{one_value, zero_value};

verus! {

/// The failure that a constructor answers a shape with: the first of the
/// two dimensions that is zero, if one is.
pub open spec fn zero_dimension(num_rows: usize, num_columns: usize) -> Option<MatrixError> {
    if num_rows == 0 {
        Some(MatrixError::InvalidDimension { dimension: Dimension::Rows })
    } else if num_columns == 0 {
        Some(MatrixError::InvalidDimension { dimension: Dimension::Columns })
    } else {
        None
    }
}

/// A two-dimensional array stored row by row in one buffer.
#[derive(Debug, PartialEq)]
pub struct Matrix<T> {
    pub(crate) data: Vec<T>,
    pub(crate) num_rows: usize,
    pub(crate) num_columns: usize,
}

impl<T> View for Matrix<T> {
    type V = Seq<T>;

    /// The cells in row-major order.
    closed spec fn view(&self) -> Seq<T> {
        self.data@
    }
}

impl<T> Matrix<T> {
    /// The number of rows, as a mathematical value.
    pub closed spec fn spec_num_rows(&self) -> nat {
        self.num_rows as nat
    }

    /// The number of columns, as a mathematical value.
    pub closed spec fn spec_num_columns(&self) -> nat {
        self.num_columns as nat
    }

    /// Both dimensions are positive and the buffer holds exactly
    /// `rows * columns` cells.
    pub open spec fn wf(&self) -> bool {
        &&& self.spec_num_rows() > 0
        &&& self.spec_num_columns() > 0
        &&& self@.len() == self.spec_num_rows() * self.spec_num_columns()
    }

    /// The matrix has the given shape and every cell holds `value`.
    pub open spec fn filled_with(&self, num_rows: nat, num_columns: nat, value: T) -> bool {
        &&& self.wf()
        &&& self.spec_num_rows() == num_rows
        &&& self.spec_num_columns() == num_columns
        &&& self@ == Seq::new(num_rows * num_columns, |k: int| value)
    }

    /// The matrix has `M` rows and `N` columns, and its cell `(i, j)` is
    /// item `j` of item `i` of `array`.
    pub open spec fn holds_rows<const N: usize, const M: usize>(&self, array: [[T; N]; M]) -> bool {
        &&& self.wf()
        &&& self.spec_num_rows() == M
        &&& self.spec_num_columns() == N
        &&& forall|i: int, j: int|
            0 <= i < M && 0 <= j < N ==> #[trigger] self.cell(i, j) == array@[i]@[j]
    }

    /// The cell in row `i` and column `j`.
    pub open spec fn cell(&self, i: int, j: int) -> T {
        self@[i * self.spec_num_columns() + j]
    }

    /// Row `i` as a sequence of `spec_num_columns()` cells.
    pub open spec fn row_seq(&self, i: int) -> Seq<T> {
        self@.subrange(i * self.spec_num_columns(), (i + 1) * self.spec_num_columns())
    }

    /// Creates a matrix of the given shape with every cell equal to
    /// `fill_value`, or says which dimension was zero.
    pub fn full(num_rows: usize, num_columns: usize, fill_value: T) -> (result: Result<
        Self,
        MatrixError,
    >) where T: Copy,
        requires
            num_rows * num_columns <= usize::MAX,
        ensures
            zero_dimension(num_rows, num_columns) is Some ==> result == Err::<Self, MatrixError>(
                zero_dimension(num_rows, num_columns).unwrap(),
            ),
            zero_dimension(num_rows, num_columns) is None ==> result is Ok
                && result.unwrap().filled_with(num_rows as nat, num_columns as nat, fill_value),
    {
        if num_rows == 0 {
            return Err(MatrixError::InvalidDimension { dimension: Dimension::Rows });
        }
        if num_columns == 0 {
            return Err(MatrixError::InvalidDimension { dimension: Dimension::Columns });
        }
        let len: usize = num_rows * num_columns;
        let mut data: Vec<T> = Vec::with_capacity(len);
        let mut k: usize = 0;
        while k < len
            invariant
                k <= len,
                data@ == Seq::new(k as nat, |k: int| fill_value),
            decreases len - k,
        {
            data.push(fill_value);
            k += 1;
            assert(data@ =~= Seq::new(k as nat, |k: int| fill_value));
        }
        Ok(Matrix { data, num_rows, num_columns })
    }

    /// Creates a matrix of the given shape filled with the default value
    /// of `T`.
    pub fn new(num_rows: usize, num_columns: usize) -> (result: Result<Self, MatrixError>) where
        T: Copy + Default,
        requires
            num_rows * num_columns <= usize::MAX,
        ensures
            zero_dimension(num_rows, num_columns) is Some ==> result == Err::<Self, MatrixError>(
                zero_dimension(num_rows, num_columns).unwrap(),
            ),
            zero_dimension(num_rows, num_columns) is None ==> result is Ok
                && call_ensures(T::default, (), result.unwrap()@[0])
                && result.unwrap().filled_with(
                num_rows as nat,
                num_columns as nat,
                result.unwrap()@[0],
            ),
    {
        let value = T::default();
        let result = Self::full(num_rows, num_columns, value);
        proof {
            if num_rows != 0 && num_columns != 0 {
                lemma_cell_bounds(0, 0, num_rows as int, num_columns as int);
                assert(result.unwrap()@[0] == value);
            }
        }
        result
    }

    /// Creates a matrix of the given shape filled with the zero of `T`:
    /// every cell holds the same value.
    pub fn zeros(num_rows: usize, num_columns: usize) -> (result: Result<Self, MatrixError>) where
        T: Copy + num_traits::Zero,
        requires
            num_rows * num_columns <= usize::MAX,
        ensures
            zero_dimension(num_rows, num_columns) is Some ==> result == Err::<Self, MatrixError>(
                zero_dimension(num_rows, num_columns).unwrap(),
            ),
            zero_dimension(num_rows, num_columns) is None ==> result is Ok
                && result.unwrap().filled_with(
                num_rows as nat,
                num_columns as nat,
                result.unwrap()@[0],
            ),
    {
        let value = zero_value::<T>();
        let result = Self::full(num_rows, num_columns, value);
        proof {
            if num_rows != 0 && num_columns != 0 {
                lemma_cell_bounds(0, 0, num_rows as int, num_columns as int);
                assert(result.unwrap()@[0] == value);
            }
        }
        result
    }

    /// Creates a matrix of the given shape filled with the one of `T`:
    /// every cell holds the same value.
    pub fn ones(num_rows: usize, num_columns: usize) -> (result: Result<Self, MatrixError>) where
        T: Copy + num_traits::One,
        requires
            num_rows * num_columns <= usize::MAX,
        ensures
            zero_dimension(num_rows, num_columns) is Some ==> result == Err::<Self, MatrixError>(
                zero_dimension(num_rows, num_columns).unwrap(),
            ),
            zero_dimension(num_rows, num_columns) is None ==> result is Ok
                && result.unwrap().filled_with(
                num_rows as nat,
                num_columns as nat,
                result.unwrap()@[0],
            ),
    {
        let value = one_value::<T>();
        let result = Self::full(num_rows, num_columns, value);
        proof {
            if num_rows != 0 && num_columns != 0 {
                lemma_cell_bounds(0, 0, num_rows as int, num_columns as int);
                assert(result.unwrap()@[0] == value);
            }
        }
        result
    }

    /// Creates a matrix with `M` rows and `N` columns holding the items of
    /// `array`, row after row.
    pub fn from<const N: usize, const M: usize>(array: [[T; N]; M]) -> (result: Result<
        Self,
        MatrixError,
    >) where T: Copy,
        requires
            M * N <= usize::MAX,
        ensures
            zero_dimension(M, N) is Some ==> result == Err::<Self, MatrixError>(
                zero_dimension(M, N).unwrap(),
            ),
            zero_dimension(M, N) is None ==> result is Ok && result.unwrap().holds_rows(array),
    {
        if M == 0 {
            return Err(MatrixError::InvalidDimension { dimension: Dimension::Rows });
        }
        if N == 0 {
            return Err(MatrixError::InvalidDimension { dimension: Dimension::Columns });
        }
        let len: usize = M * N;
        let mut data: Vec<T> = Vec::with_capacity(len);
        let mut i: usize = 0;
        while i < M
            invariant
                i <= M,
                N > 0,
                M * N <= usize::MAX,
                data@.len() == i * N,
                forall|p: int, q: int|
                    0 <= p < i && 0 <= q < N ==> data@[p * N + q] == (#[trigger] array@[p]@[q]),
            decreases M - i,
        {
            let mut j: usize = 0;
            proof {
                lemma_row_bounds(i as int, M as int, N as int);
            }
            while j < N
                invariant
                    i < M,
                    j <= N,
                    (i + 1) * N <= M * N <= usize::MAX,
                    i * N + N == (i + 1) * N,
                    data@.len() == i * N + j,
                    forall|p: int, q: int|
                        0 <= p < i && 0 <= q < N ==> data@[p * N + q] == (
                        #[trigger] array@[p]@[q]),
                    forall|q: int| 0 <= q < j ==> data@[i * N + q] == (#[trigger] array@[i as int]@[q]),
                decreases N - j,
            {
                let ghost before = data@;
                data.push(array[i][j]);
                proof {
                    assert forall|p: int, q: int| 0 <= p < i && 0 <= q < N implies data@[p * N
                        + q] == (#[trigger] array@[p]@[q]) by {
                        lemma_row_bounds(p, i as int, N as int);
                        assert(before[p * N + q] == array@[p]@[q]);
                    }
                }
                j += 1;
            }
            i += 1;
        }
        let result = Matrix { data, num_rows: M, num_columns: N };
        proof {
            assert forall|p: int, q: int| 0 <= p < M && 0 <= q < N implies #[trigger] result.cell(
                p,
                q,
            ) == array@[p]@[q] by {
                assert(result.data@[p * N + q] == array@[p]@[q]);
            }
        }
        Ok(result)
    }

    /// Returns the number of rows in the matrix.
    pub fn num_rows(&self) -> (n: usize)
        ensures
            n == self.spec_num_rows(),
    {
        self.num_rows
    }

    /// Returns the number of columns in the matrix.
    pub fn num_columns(&self) -> (n: usize)
        ensures
            n == self.spec_num_columns(),
    {
        self.num_columns
    }

    /// Returns the shape `(num_rows, num_columns)` of the matrix.
    pub fn shape(&self) -> (s: (usize, usize))
        ensures
            s.0 == self.spec_num_rows(),
            s.1 == self.spec_num_columns(),
    {
        (self.num_rows, self.num_columns)
    }

    /// The whole buffer in row-major order.
    pub fn as_flattened(&self) -> (cells: &[T])
        ensures
            cells@ == self@,
    {
        self.data.as_slice()
    }

    /// The cells of row `row_index`, or `IndexOutOfRange` when there is no
    /// such row.
    pub fn row(&self, row_index: usize) -> (result: Result<&[T], MatrixError>)
        requires
            self.wf(),
        ensures
            row_index >= self.spec_num_rows() ==> result == Err::<&[T], MatrixError>(
                MatrixError::IndexOutOfRange {
                    index: row_index,
                    num_rows: self.spec_num_rows() as usize,
                },
            ),
            row_index < self.spec_num_rows() ==> result is Ok && result.unwrap()@
                == self.row_seq(row_index as int),
    {
        if row_index >= self.num_rows {
            return Err(
                MatrixError::IndexOutOfRange { index: row_index, num_rows: self.num_rows },
            );
        }
        let total: usize = self.data.len();
        proof {
            lemma_row_bounds(row_index as int, self.num_rows as int, self.num_columns as int);
            assert(total == self.num_rows as int * self.num_columns as int);
        }
        let start: usize = row_index * self.num_columns;
        let end: usize = start + self.num_columns;
        Ok(vstd::slice::slice_subrange(self.data.as_slice(), start, end))
    }

    /// Row `row_index` for writing, or `IndexOutOfRange` when there is no
    /// such row. What is written to the returned cells is what the matrix
    /// holds in that row afterwards; every other cell keeps its value.
    pub fn row_mut(&mut self, row_index: usize) -> (result: Result<&mut [T], MatrixError>)
        requires
            old(self).wf(),
        ensures
            row_index >= old(self).spec_num_rows() ==> *final(self) == *old(self) && result
                == Err::<&mut [T], MatrixError>(
                MatrixError::IndexOutOfRange {
                    index: row_index,
                    num_rows: old(self).spec_num_rows() as usize,
                },
            ),
            row_index < old(self).spec_num_rows() ==> result is Ok && result.unwrap()@ == old(
                self,
            ).row_seq(row_index as int) && final(self).spec_num_rows() == old(
                self,
            ).spec_num_rows() && final(self).spec_num_columns() == old(self).spec_num_columns()
                && final(self)@ == old(self)@.subrange(
                0,
                row_index * old(self).spec_num_columns(),
            ) + final(result.unwrap())@ + old(self)@.subrange(
                (row_index + 1) * old(self).spec_num_columns(),
                old(self)@.len() as int,
            ),
    {
        if row_index >= self.num_rows {
            return Err(
                MatrixError::IndexOutOfRange { index: row_index, num_rows: self.num_rows },
            );
        }
        let total: usize = self.data.len();
        proof {
            lemma_row_bounds(row_index as int, self.num_rows as int, self.num_columns as int);
            assert(total == self.num_rows as int * self.num_columns as int);
        }
        let start: usize = row_index * self.num_columns;
        let end: usize = start + self.num_columns;
        let (head, _) = self.data.as_mut_slice().split_at_mut(end);
        let (_, row) = head.split_at_mut(start);
        Ok(row)
    }

    /// A traversal of the rows of the matrix, each a shared slice, from
    /// row 0 on.
    pub fn rows(&self) -> (rows: Rows<'_, T>)
        requires
            self.wf(),
        ensures
            rows.wf(),
            rows@ == self@,
            rows.width() == self.spec_num_columns(),
            row_count(rows@, rows.width()) == self.spec_num_rows(),
    {
        proof {
            lemma_row_count(self.num_rows as int, self.num_columns as int);
        }
        Rows::new(self.data.as_slice(), self.num_columns)
    }

    /// A traversal of the rows of the matrix, each an exclusive slice, from
    /// row 0 on. What the traversal's region holds in the end is what the
    /// matrix holds; the shape does not change.
    pub fn rows_mut(&mut self) -> (rows: RowsMut<'_, T>)
        requires
            old(self).wf(),
        ensures
            rows.wf(),
            rows@ == old(self)@,
            rows.width() == old(self).spec_num_columns(),
            row_count(rows@, rows.width()) == old(self).spec_num_rows(),
            final(self)@ == final(rows.region().unwrap())@,
            final(self).spec_num_rows() == old(self).spec_num_rows(),
            final(self).spec_num_columns() == old(self).spec_num_columns(),
    {
        proof {
            lemma_row_count(self.num_rows as int, self.num_columns as int);
        }
        RowsMut::new(self.data.as_mut_slice(), self.num_columns)
    }

    /// Stores `value` in row `i`, column `j`.
    pub(crate) fn set_cell(&mut self, i: usize, j: usize, value: T)
        requires
            old(self).wf(),
            i < old(self).spec_num_rows(),
            j < old(self).spec_num_columns(),
        ensures
            final(self).wf(),
            final(self).spec_num_rows() == old(self).spec_num_rows(),
            final(self).spec_num_columns() == old(self).spec_num_columns(),
            final(self)@ == old(self)@.update(i * old(self).spec_num_columns() + j, value),
    {
        let total: usize = self.data.len();
        proof {
            lemma_cell_bounds(i as int, j as int, self.num_rows as int, self.num_columns as int);
            lemma_row_bounds(i as int, self.num_rows as int, self.num_columns as int);
            assert(total == self.num_rows as int * self.num_columns as int);
        }
        let offset: usize = i * self.num_columns + j;
        self.data.set(offset, value);
    }
}

/// Writing a row shows in reading it: a matrix that holds `row` where
/// `before` held row `i`, and `before`'s cells elsewhere, has `row` as its
/// row `i` and every other row as `before` had it.
pub proof fn lemma_row_write_through<T>(before: &Matrix<T>, after: &Matrix<T>, i: int, row: Seq<T>)
    requires
        before.wf(),
        0 <= i < before.spec_num_rows(),
        row.len() == before.spec_num_columns(),
        after.spec_num_rows() == before.spec_num_rows(),
        after.spec_num_columns() == before.spec_num_columns(),
        after@ == before@.subrange(0, i * before.spec_num_columns()) + row + before@.subrange(
            (i + 1) * before.spec_num_columns(),
            before@.len() as int,
        ),
    ensures
        after.wf(),
        after.row_seq(i) == row,
        forall|r: int|
            0 <= r < before.spec_num_rows() && r != i ==> #[trigger] after.row_seq(r)
                == before.row_seq(r),
{
    let rows = before.spec_num_rows() as int;
    let cols = before.spec_num_columns() as int;
    lemma_row_bounds(i, rows, cols);
    assert(after.row_seq(i) =~= row);
    assert forall|r: int| 0 <= r < rows && r != i implies #[trigger] after.row_seq(r)
        == before.row_seq(r) by {
        lemma_row_bounds(r, rows, cols);
        if r < i {
            lemma_row_bounds(r, i, cols);
        } else {
            lemma_row_bounds(i, r, cols);
        }
        assert(after.row_seq(r) =~= before.row_seq(r));
    }
}

} // verus!
