//! Matrix multiplication, one output cell at a time and one output row per
//! work unit.
//!
//! Both algorithms are stated for any cell type with `Scalar` arithmetic:
//! a cell of the product is the multiply-accumulate steps of that type,
//! taken in increasing order from its zero.
use vstd::prelude::*;
use vstd::arithmetic::div_mod::lemma_fundamental_div_mod;
use rayon::iter::{IndexedParallelIterator, ParallelIterator};
use rayon::slice::{ParallelSlice, ParallelSliceMut};
use crate::arith::{lemma_cell_bounds, lemma_row_bounds};
use crate::error::MatrixError;
use crate::matrix::Matrix;
use crate::scalar::Scalar;

verus! {

/// What `base` becomes after the first `terms` multiply-accumulate steps
/// of the row `ai` with column `j` of `b`, in increasing order.
pub open spec fn row_fold<T: Scalar>(base: T, ai: Seq<T>, b: &Matrix<T>, j: int, terms: nat) -> T
    decreases terms,
{
    if terms == 0 {
        base
    } else {
        T::accumulate_spec(
            row_fold(base, ai, b, j, (terms - 1) as nat),
            ai[terms - 1],
            b.cell(terms - 1, j),
        )
    }
}

/// Cell `(i, j)` of the product of `a` and `b`: the zero of the type
/// after all the multiply-accumulate steps of row `i` of `a` with column
/// `j` of `b`.
pub open spec fn product_cell<T: Scalar>(a: &Matrix<T>, b: &Matrix<T>, i: int, j: int) -> T {
    row_fold(T::zero_spec(), a.row_seq(i), b, j, a.spec_num_columns())
}

/// `c` is the product of `a` and `b`.
pub open spec fn is_product<T: Scalar>(c: &Matrix<T>, a: &Matrix<T>, b: &Matrix<T>) -> bool {
    &&& c.wf()
    &&& c.spec_num_rows() == a.spec_num_rows()
    &&& c.spec_num_columns() == b.spec_num_columns()
    &&& forall|i: int, j: int|
        0 <= i < c.spec_num_rows() && 0 <= j < c.spec_num_columns() ==> #[trigger] c.cell(i, j)
            == product_cell(a, b, i, j)
}

/// The failure that multiplying `a` by `b` answers with: the two sizes that
/// should be equal, the columns of `a` and the rows of `b`, if they differ.
pub open spec fn mismatch<T>(a: &Matrix<T>, b: &Matrix<T>) -> Option<MatrixError> {
    if a.spec_num_columns() != b.spec_num_rows() {
        Some(
            MatrixError::DimensionMismatch {
                num_columns: a.spec_num_columns() as usize,
                num_rows: b.spec_num_rows() as usize,
            },
        )
    } else {
        None
    }
}

/// Two cells of a row-major buffer with the same flat offset are the same
/// cell.
proof fn lemma_cells_distinct(r: int, q: int, i: int, j: int, cols: int)
    requires
        0 <= r,
        0 <= i,
        0 <= q < cols,
        0 <= j < cols,
        r * cols + q == i * cols + j,
    ensures
        r == i,
        q == j,
{
    if r < i {
        lemma_row_bounds(r, i, cols);
    } else if i < r {
        lemma_row_bounds(i, r, cols);
    }
}

/// Multiplies `a` by `b` with the triple loop: every output cell is
/// accumulated in turn, its terms in increasing order.
pub fn multiply_naive<T: Scalar>(a: &Matrix<T>, b: &Matrix<T>) -> (result: Result<
    Matrix<T>,
    MatrixError,
>)
    requires
        a.wf(),
        b.wf(),
        a.spec_num_rows() * b.spec_num_columns() <= usize::MAX,
    ensures
        mismatch(a, b) is Some ==> result == Err::<Matrix<T>, MatrixError>(
            mismatch(a, b).unwrap(),
        ),
        mismatch(a, b) is None ==> result is Ok && is_product(&result.unwrap(), a, b),
{
    if a.num_columns() != b.num_rows() {
        return Err(
            MatrixError::DimensionMismatch {
                num_columns: a.num_columns(),
                num_rows: b.num_rows(),
            },
        );
    }
    let m: usize = a.num_rows();
    let n: usize = a.num_columns();
    let p: usize = b.num_columns();
    let zero: T = T::zero();
    let mut c = match Matrix::full(m, p, zero) {
        Ok(c) => c,
        Err(e) => {
            return Err(e);
        },
    };
    let cells_a = a.as_flattened();
    let cells_b = b.as_flattened();
    let len_a: usize = cells_a.len();
    let len_b: usize = cells_b.len();
    let mut i: usize = 0;
    while i < m
        invariant
            i <= m,
            zero == T::zero_spec(),
            a.wf(),
            b.wf(),
            c.wf(),
            m == a.spec_num_rows() == c.spec_num_rows(),
            n == a.spec_num_columns() == b.spec_num_rows(),
            p == b.spec_num_columns() == c.spec_num_columns(),
            cells_a@ == a@,
            cells_b@ == b@,
            len_a == a@.len(),
            len_b == b@.len(),
            forall|r: int, q: int|
                0 <= r < i && 0 <= q < p ==> #[trigger] c.cell(r, q) == product_cell(a, b, r, q),
        decreases m - i,
    {
        let mut j: usize = 0;
        while j < p
            invariant
                i < m,
                j <= p,
                zero == T::zero_spec(),
                a.wf(),
                b.wf(),
                c.wf(),
                m == a.spec_num_rows() == c.spec_num_rows(),
                n == a.spec_num_columns() == b.spec_num_rows(),
                p == b.spec_num_columns() == c.spec_num_columns(),
                cells_a@ == a@,
                cells_b@ == b@,
                len_a == a@.len(),
                len_b == b@.len(),
                forall|r: int, q: int|
                    0 <= r < i && 0 <= q < p ==> #[trigger] c.cell(r, q) == product_cell(
                        a,
                        b,
                        r,
                        q,
                    ),
                forall|q: int|
                    0 <= q < j ==> #[trigger] c.cell(i as int, q) == product_cell(
                        a,
                        b,
                        i as int,
                        q,
                    ),
            decreases p - j,
        {
            let mut acc: T = zero;
            let mut k: usize = 0;
            proof {
                lemma_row_bounds(i as int, m as int, n as int);
            }
            while k < n
                invariant
                    i < m,
                    j < p,
                    k <= n,
                    a.wf(),
                    b.wf(),
                    m == a.spec_num_rows(),
                    n == a.spec_num_columns() == b.spec_num_rows(),
                    p == b.spec_num_columns(),
                    cells_a@ == a@,
                    cells_b@ == b@,
                    len_a == a@.len(),
                    len_b == b@.len(),
                    0 <= i * n,
                    (i + 1) * n <= a@.len(),
                    i * n + n == (i + 1) * n,
                    acc == row_fold(T::zero_spec(), a.row_seq(i as int), b, j as int, k as nat),
                decreases n - k,
            {
                proof {
                    lemma_cell_bounds(k as int, j as int, n as int, p as int);
                    lemma_row_bounds(k as int, n as int, p as int);
                }
                let aik: T = cells_a[i * n + k];
                let bkj: T = cells_b[k * p + j];
                acc = T::accumulate(acc, aik, bkj);
                k += 1;
            }
            let ghost before = c;
            c.set_cell(i, j, acc);
            proof {
                lemma_cell_bounds(i as int, j as int, m as int, p as int);
                assert forall|r: int, q: int| 0 <= r < i && 0 <= q < p implies #[trigger] c.cell(
                    r,
                    q,
                ) == product_cell(a, b, r, q) by {
                    lemma_cell_bounds(r, q, m as int, p as int);
                    if r * p + q == i * p + j {
                        lemma_cells_distinct(r, q, i as int, j as int, p as int);
                    }
                    assert(c.cell(r, q) == before.cell(r, q));
                }
                assert forall|q: int| 0 <= q < j + 1 implies #[trigger] c.cell(i as int, q)
                    == product_cell(a, b, i as int, q) by {
                    if q < j {
                        assert(c.cell(i as int, q) == before.cell(i as int, q));
                    }
                }
            }
            j += 1;
        }
        i += 1;
    }
    Ok(c)
}

/// The work unit of the row-partitioned multiplication: takes every cell
/// `j` of the output row `ci` through the multiply-accumulate steps of the
/// row `ai` with column `j` of `b`, with the terms of `ai` in the outer
/// loop and the columns of `b` in the inner loop.
pub fn accumulate_row<T: Scalar>(ci: &mut [T], ai: &[T], b: &Matrix<T>)
    requires
        b.wf(),
        old(ci)@.len() == b.spec_num_columns(),
        ai@.len() == b.spec_num_rows(),
    ensures
        final(ci)@.len() == old(ci)@.len(),
        forall|j: int|
            0 <= j < old(ci)@.len() ==> #[trigger] final(ci)@[j] == row_fold(
                old(ci)@[j],
                ai@,
                b,
                j,
                ai@.len(),
            ),
{
    let n: usize = b.num_rows();
    let p: usize = b.num_columns();
    let cells_b = b.as_flattened();
    let len_b: usize = cells_b.len();
    let mut k: usize = 0;
    while k < n
        invariant
            k <= n,
            b.wf(),
            n == b.spec_num_rows() == ai@.len(),
            p == b.spec_num_columns() == ci@.len() == old(ci)@.len(),
            cells_b@ == b@,
            len_b == b@.len(),
            forall|j: int|
                0 <= j < p ==> #[trigger] ci@[j] == row_fold(old(ci)@[j], ai@, b, j, k as nat),
        decreases n - k,
    {
        let aik: T = ai[k];
        let mut j: usize = 0;
        proof {
            lemma_row_bounds(k as int, n as int, p as int);
        }
        while j < p
            invariant
                k < n,
                j <= p,
                b.wf(),
                n == b.spec_num_rows() == ai@.len(),
                p == b.spec_num_columns() == ci@.len() == old(ci)@.len(),
                cells_b@ == b@,
                len_b == b@.len(),
                aik == ai@[k as int],
                0 <= k * p,
                (k + 1) * p <= b@.len(),
                k * p + p == (k + 1) * p,
                forall|q: int|
                    0 <= q < j ==> #[trigger] ci@[q] == row_fold(
                        old(ci)@[q],
                        ai@,
                        b,
                        q,
                        (k + 1) as nat,
                    ),
                forall|q: int|
                    j <= q < p ==> #[trigger] ci@[q] == row_fold(old(ci)@[q], ai@, b, q, k as nat),
            decreases p - j,
        {
            let bkj: T = cells_b[k * p + j];
            let cij: T = ci[j];
            ci[j] = T::accumulate(cij, aik, bkj);
            j += 1;
        }
        k += 1;
    }
}

/// Runs `accumulate_row` once for every row index `i`, on row `i` of `c`
/// and row `i` of `a`, the rows shared out among the threads of the pool.
///
/// The body calls rayon's `par_chunks_mut` on the cells of `c` and
/// `par_chunks` on the cells of `a`, pairs the chunks in order with `zip`
/// and hands each pair to `accumulate_row` through `for_each`, which
/// returns when every pair is done. The chunks of one slice do not overlap
/// and each is one row wide, so the contract lifts the contract of
/// `accumulate_row` from one row to every row.
#[verifier::external_body]
fn accumulate_rows_in_parallel<T: Scalar + Send + Sync>(
    c: &mut Matrix<T>,
    a: &Matrix<T>,
    b: &Matrix<T>,
)
    requires
        old(c).wf(),
        a.wf(),
        b.wf(),
        old(c).spec_num_rows() == a.spec_num_rows(),
        old(c).spec_num_columns() == b.spec_num_columns(),
        a.spec_num_columns() == b.spec_num_rows(),
    ensures
        final(c).wf(),
        final(c).spec_num_rows() == old(c).spec_num_rows(),
        final(c).spec_num_columns() == old(c).spec_num_columns(),
        forall|i: int, j: int|
            0 <= i < old(c).spec_num_rows() && 0 <= j < old(c).spec_num_columns()
                ==> #[trigger] final(c).cell(i, j) == row_fold(
                old(c).cell(i, j),
                a.row_seq(i),
                b,
                j,
                a.spec_num_columns(),
            ),
{
    let width = c.num_columns;
    let depth = a.num_columns;
    c.data.par_chunks_mut(width).zip(a.data.par_chunks(depth)).for_each(
        |(ci, ai)| accumulate_row(ci, ai, b),
    );
}

/// Multiplies `a` by `b` with one work unit per output row, the units run
/// in parallel.
pub fn multiply_parallel<T: Scalar + Send + Sync>(a: &Matrix<T>, b: &Matrix<T>) -> (result:
    Result<Matrix<T>, MatrixError>)
    requires
        a.wf(),
        b.wf(),
        a.spec_num_rows() * b.spec_num_columns() <= usize::MAX,
    ensures
        mismatch(a, b) is Some ==> result == Err::<Matrix<T>, MatrixError>(
            mismatch(a, b).unwrap(),
        ),
        mismatch(a, b) is None ==> result is Ok && is_product(&result.unwrap(), a, b),
{
    if a.num_columns() != b.num_rows() {
        return Err(
            MatrixError::DimensionMismatch {
                num_columns: a.num_columns(),
                num_rows: b.num_rows(),
            },
        );
    }
    let zero: T = T::zero();
    let mut c = match Matrix::full(a.num_rows(), b.num_columns(), zero) {
        Ok(c) => c,
        Err(e) => {
            return Err(e);
        },
    };
    let ghost before = c;
    accumulate_rows_in_parallel(&mut c, a, b);
    proof {
        assert forall|i: int, j: int|
            0 <= i < c.spec_num_rows() && 0 <= j < c.spec_num_columns() implies #[trigger] c.cell(
            i,
            j,
        ) == product_cell(a, b, i, j) by {
            lemma_cell_bounds(i, j, c.spec_num_rows() as int, c.spec_num_columns() as int);
            assert(before.cell(i, j) == T::zero_spec());
        }
    }
    Ok(c)
}

impl<T: Scalar + Send + Sync> Matrix<T> {
    /// Multiplies matrix `a` by matrix `b`, producing `c = a * b`, with the
    /// row-partitioned parallel algorithm.
    pub fn mul(a: &Self, b: &Self) -> (result: Result<Self, MatrixError>)
        requires
            a.wf(),
            b.wf(),
            a.spec_num_rows() * b.spec_num_columns() <= usize::MAX,
        ensures
            mismatch(a, b) is Some ==> result == Err::<Self, MatrixError>(mismatch(a, b).unwrap()),
            mismatch(a, b) is None ==> result is Ok && is_product(&result.unwrap(), a, b),
    {
        multiply_parallel(a, b)
    }
}

/// Two products of the same operands are the same matrix: whatever an
/// algorithm's order of work, a result that `is_product` describes has the
/// same shape and the same cells as any other.
pub proof fn lemma_products_agree<T: Scalar>(
    c1: &Matrix<T>,
    c2: &Matrix<T>,
    a: &Matrix<T>,
    b: &Matrix<T>,
)
    requires
        is_product(c1, a, b),
        is_product(c2, a, b),
    ensures
        c1.spec_num_rows() == c2.spec_num_rows(),
        c1.spec_num_columns() == c2.spec_num_columns(),
        c1@ == c2@,
{
    let rows = c1.spec_num_rows() as int;
    let cols = c1.spec_num_columns() as int;
    assert forall|k: int| 0 <= k < c1@.len() implies c1@[k] == c2@[k] by {
        let i = k / cols;
        let j = k % cols;
        lemma_fundamental_div_mod(k, cols);
        assert(cols * i == i * cols) by (nonlinear_arith);
        assert(0 <= i < rows) by (nonlinear_arith)
            requires
                0 <= k < rows * cols,
                k == i * cols + j,
                0 <= j < cols,
        ;
        assert(c1.cell(i, j) == product_cell(a, b, i, j));
        assert(c2.cell(i, j) == product_cell(a, b, i, j));
    }
    assert(c1@ =~= c2@);
}

} // verus!
