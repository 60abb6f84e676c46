//! Arithmetic facts about row offsets in a row-major buffer.
use vstd::prelude::*;
use vstd::arithmetic::div_mod::{lemma_fundamental_div_mod, lemma_fundamental_div_mod_converse};

verus! {

/// Row `i` of a `rows x cols` buffer lies inside the buffer.
pub proof fn lemma_row_bounds(i: int, rows: int, cols: int)
    requires
        0 <= i < rows,
        cols > 0,
    ensures
        0 <= i * cols,
        i * cols + cols == (i + 1) * cols,
        (i + 1) * cols <= rows * cols,
        i * cols < rows * cols,
{
    assert(0 <= i * cols) by (nonlinear_arith)
        requires 0 <= i, cols > 0;
    assert(i * cols + cols == (i + 1) * cols) by (nonlinear_arith);
    assert((i + 1) * cols <= rows * cols) by (nonlinear_arith)
        requires i + 1 <= rows, cols > 0;
}

/// A cell `(i, j)` has a flat offset inside the buffer.
pub proof fn lemma_cell_bounds(i: int, j: int, rows: int, cols: int)
    requires
        0 <= i < rows,
        0 <= j < cols,
    ensures
        0 <= i * cols + j < rows * cols,
{
    lemma_row_bounds(i, rows, cols);
}

/// A length that is a whole number of rows is the row count times the width.
pub proof fn lemma_whole_rows(n: int, w: int)
    requires
        n >= 0,
        w > 0,
        n % w == 0,
    ensures
        n == (n / w) * w,
        n / w >= 0,
        n > 0 ==> n / w >= 1 && n >= w,
{
    lemma_fundamental_div_mod(n, w);
    let q = n / w;
    assert(w * q == q * w) by (nonlinear_arith);
    assert(q >= 0) by (nonlinear_arith)
        requires q * w >= 0, w > 0;
    if n > 0 {
        assert(q >= 1) by (nonlinear_arith)
            requires n == q * w, n > 0, w > 0, q >= 0;
        assert(q * w >= w) by (nonlinear_arith)
            requires q >= 1, w > 0;
    }
}

/// `q` whole rows of width `w` have length `q * w`, a multiple of `w`.
pub proof fn lemma_row_count(q: int, w: int)
    requires
        q >= 0,
        w > 0,
    ensures
        q * w >= 0,
        (q * w) % w == 0,
        (q * w) / w == q,
{
    assert(q * w >= 0) by (nonlinear_arith)
        requires q >= 0, w > 0;
    lemma_fundamental_div_mod_converse(q * w, w, q, 0);
}

} // verus!
