//! Products of `i64` matrices against the mathematical matrix product.
//!
//! The sums and products of `i64` cells wrap around, so a cell of a product
//! is the mathematical inner product reduced into the range of `i64`, and
//! exactly that inner product wherever it fits.
use vstd::prelude::*;
use vstd::arithmetic::div_mod::{
    lemma_fundamental_div_mod,
    lemma_mod_add_multiples_vanish,
    lemma_mod_multiples_vanish,
    lemma_small_mod,
};
use vstd::wrapping::i64_specs::{signed_crop, wrapping_add};
use crate::matrix::Matrix;
use crate::oper::{is_product, row_fold};

verus! {

/// The integer `x` reduced into the range of `i64`, as two's complement
/// arithmetic does.
pub open spec fn wrap(x: int) -> i64 {
    signed_crop(x)
}

/// The sum of the first `terms` products of the row `ai` with column `j`
/// of `b`.
pub open spec fn row_dot(ai: Seq<i64>, b: &Matrix<i64>, j: int, terms: nat) -> int
    decreases terms,
{
    if terms == 0 {
        0
    } else {
        row_dot(ai, b, j, (terms - 1) as nat) + ai[terms - 1] * b.cell(terms - 1, j)
    }
}

/// The mathematical inner product of row `i` of `a` with column `j` of
/// `b`.
pub open spec fn inner_product(a: &Matrix<i64>, b: &Matrix<i64>, i: int, j: int) -> int {
    row_dot(a.row_seq(i), b, j, a.spec_num_columns())
}

/// A value in the range of `i64` that differs from `t` by a multiple of
/// `2^64` is `wrap(t)`.
pub proof fn lemma_wrap_unique(v: int, t: int, k: int)
    requires
        i64::MIN <= v <= i64::MAX,
        v == t + k * 0x1_0000_0000_0000_0000,
    ensures
        wrap(t) == v,
{
    let r: int = 0x1_0000_0000_0000_0000;
    lemma_mod_multiples_vanish(k, t, r);
    assert(r * k + t == v);
    assert(t % r == v % r);
    if v >= 0 {
        lemma_small_mod(v as nat, r as nat);
    } else {
        lemma_mod_add_multiples_vanish(v, r);
        lemma_small_mod((r + v) as nat, r as nat);
    }
}

/// `wrap(x)` differs from `x` by a multiple of `2^64`.
pub proof fn lemma_wrap_offset(x: int) -> (k: int)
    ensures
        wrap(x) == x + k * 0x1_0000_0000_0000_0000,
{
    let r: int = 0x1_0000_0000_0000_0000;
    lemma_fundamental_div_mod(x, r);
    if (x % r) > i64::MAX {
        -(x / r) - 1
    } else {
        -(x / r)
    }
}

/// Adding wrapped values with wrap-around is wrapping the sum.
pub proof fn lemma_wrap_add(x: int, y: int)
    ensures
        wrapping_add(wrap(x), wrap(y)) == wrap(x + y),
{
    let kx = lemma_wrap_offset(x);
    let ky = lemma_wrap_offset(y);
    let s: int = wrap(x) + wrap(y);
    let kc: int = if s > i64::MAX {
        -1
    } else if s < i64::MIN {
        1
    } else {
        0
    };
    lemma_wrap_unique(wrapping_add(wrap(x), wrap(y)) as int, x + y, kx + ky + kc);
}

/// A value in the range of `i64` wraps to itself.
pub proof fn lemma_wrap_small(x: int)
    requires
        i64::MIN <= x <= i64::MAX,
    ensures
        wrap(x) == x,
{
    lemma_wrap_unique(x, x, 0);
}

/// In `i64`, the multiply-accumulate steps from `base` end at the wrapped
/// sum of `base` and the mathematical sum of the products.
pub proof fn lemma_fold_wraps(base: i64, ai: Seq<i64>, b: &Matrix<i64>, j: int, terms: nat)
    ensures
        row_fold(base, ai, b, j, terms) == wrap(base + row_dot(ai, b, j, terms)),
    decreases terms,
{
    if terms == 0 {
        lemma_wrap_small(base as int);
    } else {
        let before = (terms - 1) as nat;
        lemma_fold_wraps(base, ai, b, j, before);
        lemma_wrap_add(base + row_dot(ai, b, j, before), ai[terms - 1] * b.cell(terms - 1, j));
    }
}

/// A cell of a product of `i64` matrices is the mathematical inner product
/// reduced into the range of `i64`.
pub proof fn lemma_product_wraps(
    c: &Matrix<i64>,
    a: &Matrix<i64>,
    b: &Matrix<i64>,
    i: int,
    j: int,
)
    requires
        is_product(c, a, b),
        0 <= i < c.spec_num_rows(),
        0 <= j < c.spec_num_columns(),
    ensures
        c.cell(i, j) == wrap(inner_product(a, b, i, j)),
{
    lemma_fold_wraps(0, a.row_seq(i), b, j, a.spec_num_columns());
}

/// Where the mathematical inner product fits in an `i64`, the cell of the
/// product holds exactly that number.
pub proof fn lemma_product_exact(
    c: &Matrix<i64>,
    a: &Matrix<i64>,
    b: &Matrix<i64>,
    i: int,
    j: int,
)
    requires
        is_product(c, a, b),
        0 <= i < c.spec_num_rows(),
        0 <= j < c.spec_num_columns(),
        i64::MIN <= inner_product(a, b, i, j) <= i64::MAX,
    ensures
        c.cell(i, j) == inner_product(a, b, i, j),
{
    lemma_product_wraps(c, a, b, i, j);
    lemma_wrap_small(inner_product(a, b, i, j));
}

} // verus!
