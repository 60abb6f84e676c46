//! The arithmetic of a cell type: its identity elements as `num_traits`
//! defines them, and what multiplication needs of it.
use vstd::prelude::*;
use vstd::wrapping::i64_specs::{wrapping_add, wrapping_mul};

verus! {

/// What matrix multiplication needs of a cell type: an additive identity
/// and a multiply-accumulate step, each with its mathematical meaning.
pub trait Scalar: Copy {
    /// The additive identity of the type.
    spec fn zero_spec() -> Self;

    /// `acc + x * y` in the arithmetic of the type.
    spec fn accumulate_spec(acc: Self, x: Self, y: Self) -> Self;

    /// Returns the additive identity.
    fn zero() -> (z: Self)
        ensures
            z == Self::zero_spec(),
    ;

    /// Returns `acc + x * y`.
    fn accumulate(acc: Self, x: Self, y: Self) -> (r: Self)
        ensures
            r == Self::accumulate_spec(acc, x, y),
    ;
}

/// Two's complement arithmetic: sums and products wrap around.
impl Scalar for i64 {
    open spec fn zero_spec() -> i64 {
        0
    }

    open spec fn accumulate_spec(acc: i64, x: i64, y: i64) -> i64 {
        wrapping_add(acc, wrapping_mul(x, y))
    }

    fn zero() -> (z: i64) {
        zero_i64()
    }

    fn accumulate(acc: i64, x: i64, y: i64) -> (r: i64) {
        acc.wrapping_add(x.wrapping_mul(y))
    }
}

/// Calls `num_traits::Zero::zero` for `T`. Nothing is claimed of the
/// value: what it is depends on `T`'s own implementation of the trait.
#[verifier::external_body]
pub(crate) fn zero_value<T: num_traits::Zero>() -> T {
    T::zero()
}

/// Calls `num_traits::One::one` for `T`. Nothing is claimed of the value:
/// what it is depends on `T`'s own implementation of the trait.
#[verifier::external_body]
pub(crate) fn one_value<T: num_traits::One>() -> T {
    T::one()
}

/// Calls `num_traits::Zero::zero` for `i64`, which `num_traits` implements
/// as the literal `0`.
#[verifier::external_body]
fn zero_i64() -> (z: i64)
    ensures
        z == 0,
{
    <i64 as num_traits::Zero>::zero()
}

} // verus!
