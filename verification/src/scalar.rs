use vstd::prelude::*;

verus! {

/// The element type of a tape: the arithmetic that the tensor operations
/// apply to individual values. The tape's bookkeeping (shapes, layouts,
/// which values feed which results) does not depend on what these methods
/// compute.
pub trait Scalar: Copy {
    /// The value `num / den`.
    fn from_ratio(num: i32, den: u32) -> Self;

    /// The count `n` as a value.
    fn from_count(n: usize) -> Self;

    /// Negative infinity.
    fn neg_infinity() -> Self;

    fn plus(self, other: Self) -> Self;

    fn minus(self, other: Self) -> Self;

    fn times(self, other: Self) -> Self;

    fn negate(self) -> Self;

    /// `self` raised to the power `n`.
    fn powf(self, n: Self) -> Self;

    /// Natural logarithm.
    fn ln(self) -> Self;

    /// Natural exponential.
    fn exp(self) -> Self;

    /// The larger of the two values.
    fn maximum(self, other: Self) -> Self;

    /// Whether the value is greater than zero.
    fn is_positive(self) -> bool;

    /// The value read back as an index (truncated towards zero).
    fn to_index(self) -> usize;
}

} // verus!
