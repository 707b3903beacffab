//! The scalar field that coordinates and lengths are taken from.
//!
//! The library never looks inside a scalar. Every operation has a spec twin
//! that names its result, and the executable method promises to return exactly
//! that value, so that contracts elsewhere can be written as expressions over
//! the twins. The library's proofs use nothing of a twin but its name. An
//! implementation that is itself verified overrides the twins with what its
//! operations return; one that is not leaves them as they are.

use vstd::prelude::*;

verus! {

/// A totally ordered scalar with the operations of a floating field.
///
/// Operations may yield values that are not numbers (an overflow, a division
/// by zero); `is_number` is the only way to tell those apart.
pub trait Real: Copy {
    /// The value of `zero`.
    open spec fn zero_spec() -> Self {
        arbitrary()
    }

    /// The value of `one`.
    open spec fn one_spec() -> Self {
        arbitrary()
    }

    /// The scalar that stands for the count `n`.
    open spec fn from_usize_spec(n: usize) -> Self {
        arbitrary()
    }

    /// The value of `neg`: the negation.
    open spec fn neg_spec(self) -> Self {
        arbitrary()
    }

    /// The value of `abs`: the absolute value.
    open spec fn abs_spec(self) -> Self {
        arbitrary()
    }

    /// The value of `recip`: the reciprocal.
    open spec fn recip_spec(self) -> Self {
        arbitrary()
    }

    /// The value of `sqrt`: the square root.
    open spec fn sqrt_spec(self) -> Self {
        arbitrary()
    }

    /// The value of `add`: the sum.
    open spec fn add_spec(self, o: Self) -> Self {
        arbitrary()
    }

    /// The value of `sub`: the difference.
    open spec fn sub_spec(self, o: Self) -> Self {
        arbitrary()
    }

    /// The value of `mul`: the product.
    open spec fn mul_spec(self, o: Self) -> Self {
        arbitrary()
    }

    /// The value of `div`: the quotient.
    open spec fn div_spec(self, o: Self) -> Self {
        arbitrary()
    }

    /// The value of `max`: the larger of the two.
    open spec fn max_spec(self, o: Self) -> Self {
        arbitrary()
    }

    /// The value of `min`: the smaller of the two.
    open spec fn min_spec(self, o: Self) -> Self {
        arbitrary()
    }

    /// The value of `pow`: `self` raised to the power `o`.
    open spec fn pow_spec(self, o: Self) -> Self {
        arbitrary()
    }

    /// The value of `lt`: whether `self < o`.
    open spec fn lt_spec(self, o: Self) -> bool {
        arbitrary()
    }

    /// The value of `le`: whether `self <= o`.
    open spec fn le_spec(self, o: Self) -> bool {
        arbitrary()
    }

    /// The value of `equals`: whether `self == o`.
    open spec fn equals_spec(self, o: Self) -> bool {
        arbitrary()
    }

    /// The value of `is_number`: whether `self` is finite and not a NaN.
    open spec fn is_number_spec(self) -> bool {
        arbitrary()
    }

    /// The additive identity.
    fn zero() -> (r: Self)
        ensures
            r == Self::zero_spec(),
    ;

    /// The multiplicative identity.
    fn one() -> (r: Self)
        ensures
            r == Self::one_spec(),
    ;

    /// The scalar nearest to the count `n`.
    fn from_usize(n: usize) -> (r: Self)
        ensures
            r == Self::from_usize_spec(n),
    ;

    /// Returns the negation.
    fn neg(self) -> (r: Self)
        ensures
            r == self.neg_spec(),
    ;

    /// Returns the absolute value.
    fn abs(self) -> (r: Self)
        ensures
            r == self.abs_spec(),
    ;

    /// Returns the reciprocal.
    fn recip(self) -> (r: Self)
        ensures
            r == self.recip_spec(),
    ;

    /// Returns the square root.
    fn sqrt(self) -> (r: Self)
        ensures
            r == self.sqrt_spec(),
    ;

    /// Returns the sum.
    fn add(self, o: Self) -> (r: Self)
        ensures
            r == self.add_spec(o),
    ;

    /// Returns the difference.
    fn sub(self, o: Self) -> (r: Self)
        ensures
            r == self.sub_spec(o),
    ;

    /// Returns the product.
    fn mul(self, o: Self) -> (r: Self)
        ensures
            r == self.mul_spec(o),
    ;

    /// Returns the quotient.
    fn div(self, o: Self) -> (r: Self)
        ensures
            r == self.div_spec(o),
    ;

    /// Returns the larger of the two.
    fn max(self, o: Self) -> (r: Self)
        ensures
            r == self.max_spec(o),
    ;

    /// Returns the smaller of the two.
    fn min(self, o: Self) -> (r: Self)
        ensures
            r == self.min_spec(o),
    ;

    /// Returns `self` raised to the power `o`.
    fn pow(self, o: Self) -> (r: Self)
        ensures
            r == self.pow_spec(o),
    ;

    /// Returns whether `self < o`.
    fn lt(self, o: Self) -> (b: bool)
        ensures
            b == self.lt_spec(o),
    ;

    /// Returns whether `self <= o`.
    fn le(self, o: Self) -> (b: bool)
        ensures
            b == self.le_spec(o),
    ;

    /// Returns whether `self == o`.
    fn equals(self, o: Self) -> (b: bool)
        ensures
            b == self.equals_spec(o),
    ;

    /// Returns whether `self` is finite and not a NaN.
    fn is_number(self) -> (b: bool)
        ensures
            b == self.is_number_spec(),
    ;
}

/// One half, as the library computes it: `one / 2`.
pub open spec fn half_spec<R: Real>() -> R {
    R::one_spec().div_spec(R::from_usize_spec(2))
}

/// One half.
pub fn half<R: Real>() -> (r: R)
    ensures
        r == half_spec::<R>(),
{
    R::one().div(R::from_usize(2))
}

/// The tolerance `1 / den`, as the library computes it.
pub open spec fn tolerance_spec<R: Real>(den: usize) -> R {
    R::one_spec().div_spec(R::from_usize_spec(den))
}

/// The tolerance `1 / den`.
pub fn tolerance<R: Real>(den: usize) -> (r: R)
    ensures
        r == tolerance_spec::<R>(den),
{
    R::one().div(R::from_usize(den))
}

} // verus!
