use vstd::prelude::*;

verus! {

/// The numbers a matrix holds: a field with an order on magnitudes and a
/// square root.
///
/// The engine is generic in its numbers. The methods carry no contracts of
/// their own: what the arithmetic yields is the implementing type's concern.
/// The engine's contracts say which operation produced each value, through
/// the relations below, and so hold for every implementation.
pub trait Scalar: Copy + Sized {
    /// The additive identity.
    fn zero() -> Self;

    /// The multiplicative identity.
    fn one() -> Self;

    /// The value of a count.
    fn from_count(n: usize) -> Self;

    fn plus(self, rhs: Self) -> Self;

    fn minus(self, rhs: Self) -> Self;

    fn times(self, rhs: Self) -> Self;

    fn divided_by(self, rhs: Self) -> Self;

    /// The principal square root.
    fn square_root(self) -> Self;

    /// The absolute value.
    fn magnitude(self) -> Self;

    /// Whether `self` is strictly greater than `rhs`.
    fn exceeds(self, rhs: Self) -> bool;

    /// Whether `self` counts as zero: equal to it, or within the
    /// implementation's numerical tolerance of it. A pivot that counts as
    /// zero makes a matrix singular.
    fn is_zero(self) -> bool;

    /// Whether `self` is an ordinary number: neither infinite nor undefined.
    fn is_finite(self) -> bool;
}

/// `z` is what `T::zero` returns.
pub open spec fn is_zero_value<T: Scalar>(z: T) -> bool {
    call_ensures(T::zero, (), z)
}

/// `u` is what `T::one` returns.
pub open spec fn is_one_value<T: Scalar>(u: T) -> bool {
    call_ensures(T::one, (), u)
}

/// `r` is what `a.plus(b)` returns.
pub open spec fn is_sum<T: Scalar>(a: T, b: T, r: T) -> bool {
    call_ensures(T::plus, (a, b), r)
}

/// `r` is what `a.minus(b)` returns.
pub open spec fn is_difference<T: Scalar>(a: T, b: T, r: T) -> bool {
    call_ensures(T::minus, (a, b), r)
}

/// `r` is what `a.times(b)` returns.
pub open spec fn is_product<T: Scalar>(a: T, b: T, r: T) -> bool {
    call_ensures(T::times, (a, b), r)
}

/// `r` is what `a.divided_by(b)` returns.
pub open spec fn is_quotient<T: Scalar>(a: T, b: T, r: T) -> bool {
    call_ensures(T::divided_by, (a, b), r)
}

/// `r` is what `a.square_root()` returns.
pub open spec fn is_square_root<T: Scalar>(a: T, r: T) -> bool {
    call_ensures(T::square_root, (a,), r)
}

/// `r` is what `a.magnitude()` returns.
pub open spec fn is_magnitude<T: Scalar>(a: T, r: T) -> bool {
    call_ensures(T::magnitude, (a,), r)
}

/// `c` is what `T::from_count(n)` returns.
pub open spec fn is_count_value<T: Scalar>(n: usize, c: T) -> bool {
    call_ensures(T::from_count, (n,), c)
}

/// `r` is what `a.is_finite()` returns.
pub open spec fn finiteness<T: Scalar>(a: T, r: bool) -> bool {
    call_ensures(T::is_finite, (a,), r)
}

/// `r` is what `a.exceeds(b)` returns.
pub open spec fn compares_above<T: Scalar>(a: T, b: T, r: bool) -> bool {
    call_ensures(T::exceeds, (a, b), r)
}

} // verus!
