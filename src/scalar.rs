use vstd::prelude::*;

verus! {

/// The entries of a matrix.
///
/// The elimination procedure needs an exact zero test, the two constants and
/// three operations. Each operation is modelled by a spec function of the
/// implementing type, so the results of a reduction are stated exactly in
/// terms of those functions, whatever rounding the type performs.
pub trait Scalar: Copy + Sized {
    /// The value is exactly zero.
    spec fn spec_is_zero(&self) -> bool;

    /// The value is exactly one.
    spec fn spec_is_one(&self) -> bool;

    /// The constant zero.
    spec fn spec_zero() -> Self;

    /// The constant one.
    spec fn spec_one() -> Self;

    /// The product of two values.
    spec fn spec_mul(&self, other: Self) -> Self;

    /// The difference of two values.
    spec fn spec_sub(&self, other: Self) -> Self;

    /// The reciprocal of a value, or `None` when it is not a finite value of
    /// the type.
    spec fn spec_recip(&self) -> Option<Self>;

    fn is_zero(&self) -> (r: bool)
        ensures
            r == self.spec_is_zero(),
    ;

    fn is_one(&self) -> (r: bool)
        ensures
            r == self.spec_is_one(),
    ;

    fn zero() -> (r: Self)
        ensures
            r == Self::spec_zero(),
            r.spec_is_zero(),
    ;

    fn one() -> (r: Self)
        ensures
            r == Self::spec_one(),
            r.spec_is_one(),
    ;

    fn mul(&self, other: &Self) -> (r: Self)
        ensures
            r == self.spec_mul(*other),
    ;

    fn sub(&self, other: &Self) -> (r: Self)
        ensures
            r == self.spec_sub(*other),
    ;

    fn recip(&self) -> (r: Option<Self>)
        ensures
            r == self.spec_recip(),
    ;
}

} // verus!
