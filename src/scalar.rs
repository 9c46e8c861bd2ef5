use vstd::prelude::*;

verus! {

/// The arithmetic that elimination needs from a number type.
///
/// Each operation is a pure function of its operands: the executable method
/// returns exactly what the matching spec function gives. Nothing more is
/// assumed, so every contract of the solver speaks of these spec functions
/// and holds for any number type, floating point included.
pub trait Scalar: Sized + Copy {
    spec fn add_spec(self, o: Self) -> Self;

    spec fn sub_spec(self, o: Self) -> Self;

    spec fn mul_spec(self, o: Self) -> Self;

    spec fn div_spec(self, o: Self) -> Self;

    spec fn abs_spec(self) -> Self;

    /// Strict order on values, used to compare magnitudes.
    spec fn gt_spec(self, o: Self) -> bool;

    spec fn is_zero_spec(self) -> bool;

    fn add(self, o: Self) -> (r: Self)
        ensures
            r == self.add_spec(o),
    ;

    fn sub(self, o: Self) -> (r: Self)
        ensures
            r == self.sub_spec(o),
    ;

    fn mul(self, o: Self) -> (r: Self)
        ensures
            r == self.mul_spec(o),
    ;

    fn div(self, o: Self) -> (r: Self)
        ensures
            r == self.div_spec(o),
    ;

    fn abs(self) -> (r: Self)
        ensures
            r == self.abs_spec(),
    ;

    fn gt(self, o: Self) -> (r: bool)
        ensures
            r == self.gt_spec(o),
    ;

    fn is_zero(self) -> (r: bool)
        ensures
            r == self.is_zero_spec(),
    ;
}

} // verus!
