use vstd::prelude::*;

use crate::scalar::Scalar;

verus! {

/// Why a polynomial could not be built or evaluated.
#[derive(Debug, Clone, Copy, PartialEq, Eq, Structural)]
pub enum Error {
    /// There is no coefficient to evaluate.
    EvaluationError,
    /// An input could not be read as a coefficient.
    BuildError,
}

/// The value at `x` of the polynomial whose coefficients, highest degree
/// first, are `c`, by nested multiplication.
pub open spec fn horner<T: Scalar>(c: Seq<T>, x: T) -> T
    decreases c.len(),
{
    if c.len() <= 1 {
        c[0]
    } else {
        c.last().add_spec(horner(c.drop_last(), x).mul_spec(x))
    }
}

/// A function of one variable given by its coefficients.
pub trait Function<T: Scalar> {
    spec fn coefficients_view(&self) -> Seq<T>;

    fn coefficients(&self) -> (r: &Vec<T>)
        ensures
            r@ == self.coefficients_view(),
    ;

    /// Horner evaluation at `x`; fails when there is no coefficient.
    fn eval(&self, x: T) -> (r: Result<T, Error>)
        ensures
            self.coefficients_view().len() == 0 ==> r == Err::<T, Error>(Error::EvaluationError),
            self.coefficients_view().len() > 0 ==> r == Ok::<T, Error>(
                horner(self.coefficients_view(), x),
            ),
    {
        let coefficients = self.coefficients();
        if coefficients.len() == 0 {
            return Err(Error::EvaluationError);
        }
        let mut sum = coefficients[0];
        let mut i: usize = 1;
        while i < coefficients.len()
            invariant
                coefficients@ == self.coefficients_view(),
                1 <= i <= coefficients@.len(),
                sum == horner(coefficients@.subrange(0, i as int), x),
            decreases coefficients@.len() - i,
        {
            let product = sum.mul(x);
            sum = coefficients[i].add(product);
            proof {
                let next = coefficients@.subrange(0, i + 1);
                assert(next.drop_last() =~= coefficients@.subrange(0, i as int));
            }
            i = i + 1;
        }
        assert(coefficients@.subrange(0, i as int) =~= coefficients@);
        Ok(sum)
    }
}

/// A polynomial, coefficients highest degree first.
pub struct Polynomial<T> {
    coefficients: Vec<T>,
}

impl<T: Scalar> Polynomial<T> {
    /// Builds a polynomial from command-line style arguments, each already
    /// read as a coefficient (`None` where it could not be): the first
    /// argument, the program's name, is skipped; any other that could not be
    /// read fails the build.
    pub fn build(args: Vec<Option<T>>) -> (r: Result<Polynomial<T>, Error>)
        ensures
            (forall|i: int| 1 <= i < args@.len() ==> (#[trigger] args@[i]) is Some) ==> (r matches Ok(
                p,
            ) && p.coefficients_view().len() == (if args@.len() == 0 {
                0
            } else {
                args@.len() - 1
            }) && forall|i: int|
                0 <= i < p.coefficients_view().len() ==> Some(#[trigger] p.coefficients_view()[i])
                    == args@[i + 1]),
            (exists|i: int| 1 <= i < args@.len() && (#[trigger] args@[i]) is None) ==> r == Err::<
                Polynomial<T>,
                Error,
            >(Error::BuildError),
    {
        let mut coefficients: Vec<T> = Vec::new();
        let mut i: usize = 1;
        while i < args.len()
            invariant
                1 <= i,
                i == 1 || i <= args@.len(),
                coefficients@.len() == i - 1,
                forall|k: int| 1 <= k < i ==> (#[trigger] args@[k]) is Some,
                forall|k: int| 0 <= k < coefficients@.len() ==> Some(#[trigger] coefficients@[k]) == args@[k + 1],
            decreases args@.len() - i,
        {
            match args[i] {
                Some(coefficient) => coefficients.push(coefficient),
                None => return Err(Error::BuildError),
            }
            i = i + 1;
        }
        let p = Polynomial { coefficients };
        Ok(p)
    }

    pub fn new(coefficients: Vec<T>) -> (r: Polynomial<T>)
        ensures
            r.coefficients_view() == coefficients@,
    {
        Polynomial { coefficients }
    }
}

impl<T: Scalar> Function<T> for Polynomial<T> {
    closed spec fn coefficients_view(&self) -> Seq<T> {
        self.coefficients@
    }

    fn coefficients(&self) -> (r: &Vec<T>) {
        &self.coefficients
    }
}

} // verus!
