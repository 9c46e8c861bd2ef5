use linsolve::{Error, Function, Polynomial, Scalar};

#[derive(Debug, Clone, Copy, PartialEq)]
struct G(f64);

// The `_spec` methods are the values that the solver's contracts speak of;
// compiled, they are ordinary methods, and each operation returns its own.
impl Scalar for G {
    fn add_spec(self, o: G) -> G {
        G(self.0 + o.0)
    }
    fn sub_spec(self, o: G) -> G {
        G(self.0 - o.0)
    }
    fn mul_spec(self, o: G) -> G {
        G(self.0 * o.0)
    }
    fn div_spec(self, o: G) -> G {
        G(self.0 / o.0)
    }
    fn abs_spec(self) -> G {
        G(self.0.abs())
    }
    fn gt_spec(self, o: G) -> bool {
        self.0 > o.0
    }
    fn is_zero_spec(self) -> bool {
        self.0 == 0.0
    }
    fn add(self, o: G) -> G {
        self.add_spec(o)
    }
    fn sub(self, o: G) -> G {
        self.sub_spec(o)
    }
    fn mul(self, o: G) -> G {
        self.mul_spec(o)
    }
    fn div(self, o: G) -> G {
        self.div_spec(o)
    }
    fn abs(self) -> G {
        self.abs_spec()
    }
    fn gt(self, o: G) -> bool {
        self.gt_spec(o)
    }
    fn is_zero(self) -> bool {
        self.is_zero_spec()
    }
}

#[test]
fn horner_evaluation() {
    // 2x^2 - 3x + 1 at x = 4
    let p = Polynomial::new(vec![G(2.0), G(-3.0), G(1.0)]);
    assert_eq!(p.eval(G(4.0)), Ok(G(21.0)));
}

#[test]
fn constant_polynomial() {
    let p = Polynomial::new(vec![G(7.0)]);
    assert_eq!(p.eval(G(100.0)), Ok(G(7.0)));
}

#[test]
fn empty_polynomial_fails() {
    let p = Polynomial::<G>::new(vec![]);
    assert_eq!(p.eval(G(1.0)), Err(Error::EvaluationError));
}

#[test]
fn coefficients_are_kept() {
    let p = Polynomial::new(vec![G(1.0), G(2.0)]);
    assert_eq!(p.coefficients(), &vec![G(1.0), G(2.0)]);
}

#[test]
fn build_skips_program_name() {
    let p = Polynomial::build(vec![None, Some(G(1.0)), Some(G(0.0)), Some(G(-1.0))]).unwrap();
    assert_eq!(p.coefficients(), &vec![G(1.0), G(0.0), G(-1.0)]);
    assert_eq!(p.eval(G(3.0)), Ok(G(8.0)));
}

#[test]
fn build_rejects_unreadable_argument() {
    let r = Polynomial::build(vec![None, Some(G(1.0)), None]);
    assert!(matches!(r, Err(Error::BuildError)));
}

#[test]
fn build_from_no_arguments() {
    let p = Polynomial::<G>::build(vec![]).unwrap();
    assert_eq!(p.eval(G(0.0)), Err(Error::EvaluationError));
}
