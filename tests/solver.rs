use linsolve::{CoefficientMatrix, Equation, Scalar, SolveError};

#[derive(Debug, Clone, Copy, PartialEq)]
struct F(f64);

// The `_spec` methods are the values that the solver's contracts speak of;
// compiled, they are ordinary methods, and each operation returns its own.
impl Scalar for F {
    fn add_spec(self, o: F) -> F {
        F(self.0 + o.0)
    }
    fn sub_spec(self, o: F) -> F {
        F(self.0 - o.0)
    }
    fn mul_spec(self, o: F) -> F {
        F(self.0 * o.0)
    }
    fn div_spec(self, o: F) -> F {
        F(self.0 / o.0)
    }
    fn abs_spec(self) -> F {
        F(self.0.abs())
    }
    fn gt_spec(self, o: F) -> bool {
        self.0 > o.0
    }
    fn is_zero_spec(self) -> bool {
        self.0 == 0.0
    }
    fn add(self, o: F) -> F {
        self.add_spec(o)
    }
    fn sub(self, o: F) -> F {
        self.sub_spec(o)
    }
    fn mul(self, o: F) -> F {
        self.mul_spec(o)
    }
    fn div(self, o: F) -> F {
        self.div_spec(o)
    }
    fn abs(self) -> F {
        self.abs_spec()
    }
    fn gt(self, o: F) -> bool {
        self.gt_spec(o)
    }
    fn is_zero(self) -> bool {
        self.is_zero_spec()
    }
}

fn eqn(coefficients: &[f64], result: f64) -> Equation<F> {
    Equation::new(coefficients.iter().map(|c| F(*c)).collect(), F(result))
}

fn values(m: &CoefficientMatrix<F>) -> Vec<(Vec<f64>, f64)> {
    (0..m.len())
        .map(|i| {
            let e = m.equation(i);
            ((0..e.len()).map(|j| e.get(j).0).collect(), e.get_result().0)
        })
        .collect()
}

#[test]
fn convert_to_upper_triangular() {
    let converted = CoefficientMatrix::new(2)
        .add_equation(Equation::new(vec![F(8.0), F(-6.0)], F(2.0)))
        .add_equation(Equation::new(vec![F(2.0), F(3.0)], F(2.0)))
        .validate()
        .unwrap()
        .convert()
        .unwrap();
    let expected_result = CoefficientMatrix::new(2)
        .add_equation(Equation::new(vec![F(8.0), F(-6.0)], F(2.0)))
        .add_equation(Equation::new(vec![F(0.0), F(4.5)], F(1.5)))
        .validate()
        .unwrap();
    assert_eq!(converted, expected_result);
}

#[test]
fn solve_upper_triangular() {
    let solved = CoefficientMatrix::new(2)
        .add_equation(Equation::new(vec![F(8.0), F(-6.0)], F(2.0)))
        .add_equation(Equation::new(vec![F(0.0), F(4.5)], F(1.5)))
        .validate()
        .unwrap()
        .solve()
        .unwrap();
    let expected_result = CoefficientMatrix::new(2)
        .add_equation(Equation::new(vec![F(1.0), F(0.0)], F(0.5)))
        .add_equation(Equation::new(vec![F(0.0), F(1.0)], F(1.0 / 3.0)))
        .validate()
        .unwrap();
    assert_eq!(solved, expected_result);
}

#[test]
#[should_panic]
fn equation_too_long() {
    let _ = CoefficientMatrix::new(2)
        .add_equation(Equation::new(vec![F(8.0), F(-6.0), F(3.0)], F(2.0)))
        .add_equation(Equation::new(vec![F(0.0), F(4.5)], F(1.5)))
        .validate()
        .expect("{err}");
}

#[test]
#[should_panic]
fn equation_too_short() {
    let _ = CoefficientMatrix::new(2)
        .add_equation(Equation::new(vec![F(8.0)], F(2.0)))
        .add_equation(Equation::new(vec![F(0.0), F(4.5)], F(1.5)))
        .validate()
        .expect("{err}");
}

#[test]
#[should_panic]
fn matrix_too_long() {
    let _ = CoefficientMatrix::new(2)
        .add_equation(Equation::new(vec![F(8.0), F(-6.0)], F(2.0)))
        .add_equation(Equation::new(vec![F(0.0), F(4.5)], F(1.5)))
        .add_equation(Equation::new(vec![F(3.0), F(0.0)], F(5.0)))
        .validate()
        .expect("{err}");
}

#[test]
#[should_panic]
fn matrix_too_short() {
    let _ = CoefficientMatrix::new(2)
        .add_equation(Equation::new(vec![F(8.0), F(-6.0)], F(2.0)))
        .validate()
        .expect("{err}");
}

#[test]
fn matrix_valid() {
    let _ = CoefficientMatrix::new(2)
        .add_equation(Equation::new(vec![F(8.0), F(-6.0)], F(2.0)))
        .add_equation(Equation::new(vec![F(0.0), F(4.5)], F(1.5)))
        .validate()
        .expect("{err}");
}

#[test]
fn validate_rejects_size_zero() {
    let r = CoefficientMatrix::<F>::new(0).validate();
    assert_eq!(r, Err(SolveError::TooSmall(0)));
}

#[test]
fn validate_reports_missing_equation() {
    let r = CoefficientMatrix::new(2).add_equation(eqn(&[8.0, -6.0], 2.0)).validate();
    assert_eq!(r, Err(SolveError::UnfittingEquationAmount(1, 2)));
}

#[test]
fn validate_reports_extra_equation() {
    let r = CoefficientMatrix::new(2)
        .add_equation(eqn(&[8.0, -6.0], 2.0))
        .add_equation(eqn(&[0.0, 4.5], 1.5))
        .add_equation(eqn(&[3.0, 0.0], 5.0))
        .validate();
    assert_eq!(r, Err(SolveError::UnfittingEquationAmount(3, 2)));
}

#[test]
fn validate_reports_long_equation() {
    let r = CoefficientMatrix::new(2)
        .add_equation(eqn(&[8.0, -6.0, 3.0], 2.0))
        .add_equation(eqn(&[0.0, 4.5], 1.5))
        .validate();
    assert_eq!(r, Err(SolveError::UnfittingCoefficientAmount(3, 2)));
}

#[test]
fn validate_reports_last_unfitting_equation() {
    let r = CoefficientMatrix::new(3)
        .add_equation(eqn(&[1.0], 1.0))
        .add_equation(eqn(&[1.0, 2.0, 3.0], 1.0))
        .add_equation(eqn(&[1.0, 2.0, 3.0, 4.0, 5.0], 1.0))
        .validate();
    assert_eq!(r, Err(SolveError::UnfittingCoefficientAmount(5, 3)));
}

#[test]
fn validate_keeps_matrix_unchanged() {
    let m = CoefficientMatrix::new(2)
        .add_equation(eqn(&[8.0, -6.0], 2.0))
        .add_equation(eqn(&[2.0, 3.0], 2.0));
    let v = m.clone().validate().unwrap();
    assert_eq!(v, m);
}

#[test]
fn solve_dependent_system() {
    let r = CoefficientMatrix::new(2)
        .add_equation(eqn(&[1.0, 2.0], 3.0))
        .add_equation(eqn(&[0.0, 0.0], 0.0))
        .validate()
        .unwrap()
        .solve();
    assert_eq!(r, Err(SolveError::DependentSolutionSet));
}

#[test]
fn solve_inconsistent_system() {
    let r = CoefficientMatrix::new(2)
        .add_equation(eqn(&[1.0, 2.0], 3.0))
        .add_equation(eqn(&[0.0, 0.0], 4.0))
        .validate()
        .unwrap()
        .solve();
    assert_eq!(r, Err(SolveError::EmptySolutionSet));
}

#[test]
fn pipeline_on_dependent_rows() {
    let r = CoefficientMatrix::new(2)
        .add_equation(eqn(&[1.0, 2.0], 3.0))
        .add_equation(eqn(&[2.0, 4.0], 6.0))
        .validate()
        .unwrap()
        .convert()
        .unwrap()
        .solve();
    assert_eq!(r, Err(SolveError::DependentSolutionSet));
}

#[test]
fn pipeline_on_inconsistent_rows() {
    let r = CoefficientMatrix::new(2)
        .add_equation(eqn(&[1.0, 2.0], 3.0))
        .add_equation(eqn(&[2.0, 4.0], 7.0))
        .validate()
        .unwrap()
        .convert()
        .unwrap()
        .solve();
    assert_eq!(r, Err(SolveError::EmptySolutionSet));
}

#[test]
fn convert_pivots_on_largest_entry() {
    // Column 0 magnitudes 1, 2, 4: each larger one is swapped into row 0 in turn.
    let converted = CoefficientMatrix::new(3)
        .add_equation(eqn(&[1.0, 0.0, 0.0], 1.0))
        .add_equation(eqn(&[2.0, 1.0, 0.0], 2.0))
        .add_equation(eqn(&[4.0, 0.0, 1.0], 4.0))
        .validate()
        .unwrap()
        .convert()
        .unwrap();
    let v = values(&converted);
    assert_eq!(v[0], (vec![4.0, 0.0, 1.0], 4.0));
    for i in 1..3 {
        for j in 0..i {
            assert_eq!(v[i].0[j], 0.0);
        }
    }
}

#[test]
fn convert_keeps_first_row_on_tie() {
    let converted = CoefficientMatrix::new(2)
        .add_equation(eqn(&[2.0, 1.0], 3.0))
        .add_equation(eqn(&[-2.0, 1.0], 1.0))
        .validate()
        .unwrap()
        .convert()
        .unwrap();
    assert_eq!(values(&converted), vec![(vec![2.0, 1.0], 3.0), (vec![0.0, 2.0], 4.0)]);
}

#[test]
fn full_pipeline_three_unknowns() {
    // x = 1, y = 2, z = 3
    let solved = CoefficientMatrix::new(3)
        .add_equation(eqn(&[2.0, 0.0, 0.0], 2.0))
        .add_equation(eqn(&[0.0, 4.0, 0.0], 8.0))
        .add_equation(eqn(&[1.0, 0.0, 1.0], 4.0))
        .validate()
        .unwrap()
        .convert()
        .unwrap()
        .solve()
        .unwrap();
    let v = values(&solved);
    assert_eq!(v[0], (vec![1.0, 0.0, 0.0], 1.0));
    assert_eq!(v[1], (vec![0.0, 1.0, 0.0], 2.0));
    assert_eq!(v[2], (vec![0.0, 0.0, 1.0], 3.0));
}

#[test]
fn solved_values_satisfy_original_equations() {
    let rows = [(vec![8.0, -6.0], 2.0), (vec![2.0, 3.0], 2.0)];
    let mut m = CoefficientMatrix::new(2);
    for (c, r) in rows.iter() {
        m = m.add_equation(eqn(c, *r));
    }
    let solved = m.validate().unwrap().convert().unwrap().solve().unwrap();
    let x: Vec<f64> = values(&solved).iter().map(|(_, r)| *r).collect();
    for (c, r) in rows.iter() {
        let lhs: f64 = c.iter().zip(x.iter()).map(|(a, b)| a * b).sum();
        assert!((lhs - r).abs() < 1e-12);
    }
}

#[test]
fn size_one_system() {
    let solved = CoefficientMatrix::new(1)
        .add_equation(eqn(&[4.0], 2.0))
        .validate()
        .unwrap()
        .convert()
        .unwrap()
        .solve()
        .unwrap();
    assert_eq!(values(&solved), vec![(vec![1.0], 0.5)]);
}

#[test]
fn equation_accessors() {
    let mut e = eqn(&[1.0, 2.0], 3.0);
    assert_eq!(e.len(), 2);
    assert_eq!(e.get(1), F(2.0));
    *e.get_mut(0) = F(5.0);
    *e.get_result_mut() = F(7.0);
    assert_eq!(e.get(0), F(5.0));
    assert_eq!(e.get_result(), F(7.0));
    let m = CoefficientMatrix::new(4).add_equation(e.clone());
    assert_eq!(m.size(), 4);
    assert_eq!(m.len(), 1);
    assert_eq!(m.equation(0), &e);
}
