use vstd::prelude::*;

use crate::scalar::Scalar;

verus! {

/// Why a matrix cannot be validated or solved.
#[derive(Debug, Clone, Copy, PartialEq, Eq, Structural)]
pub enum SolveError {
    /// The declared size is below one.
    TooSmall(usize),
    /// `(rows held, declared size)`.
    UnfittingEquationAmount(usize, usize),
    /// `(coefficients of the last row that does not fit, declared size)`.
    UnfittingCoefficientAmount(usize, usize),
    /// A zero pivot with a zero right-hand side: infinitely many solutions.
    DependentSolutionSet,
    /// A zero pivot with a nonzero right-hand side: no solution.
    EmptySolutionSet,
}

/// One equation: coefficients and the right-hand side.
#[derive(Debug, Clone, PartialEq, Eq)]
pub struct Equation<T> {
    coefficients: Vec<T>,
    result: T,
}

impl<T: Scalar> Equation<T> {
    /// The coefficients followed by the right-hand side.
    pub open spec fn augmented(self) -> Seq<T> {
        self.coefficients_spec().push(self.result_spec())
    }

    /// The coefficients.
    pub closed spec fn coefficients_spec(self) -> Seq<T> {
        self.coefficients@
    }

    /// The right-hand side.
    pub closed spec fn result_spec(self) -> T {
        self.result
    }

    pub fn new(coefficients: Vec<T>, result: T) -> (r: Equation<T>)
        ensures
            r.coefficients_spec() == coefficients@,
            r.result_spec() == result,
    {
        Equation { coefficients, result }
    }

    /// Coefficient `idx`.
    pub fn get(&self, idx: usize) -> (r: T)
        requires
            idx < self.coefficients_spec().len(),
        ensures
            r == self.coefficients_spec()[idx as int],
    {
        self.coefficients[idx]
    }

    /// Coefficient `idx`, for writing.
    pub fn get_mut(&mut self, idx: usize) -> (r: &mut T)
        requires
            idx < old(self).coefficients_spec().len(),
        ensures
            *r == old(self).coefficients_spec()[idx as int],
            final(self).coefficients_spec() == old(self).coefficients_spec().update(idx as int, *final(r)),
            final(self).result_spec() == old(self).result_spec(),
    {
        &mut self.coefficients[idx]
    }

    pub fn get_result(&self) -> (r: T)
        ensures
            r == self.result_spec(),
    {
        self.result
    }

    /// The right-hand side, for writing.
    pub fn get_result_mut(&mut self) -> (r: &mut T)
        ensures
            *r == old(self).result_spec(),
            final(self).result_spec() == *final(r),
            final(self).coefficients_spec() == old(self).coefficients_spec(),
    {
        &mut self.result
    }

    /// Number of coefficients.
    pub fn len(&self) -> (r: usize)
        ensures
            r == self.coefficients_spec().len(),
    {
        self.coefficients.len()
    }
}

/// The number of coefficients of the last of the first `k` equations whose
/// count differs from `n`, if any does.
pub open spec fn last_unfitting<T: Scalar>(eqs: Seq<Equation<T>>, n: nat, k: int) -> Option<nat>
    decreases k,
{
    if k <= 0 {
        None
    } else if eqs[k - 1].coefficients_spec().len() != n {
        Some(eqs[k - 1].coefficients_spec().len())
    } else {
        last_unfitting(eqs, n, k - 1)
    }
}

/// `row` with `f` times `pivot` taken from each entry in columns
/// `from..upto`; other entries unchanged.
pub open spec fn sub_scaled<T: Scalar>(row: Seq<T>, pivot: Seq<T>, f: T, from: int, upto: int) -> Seq<T> {
    Seq::new(
        row.len(),
        |k: int|
            if from <= k < upto {
                row[k].sub_spec(pivot[k].mul_spec(f))
            } else {
                row[k]
            },
    )
}

/// `row` with each entry divided by `d`.
pub open spec fn scaled_down<T: Scalar>(row: Seq<T>, d: T) -> Seq<T> {
    Seq::new(row.len(), |k: int| row[k].div_spec(d))
}

pub open spec fn swap_rows<T>(m: Seq<Seq<T>>, i: int, j: int) -> Seq<Seq<T>> {
    m.update(i, m[j]).update(j, m[i])
}

/// Partial pivoting on column `a`, after rows `a + 1 .. i` were scanned: a
/// row whose entry in column `a` is strictly larger in magnitude than the
/// current pivot is swapped into row `a`.
pub open spec fn pivot_scan<T: Scalar>(m: Seq<Seq<T>>, a: int, i: int) -> Seq<Seq<T>>
    decreases i - a,
{
    if i <= a + 1 {
        m
    } else {
        let p = pivot_scan(m, a, i - 1);
        if p[i - 1][a].abs_spec().gt_spec(p[a][a].abs_spec()) {
            swap_rows(p, i - 1, a)
        } else {
            p
        }
    }
}

/// Every row below `a` loses the multiple of row `a` that cancels its entry
/// in column `a`; columns before `a` are left alone.
pub open spec fn eliminate_below<T: Scalar>(m: Seq<Seq<T>>, a: int) -> Seq<Seq<T>> {
    Seq::new(
        m.len(),
        |b: int|
            if b > a {
                sub_scaled(m[b], m[a], m[b][a].div_spec(m[a][a]), a, m[b].len() as int)
            } else {
                m[b]
            },
    )
}

/// Pivot selection and elimination for column `a`.
pub open spec fn forward_step<T: Scalar>(m: Seq<Seq<T>>, a: int) -> Seq<Seq<T>> {
    eliminate_below(pivot_scan(m, a, m.len() as int), a)
}

/// Forward elimination of the first `k` columns.
pub open spec fn forward<T: Scalar>(m: Seq<Seq<T>>, k: int) -> Seq<Seq<T>>
    decreases k,
{
    if k <= 0 {
        m
    } else {
        forward_step(forward(m, k - 1), k - 1)
    }
}

/// Row `i` divided by its diagonal entry, then subtracted from each row above
/// it as often as cancels that row's entry in column `i`.
pub open spec fn back_step<T: Scalar>(m: Seq<Seq<T>>, i: int) -> Seq<Seq<T>> {
    let r = scaled_down(m[i], m[i][i]);
    Seq::new(
        m.len(),
        |j: int|
            if j < i {
                sub_scaled(m[j], r, m[j][i], 0, m[j].len() as int)
            } else if j == i {
                r
            } else {
                m[j]
            },
    )
}

/// Back-substitution of rows `i ..` of an `n`-row matrix, bottom row first;
/// a zero diagonal entry stops it with the error that its right-hand side
/// (column `n`) calls for.
pub open spec fn backward<T: Scalar>(m: Seq<Seq<T>>, n: int, i: int) -> Result<
    Seq<Seq<T>>,
    SolveError,
>
    decreases n - i,
{
    if i >= n {
        Ok(m)
    } else {
        match backward(m, n, i + 1) {
            Err(e) => Err(e),
            Ok(p) => if p[i][i].is_zero_spec() {
                if p[i][n].is_zero_spec() {
                    Err(SolveError::DependentSolutionSet)
                } else {
                    Err(SolveError::EmptySolutionSet)
                }
            } else {
                Ok(back_step(p, i))
            },
        }
    }
}

/// All rows have `n + 1` entries: `n` coefficients and the right-hand side.
pub open spec fn rows_have_width<T>(m: Seq<Seq<T>>, n: int) -> bool {
    forall|i: int| 0 <= i < m.len() ==> (#[trigger] m[i]).len() == n + 1
}

/// Once back-substitution fails at row `i`, it fails the same way from any
/// earlier row.
pub(crate) proof fn lemma_backward_error_stays<T: Scalar>(m: Seq<Seq<T>>, n: int, i: int, k: int)
    requires
        k <= i,
        backward(m, n, i) is Err,
    ensures
        backward(m, n, k) == backward(m, n, i),
    decreases i - k,
{
    if k < i {
        lemma_backward_error_stays(m, n, i, k + 1);
    }
}

/// A declared size and the equations appended so far.
#[derive(Debug, Clone, PartialEq, Eq)]
pub struct CoefficientMatrix<T> {
    size: usize,
    matrix: Vec<Equation<T>>,
}

impl<T: Scalar> CoefficientMatrix<T> {
    /// The declared size `n`.
    pub closed spec fn dim(self) -> usize {
        self.size
    }

    /// The equations, in order.
    pub closed spec fn equations(self) -> Seq<Equation<T>> {
        self.matrix@
    }

    /// The equations as augmented rows.
    pub open spec fn rows(self) -> Seq<Seq<T>> {
        self.equations().map_values(|e: Equation<T>| e.augmented())
    }

    /// The shape that `validate` accepts: size at least one, `size` equations
    /// of `size` coefficients each.
    pub open spec fn is_valid(self) -> bool {
        &&& self.dim() >= 1
        &&& self.equations().len() == self.dim()
        &&& forall|i: int|
            0 <= i < self.equations().len() ==> (#[trigger] self.equations()[i]).coefficients_spec().len()
                == self.dim()
    }

    pub fn new(size: usize) -> (r: Self)
        ensures
            r.dim() == size,
            r.equations().len() == 0,
    {
        CoefficientMatrix { size, matrix: Vec::new() }
    }

    /// The declared size.
    pub fn size(&self) -> (r: usize)
        ensures
            r == self.dim(),
    {
        self.size
    }

    /// Number of equations held.
    pub fn len(&self) -> (r: usize)
        ensures
            r == self.equations().len(),
    {
        self.matrix.len()
    }

    /// Equation `i`.
    pub fn equation(&self, i: usize) -> (r: &Equation<T>)
        requires
            i < self.equations().len(),
        ensures
            *r == self.equations()[i as int],
    {
        &self.matrix[i]
    }

    /// Appends `equation`; no shape is checked.
    pub fn add_equation(self, equation: Equation<T>) -> (r: Self)
        ensures
            r.dim() == self.dim(),
            r.equations() == self.equations().push(equation),
    {
        let mut s = self;
        s.matrix.push(equation);
        s
    }

    /// Checks the shape. On success the matrix comes back unchanged.
    pub fn validate(self) -> (r: Result<Self, SolveError>)
        ensures
            self.dim() == 0 ==> r == Err::<Self, SolveError>(SolveError::TooSmall(0)),
            self.dim() >= 1 && self.equations().len() != self.dim() ==> r == Err::<Self, SolveError>(
                SolveError::UnfittingEquationAmount(self.equations().len() as usize, self.dim()),
            ),
            self.dim() >= 1 && self.equations().len() == self.dim() ==> r == match last_unfitting(
                self.equations(),
                self.dim() as nat,
                self.equations().len() as int,
            ) {
                Some(k) => Err(SolveError::UnfittingCoefficientAmount(k as usize, self.dim())),
                None => Ok(self),
            },
            r is Ok <==> self.is_valid(),
    {
        if self.size < 1 {
            return Err(SolveError::TooSmall(self.size));
        }
        if self.matrix.len() == self.size {
            let mut unfitting_amount: Option<usize> = None;
            let mut i: usize = 0;
            while i < self.matrix.len()
                invariant
                    i <= self.equations().len(),
                    match last_unfitting(self.equations(), self.dim() as nat, i as int) {
                        Some(k) => unfitting_amount == Some(k as usize),
                        None => unfitting_amount is None,
                    },
                    last_unfitting(self.equations(), self.dim() as nat, i as int) is None <==> forall|
                        j: int,
                    |
                        0 <= j < i ==> (#[trigger] self.equations()[j]).coefficients_spec().len()
                            == self.dim(),
                decreases self.equations().len() - i,
            {
                let len = self.matrix[i].len();
                if len != self.size {
                    unfitting_amount = Some(len);
                }
                i = i + 1;
            }
            match unfitting_amount {
                Some(amount) => Err(SolveError::UnfittingCoefficientAmount(amount, self.size)),
                None => Ok(self),
            }
        } else {
            Err(SolveError::UnfittingEquationAmount(self.matrix.len(), self.size))
        }
    }
    /// Swaps equations `a` and `i`.
    fn swap_equations(&mut self, a: usize, i: usize)
        requires
            a < i < old(self).equations().len(),
        ensures
            final(self).dim() == old(self).dim(),
            final(self).equations() == old(self).equations().update(
                a as int,
                old(self).equations()[i as int],
            ).update(i as int, old(self).equations()[a as int]),
            final(self).rows() == swap_rows(old(self).rows(), a as int, i as int),
    {
        let ghost before = self.matrix@;
        let ei = self.matrix.remove(i);
        let ea = self.matrix.remove(a);
        self.matrix.insert(a, ei);
        self.matrix.insert(i, ea);
        assert(self.matrix@ =~= before.update(a as int, before[i as int]).update(i as int, before[a as int]));
        assert(self.rows() =~= swap_rows(old(self).rows(), a as int, i as int));
    }

    /// Takes `f` times equation `a` from equation `b`, in the coefficients
    /// from column `from` on and in the right-hand side.
    fn subtract_scaled(&mut self, b: usize, a: usize, f: T, from: usize)
        requires
            b < old(self).equations().len(),
            a < old(self).equations().len(),
            b != a,
            old(self).equations()[b as int].coefficients_spec().len()
                == old(self).equations()[a as int].coefficients_spec().len(),
            from <= old(self).equations()[b as int].coefficients_spec().len(),
        ensures
            final(self).dim() == old(self).dim(),
            final(self).equations().len() == old(self).equations().len(),
            forall|j: int|
                0 <= j < old(self).equations().len() ==> (#[trigger] final(self).equations()[j]).coefficients_spec().len()
                    == old(self).equations()[j].coefficients_spec().len(),
            final(self).rows() == old(self).rows().update(
                b as int,
                sub_scaled(
                    old(self).rows()[b as int],
                    old(self).rows()[a as int],
                    f,
                    from as int,
                    old(self).rows()[b as int].len() as int,
                ),
            ),
    {
        let ghost eqs = self.matrix@;
        let len = self.matrix[b].len();
        let mut c: usize = from;
        while c < len
            invariant
                self.dim() == old(self).dim(),
                self.matrix@.len() == eqs.len(),
                eqs == old(self).matrix@,
                b < eqs.len(),
                a < eqs.len(),
                b != a,
                len == eqs[b as int].coefficients@.len(),
                len == eqs[a as int].coefficients@.len(),
                from <= c <= len,
                forall|j: int| 0 <= j < eqs.len() && j != b ==> #[trigger] self.matrix@[j] == eqs[j],
                self.matrix@[b as int].result == eqs[b as int].result,
                self.matrix@[b as int].coefficients@ == sub_scaled(
                    eqs[b as int].coefficients@,
                    eqs[a as int].coefficients@,
                    f,
                    from as int,
                    c as int,
                ),
            decreases len - c,
        {
            let e = self.matrix[a].get(c).mul(f);
            let cur = self.matrix[b].get(c);
            *self.matrix[b].get_mut(c) = cur.sub(e);
            c = c + 1;
            assert(self.matrix@[b as int].coefficients@ =~= sub_scaled(
                eqs[b as int].coefficients@,
                eqs[a as int].coefficients@,
                f,
                from as int,
                c as int,
            ));
        }
        let e = self.matrix[a].get_result().mul(f);
        let cur = self.matrix[b].get_result();
        *self.matrix[b].get_result_mut() = cur.sub(e);
        assert(self.matrix@[b as int].augmented() =~= sub_scaled(
            old(self).rows()[b as int],
            old(self).rows()[a as int],
            f,
            from as int,
            old(self).rows()[b as int].len() as int,
        ));
        assert(self.rows() =~= old(self).rows().update(
            b as int,
            sub_scaled(
                old(self).rows()[b as int],
                old(self).rows()[a as int],
                f,
                from as int,
                old(self).rows()[b as int].len() as int,
            ),
        ));
    }

    /// Divides every entry of equation `i`, right-hand side included, by `d`.
    fn divide_equation(&mut self, i: usize, d: T)
        requires
            i < old(self).equations().len(),
        ensures
            final(self).dim() == old(self).dim(),
            final(self).equations().len() == old(self).equations().len(),
            forall|j: int|
                0 <= j < old(self).equations().len() ==> (#[trigger] final(self).equations()[j]).coefficients_spec().len()
                    == old(self).equations()[j].coefficients_spec().len(),
            final(self).rows() == old(self).rows().update(
                i as int,
                scaled_down(old(self).rows()[i as int], d),
            ),
    {
        let ghost eqs = self.matrix@;
        let len = self.matrix[i].len();
        let mut c: usize = 0;
        while c < len
            invariant
                self.dim() == old(self).dim(),
                self.matrix@.len() == eqs.len(),
                eqs == old(self).matrix@,
                i < eqs.len(),
                len == eqs[i as int].coefficients@.len(),
                c <= len,
                forall|j: int| 0 <= j < eqs.len() && j != i ==> #[trigger] self.matrix@[j] == eqs[j],
                self.matrix@[i as int].result == eqs[i as int].result,
                self.matrix@[i as int].coefficients@.len() == len,
                forall|k: int|
                    0 <= k < len ==> #[trigger] self.matrix@[i as int].coefficients@[k] == if k < c {
                        eqs[i as int].coefficients@[k].div_spec(d)
                    } else {
                        eqs[i as int].coefficients@[k]
                    },
            decreases len - c,
        {
            let q = self.matrix[i].get(c).div(d);
            *self.matrix[i].get_mut(c) = q;
            c = c + 1;
        }
        let q = self.matrix[i].get_result().div(d);
        *self.matrix[i].get_result_mut() = q;
        assert(self.matrix@[i as int].augmented() =~= scaled_down(old(self).rows()[i as int], d));
        assert(self.rows() =~= old(self).rows().update(
            i as int,
            scaled_down(old(self).rows()[i as int], d),
        ));
    }
    /// Forward elimination with partial pivoting: the result holds the
    /// rows of `forward(rows, size - 1)`.
    pub fn convert(self) -> (r: Result<Self, SolveError>)
        requires
            self.is_valid(),
        ensures
            r is Ok,
            r->Ok_0.is_valid(),
            r->Ok_0.dim() == self.dim(),
            r->Ok_0.rows() == forward(self.rows(), self.dim() - 1),
    {
        let mut m = self;
        let n = m.size;
        let mut a: usize = 0;
        while a < n - 1
            invariant
                m.is_valid(),
                m.dim() == n,
                n == self.dim(),
                a <= n - 1,
                m.rows() == forward(self.rows(), a as int),
            decreases n - 1 - a,
        {
            let ghost start = m.rows();
            let mut pivot = m.matrix[a].get(a);
            let mut i: usize = a + 1;
            while i < n
                invariant
                    m.is_valid(),
                    m.dim() == n,
                    a < i <= n,
                    a < n - 1,
                    start.len() == n,
                    m.rows() == pivot_scan(start, a as int, i as int),
                    pivot == m.rows()[a as int][a as int],
                decreases n - i,
            {
                if m.matrix[i].get(a).abs().gt(pivot.abs()) {
                    m.swap_equations(a, i);
                    pivot = m.matrix[a].get(a);
                }
                i = i + 1;
                assert(m.rows() == pivot_scan(start, a as int, i as int));
            }
            let ghost scanned = m.rows();
            let mut b: usize = a + 1;
            while b < n
                invariant
                    m.is_valid(),
                    m.dim() == n,
                    a < b <= n,
                    a < n - 1,
                    scanned.len() == n,
                    pivot == scanned[a as int][a as int],
                    m.rows().len() == n,
                    forall|j: int|
                        0 <= j < n ==> #[trigger] m.rows()[j] == if a < j < b {
                            eliminate_below(scanned, a as int)[j]
                        } else {
                            scanned[j]
                        },
                decreases n - b,
            {
                let ratio = m.matrix[b].get(a).div(pivot);
                m.subtract_scaled(b, a, ratio, a);
                b = b + 1;
            }
            assert(m.rows() =~= forward_step(start, a as int));
            a = a + 1;
        }
        Ok(m)
    }

    /// Back-substitution to solved form: the outcome is
    /// `backward(rows, size, 0)`.
    pub fn solve(self) -> (r: Result<Self, SolveError>)
        requires
            self.is_valid(),
        ensures
            match backward(self.rows(), self.dim() as int, 0) {
                Ok(m) => r matches Ok(s) && s.is_valid() && s.dim() == self.dim() && s.rows() == m,
                Err(e) => r == Err::<Self, SolveError>(e),
            },
    {
        let mut m = self;
        let n = m.size;
        let mut i: usize = n;
        while i > 0
            invariant
                m.is_valid(),
                m.dim() == n,
                n == self.dim(),
                i <= n,
                backward(self.rows(), n as int, i as int) == Ok::<Seq<Seq<T>>, SolveError>(m.rows()),
            decreases i,
        {
            i = i - 1;
            let divisor = m.matrix[i].get(i);
            if divisor.is_zero() {
                proof {
                    assert(m.rows()[i as int][n as int] == m.equations()[i as int].result_spec());
                    lemma_backward_error_stays(self.rows(), n as int, i as int, 0);
                }
                if m.matrix[i].get_result().is_zero() {
                    return Err(SolveError::DependentSolutionSet);
                } else {
                    return Err(SolveError::EmptySolutionSet);
                }
            }
            let ghost start = m.rows();
            m.divide_equation(i, divisor);
            let ghost normalized = m.rows();
            let mut j: usize = i;
            while j > 0
                invariant
                    m.is_valid(),
                    m.dim() == n,
                    j <= i < n,
                    start.len() == n,
                    m.rows().len() == n,
                    divisor == start[i as int][i as int],
                    normalized == start.update(i as int, scaled_down(start[i as int], divisor)),
                    forall|k: int|
                        0 <= k < n ==> #[trigger] m.rows()[k] == if j <= k < i {
                            back_step(start, i as int)[k]
                        } else {
                            normalized[k]
                        },
                decreases j,
            {
                j = j - 1;
                let factor = m.matrix[j].get(i);
                m.subtract_scaled(j, i, factor, 0);
            }
            assert(m.rows() =~= back_step(start, i as int));
        }
        Ok(m)
    }
}

} // verus!
