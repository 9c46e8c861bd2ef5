//! What the pipeline guarantees beyond each function's own contract, stated
//! over the spec model that `convert` and `solve` are proved to compute. The
//! number type's arithmetic is abstract there, so laws that need a field take
//! its identities as hypotheses.

use vstd::prelude::*;

use crate::scalar::Scalar;
use crate::solver::{
    back_step,
    backward,
    eliminate_below,
    forward,
    forward_step,
    lemma_backward_error_stays,
    pivot_scan,
    scaled_down,
    rows_have_width,
    sub_scaled,
    SolveError,
};

verus! {

/// Back-substitution that meets a zero diagonal entry at row `i` (after the
/// rows below it were reduced to `p`) fails as a whole: with
/// `DependentSolutionSet` when that row's right-hand side is zero, with
/// `EmptySolutionSet` otherwise.
pub proof fn zero_pivot_is_classified<T: Scalar>(m: Seq<Seq<T>>, n: int, i: int, p: Seq<Seq<T>>)
    requires
        0 <= i < n,
        backward(m, n, i + 1) == Ok::<Seq<Seq<T>>, SolveError>(p),
        p[i][i].is_zero_spec(),
    ensures
        p[i][n].is_zero_spec() ==> backward(m, n, 0) == Err::<Seq<Seq<T>>, SolveError>(
            SolveError::DependentSolutionSet,
        ),
        !p[i][n].is_zero_spec() ==> backward(m, n, 0) == Err::<Seq<Seq<T>>, SolveError>(
            SolveError::EmptySolutionSet,
        ),
{
    lemma_backward_error_stays(m, n, i, 0);
}

/// Subtracting the multiple `x / p` of a nonzero `p` from `x` leaves zero:
/// exact in a field.
pub open spec fn cancels<T: Scalar>() -> bool {
    forall|x: T, p: T|
        !p.is_zero_spec() ==> (#[trigger] x.sub_spec(p.mul_spec(x.div_spec(p)))).is_zero_spec()
}

/// Every pivot that forward elimination of the `n - 1` first columns divides
/// by is nonzero.
pub open spec fn pivots_nonzero<T: Scalar>(m: Seq<Seq<T>>) -> bool {
    forall|a: int|
        0 <= a < m.len() - 1 ==> !(#[trigger] pivot_scan(forward(m, a), a, m.len() as int))[a][a].is_zero_spec()
}

/// The entries of `m` left of the diagonal are zero in columns before `k`.
pub open spec fn zero_below_diagonal_before<T: Scalar>(m: Seq<Seq<T>>, k: int) -> bool {
    forall|i: int, j: int| 0 <= j < k && j < i < m.len() ==> (#[trigger] m[i][j]).is_zero_spec()
}

/// Pivot selection only exchanges rows from `a` on, so it keeps the width of
/// every row and the zeros left of the diagonal before column `a`.
proof fn pivot_scan_keeps_shape<T: Scalar>(m: Seq<Seq<T>>, a: int, i: int)
    requires
        0 <= a < i <= m.len(),
        rows_have_width(m, m.len() as int),
        zero_below_diagonal_before(m, a),
    ensures
        pivot_scan(m, a, i).len() == m.len(),
        rows_have_width(pivot_scan(m, a, i), m.len() as int),
        zero_below_diagonal_before(pivot_scan(m, a, i), a),
    decreases i - a,
{
    if i > a + 1 {
        pivot_scan_keeps_shape(m, a, i - 1);
        let p = pivot_scan(m, a, i - 1);
        let q = pivot_scan(m, a, i);
        assert forall|r: int, j: int| 0 <= j < a && j < r < q.len() implies (#[trigger] q[r][j]).is_zero_spec() by {
            if q != p {
                if r == a {
                    assert(q[r] == p[i - 1]);
                    assert(p[i - 1][j].is_zero_spec());
                } else if r == i - 1 {
                    assert(q[r] == p[a]);
                    assert(p[a][j].is_zero_spec());
                } else {
                    assert(q[r] == p[r]);
                }
            }
        }
        assert forall|r: int| 0 <= r < q.len() implies (#[trigger] q[r]).len() == m.len() + 1 by {
            if q != p {
                if r == a {
                    assert(q[r] == p[i - 1]);
                } else if r == i - 1 {
                    assert(q[r] == p[a]);
                } else {
                    assert(q[r] == p[r]);
                }
            }
        }
    }
}

/// One elimination step on column `a` keeps the zeros of the earlier columns
/// and adds those of column `a`.
proof fn forward_step_clears_column<T: Scalar>(m: Seq<Seq<T>>, a: int)
    requires
        0 <= a < m.len() - 1,
        cancels::<T>(),
        rows_have_width(m, m.len() as int),
        zero_below_diagonal_before(m, a),
        !pivot_scan(m, a, m.len() as int)[a][a].is_zero_spec(),
    ensures
        forward_step(m, a).len() == m.len(),
        rows_have_width(forward_step(m, a), m.len() as int),
        zero_below_diagonal_before(forward_step(m, a), a + 1),
{
    let q = pivot_scan(m, a, m.len() as int);
    pivot_scan_keeps_shape(m, a, m.len() as int);
    let e = eliminate_below(q, a);
    assert forall|i: int, j: int| 0 <= j < a + 1 && j < i < m.len() implies (#[trigger] e[i][j]).is_zero_spec() by {
        let x = q[i][a];
        let p = q[a][a];
        assert(q.len() == m.len());
        if i <= a {
            assert(e[i] == q[i]);
            assert(q[i][j].is_zero_spec());
        } else if j < a {
            assert(e[i] == sub_scaled(q[i], q[a], x.div_spec(p), a, q[i].len() as int));
            assert(q[i][j].is_zero_spec());
        } else {
            assert(e[i] == sub_scaled(q[i], q[a], x.div_spec(p), a, q[i].len() as int));
            assert(e[i][j] == x.sub_spec(p.mul_spec(x.div_spec(p))));
        }
    }
    assert forall|r: int| 0 <= r < e.len() implies (#[trigger] e[r]).len() == m.len() + 1 by {
        assert(q[r].len() == m.len() + 1);
    }
}

/// Forward elimination of the first `k` columns clears them below the diagonal.
proof fn forward_clears_prefix<T: Scalar>(m: Seq<Seq<T>>, k: int)
    requires
        0 <= k <= m.len() - 1,
        rows_have_width(m, m.len() as int),
        cancels::<T>(),
        pivots_nonzero(m),
    ensures
        forward(m, k).len() == m.len(),
        rows_have_width(forward(m, k), m.len() as int),
        zero_below_diagonal_before(forward(m, k), k),
    decreases k,
{
    if k > 0 {
        forward_clears_prefix(m, k - 1);
        assert(!pivot_scan(forward(m, k - 1), k - 1, m.len() as int)[k - 1][k - 1].is_zero_spec());
        forward_step_clears_column(forward(m, k - 1), k - 1);
    }
}

/// Forward elimination with a field's arithmetic and no zero pivot leaves
/// only zeros below the diagonal.
pub proof fn convert_is_upper_triangular<T: Scalar>(m: Seq<Seq<T>>, n: int)
    requires
        n >= 1,
        m.len() == n,
        rows_have_width(m, n),
        cancels::<T>(),
        pivots_nonzero(m),
    ensures
        forall|i: int, j: int| 0 <= j < i < n ==> (#[trigger] forward(m, n - 1)[i][j]).is_zero_spec(),
{
    forward_clears_prefix(m, n - 1);
}

/// `r[0] * x[0] + ... + r[k - 1] * x[k - 1]`, summed from `zero`.
pub open spec fn dot<T: Scalar>(r: Seq<T>, x: Seq<T>, k: int, zero: T) -> T
    decreases k,
{
    if k <= 0 {
        zero
    } else {
        dot(r, x, k - 1, zero).add_spec(r[k - 1].mul_spec(x[k - 1]))
    }
}

/// `x` satisfies every row of `m`: its first `n` entries are coefficients, its
/// entry `n` the right-hand side.
pub open spec fn solves<T: Scalar>(m: Seq<Seq<T>>, x: Seq<T>, n: int, zero: T) -> bool {
    forall|i: int| 0 <= i < m.len() ==> dot(#[trigger] m[i], x, n, zero) == m[i][n]
}

/// The identities of a commutative ring, with `zero` its neutral element,
/// that taking a multiple of one equation from another relies on.
pub open spec fn ring_laws<T: Scalar>(zero: T) -> bool {
    &&& forall|p: T, q: T, r: T, s: T|
        #[trigger] p.sub_spec(q).add_spec(r.sub_spec(s)) == p.add_spec(r).sub_spec(q.add_spec(s))
    &&& forall|b: T, c: T, x: T|
        #[trigger] b.sub_spec(c).mul_spec(x) == b.mul_spec(x).sub_spec(c.mul_spec(x))
    &&& forall|p: T, q: T, f: T|
        #[trigger] p.add_spec(q).mul_spec(f) == p.mul_spec(f).add_spec(q.mul_spec(f))
    &&& forall|a: T, f: T, x: T| #[trigger] a.mul_spec(f).mul_spec(x) == a.mul_spec(x).mul_spec(f)
    &&& forall|f: T| #[trigger] zero.sub_spec(zero.mul_spec(f)) == zero
    &&& forall|x: T, z: T, f: T| z.is_zero_spec() ==> #[trigger] x.sub_spec(z.mul_spec(f)) == x
    &&& forall|p: T, q: T, k: T| #[trigger] p.sub_spec(k) == #[trigger] q.sub_spec(k) ==> p == q
}

/// The product with `b - f * a` is that with `b` less `f` times that with `a`.
proof fn dot_of_difference<T: Scalar>(b2: Seq<T>, b: Seq<T>, a: Seq<T>, f: T, x: Seq<T>, k: int, zero: T)
    requires
        ring_laws(zero),
        forall|c: int| 0 <= c < k ==> #[trigger] b2[c] == b[c].sub_spec(a[c].mul_spec(f)),
    ensures
        dot(b2, x, k, zero) == dot(b, x, k, zero).sub_spec(dot(a, x, k, zero).mul_spec(f)),
    decreases k,
{
    if k > 0 {
        dot_of_difference(b2, b, a, f, x, k - 1, zero);
        let db = dot(b, x, k - 1, zero);
        let da = dot(a, x, k - 1, zero);
        let bk = b[k - 1].mul_spec(x[k - 1]);
        let ak = a[k - 1].mul_spec(x[k - 1]);
        assert(b2[k - 1] == b[k - 1].sub_spec(a[k - 1].mul_spec(f)));
        assert(b2[k - 1].mul_spec(x[k - 1]) == bk.sub_spec(a[k - 1].mul_spec(f).mul_spec(x[k - 1])));
        assert(a[k - 1].mul_spec(f).mul_spec(x[k - 1]) == ak.mul_spec(f));
        assert(db.sub_spec(da.mul_spec(f)).add_spec(bk.sub_spec(ak.mul_spec(f))) == db.add_spec(
            bk,
        ).sub_spec(da.mul_spec(f).add_spec(ak.mul_spec(f))));
        assert(da.add_spec(ak).mul_spec(f) == da.mul_spec(f).add_spec(ak.mul_spec(f)));
    }
}

/// Pivot selection only reorders rows, so it keeps the set of solutions.
proof fn pivot_scan_keeps_solutions<T: Scalar>(m: Seq<Seq<T>>, a: int, i: int, x: Seq<T>, n: int, zero: T)
    requires
        0 <= a < i <= m.len(),
    ensures
        solves(pivot_scan(m, a, i), x, n, zero) <==> solves(m, x, n, zero),
    decreases i - a,
{
    if i > a + 1 {
        pivot_scan_keeps_solutions(m, a, i - 1, x, n, zero);
        let p = pivot_scan(m, a, i - 1);
        let q = pivot_scan(m, a, i);
        pivot_scan_len(m, a, i - 1);
        if solves(p, x, n, zero) {
            assert forall|r: int| 0 <= r < q.len() implies dot(#[trigger] q[r], x, n, zero) == q[r][n] by {
                if q != p {
                    if r == a {
                        assert(q[r] == p[i - 1]);
                    } else if r == i - 1 {
                        assert(q[r] == p[a]);
                    } else {
                        assert(q[r] == p[r]);
                    }
                } else {
                    assert(q[r] == p[r]);
                }
            }
        }
        if solves(q, x, n, zero) {
            assert forall|r: int| 0 <= r < p.len() implies dot(#[trigger] p[r], x, n, zero) == p[r][n] by {
                if q != p {
                    if r == a {
                        assert(q[i - 1] == p[r]);
                    } else if r == i - 1 {
                        assert(q[a] == p[r]);
                    } else {
                        assert(q[r] == p[r]);
                    }
                } else {
                    assert(q[r] == p[r]);
                }
            }
        }
    }
}

proof fn pivot_scan_len<T: Scalar>(m: Seq<Seq<T>>, a: int, i: int)
    requires
        0 <= a < i <= m.len(),
    ensures
        pivot_scan(m, a, i).len() == m.len(),
    decreases i - a,
{
    if i > a + 1 {
        pivot_scan_len(m, a, i - 1);
    }
}

/// Forward elimination of the first `k` columns keeps the set of solutions.
proof fn forward_keeps_solutions<T: Scalar>(m: Seq<Seq<T>>, k: int, x: Seq<T>, zero: T)
    requires
        0 <= k <= m.len() - 1,
        rows_have_width(m, m.len() as int),
        cancels::<T>(),
        pivots_nonzero(m),
        ring_laws(zero),
    ensures
        solves(forward(m, k), x, m.len() as int, zero) <==> solves(m, x, m.len() as int, zero),
    decreases k,
{
    if k > 0 {
        let n = m.len() as int;
        let a = k - 1;
        forward_keeps_solutions(m, a, x, zero);
        forward_clears_prefix(m, a);
        let p = forward(m, a);
        pivot_scan_keeps_shape(p, a, n);
        pivot_scan_keeps_solutions(p, a, n, x, n, zero);
        pivot_scan_len(p, a, n);
        let q = pivot_scan(p, a, n);
        let e = eliminate_below(q, a);
        assert(q.len() == n);
        assert forall|b: int| a < b < n implies dot(#[trigger] e[b], x, n, zero) == dot(q[b], x, n, zero).sub_spec(
            dot(q[a], x, n, zero).mul_spec(q[b][a].div_spec(q[a][a])),
        ) && e[b][n] == q[b][n].sub_spec(q[a][n].mul_spec(q[b][a].div_spec(q[a][a]))) by {
            let f = q[b][a].div_spec(q[a][a]);
            assert(e[b] == sub_scaled(q[b], q[a], f, a, q[b].len() as int));
            assert(q[b].len() == n + 1 && q[a].len() == n + 1);
            assert forall|c: int| 0 <= c < n implies #[trigger] e[b][c] == q[b][c].sub_spec(
                q[a][c].mul_spec(f),
            ) by {
                if c < a {
                    assert(q[a][c].is_zero_spec());
                }
            }
            dot_of_difference(e[b], q[b], q[a], f, x, n, zero);
        }
        assert forall|b: int| 0 <= b <= a implies #[trigger] e[b] == q[b] by {}
        if solves(q, x, n, zero) {
            assert forall|b: int| 0 <= b < e.len() implies dot(#[trigger] e[b], x, n, zero) == e[b][n] by {
                if b > a {
                    assert(dot(q[b], x, n, zero) == q[b][n]);
                    assert(dot(q[a], x, n, zero) == q[a][n]);
                }
            }
        }
        if solves(e, x, n, zero) {
            assert forall|b: int| 0 <= b < q.len() implies dot(#[trigger] q[b], x, n, zero) == q[b][n] by {
                if b > a {
                    let f = q[b][a].div_spec(q[a][a]);
                    let k = q[a][n].mul_spec(f);
                    assert(dot(e[a], x, n, zero) == e[a][n]);
                    assert(dot(q[a], x, n, zero) == q[a][n]);
                    assert(dot(e[b], x, n, zero) == e[b][n]);
                    assert(dot(q[b], x, n, zero).sub_spec(k) == q[b][n].sub_spec(k));
                } else {
                    assert(dot(e[b], x, n, zero) == e[b][n]);
                }
            }
        }
    }
}

/// Forward elimination with a field's arithmetic and no zero pivot keeps
/// the set of solutions: an `x` satisfies every equation of `m` exactly when
/// it satisfies every equation of the result.
pub proof fn convert_keeps_solutions<T: Scalar>(m: Seq<Seq<T>>, n: int, x: Seq<T>, zero: T)
    requires
        n >= 1,
        m.len() == n,
        rows_have_width(m, n),
        cancels::<T>(),
        pivots_nonzero(m),
        ring_laws(zero),
    ensures
        solves(forward(m, n - 1), x, n, zero) <==> solves(m, x, n, zero),
{
    forward_keeps_solutions(m, n - 1, x, zero);
}

/// The field laws that reduction to solved form relies on, with `one` the
/// unit: a nonzero value divided by itself is `one`, zero divided by a nonzero
/// value is zero, `x - one * x` is zero, and taking a multiple of zero changes
/// nothing.
pub open spec fn unit_laws<T: Scalar>(one: T) -> bool {
    &&& forall|d: T| !d.is_zero_spec() ==> #[trigger] d.div_spec(d) == one
    &&& forall|x: T, d: T|
        x.is_zero_spec() && !d.is_zero_spec() ==> (#[trigger] x.div_spec(d)).is_zero_spec()
    &&& forall|x: T| (#[trigger] x.sub_spec(one.mul_spec(x))).is_zero_spec()
    &&& forall|x: T, z: T, f: T| z.is_zero_spec() ==> #[trigger] x.sub_spec(z.mul_spec(f)) == x
}

/// `n` rows of `n + 1` entries, zero below the diagonal, nonzero on it.
pub open spec fn upper_triangular_nonsingular<T: Scalar>(m: Seq<Seq<T>>, n: int) -> bool {
    &&& m.len() == n
    &&& rows_have_width(m, n)
    &&& forall|k: int, c: int| 0 <= c < k < n ==> (#[trigger] m[k][c]).is_zero_spec()
    &&& forall|k: int| 0 <= k < n ==> !(#[trigger] m[k][k]).is_zero_spec()
}

/// The coefficient block of `p` is the identity.
pub open spec fn identity_block<T: Scalar>(p: Seq<Seq<T>>, n: int, one: T) -> bool {
    forall|k: int, c: int|
        0 <= k < n && 0 <= c < n ==> if c == k {
            #[trigger] p[k][c] == one
        } else {
            p[k][c].is_zero_spec()
        }
}

/// The state of back-substitution of `m` once rows `i ..` are done: those rows
/// are rows of the identity; the rows above keep their diagonal entry and have
/// zeros left of it and from column `i` on.
spec fn reduced_from<T: Scalar>(p: Seq<Seq<T>>, m: Seq<Seq<T>>, n: int, i: int, one: T) -> bool {
    &&& p.len() == n
    &&& rows_have_width(p, n)
    &&& forall|k: int, c: int|
        i <= k < n && 0 <= c < n ==> if c == k {
            #[trigger] p[k][c] == one
        } else {
            p[k][c].is_zero_spec()
        }
    &&& forall|k: int, c: int|
        0 <= k < i && 0 <= c < n && (c < k || i <= c) ==> (#[trigger] p[k][c]).is_zero_spec()
    &&& forall|k: int| 0 <= k < i ==> #[trigger] p[k][k] == m[k][k]
}

proof fn back_substitution_reduces<T: Scalar>(m: Seq<Seq<T>>, n: int, i: int, one: T)
    requires
        0 <= i <= n,
        upper_triangular_nonsingular(m, n),
        unit_laws(one),
    ensures
        backward(m, n, i) is Ok,
        reduced_from(backward(m, n, i)->Ok_0, m, n, i, one),
    decreases n - i,
{
    if i < n {
        back_substitution_reduces(m, n, i + 1, one);
        let p = backward(m, n, i + 1)->Ok_0;
        let d = p[i][i];
        assert(d == m[i][i]);
        let r = scaled_down(p[i], d);
        let q = back_step(p, i);
        assert forall|k: int, c: int| i <= k < n && 0 <= c < n implies if c == k {
            #[trigger] q[k][c] == one
        } else {
            q[k][c].is_zero_spec()
        } by {
            if k == i {
                assert(q[k] == r);
                assert(r[c] == p[i][c].div_spec(d));
                if c != k {
                    assert(p[i][c].is_zero_spec());
                }
            } else {
                assert(q[k] == p[k]);
            }
        }
        assert forall|k: int, c: int|
            0 <= k < i && 0 <= c < n && (c < k || i <= c) implies (#[trigger] q[k][c]).is_zero_spec() by {
            assert(q[k] == sub_scaled(p[k], r, p[k][i], 0, p[k].len() as int));
            assert(r[c] == p[i][c].div_spec(d));
            if c == i {
                assert(r[c] == one);
            } else {
                assert(p[i][c].is_zero_spec());
                assert(r[c].is_zero_spec());
                assert(q[k][c] == p[k][c]);
            }
        }
        assert forall|k: int| 0 <= k < i implies #[trigger] q[k][k] == m[k][k] by {
            assert(q[k] == sub_scaled(p[k], r, p[k][i], 0, p[k].len() as int));
            assert(r[k] == p[i][k].div_spec(d));
            assert(p[i][k].is_zero_spec());
        }
        assert forall|k: int| 0 <= k < n implies (#[trigger] q[k]).len() == n + 1 by {
            assert(p[k].len() == n + 1);
        }
    }
}

/// Reducing an upper-triangular matrix with a nonzero diagonal to solved
/// form succeeds and leaves the identity as its coefficient block, under the
/// field laws of `unit_laws`.
pub proof fn solve_yields_identity<T: Scalar>(m: Seq<Seq<T>>, n: int, one: T)
    requires
        upper_triangular_nonsingular(m, n),
        unit_laws(one),
    ensures
        backward(m, n, 0) is Ok,
        identity_block(backward(m, n, 0)->Ok_0, n, one),
{
    back_substitution_reduces(m, n, 0, one);
}

/// The remaining field identities that reading the solution back relies on,
/// with `zero` and `one` the neutral elements: division by a nonzero value
/// distributes over sums and products, keeps zero, and is one to one; `one`
/// and zero act neutrally in products and sums.
pub open spec fn division_laws<T: Scalar>(zero: T, one: T) -> bool {
    &&& forall|a: T, b: T, d: T|
        !d.is_zero_spec() ==> #[trigger] a.add_spec(b).div_spec(d) == a.div_spec(d).add_spec(
            b.div_spec(d),
        )
    &&& forall|a: T, y: T, d: T|
        !d.is_zero_spec() ==> #[trigger] a.mul_spec(y).div_spec(d) == a.div_spec(d).mul_spec(y)
    &&& forall|d: T| !d.is_zero_spec() ==> #[trigger] zero.div_spec(d) == zero
    &&& forall|a: T, b: T, d: T|
        !d.is_zero_spec() && #[trigger] a.div_spec(d) == #[trigger] b.div_spec(d) ==> a == b
    &&& forall|y: T| #[trigger] one.mul_spec(y) == y
    &&& forall|acc: T, z: T, y: T| z.is_zero_spec() ==> #[trigger] acc.add_spec(z.mul_spec(y)) == acc
    &&& forall|y: T| #[trigger] zero.add_spec(y) == y
}

/// The product with `r / d` is the product with `r`, divided by `d`.
proof fn dot_of_quotient<T: Scalar>(r2: Seq<T>, r: Seq<T>, d: T, x: Seq<T>, k: int, zero: T, one: T)
    requires
        division_laws(zero, one),
        !d.is_zero_spec(),
        forall|c: int| 0 <= c < k ==> #[trigger] r2[c] == r[c].div_spec(d),
    ensures
        dot(r2, x, k, zero) == dot(r, x, k, zero).div_spec(d),
    decreases k,
{
    if k > 0 {
        dot_of_quotient(r2, r, d, x, k - 1, zero, one);
        let dr = dot(r, x, k - 1, zero);
        let t = r[k - 1].mul_spec(x[k - 1]);
        assert(r2[k - 1] == r[k - 1].div_spec(d));
        assert(t.div_spec(d) == r[k - 1].div_spec(d).mul_spec(x[k - 1]));
        assert(dr.add_spec(t).div_spec(d) == dr.div_spec(d).add_spec(t.div_spec(d)));
    }
}

/// A row of the identity, followed by `x[k]`, is satisfied by `x`.
proof fn dot_of_unit_row<T: Scalar>(row: Seq<T>, x: Seq<T>, k: int, c: int, zero: T, one: T)
    requires
        division_laws(zero, one),
        0 <= k,
        0 <= c,
        forall|j: int| 0 <= j < c && j != k ==> (#[trigger] row[j]).is_zero_spec(),
        k < c ==> row[k] == one,
    ensures
        dot(row, x, c, zero) == if k < c {
            x[k]
        } else {
            zero
        },
    decreases c,
{
    if c > 0 {
        dot_of_unit_row(row, x, k, c - 1, zero, one);
        let acc = dot(row, x, c - 1, zero);
        if c - 1 == k {
            assert(one.mul_spec(x[k]) == x[k]);
            assert(zero.add_spec(x[k]) == x[k]);
        } else {
            assert(row[c - 1].is_zero_spec());
            assert(acc.add_spec(row[c - 1].mul_spec(x[c - 1])) == acc);
        }
    }
}

/// One step of back-substitution loses no equation: a solution of its result
/// is a solution of what it started from.
proof fn back_step_keeps_solutions<T: Scalar>(p: Seq<Seq<T>>, n: int, i: int, x: Seq<T>, zero: T, one: T)
    requires
        0 <= i < n,
        p.len() == n,
        rows_have_width(p, n),
        !p[i][i].is_zero_spec(),
        ring_laws(zero),
        division_laws(zero, one),
        solves(back_step(p, i), x, n, zero),
    ensures
        solves(p, x, n, zero),
{
    let q = back_step(p, i);
    let d = p[i][i];
    let r = scaled_down(p[i], d);
    assert(q[i] == r);
    assert(p[i].len() == n + 1);
    dot_of_quotient(r, p[i], d, x, n, zero, one);
    assert(dot(q[i], x, n, zero) == q[i][n]);
    assert(dot(p[i], x, n, zero).div_spec(d) == p[i][n].div_spec(d));
    assert forall|j: int| 0 <= j < p.len() implies dot(#[trigger] p[j], x, n, zero) == p[j][n] by {
        if j < i {
            let f = p[j][i];
            assert(q[j] == sub_scaled(p[j], r, f, 0, p[j].len() as int));
            assert(p[j].len() == n + 1);
            assert forall|c: int| 0 <= c < n implies #[trigger] q[j][c] == p[j][c].sub_spec(
                r[c].mul_spec(f),
            ) by {}
            dot_of_difference(q[j], p[j], r, f, x, n, zero);
            assert(dot(q[j], x, n, zero) == q[j][n]);
            assert(dot(p[j], x, n, zero).sub_spec(r[n].mul_spec(f)) == p[j][n].sub_spec(
                r[n].mul_spec(f),
            ));
        } else if j > i {
            assert(q[j] == p[j]);
            assert(dot(q[j], x, n, zero) == q[j][n]);
        }
    }
}

/// A solution of the outcome of back-substitution from row `i` on is a
/// solution of `m`.
proof fn backward_keeps_solutions<T: Scalar>(m: Seq<Seq<T>>, n: int, i: int, x: Seq<T>, zero: T, one: T)
    requires
        0 <= i <= n,
        upper_triangular_nonsingular(m, n),
        unit_laws(one),
        ring_laws(zero),
        division_laws(zero, one),
        solves(backward(m, n, i)->Ok_0, x, n, zero),
    ensures
        solves(m, x, n, zero),
    decreases n - i,
{
    back_substitution_reduces(m, n, i, one);
    if i < n {
        back_substitution_reduces(m, n, i + 1, one);
        let p = backward(m, n, i + 1)->Ok_0;
        assert(p[i][i] == m[i][i]);
        back_step_keeps_solutions(p, n, i, x, zero, one);
        backward_keeps_solutions(m, n, i + 1, x, zero, one);
    }
}

/// Solving an upper-triangular matrix with a nonzero diagonal and reading the
/// right-hand-side column as the values of the unknowns gives values that
/// satisfy every equation handed to it, under the field laws of
/// `ring_laws`, `unit_laws` and `division_laws`.
pub proof fn solve_satisfies_its_equations<T: Scalar>(m: Seq<Seq<T>>, n: int, zero: T, one: T)
    requires
        upper_triangular_nonsingular(m, n),
        ring_laws(zero),
        unit_laws(one),
        division_laws(zero, one),
    ensures
        backward(m, n, 0) is Ok,
        solves(m, Seq::new(n as nat, |k: int| backward(m, n, 0)->Ok_0[k][n]), n, zero),
{
    back_substitution_reduces(m, n, 0, one);
    let s = backward(m, n, 0)->Ok_0;
    let x = Seq::new(n as nat, |k: int| s[k][n]);
    assert forall|k: int| 0 <= k < s.len() implies dot(#[trigger] s[k], x, n, zero) == s[k][n] by {
        assert forall|j: int| 0 <= j < n && j != k implies (#[trigger] s[k][j]).is_zero_spec() by {}
        assert(s[k][k] == one);
        dot_of_unit_row(s[k], x, k, n, zero, one);
    }
    backward_keeps_solutions(m, n, 0, x, zero, one);
}

/// Pivot selection on column `a` leaves the rows above `a` alone.
proof fn pivot_scan_keeps_rows_above<T: Scalar>(m: Seq<Seq<T>>, a: int, i: int, k: int)
    requires
        0 <= k < a < i <= m.len(),
    ensures
        pivot_scan(m, a, i)[k] == m[k],
    decreases i - a,
{
    if i > a + 1 {
        pivot_scan_keeps_rows_above(m, a, i - 1, k);
        pivot_scan_len(m, a, i - 1);
    }
}

/// Once column `k` is eliminated, row `k` no longer changes.
proof fn forward_fixes_row<T: Scalar>(m: Seq<Seq<T>>, k: int, a: int)
    requires
        0 <= k < a <= m.len() - 1,
    ensures
        forward(m, a)[k] == forward(m, k + 1)[k],
        forward(m, a).len() == m.len(),
    decreases a,
{
    if a > k + 1 {
        forward_fixes_row(m, k, a - 1);
        let p = forward(m, a - 1);
        pivot_scan_keeps_rows_above(p, a - 1, m.len() as int, k);
        pivot_scan_len(p, a - 1, m.len() as int);
    } else {
        forward_len(m, a - 1);
        pivot_scan_len(forward(m, a - 1), a - 1, m.len() as int);
    }
}

proof fn forward_len<T: Scalar>(m: Seq<Seq<T>>, k: int)
    requires
        0 <= k <= m.len() - 1,
    ensures
        forward(m, k).len() == m.len(),
    decreases k,
{
    if k > 0 {
        forward_len(m, k - 1);
        pivot_scan_len(forward(m, k - 1), k - 1, m.len() as int);
    }
}

/// The whole pipeline on a system whose pivots are all nonzero (a system
/// with exactly one solution, in a field): the values read off the solved
/// matrix satisfy every equation of the validated input, under the field laws
/// of `cancels`, `ring_laws`, `unit_laws` and `division_laws`.
pub proof fn pipeline_solves_input<T: Scalar>(m: Seq<Seq<T>>, n: int, zero: T, one: T)
    requires
        n >= 1,
        m.len() == n,
        rows_have_width(m, n),
        cancels::<T>(),
        pivots_nonzero(m),
        !forward(m, n - 1)[n - 1][n - 1].is_zero_spec(),
        ring_laws(zero),
        unit_laws(one),
        division_laws(zero, one),
    ensures
        backward(forward(m, n - 1), n, 0) is Ok,
        solves(
            m,
            Seq::new(n as nat, |k: int| backward(forward(m, n - 1), n, 0)->Ok_0[k][n]),
            n,
            zero,
        ),
{
    let u = forward(m, n - 1);
    forward_clears_prefix(m, n - 1);
    convert_is_upper_triangular(m, n);
    assert forall|k: int| 0 <= k < n implies !(#[trigger] u[k][k]).is_zero_spec() by {
        if k < n - 1 {
            forward_fixes_row(m, k, n - 1);
            forward_len(m, k);
            let q = pivot_scan(forward(m, k), k, n);
            pivot_scan_len(forward(m, k), k, n);
            assert(forward(m, k + 1)[k] == q[k]);
            assert(!q[k][k].is_zero_spec());
        }
    }
    solve_satisfies_its_equations(u, n, zero, one);
    let x = Seq::new(n as nat, |k: int| backward(u, n, 0)->Ok_0[k][n]);
    convert_keeps_solutions(m, n, x, zero);
}

} // verus!
