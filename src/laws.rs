//! Properties that relate the statistics and the models to each other.
use crate::dataset::{centred_of, lemma_dot_self_nonneg, spread_of};
use crate::fixed::{
    dot_to, in_range, isqrt_of, lemma_isqrt_exists, lemma_isqrt_unique, sum, sum_to,
    valid_series, FitError, SCALE,
};
use crate::linear::{correlation_result, cross_of, lemma_quotient_sign, linear_fit};
use crate::multiple_linear::{multi_fit, multi_state};
use crate::polynomial::{expansion, poly_fit, power_at};
use vstd::prelude::*;

verus! {

proof fn lemma_sum_affine(s: Seq<int>, a: int, c: int, k: int)
    requires
        0 <= k <= s.len(),
    ensures
        sum_to(Seq::new(s.len(), |i: int| a * s[i] - c), k) == a * sum_to(s, k) - k * c,
    decreases k,
{
    if k > 0 {
        lemma_sum_affine(s, a, c, k - 1);
        assert(a * sum_to(s, k) == a * sum_to(s, k - 1) + a * s[k - 1]) by (nonlinear_arith)
            requires sum_to(s, k) == sum_to(s, k - 1) + s[k - 1];
        assert(k * c == (k - 1) * c + c) by (nonlinear_arith);
    }
}

/// The differences from the mean sum to exactly zero. `diffs` holds them
/// scaled by the number of samples, so no rounding enters.
pub proof fn law_diffs_sum_to_zero(s: Seq<int>)
    ensures
        sum(centred_of(s)) == 0,
{
    let n = s.len() as int;
    lemma_sum_affine(s, n, sum(s), n);
    assert(n * sum(s) - n * sum(s) == 0);
}

proof fn lemma_squares_zero(c: Seq<int>, k: int)
    requires
        0 <= k <= c.len(),
        dot_to(c, c, k) == 0,
    ensures
        forall|i: int| 0 <= i < k ==> c[i] == 0,
    decreases k,
{
    if k > 0 {
        lemma_dot_self_nonneg(c, k - 1);
        assert(c[k - 1] * c[k - 1] >= 0) by (nonlinear_arith);
        assert(c[k - 1] == 0) by (nonlinear_arith)
            requires c[k - 1] * c[k - 1] == 0;
        lemma_squares_zero(c, k - 1);
    }
}

proof fn lemma_dot_zero(a: Seq<int>, b: Seq<int>, n: int)
    requires
        0 <= n <= a.len(),
        forall|i: int| 0 <= i < a.len() ==> a[i] == 0,
    ensures
        dot_to(a, b, n) == 0,
    decreases n,
{
    if n > 0 {
        lemma_dot_zero(a, b, n - 1);
    }
}

/// The spread behind the sample variance is zero exactly when all values
/// are equal: the variance is never rounded to zero.
pub proof fn law_variance_zero_iff_constant(s: Seq<int>)
    requires
        s.len() >= 1,
    ensures
        spread_of(s) == 0 <==> forall|i: int, j: int|
            0 <= i < s.len() && 0 <= j < s.len() ==> s[i] == s[j],
{
    let n = s.len() as int;
    let c = centred_of(s);
    if spread_of(s) == 0 {
        lemma_squares_zero(c, n);
        assert forall|i: int, j: int| 0 <= i < s.len() && 0 <= j < s.len() implies s[i] == s[j] by {
            assert(c[i] == 0 && c[j] == 0);
            assert(n * s[i] == n * s[j]);
            assert(s[i] == s[j]) by (nonlinear_arith)
                requires n * s[i] == n * s[j], n >= 1;
        }
    }
    if forall|i: int, j: int| 0 <= i < s.len() && 0 <= j < s.len() ==> s[i] == s[j] {
        let v = s[0];
        lemma_sum_affine(Seq::new(n as nat, |i: int| v), 1, 0, n);
        assert(Seq::new(n as nat, |i: int| 1 * v - 0) =~= Seq::new(n as nat, |i: int| v));
        assert(s =~= Seq::new(n as nat, |i: int| v)) by {
            assert forall|i: int| 0 <= i < n implies s[i] == v by {
                assert(s[i] == s[0]);
            }
        }
        lemma_sum_const(s, v, n);
        assert forall|i: int| 0 <= i < n implies c[i] == 0 by {
            assert(s[i] == v);
            assert(n * v - n * v == 0);
        }
        lemma_dot_zero(c, c, n);
    }
}

proof fn lemma_sum_const(s: Seq<int>, v: int, k: int)
    requires
        0 <= k <= s.len(),
        forall|i: int| 0 <= i < s.len() ==> s[i] == v,
    ensures
        sum_to(s, k) == k * v,
    decreases k,
{
    if k > 0 {
        lemma_sum_const(s, v, k - 1);
        assert(k * v == (k - 1) * v + v) by (nonlinear_arith);
    }
}

/// On valid series of one length, a simple linear fit fails with
/// `DegenerateVariance` exactly when there is one sample or the predictor's
/// values are all equal.
pub proof fn law_degenerate_predictor(y: Seq<int>, x: Seq<int>)
    requires
        valid_series(x),
        valid_series(y),
        x.len() == y.len(),
    ensures
        linear_fit(y, x) == Err::<(int, int, int), FitError>(FitError::DegenerateVariance) <==> (
        x.len() == 1 || forall|i: int, j: int|
            0 <= i < x.len() && 0 <= j < x.len() ==> x[i] == x[j]),
{
    law_variance_zero_iff_constant(x);
}

/// A multiple linear fit whose first predictor is constant, or whose series
/// hold one sample, fails with `DegenerateVariance`, whatever follows.
pub proof fn law_degenerate_first_predictor(y: Seq<int>, xs: Seq<Seq<int>>)
    requires
        1 <= xs.len() <= 8192,
        valid_series(y),
        valid_series(xs[0]),
        forall|j: int| 0 <= j < xs.len() ==> (#[trigger] xs[j]).len() == y.len(),
        y.len() == 1 || forall|i: int, k: int|
            0 <= i < y.len() && 0 <= k < y.len() ==> xs[0][i] == xs[0][k],
    ensures
        multi_fit(y, xs) == Err::<(int, Seq<int>), FitError>(FitError::DegenerateVariance),
{
    law_degenerate_predictor(y, xs[0]);
    reveal_with_fuel(multi_state, 2);
    assert(multi_state(y, xs, 1) is Err);
    crate::multiple_linear::lemma_state_error_stays(y, xs, 1, xs.len() as nat);
}

/// A polynomial fit on a constant predictor, or on one sample, fails with
/// `DegenerateVariance` once every power is in range.
pub proof fn law_degenerate_polynomial(y: Seq<int>, x: Seq<int>, order: nat)
    requires
        1 <= order <= 255,
        valid_series(x),
        valid_series(y),
        x.len() == y.len(),
        expansion(x, order) is Ok,
        x.len() == 1 || forall|i: int, k: int| 0 <= i < x.len() && 0 <= k < x.len() ==> x[i] == x[k],
    ensures
        poly_fit(y, x, order) == Err::<(int, Seq<int>), FitError>(FitError::DegenerateVariance),
{
    let xs = expansion(x, order)->Ok_0;
    assert forall|i: int| 0 <= i < x.len() implies #[trigger] xs[0][i] == x[i] by {
        assert(in_range(x[i]));
        assert(power_at(x[i], 1) == Some(x[i]));
    }
    assert(xs[0] =~= x);
    law_degenerate_first_predictor(y, xs);
}

/// The correlation lies in `[-1, 1]` and is non-negative exactly when the
/// gradient is.
pub proof fn law_correlation_bounds_and_sign(y: Seq<int>, x: Seq<int>)
    requires
        linear_fit(y, x) is Ok,
        spread_of(y) != 0,
    ensures
        linear_fit(y, x) matches Ok((g, _, _)) && correlation_result(x, y) matches Ok(r) && -SCALE
            <= r <= SCALE && (r >= 0 <==> g >= 0),
{
    let (bx, by) = (spread_of(x), spread_of(y));
    lemma_dot_self_nonneg(centred_of(x), x.len() as int);
    lemma_dot_self_nonneg(centred_of(y), y.len() as int);
    let cross = cross_of(x, y);
    lemma_quotient_sign(SCALE * cross, bx);
    let rx = lemma_isqrt_exists(bx);
    lemma_isqrt_unique(rx, bx);
    let ry = lemma_isqrt_exists(by);
    lemma_isqrt_unique(ry, by);
    if rx == 0 {
        assert((rx + 1) * (rx + 1) == 1) by (nonlinear_arith)
            requires rx == 0;
    }
    if ry == 0 {
        assert((ry + 1) * (ry + 1) == 1) by (nonlinear_arith)
            requires ry == 0;
    }
    assert(rx * ry >= 1) by (nonlinear_arith)
        requires rx >= 1, ry >= 1;
    lemma_quotient_sign(SCALE * cross, isqrt_of(bx) * isqrt_of(by));
    assert(cross >= 0 <==> SCALE * cross >= 0) by (nonlinear_arith);
}

/// A multiple linear fit on one predictor gives the simple linear fit's
/// gradient as its coefficient and its intercept as the intercept.
pub proof fn law_single_predictor_is_linear(y: Seq<int>, x: Seq<int>)
    ensures
        match linear_fit(y, x) {
            Ok((g, i, _)) => multi_fit(y, seq![x]) == Ok::<(int, Seq<int>), FitError>(
                (i, seq![g]),
            ),
            Err(e) => multi_fit(y, seq![x]) == Err::<(int, Seq<int>), FitError>(e),
        },
{
    let xs = seq![x];
    assert(xs[0] == x);
    reveal_with_fuel(multi_state, 2);
    if let Ok((g, i, _)) = linear_fit(y, x) {
        assert(Seq::<int>::empty().push(g) =~= seq![g]);
    }
}

/// A polynomial of order one on a predictor with values in range gives the
/// simple linear fit of the same pair.
pub proof fn law_first_order_polynomial_is_linear(y: Seq<int>, x: Seq<int>)
    requires
        forall|i: int| 0 <= i < x.len() ==> in_range(#[trigger] x[i]),
    ensures
        match linear_fit(y, x) {
            Ok((g, i, _)) => poly_fit(y, x, 1) == Ok::<(int, Seq<int>), FitError>(
                (i, seq![g]),
            ),
            Err(e) => poly_fit(y, x, 1) == Err::<(int, Seq<int>), FitError>(e),
        },
{
    assert forall|i: int, k: nat| 0 <= i < x.len() && 1 <= k <= 1 implies #[trigger] power_at(
        x[i],
        k,
    ) is Some by {
        assert(in_range(x[i]));
    }
    let xs = expansion(x, 1)->Ok_0;
    assert(xs[0] =~= x);
    assert(xs =~~= seq![x]);
    law_single_predictor_is_linear(y, x);
}

} // verus!
