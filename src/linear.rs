//! Ordinary least squares on one predictor.
use crate::dataset::{
    centred_of, dot_wide, lemma_spread_bound, spread_of, variance_den, wides, Dataset,
    CENTRED_BOUND, SPREAD_BOUND,
};
use crate::fixed::{
    check_range, dot, fixed_mul, fixed_text, floor_div, in_range, isqrt, isqrt_of, lift, raws, scaled_ratio, sum,
    valid_series, FitError, Fixed, Ratio, LIMIT, SCALE,
};
use crate::regression::{model_residuals, raw_result, Regression};
use vstd::prelude::*;

verus! {

/// The sum of products of the centred values of `x` and `y`: `n^2` times
/// the sum of products of their differences from the means.
pub open spec fn cross_of(x: Seq<int>, y: Seq<int>) -> int {
    dot(centred_of(x), centred_of(y))
}

/// The fitted `(gradient, intercept, cross)` of `y` against `x`, where
/// `cross` is `cross_of(x, y)`. The gradient is the covariance over the
/// variance of `x`, computed from the exact sums and rounded down once; the
/// intercept is the mean of `y` less the gradient times the mean of `x`,
/// rounded down once. A predictor whose values are all equal, or a single
/// sample, gives `DegenerateVariance`.
pub open spec fn linear_fit(y: Seq<int>, x: Seq<int>) -> Result<(int, int, int), FitError> {
    if x.len() == 0 || y.len() == 0 {
        Err(FitError::EmptyInput)
    } else if x.len() != y.len() {
        Err(FitError::LengthMismatch)
    } else if !valid_series(x) || !valid_series(y) {
        Err(FitError::OutOfRange)
    } else if x.len() <= 1 || spread_of(x) == 0 {
        Err(FitError::DegenerateVariance)
    } else {
        let n = x.len() as int;
        let g = (SCALE * cross_of(x, y)) / spread_of(x);
        let i = (SCALE * sum(y) - g * sum(x)) / (n * SCALE);
        if !in_range(g) || !in_range(i) {
            Err(FitError::OutOfRange)
        } else {
            Ok((g, i, cross_of(x, y)))
        }
    }
}

/// The raw prediction of a line at `x`, where it is in range.
pub open spec fn line_at(gradient: int, intercept: int, x: int) -> Option<int> {
    let v = fixed_mul(gradient, x) + intercept;
    if in_range(v) {
        Some(v)
    } else {
        None
    }
}

/// `y = <gradient>x + <intercept>`, each number with six places.
pub open spec fn line_text(gradient: int, intercept: int) -> Seq<char> {
    seq!['y', ' ', '=', ' '] + fixed_text(gradient) + seq!['x', ' ', '+', ' '] + fixed_text(
        intercept,
    )
}

/// Pearson's correlation in millionths: the cross sum over the product of
/// the integer square roots of the two spreads, rounded down and kept
/// within `[-1, 1]`.
pub open spec fn correlation_of(cross: int, sx: int, sy: int) -> int {
    let q = (SCALE * cross) / (isqrt_of(sx) * isqrt_of(sy));
    if q > SCALE {
        SCALE as int
    } else if q < -SCALE {
        -SCALE
    } else {
        q
    }
}

/// Pearson's correlation of `x` and `y`; a constant `y` gives `DegenerateVariance`.
pub open spec fn correlation_result(x: Seq<int>, y: Seq<int>) -> Result<int, FitError> {
    if spread_of(y) == 0 {
        Err(FitError::DegenerateVariance)
    } else {
        Ok(correlation_of(cross_of(x, y), spread_of(x), spread_of(y)))
    }
}

/// A straight line fitted by least squares: `y = gradient * x + intercept`.
#[derive(Debug)]
pub struct Linear {
    pub x: Dataset,
    pub y: Dataset,
    pub gradient: Fixed,
    pub intercept: Fixed,
    /// The sample covariance as an exact fraction of square units.
    pub covariance: Ratio,
}

/// Raw line prediction with its range check.
pub(crate) fn line_predict(gradient: Fixed, intercept: Fixed, x: Fixed) -> (r: Result<
    Fixed,
    FitError,
>)
    requires
        in_range(gradient.raw as int),
        in_range(intercept.raw as int),
    ensures
        match line_at(gradient.raw as int, intercept.raw as int, x.raw as int) {
            Some(v) => r matches Ok(p) && p.raw == v,
            None => r == Err::<Fixed, FitError>(FitError::OutOfRange),
        },
{
    proof {
        let (g, xr) = (gradient.raw as int, x.raw as int);
        assert(-0x80_0000_0000_0000_0000_0000_0000_0000 <= g * xr
            <= 0x80_0000_0000_0000_0000_0000_0000_0000) by (nonlinear_arith)
            requires
                -0x20_0000_0000_0000 <= g <= 0x20_0000_0000_0000,
                -0x8000_0000_0000_0000 <= xr <= 0x8000_0000_0000_0000;
    }
    let prod = gradient.raw as i128 * x.raw as i128;
    let scaled = floor_div(prod, SCALE as i128);
    proof {
        vstd::arithmetic::div_mod::lemma_div_is_ordered(
            prod as int,
            0x80_0000_0000_0000_0000_0000_0000_0000,
            SCALE as int,
        );
        vstd::arithmetic::div_mod::lemma_div_is_ordered(
            -0x80_0000_0000_0000_0000_0000_0000_0000,
            prod as int,
            SCALE as int,
        );
    }
    check_range(scaled + intercept.raw as i128)
}

impl Linear {
    /// The series and their fit.
    pub open spec fn wf(&self) -> bool {
        &&& self.x.wf()
        &&& self.y.wf()
        &&& linear_fit(self.y@, self.x@) == Ok::<(int, int, int), FitError>(
            (self.gradient.raw as int, self.intercept.raw as int, self.covariance.num as int),
        )
        &&& self.covariance.den == variance_den(self.x@.len() as int)
    }

    /// Fits `y` against `x`.
    pub fn new(y: Vec<Fixed>, x: Vec<Fixed>) -> (r: Result<Linear, FitError>)
        ensures
            match linear_fit(raws(y@), raws(x@)) {
                Ok((g, i, c)) => r matches Ok(l) && l.wf() && l.gradient.raw == g
                    && l.intercept.raw == i && l.covariance.num == c && l.covariance.den
                    == variance_den(x@.len() as int) && l.x@ == raws(x@) && l.y@ == raws(y@),
                Err(e) => r matches Err(f) && f == e,
            },
    {
        if x.len() == 0 || y.len() == 0 {
            return Err(FitError::EmptyInput);
        }
        if x.len() != y.len() {
            return Err(FitError::LengthMismatch);
        }
        let mut xd = Dataset::new(x)?;
        let mut yd = Dataset::new(y)?;
        if xd.len() <= 1 {
            return Err(FitError::DegenerateVariance);
        }
        let vx = xd.variance()?;
        if vx.num == 0 {
            return Err(FitError::DegenerateVariance);
        }
        let dx = xd.diffs();
        let dy = yd.diffs();
        proof {
            xd.lemma_wf_valid();
            yd.lemma_wf_valid();
            assert(wides(dx@).len() == dx.len() && wides(dy@).len() == dy.len());
            lemma_spread_bound(xd@);
        }
        let cross = dot_wide(&dx, &dy);
        let gradient = match scaled_ratio(cross, vx.num) {
            Some(g) => Fixed { raw: g },
            None => return Err(FitError::OutOfRange),
        };
        let n = xd.len() as i128;
        let sx = xd.total();
        let sy = yd.total();
        proof {
            let (g, a, b) = (gradient.raw as int, sx as int, sy as int);
            assert(-0x1_0000_0000_0000_0000_0000_0000 <= g * a <= 0x1_0000_0000_0000_0000_0000_0000)
                by (nonlinear_arith)
                requires -LIMIT <= g <= LIMIT, -0x10_0000_0000_0000 <= a <= 0x10_0000_0000_0000;
            assert(-0x1_0000_0000_0000_0000_0000_0000 <= SCALE * b <= 0x1_0000_0000_0000_0000_0000_0000)
                by (nonlinear_arith)
                requires -0x10_0000_0000_0000 <= b <= 0x10_0000_0000_0000;
        }
        let intercept = check_range(
            floor_div(1_000_000 * sy - (gradient.raw as i128) * sx, n * 1_000_000),
        )?;
        let covariance = Ratio { num: cross, den: vx.den };
        Ok(Linear { x: xd, y: yd, gradient, intercept, covariance })
    }

    /// The responses minus the line's predictions at the fitted inputs.
    pub fn fit_residuals(&self) -> (r: Result<Vec<Fixed>, FitError>)
        requires
            self.wf(),
        ensures
            raw_result(r) == model_residuals(
                |v: int| line_at(self.gradient.raw as int, self.intercept.raw as int, v),
                self.x@,
                self.y@,
            ),
    {
        let r = self.residuals();
        assert((|x: int| self.model(x)) =~= (|v: int|
            line_at(self.gradient.raw as int, self.intercept.raw as int, v)));
        r
    }

    /// Pearson's correlation coefficient of the two series, in `[-1, 1]`.
    pub fn pearsons_correlation(&mut self) -> (r: Result<Fixed, FitError>)
        requires
            old(self).wf(),
        ensures
            final(self).wf(),
            final(self).x@ == old(self).x@,
            final(self).y@ == old(self).y@,
            final(self).gradient == old(self).gradient,
            final(self).intercept == old(self).intercept,
            final(self).covariance == old(self).covariance,
            r == lift(correlation_result(old(self).x@, old(self).y@)),
    {
        let vx = self.x.variance();
        let vy = self.y.variance();
        let (bx, by) = match (vx, vy) {
            (Ok(a), Ok(b)) => (a.num, b.num),
            _ => return Err(FitError::DegenerateVariance),
        };
        if by == 0 {
            return Err(FitError::DegenerateVariance);
        }
        proof {
            self.x.lemma_wf_valid();
            self.y.lemma_wf_valid();
            lemma_spread_bound(self.x@);
            lemma_spread_bound(self.y@);
        }
        let rx = isqrt(bx as u128);
        let ry = isqrt(by as u128);
        proof {
            lemma_isqrt_positive(bx as int, rx as int);
            lemma_isqrt_positive(by as int, ry as int);
            assert(rx * ry <= 0x100_0000_0000_0000_0000_0000_0000_0000) by (nonlinear_arith)
                requires 0 <= rx < 0x1000_0000_0000_0000, 0 <= ry < 0x1000_0000_0000_0000;
            assert(rx * ry >= 1) by (nonlinear_arith)
                requires rx >= 1, ry >= 1;
        }
        let cross = self.covariance.num;
        proof {
            lemma_cross_bound(self.x@, self.y@);
        }
        let q = scaled_ratio(cross, (rx * ry) as i128);
        proof {
            lemma_quotient_sign(SCALE * cross, rx * ry);
            assert(cross >= 0 <==> SCALE * cross >= 0) by (nonlinear_arith);
        }
        let v: i64 = match q {
            Some(v) => {
                if v > 1_000_000 {
                    1_000_000
                } else if v < -1_000_000 {
                    -1_000_000
                } else {
                    v
                }
            },
            None => {
                if cross >= 0 {
                    1_000_000
                } else {
                    -1_000_000
                }
            },
        };
        Ok(Fixed { raw: v })
    }
}

/// A quotient by a positive divisor has the sign of the dividend.
pub proof fn lemma_quotient_sign(a: int, b: int)
    requires
        b > 0,
    ensures
        a >= 0 <==> a / b >= 0,
{
    vstd::arithmetic::div_mod::lemma_fundamental_div_mod(a, b);
    vstd::arithmetic::div_mod::lemma_mod_bound(a, b);
    if a >= 0 {
        vstd::arithmetic::div_mod::lemma_div_is_ordered(0, a, b);
    } else {
        assert(a / b < 0) by (nonlinear_arith)
            requires a == b * (a / b) + a % b, 0 <= a % b < b, a < 0, b > 0;
    }
}

/// The cross sum of two valid series of one length is at most `SPREAD_BOUND`.
pub proof fn lemma_cross_bound(x: Seq<int>, y: Seq<int>)
    requires
        valid_series(x),
        valid_series(y),
        x.len() == y.len(),
    ensures
        -SPREAD_BOUND <= cross_of(x, y) <= SPREAD_BOUND,
{
    crate::dataset::lemma_centred_bound(x);
    crate::dataset::lemma_centred_bound(y);
    let b = CENTRED_BOUND as int;
    crate::fixed::lemma_dot_bound(centred_of(x), centred_of(y), x.len() as int, b, b);
    assert(x.len() * (b * b) <= SPREAD_BOUND) by (nonlinear_arith)
        requires x.len() <= 8192, b == 0x20_0000_0000_0000;
}

/// The integer square root of a positive number is positive.
proof fn lemma_isqrt_positive(v: int, r: int)
    requires
        v >= 1,
        r == isqrt_of(v),
        crate::fixed::is_isqrt(r, v),
    ensures
        r >= 1,
{
    if r == 0 {
        assert((r + 1) * (r + 1) == 1) by (nonlinear_arith)
            requires r == 0;
    }
}

impl Regression for Linear {
    open spec fn inv(&self) -> bool {
        self.wf()
    }

    open spec fn x_values(&self) -> Seq<int> {
        self.x@
    }

    open spec fn y_values(&self) -> Seq<int> {
        self.y@
    }

    open spec fn model(&self, x: int) -> Option<int> {
        line_at(self.gradient.raw as int, self.intercept.raw as int, x)
    }

    fn x_data(&self) -> (r: &Dataset) {
        &self.x
    }

    fn y_data(&self) -> (r: &Dataset) {
        &self.y
    }

    open spec fn equation_text(&self) -> Seq<char> {
        line_text(self.gradient.raw as int, self.intercept.raw as int)
    }

    fn equation_string(&self) -> (r: String) {
        proof {
            reveal_strlit("y = ");
            reveal_strlit("x + ");
        }
        let mut text = String::from_str("y = ");
        text.append(self.gradient.to_text().as_str());
        text.append("x + ");
        text.append(self.intercept.to_text().as_str());
        assert(text@ =~= line_text(self.gradient.raw as int, self.intercept.raw as int));
        text
    }

    fn predict_single(&self, x: Fixed) -> (r: Result<Fixed, FitError>) {
        line_predict(self.gradient, self.intercept, x)
    }
}

} // verus!
