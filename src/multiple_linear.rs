//! A linear model over several predictors, fitted by sequential residual
//! projection: each predictor, in the order given, is fitted by simple least
//! squares against what the predictors before it left unexplained.
//!
//! This is a greedy, order-dependent approximation, not a multivariate least
//! squares solve: with correlated predictors, another order gives other
//! coefficients.
use crate::dataset::{copy_fixed, dot_raw, Dataset};
use crate::fixed::{
    check_range, checked, dot, fixed_text, floor_div, in_range, lemma_dot_bound, lift, raws, valid_series,
    FitError, Fixed, LIMIT, MAX_LEN, SCALE,
};
use crate::linear::{line_at, linear_fit, Linear};
use crate::regression::model_residuals;
use vstd::prelude::*;

verus! {

/// The raw values of each series.
pub open spec fn raw_rows(v: Seq<Vec<Fixed>>) -> Seq<Seq<int>> {
    Seq::new(v.len(), |j: int| raws(v[j]@))
}

/// After the first `k` predictors: the accumulated intercept, their
/// coefficients, and the series that predictor `k` is fitted against (the
/// response for the first, then the residuals of the fit before).
pub open spec fn multi_state(y: Seq<int>, xs: Seq<Seq<int>>, k: nat) -> Result<
    (int, Seq<int>, Seq<int>),
    FitError,
>
    decreases k,
{
    if k == 0 {
        Ok((0, Seq::empty(), y))
    } else {
        match multi_state(y, xs, (k - 1) as nat) {
            Err(e) => Err(e),
            Ok((c, cs, t)) => match linear_fit(t, xs[k - 1]) {
                Err(e) => Err(e),
                Ok((g, i, _)) => if !in_range(c + i) {
                    Err(FitError::OutOfRange)
                } else if k < xs.len() {
                    match model_residuals(|v: int| line_at(g, i, v), xs[k - 1], t) {
                        Err(e) => Err(e),
                        Ok(r) => Ok((c + i, cs.push(g), r)),
                    }
                } else {
                    Ok((c + i, cs.push(g), t))
                },
            },
        }
    }
}

/// Once a step fails, every later state holds the same failure.
pub proof fn lemma_state_error_stays(y: Seq<int>, xs: Seq<Seq<int>>, k: nat, m: nat)
    requires
        k <= m,
        multi_state(y, xs, k) is Err,
    ensures
        multi_state(y, xs, m) == multi_state(y, xs, k),
    decreases m - k,
{
    if k < m {
        lemma_state_error_stays(y, xs, k, (m - 1) as nat);
    }
}

/// A fit holds one coefficient per predictor, at most `MAX_LEN` of them,
/// each in range, and an intercept in range.
pub proof fn lemma_fit_shape(y: Seq<int>, xs: Seq<Seq<int>>)
    requires
        multi_fit(y, xs) is Ok,
    ensures
        multi_fit(y, xs) matches Ok((c, cs)) && cs.len() == xs.len() && xs.len() <= MAX_LEN
            && in_range(c) && forall|j: int| 0 <= j < cs.len() ==> in_range(#[trigger] cs[j]),
{
    lemma_state_shape(y, xs, xs.len() as nat);
}

pub proof fn lemma_state_shape(y: Seq<int>, xs: Seq<Seq<int>>, k: nat)
    requires
        k <= xs.len(),
        multi_state(y, xs, k) is Ok,
    ensures
        multi_state(y, xs, k) matches Ok((c, cs, _)) && cs.len() == k && in_range(c) && forall|
            j: int,
        | 0 <= j < cs.len() ==> in_range(#[trigger] cs[j]),
    decreases k,
{
    if k > 0 {
        lemma_state_shape(y, xs, (k - 1) as nat);
    }
}

/// The fitted `(intercept, coefficients)` of `y` against the predictors `xs`.
pub open spec fn multi_fit(y: Seq<int>, xs: Seq<Seq<int>>) -> Result<(int, Seq<int>), FitError> {
    if xs.len() == 0 {
        Err(FitError::EmptyInput)
    } else if y.len() == 0 || exists|j: int| 0 <= j < xs.len() && (#[trigger] xs[j]).len() == 0 {
        Err(FitError::EmptyInput)
    } else if exists|j: int| 0 <= j < xs.len() && (#[trigger] xs[j]).len() != y.len() {
        Err(FitError::LengthMismatch)
    } else if xs.len() > MAX_LEN {
        Err(FitError::OutOfRange)
    } else {
        match multi_state(y, xs, xs.len() as nat) {
            Ok((c, cs, _)) => Ok((c, cs)),
            Err(e) => Err(e),
        }
    }
}

/// The raw prediction for one row of predictor values.
pub open spec fn multi_at(intercept: int, cs: Seq<int>, row: Seq<int>) -> Result<int, FitError> {
    if row.len() != cs.len() {
        Err(FitError::LengthMismatch)
    } else if exists|j: int| 0 <= j < row.len() && !in_range(#[trigger] row[j]) {
        Err(FitError::OutOfRange)
    } else {
        checked(intercept + dot(cs, row) / (SCALE as int))
    }
}

/// The `i`-th value of every predictor.
pub open spec fn row_of(xs: Seq<Seq<int>>, i: int) -> Seq<int> {
    Seq::new(xs.len(), |j: int| xs[j][i])
}

/// `intercept` plus the sum of `coefficients[j] * row[j]`.
pub(crate) fn combine(intercept: Fixed, coefficients: &Vec<Fixed>, row: &Vec<Fixed>) -> (r: Result<
    Fixed,
    FitError,
>)
    requires
        in_range(intercept.raw as int),
        coefficients.len() <= MAX_LEN,
        forall|j: int| 0 <= j < coefficients.len() ==> in_range(#[trigger] raws(coefficients@)[j]),
    ensures
        r == lift(multi_at(intercept.raw as int, raws(coefficients@), raws(row@))),
{
    let ghost (cs, rs) = (raws(coefficients@), raws(row@));
    if row.len() != coefficients.len() {
        return Err(FitError::LengthMismatch);
    }
    let mut j: usize = 0;
    while j < row.len()
        invariant
            rs == raws(row@),
            cs == raws(coefficients@),
            row.len() == coefficients.len(),
            0 <= j <= row.len(),
            forall|k: int| 0 <= k < j ==> in_range(#[trigger] rs[k]),
        decreases row.len() - j,
    {
        if row[j].raw < -LIMIT || row[j].raw > LIMIT {
            assert(!in_range(rs[j as int]));
            assert(multi_at(intercept.raw as int, cs, rs) == Err::<int, FitError>(
                FitError::OutOfRange,
            ));
            return Err(FitError::OutOfRange);
        }
        j = j + 1;
    }
    proof {
        assert(forall|k: int| 0 <= k < row.len() ==> #[trigger] row@[k].raw == rs[k]);
        assert(forall|k: int| 0 <= k < cs.len() ==> #[trigger] coefficients@[k].raw == cs[k]);
        lemma_dot_bound(cs, rs, cs.len() as int, LIMIT as int, LIMIT as int);
        assert(cs.len() * (LIMIT * LIMIT) <= MAX_LEN * (LIMIT * LIMIT)) by (nonlinear_arith)
            requires cs.len() <= MAX_LEN;
    }
    let total = dot_raw(coefficients, row);
    check_range(intercept.raw as i128 + floor_div(total, SCALE as i128))
}

/// The numbers of `cs`, each with six places, separated by `", "`.
pub open spec fn joined_text(cs: Seq<int>) -> Seq<char>
    decreases cs.len(),
{
    if cs.len() == 0 {
        Seq::empty()
    } else if cs.len() == 1 {
        fixed_text(cs[0])
    } else {
        joined_text(cs.drop_last()) + seq![',', ' '] + fixed_text(cs.last())
    }
}

/// The intercept, a space, and the coefficients in brackets:
/// `4.000000 [3.000000, 0.500000]`.
pub open spec fn coefficients_text_of(intercept: int, cs: Seq<int>) -> Seq<char> {
    fixed_text(intercept) + seq![' ', '['] + joined_text(cs) + seq![']']
}

/// The intercept followed by the bracketed list of coefficients.
pub(crate) fn coefficients_text(intercept: Fixed, coefficients: &Vec<Fixed>) -> (r: String)
    ensures
        r@ == coefficients_text_of(intercept.raw as int, raws(coefficients@)),
{
    proof {
        reveal_strlit(" [");
        reveal_strlit(", ");
        reveal_strlit("]");
    }
    let ghost cs = raws(coefficients@);
    let mut text = intercept.to_text();
    text.append(" [");
    let ghost head = text@;
    let mut j: usize = 0;
    while j < coefficients.len()
        invariant
            cs == raws(coefficients@),
            0 <= j <= coefficients.len(),
            head == fixed_text(intercept.raw as int) + seq![' ', '['],
            text@ == head + joined_text(cs.take(j as int)),
        decreases coefficients.len() - j,
    {
        let ghost prev = cs.take(j as int);
        let piece = coefficients[j].to_text();
        let ghost before = text@;
        if j > 0 {
            text.append(", ");
        }
        text.append(piece.as_str());
        proof {
            let now = cs.take(j + 1);
            assert(now.drop_last() =~= prev);
            assert(now.last() == cs[j as int]);
            assert(cs[j as int] == coefficients@[j as int].raw);
            if j == 0 {
                assert(before == head + joined_text(prev));
                assert(joined_text(prev) =~= Seq::<char>::empty());
                assert(before =~= head);
                assert(text@ == before + piece@);
                assert(piece@ == fixed_text(now[0]));
                assert(joined_text(now) == fixed_text(now[0]));
                assert(text@ == head + joined_text(now));
            } else {
                assert(joined_text(now) == joined_text(prev) + seq![',', ' '] + fixed_text(
                    now.last(),
                ));
                assert(text@ == before + ", "@ + piece@);
                reveal_strlit(", ");
                assert(", "@ =~= seq![',', ' ']);
                assert(text@ =~= head + joined_text(now));
            }
        }
        j = j + 1;
    }
    assert(cs.take(cs.len() as int) =~= cs);
    proof {
        reveal_strlit("]");
    }
    text.append("]");
    assert(text@ =~= coefficients_text_of(intercept.raw as int, cs));
    text
}

/// A linear model `y = intercept + sum of coefficients[j] * xs[j]`.
#[derive(Debug)]
pub struct MultipleLinear {
    pub y: Dataset,
    pub xs: Vec<Dataset>,
    pub coefficients: Vec<Fixed>,
    pub intercept: Fixed,
}

impl MultipleLinear {
    /// The predictor series.
    pub open spec fn x_views(&self) -> Seq<Seq<int>> {
        Seq::new(self.xs@.len(), |j: int| self.xs@[j]@)
    }

    /// The series are well formed, of one length, and the parameters are
    /// their fit.
    pub open spec fn wf(&self) -> bool {
        &&& self.y.wf()
        &&& forall|j: int| 0 <= j < self.xs@.len() ==> (#[trigger] self.xs@[j]).wf()
        &&& forall|j: int| 0 <= j < self.xs@.len() ==> (#[trigger] self.xs@[j])@.len() == self.y@.len()
        &&& multi_fit(self.y@, self.x_views()) == Ok::<(int, Seq<int>), FitError>(
            (self.intercept.raw as int, raws(self.coefficients@)),
        )
    }

    /// Fits `y` against the predictors `xs`, in the order given.
    pub fn new(y: Vec<Fixed>, xs: Vec<Vec<Fixed>>) -> (r: Result<MultipleLinear, FitError>)
        ensures
            match multi_fit(raws(y@), raw_rows(xs@)) {
                Ok((c, cs)) => r matches Ok(m) && m.wf() && m.intercept.raw == c && raws(
                    m.coefficients@,
                ) == cs && m.y@ == raws(y@) && m.x_views() == raw_rows(xs@),
                Err(e) => r matches Err(f) && f == e,
            },
    {
        let ghost ys = raws(y@);
        let ghost xss = raw_rows(xs@);
        if xs.len() == 0 {
            return Err(FitError::EmptyInput);
        }
        if y.len() == 0 {
            return Err(FitError::EmptyInput);
        }
        let mut j: usize = 0;
        while j < xs.len()
            invariant
                xss == raw_rows(xs@),
                0 <= j <= xs.len(),
                forall|i: int| 0 <= i < j ==> (#[trigger] xss[i]).len() != 0,
            decreases xs.len() - j,
        {
            if xs[j].len() == 0 {
                assert(xss[j as int].len() == 0);
                return Err(FitError::EmptyInput);
            }
            j = j + 1;
        }
        let mut j: usize = 0;
        while j < xs.len()
            invariant
                xss == raw_rows(xs@),
                ys == raws(y@),
                ys.len() > 0,
                0 <= j <= xs.len(),
                forall|i: int| 0 <= i < xs.len() ==> (#[trigger] xss[i]).len() != 0,
                forall|i: int| 0 <= i < j ==> (#[trigger] xss[i]).len() == ys.len(),
            decreases xs.len() - j,
        {
            if xs[j].len() != y.len() {
                assert(xss[j as int].len() != ys.len());
                return Err(FitError::LengthMismatch);
            }
            j = j + 1;
        }
        if xs.len() > MAX_LEN {
            return Err(FitError::OutOfRange);
        }
        let mut intercept: Fixed = Fixed { raw: 0 };
        let mut coefficients: Vec<Fixed> = Vec::new();
        let mut target: Vec<Fixed> = copy_fixed(&y);
        let mut k: usize = 0;
        assert(raws(coefficients@) =~= Seq::<int>::empty());
        while k < xs.len()
            invariant
                ys == raws(y@),
                xss == raw_rows(xs@),
                1 <= xs.len() <= MAX_LEN,
                0 <= k <= xs.len(),
                multi_state(ys, xss, k as nat) == Ok::<(int, Seq<int>, Seq<int>), FitError>(
                    (intercept.raw as int, raws(coefficients@), raws(target@)),
                ),
                k > 0 ==> valid_series(ys),
                ys.len() > 0,
                forall|i: int| 0 <= i < xs.len() ==> (#[trigger] xss[i]).len() == ys.len(),
                raws(target@).len() == ys.len(),
                forall|j: int|
                    0 <= j < k ==> valid_series(#[trigger] xss[j]) && xss[j].len() == ys.len(),
            decreases xs.len() - k,
        {
            proof {
                assert(xss[k as int] == raws(xs@[k as int]@));
            }
            let ghost t = raws(target@);
            let fit = match Linear::new(copy_fixed(&target), copy_fixed(&xs[k])) {
                Ok(f) => f,
                Err(e) => {
                    proof {
                        lemma_state_error_stays(ys, xss, (k + 1) as nat, xs.len() as nat);
                    }
                    return Err(e);
                },
            };
            let ghost (g, i) = (fit.gradient.raw as int, fit.intercept.raw as int);
            let acc = match check_range(intercept.raw as i128 + fit.intercept.raw as i128) {
                Ok(a) => a,
                Err(e) => {
                    proof {
                        lemma_state_error_stays(ys, xss, (k + 1) as nat, xs.len() as nat);
                    }
                    return Err(e);
                },
            };
            if k + 1 < xs.len() {
                match fit.fit_residuals() {
                    Ok(next) => {
                        target = next;
                    },
                    Err(e) => {
                        proof {
                            lemma_state_error_stays(ys, xss, (k + 1) as nat, xs.len() as nat);
                        }
                        return Err(e);
                    },
                }
            }
            let ghost prev = raws(coefficients@);
            coefficients.push(fit.gradient);
            assert(raws(coefficients@) =~= prev.push(fit.gradient.raw as int));
            intercept = acc;
            k = k + 1;
        }
        let yd = match Dataset::new(y) {
            Ok(d) => d,
            Err(e) => return Err(e),
        };
        let mut datasets: Vec<Dataset> = Vec::new();
        let mut j: usize = 0;
        while j < xs.len()
            invariant
                xss == raw_rows(xs@),
                0 <= j <= xs.len(),
                datasets.len() == j,
                forall|i: int|
                    0 <= i < xs.len() ==> valid_series(#[trigger] xss[i]) && xss[i].len() == ys.len(),
                forall|i: int| 0 <= i < j ==> (#[trigger] datasets@[i]).wf() && datasets@[i]@ == xss[i],
            decreases xs.len() - j,
        {
            assert(xss[j as int] == raws(xs@[j as int]@));
            match Dataset::new(copy_fixed(&xs[j])) {
                Ok(d) => datasets.push(d),
                Err(e) => return Err(e),
            }
            j = j + 1;
        }
        let m = MultipleLinear { y: yd, xs: datasets, coefficients, intercept };
        assert(m.x_views() =~= xss);
        Ok(m)
    }

    /// The prediction for one row holding a value of each predictor, in order.
    pub fn predict_single(&self, row: &Vec<Fixed>) -> (r: Result<Fixed, FitError>)
        requires
            self.wf(),
        ensures
            r == lift(multi_at(self.intercept.raw as int, raws(self.coefficients@), raws(row@))),
    {
        proof {
            lemma_fit_shape(self.y@, self.x_views());
        }
        combine(self.intercept, &self.coefficients, row)
    }

    /// The intercept and the coefficients, for display.
    pub fn equation_string(&self) -> (r: String)
        ensures
            r@ == coefficients_text_of(self.intercept.raw as int, raws(self.coefficients@)),
    {
        coefficients_text(self.intercept, &self.coefficients)
    }

    /// The prediction at every sample: row `i` gathers the `i`-th value of
    /// each predictor.
    pub fn predictions(&self) -> (r: Result<Vec<Fixed>, FitError>)
        requires
            self.wf(),
        ensures
            match r {
                Ok(v) => v.len() == self.y@.len() && forall|i: int|
                    0 <= i < self.y@.len() ==> #[trigger] multi_at(
                        self.intercept.raw as int,
                        raws(self.coefficients@),
                        row_of(self.x_views(), i),
                    ) == Ok::<int, FitError>(v@[i].raw as int),
                Err(e) => e == FitError::OutOfRange && exists|i: int|
                    0 <= i < self.y@.len() && #[trigger] multi_at(
                        self.intercept.raw as int,
                        raws(self.coefficients@),
                        row_of(self.x_views(), i),
                    ) is Err,
            },
    {
        let n = self.y.len();
        let mut out: Vec<Fixed> = Vec::new();
        let mut i: usize = 0;
        while i < n
            invariant
                self.wf(),
                n == self.y@.len(),
                0 <= i <= n,
                out.len() == i,
                forall|k: int|
                    0 <= k < i ==> #[trigger] multi_at(
                        self.intercept.raw as int,
                        raws(self.coefficients@),
                        row_of(self.x_views(), k),
                    ) == Ok::<int, FitError>(out@[k].raw as int),
            decreases n - i,
        {
            let row = self.row(i);
            proof {
                lemma_fit_shape(self.y@, self.x_views());
                assert(raws(row@).len() == raws(self.coefficients@).len());
            }
            match self.predict_single(&row) {
                Ok(p) => out.push(p),
                Err(e) => {
                    proof {
                        let rs = raws(row@);
                        assert forall|k: int| 0 <= k < rs.len() implies in_range(#[trigger] rs[k]) by {
                            let xk = self.xs@[k];
                            assert(self.x_views()[k] == xk@);
                            xk.lemma_wf_valid();
                        }
                    }
                    return Err(e);
                },
            }
            i = i + 1;
        }
        Ok(out)
    }

    /// The `i`-th value of every predictor.
    fn row(&self, i: usize) -> (r: Vec<Fixed>)
        requires
            self.wf(),
            i < self.y@.len(),
        ensures
            raws(r@) == row_of(self.x_views(), i as int),
    {
        let mut out: Vec<Fixed> = Vec::new();
        let mut j: usize = 0;
        while j < self.xs.len()
            invariant
                self.wf(),
                i < self.y@.len(),
                0 <= j <= self.xs.len(),
                out.len() == j,
                forall|k: int| 0 <= k < j ==> #[trigger] out@[k].raw == self.xs@[k]@[i as int],
            decreases self.xs.len() - j,
        {
            out.push(self.xs[j].get(i));
            j = j + 1;
        }
        assert(raws(out@) =~= row_of(self.x_views(), i as int));
        out
    }
}

} // verus!
