//! Polynomial regression: one predictor expanded into its powers
//! `x, x^2, ..., x^order`, fitted as a multiple linear model.
use crate::dataset::{copy_fixed, Dataset};
use crate::fixed::{
    check_range, checked, fixed_mul, floor_div, in_range, lift, raws, FitError, Fixed, LIMIT,
    SCALE,
};
use crate::multiple_linear::{
    coefficients_text, coefficients_text_of, combine, lemma_fit_shape, multi_at, multi_fit, raw_rows, MultipleLinear,
};
use crate::regression::Regression;
use vstd::prelude::*;

verus! {

/// `x` to the power `k >= 1`, each product rounded down and kept in range.
pub open spec fn power_at(x: int, k: nat) -> Option<int>
    decreases k,
{
    if k <= 1 {
        if in_range(x) {
            Some(x)
        } else {
            None
        }
    } else {
        match power_at(x, (k - 1) as nat) {
            Some(p) => if in_range(fixed_mul(p, x)) {
                Some(fixed_mul(p, x))
            } else {
                None
            },
            None => None,
        }
    }
}

/// The powers `1..=order` of every sample, as one series per power.
pub open spec fn expansion(x: Seq<int>, order: nat) -> Result<Seq<Seq<int>>, FitError> {
    if forall|i: int, k: nat|
        0 <= i < x.len() && 1 <= k <= order ==> #[trigger] power_at(x[i], k) is Some {
        Ok(Seq::new(order, |k: int| Seq::new(x.len(), |i: int| power_at(x[i], (k + 1) as nat)->0)))
    } else {
        Err(FitError::OutOfRange)
    }
}

/// The fitted `(intercept, coefficients)` of `y` against the powers of `x`.
pub open spec fn poly_fit(y: Seq<int>, x: Seq<int>, order: nat) -> Result<(int, Seq<int>), FitError> {
    match expansion(x, order) {
        Ok(xs) => multi_fit(y, xs),
        Err(e) => Err(e),
    }
}

/// The powers `1..=n` of one value.
pub open spec fn powers_row(x: int, n: nat) -> Seq<int> {
    Seq::new(n, |k: int| power_at(x, (k + 1) as nat)->0)
}

/// The raw prediction of a polynomial at `x`, where it and every power are in range.
pub open spec fn poly_at(intercept: int, cs: Seq<int>, x: int) -> Option<int> {
    if forall|k: nat| 1 <= k <= cs.len() ==> #[trigger] power_at(x, k) is Some {
        match multi_at(intercept, cs, powers_row(x, cs.len())) {
            Ok(v) => Some(v),
            Err(_) => None,
        }
    } else {
        None
    }
}

/// The product of two in-range fixed-point values, rounded down.
fn mul_checked(a: Fixed, b: Fixed) -> (r: Result<Fixed, FitError>)
    requires
        in_range(a.raw as int),
        in_range(b.raw as int),
    ensures
        r == lift(checked(fixed_mul(a.raw as int, b.raw as int))),
{
    proof {
        let (x, y) = (a.raw as int, b.raw as int);
        assert(-0x800_0000_0000_0000_0000_0000_0000 <= x * y
            <= 0x800_0000_0000_0000_0000_0000_0000) by (nonlinear_arith)
            requires -LIMIT <= x <= LIMIT, -LIMIT <= y <= LIMIT;
    }
    check_range(floor_div(a.raw as i128 * b.raw as i128, SCALE as i128))
}

/// Once a power leaves the range, every higher power is out of range too.
pub proof fn lemma_power_none_stays(x: int, k: nat, m: nat)
    requires
        1 <= k <= m,
        power_at(x, k) is None,
    ensures
        power_at(x, m) is None,
    decreases m - k,
{
    if k < m {
        lemma_power_none_stays(x, k, (m - 1) as nat);
    }
}

/// The powers `1..=n` of `x`.
fn power_row(x: Fixed, n: usize) -> (r: Result<Vec<Fixed>, FitError>)
    ensures
        match r {
            Ok(v) => (forall|k: nat| 1 <= k <= n ==> #[trigger] power_at(x.raw as int, k) is Some)
                && raws(v@) == powers_row(x.raw as int, n as nat),
            Err(e) => e == FitError::OutOfRange && !(forall|k: nat|
                1 <= k <= n ==> #[trigger] power_at(x.raw as int, k) is Some),
        },
{
    let ghost xr = x.raw as int;
    let mut out: Vec<Fixed> = Vec::new();
    if n == 0 {
        assert(raws(out@) =~= powers_row(xr, 0));
        return Ok(out);
    }
    if x.raw < -LIMIT || x.raw > LIMIT {
        assert(power_at(xr, 1) is None);
        return Err(FitError::OutOfRange);
    }
    let mut cur = x;
    out.push(x);
    let mut k: usize = 1;
    while k < n
        invariant
            xr == x.raw,
            1 <= k <= n,
            out.len() == k,
            in_range(xr),
            power_at(xr, k as nat) == Some(cur.raw as int),
            forall|j: nat| 1 <= j <= k ==> #[trigger] power_at(xr, j) is Some,
            forall|j: int| 0 <= j < k ==> #[trigger] out@[j].raw == power_at(xr, (j + 1) as nat)->0,
        decreases n - k,
    {
        match mul_checked(cur, x) {
            Ok(p) => {
                cur = p;
                out.push(p);
            },
            Err(e) => {
                assert(power_at(xr, (k + 1) as nat) is None);
                return Err(e);
            },
        }
        k = k + 1;
    }
    assert(raws(out@) =~= powers_row(xr, n as nat));
    Ok(out)
}

/// One series for each power `1..=order` of the samples of `x`.
fn expand(x: &Vec<Fixed>, order: u8) -> (r: Result<Vec<Vec<Fixed>>, FitError>)
    ensures
        match expansion(raws(x@), order as nat) {
            Ok(xs) => r matches Ok(v) && raw_rows(v@) == xs,
            Err(e) => r == Err::<Vec<Vec<Fixed>>, FitError>(e),
        },
{
    let ghost xs = raws(x@);
    let ghost n = x.len() as int;
    let ghost table = Seq::new(order as nat, |k: int| Seq::new(x.len() as nat, |i: int| power_at(xs[i], (k + 1) as nat)->0));
    let mut out: Vec<Vec<Fixed>> = Vec::new();
    if order == 0 {
        assert(raw_rows(out@) =~= table);
        return Ok(out);
    }
    let mut i: usize = 0;
    while i < x.len()
        invariant
            xs == raws(x@),
            order >= 1,
            0 <= i <= x.len(),
            forall|j: int| 0 <= j < i ==> in_range(#[trigger] xs[j]),
        decreases x.len() - i,
    {
        if x[i].raw < -LIMIT || x[i].raw > LIMIT {
            let ghost one: nat = 1;
            assert(power_at(xs[i as int], one) is None);
            assert(!(forall|j: int, m: nat|
                0 <= j < xs.len() && 1 <= m <= order ==> #[trigger] power_at(xs[j], m) is Some));
            return Err(FitError::OutOfRange);
        }
        i = i + 1;
    }
    let mut cur: Vec<Fixed> = copy_fixed(x);
    let mut k: u8 = 1;
    assert(raws(cur@) =~= Seq::new(x.len() as nat, |i: int| power_at(xs[i], 1)->0));
    while k < order
        invariant
            xs == raws(x@),
            n == x.len(),
            1 <= k <= order,
            table == Seq::new(order as nat, |k: int| Seq::new(x.len() as nat, |i: int| power_at(xs[i], (k + 1) as nat)->0)),
            cur.len() == x.len(),
            out.len() == (k - 1),
            forall|j: int| 0 <= j < n ==> in_range(#[trigger] xs[j]),
            forall|j: int, m: nat| 0 <= j < n && 1 <= m <= k ==> #[trigger] power_at(xs[j], m) is Some,
            raws(cur@) == Seq::new(x.len() as nat, |i: int| power_at(xs[i], k as nat)->0),
            raw_rows(out@) == table.take(k - 1),
        decreases order - k,
    {
        let mut next: Vec<Fixed> = Vec::new();
        let mut i: usize = 0;
        while i < x.len()
            invariant
                xs == raws(x@),
                n == x.len(),
                1 <= k < order,
                cur.len() == x.len(),
                0 <= i <= x.len(),
                next.len() == i,
                forall|j: int| 0 <= j < n ==> in_range(#[trigger] xs[j]),
                forall|j: int, m: nat| 0 <= j < n && 1 <= m <= k ==> #[trigger] power_at(xs[j], m) is Some,
                raws(cur@) == Seq::new(x.len() as nat, |i: int| power_at(xs[i], k as nat)->0),
                forall|j: int| 0 <= j < i ==> #[trigger] power_at(xs[j], (k + 1) as nat) == Some(next@[j].raw as int),
            decreases x.len() - i,
        {
            assert(raws(cur@)[i as int] == cur@[i as int].raw);
            assert(power_at(xs[i as int], k as nat) is Some);
            match mul_checked(cur[i], x[i]) {
                Ok(p) => next.push(p),
                Err(e) => {
                    assert(power_at(xs[i as int], (k + 1) as nat) is None);
                    return Err(e);
                },
            }
            i = i + 1;
        }
        let ghost kn = (k + 1) as nat;
        let ghost prev = raw_rows(out@);
        assert(table[k - 1] =~= raws(cur@));
        out.push(cur);
        assert(raw_rows(out@) =~= prev.push(table[k - 1]));
        assert(raw_rows(out@) =~= table.take(k as int));
        assert(raws(next@) =~= Seq::new(x.len() as nat, |i: int| power_at(xs[i], kn)->0));
        cur = next;
        k = k + 1;
    }
    let ghost prev = raw_rows(out@);
    assert(table[k - 1] =~= raws(cur@));
    out.push(cur);
    assert(raw_rows(out@) =~= prev.push(table[k - 1]));
    assert(raw_rows(out@) =~= table);
    Ok(out)
}

/// A polynomial `y = intercept + sum of coefficients[k] * x^(k + 1)`.
#[derive(Debug)]
pub struct Polynomial {
    pub x: Dataset,
    pub y: Dataset,
    pub order: u8,
    pub coefficients: Vec<Fixed>,
    pub intercept: Fixed,
}

impl Polynomial {
    /// The series are well formed, of one length, and the parameters are
    /// their fit.
    pub open spec fn wf(&self) -> bool {
        &&& self.x.wf()
        &&& self.y.wf()
        &&& self.x@.len() == self.y@.len()
        &&& poly_fit(self.y@, self.x@, self.order as nat) == Ok::<(int, Seq<int>), FitError>(
            (self.intercept.raw as int, raws(self.coefficients@)),
        )
    }

    /// Fits `y` against the powers `1..=order` of `x`.
    pub fn new(y: Vec<Fixed>, x: Vec<Fixed>, order: u8) -> (r: Result<Polynomial, FitError>)
        ensures
            match poly_fit(raws(y@), raws(x@), order as nat) {
                Ok((c, cs)) => r matches Ok(p) && p.wf() && p.intercept.raw == c && raws(
                    p.coefficients@,
                ) == cs && p.x@ == raws(x@) && p.y@ == raws(y@) && p.order == order,
                Err(e) => r matches Err(f) && f == e,
            },
    {
        let powers = expand(&x, order)?;
        let ghost xss = raw_rows(powers@);
        let m = MultipleLinear::new(y, powers)?;
        proof {
            lemma_fit_shape(m.y@, m.x_views());
            assert(m.x_views()[0] == m.xs@[0]@);
            let xs = raws(x@);
            assert(forall|i: int, k: nat|
                0 <= i < xs.len() && 1 <= k <= order ==> #[trigger] power_at(xs[i], k) is Some);
            assert forall|i: int| 0 <= i < xs.len() implies #[trigger] xss[0][i] == xs[i] by {
                assert(power_at(xs[i], 1) is Some);
            }
            assert(xss[0] =~= xs);
        }
        let yd = m.y;
        let mut sets = m.xs;
        let xd = sets.remove(0);
        Ok(Polynomial { x: xd, y: yd, order, coefficients: m.coefficients, intercept: m.intercept })
    }
}

impl Regression for Polynomial {
    open spec fn inv(&self) -> bool {
        self.wf()
    }

    open spec fn x_values(&self) -> Seq<int> {
        self.x@
    }

    open spec fn y_values(&self) -> Seq<int> {
        self.y@
    }

    open spec fn model(&self, x: int) -> Option<int> {
        poly_at(self.intercept.raw as int, raws(self.coefficients@), x)
    }

    fn x_data(&self) -> (r: &Dataset) {
        &self.x
    }

    fn y_data(&self) -> (r: &Dataset) {
        &self.y
    }

    open spec fn equation_text(&self) -> Seq<char> {
        coefficients_text_of(self.intercept.raw as int, raws(self.coefficients@))
    }

    fn equation_string(&self) -> (r: String) {
        coefficients_text(self.intercept, &self.coefficients)
    }

    fn predict_single(&self, x: Fixed) -> (r: Result<Fixed, FitError>) {
        proof {
            let xs = expansion(self.x@, self.order as nat)->Ok_0;
            lemma_fit_shape(self.y@, xs);
        }
        let row = power_row(x, self.coefficients.len())?;
        match combine(self.intercept, &self.coefficients, &row) {
            Ok(v) => Ok(v),
            Err(_) => Err(FitError::OutOfRange),
        }
    }
}

} // verus!
