//! One numeric series with its summary statistics, each computed on first
//! request and kept from then on.
use crate::fixed::{
    dot, dot_to, floor_div, in_range, isqrt, isqrt_of, lemma_dot_bound, lemma_mean_bound,
    lemma_sum_bound, lift, raws, sum, sum_to, valid_series, FitError, Fixed, Ratio, LIMIT, MAX_LEN,
    SCALE,
};
use vstd::prelude::*;

verus! {

/// A bound on each centred value: `MAX_LEN * LIMIT` twice over.
pub const CENTRED_BOUND: i128 = 0x20_0000_0000_0000;

/// A bound on a sum of products of centred values: `MAX_LEN * CENTRED_BOUND^2`.
pub const SPREAD_BOUND: i128 = 0x80_0000_0000_0000_0000_0000_0000_0000;

/// The arithmetic mean, rounded down.
pub open spec fn mean_of(s: Seq<int>) -> int {
    sum(s) / (s.len() as int)
}

/// Each value minus the mean, times the number of samples: `n * x[i] - sum`.
/// Scaling by `n` keeps every centred value an exact integer.
pub open spec fn centred_of(s: Seq<int>) -> Seq<int> {
    Seq::new(s.len(), |i: int| s.len() * s[i] - sum(s))
}

/// The sum of squared centred values, `n^2` times the sum of squared
/// differences from the mean.
pub open spec fn spread_of(s: Seq<int>) -> int {
    dot(centred_of(s), centred_of(s))
}

/// The divisor that turns `spread_of` into the sample variance in units:
/// `n^2` for the centring, `n - 1` for the sample, `SCALE^2` for the units.
pub open spec fn variance_den(n: int) -> int {
    n * n * (n - 1) * (SCALE * SCALE)
}

/// The sample variance as a fraction `(num, den)` of units: squared
/// differences from the mean summed and divided by `n - 1`, exactly.
pub open spec fn variance_result(s: Seq<int>) -> Result<(int, int), FitError> {
    if s.len() <= 1 {
        Err(FitError::DegenerateVariance)
    } else {
        Ok((spread_of(s), variance_den(s.len() as int)))
    }
}

/// The sample standard deviation in millionths, rounded down.
pub open spec fn stdev_result(s: Seq<int>) -> Result<int, FitError> {
    if s.len() <= 1 {
        Err(FitError::DegenerateVariance)
    } else {
        let n = s.len() as int;
        Ok(isqrt_of(spread_of(s) / (n * n * (n - 1))))
    }
}

/// The integers of a sequence of wide values.
pub open spec fn wides(v: Seq<i128>) -> Seq<int> {
    Seq::new(v.len(), |i: int| v[i] as int)
}

/// A variance as an exact fraction of units.
pub open spec fn ratio_of(r: Ratio) -> (int, int) {
    (r.num as int, r.den as int)
}

/// The values minus the matching predictions.
pub open spec fn residuals_result(s: Seq<int>, p: Seq<int>) -> Result<Seq<int>, FitError> {
    if s.len() != p.len() {
        Err(FitError::LengthMismatch)
    } else if exists|i: int| 0 <= i < s.len() && !in_range(#[trigger] s[i] - p[i]) {
        Err(FitError::OutOfRange)
    } else {
        Ok(Seq::new(s.len(), |i: int| s[i] - p[i]))
    }
}

/// A series of fixed-point values, with its statistics cached once computed.
#[derive(Debug)]
pub struct Dataset {
    data: Vec<Fixed>,
    mean: Option<Fixed>,
    diffs: Option<Vec<i128>>,
    variance: Option<Ratio>,
    stdev: Option<Fixed>,
}

impl View for Dataset {
    type V = Seq<int>;

    closed spec fn view(&self) -> Seq<int> {
        raws(self.data@)
    }
}

/// Sum of the raw values.
fn sum_raw(v: &Vec<Fixed>) -> (r: i128)
    requires
        valid_series(raws(v@)),
    ensures
        r == sum(raws(v@)),
{
    let ghost s = raws(v@);
    let mut total: i128 = 0;
    let mut i: usize = 0;
    while i < v.len()
        invariant
            s == raws(v@),
            valid_series(s),
            0 <= i <= v.len(),
            total == sum_to(s, i as int),
        decreases v.len() - i,
    {
        proof {
            lemma_sum_bound(s, i as int, LIMIT as int);
            assert(i * (LIMIT as int) <= MAX_LEN * (LIMIT as int)) by (nonlinear_arith)
                requires i <= MAX_LEN;
        }
        total = total + v[i].raw as i128;
        i = i + 1;
    }
    total
}

/// Sum of the products of matching raw values.
pub(crate) fn dot_raw(a: &Vec<Fixed>, b: &Vec<Fixed>) -> (r: i128)
    requires
        a.len() == b.len() <= MAX_LEN,
        forall|i: int| 0 <= i < a.len() ==> -2 * LIMIT <= #[trigger] a@[i].raw <= 2 * LIMIT,
        forall|i: int| 0 <= i < b.len() ==> -2 * LIMIT <= #[trigger] b@[i].raw <= 2 * LIMIT,
    ensures
        r == dot(raws(a@), raws(b@)),
{
    let ghost (sa, sb) = (raws(a@), raws(b@));
    let ghost bound: int = 2 * LIMIT;
    let mut total: i128 = 0;
    let mut i: usize = 0;
    while i < a.len()
        invariant
            sa == raws(a@),
            sb == raws(b@),
            a.len() == b.len() <= MAX_LEN,
            bound == 2 * LIMIT,
            forall|i: int| 0 <= i < a.len() ==> -bound <= #[trigger] a@[i].raw <= bound,
            forall|i: int| 0 <= i < b.len() ==> -bound <= #[trigger] b@[i].raw <= bound,
            0 <= i <= a.len(),
            total == dot_to(sa, sb, i as int),
        decreases a.len() - i,
    {
        let (x, y) = (a[i].raw as i128, b[i].raw as i128);
        proof {
            assert(forall|k: int| 0 <= k < a.len() ==> -bound <= #[trigger] sa[k] <= bound);
            assert(forall|k: int| 0 <= k < b.len() ==> -bound <= #[trigger] sb[k] <= bound);
            lemma_dot_bound(sa, sb, i + 1, bound, bound);
            assert(bound * bound == 0x1_0000_0000_0000_0000_0000) by (nonlinear_arith)
                requires bound == 0x100_0000_0000;
            assert((i + 1) * (bound * bound) <= MAX_LEN * 0x1_0000_0000_0000_0000_0000)
                by (nonlinear_arith)
                requires i + 1 <= MAX_LEN, bound * bound == 0x1_0000_0000_0000_0000_0000;
            assert(-(bound * bound) <= x * y <= bound * bound) by (nonlinear_arith)
                requires -bound <= x <= bound, -bound <= y <= bound;
        }
        total = total + x * y;
        i = i + 1;
    }
    total
}

/// `n * x[i] - total` for each raw value.
fn centred_from(v: &Vec<Fixed>, total: i128) -> (r: Vec<i128>)
    requires
        valid_series(raws(v@)),
        total == sum(raws(v@)),
    ensures
        wides(r@) == centred_of(raws(v@)),
{
    let ghost s = raws(v@);
    proof {
        lemma_centred_bound(s);
    }
    let n = v.len() as i128;
    let mut out: Vec<i128> = Vec::new();
    let mut i: usize = 0;
    while i < v.len()
        invariant
            s == raws(v@),
            valid_series(s),
            n == v.len(),
            total == sum(s),
            0 <= i <= v.len(),
            out.len() == i,
            forall|k: int| 0 <= k < i ==> #[trigger] out@[k] == centred_of(s)[k],
            forall|k: int|
                0 <= k < s.len() ==> -CENTRED_BOUND <= #[trigger] centred_of(s)[k] <= CENTRED_BOUND,
        decreases v.len() - i,
    {
        assert(centred_of(s)[i as int] == n * s[i as int] - total);
        proof {
            let x = s[i as int];
            assert(in_range(x));
            assert(-0x10_0000_0000_0000 <= n * x <= 0x10_0000_0000_0000) by (nonlinear_arith)
                requires -LIMIT <= x <= LIMIT, 0 <= n <= MAX_LEN;
        }
        out.push(n * (v[i].raw as i128) - total);
        i = i + 1;
    }
    assert(wides(out@) =~= centred_of(s));
    out
}

/// Sum of the products of matching wide values.
pub(crate) fn dot_wide(a: &Vec<i128>, b: &Vec<i128>) -> (r: i128)
    requires
        a.len() == b.len() <= MAX_LEN,
        forall|i: int| 0 <= i < a.len() ==> -CENTRED_BOUND <= #[trigger] a@[i] <= CENTRED_BOUND,
        forall|i: int| 0 <= i < b.len() ==> -CENTRED_BOUND <= #[trigger] b@[i] <= CENTRED_BOUND,
    ensures
        r == dot(wides(a@), wides(b@)),
        -SPREAD_BOUND <= r <= SPREAD_BOUND,
{
    let ghost (sa, sb) = (wides(a@), wides(b@));
    let ghost bound: int = CENTRED_BOUND as int;
    let mut total: i128 = 0;
    let mut i: usize = 0;
    proof {
        assert(bound * bound == 0x400_0000_0000_0000_0000_0000_0000) by (nonlinear_arith)
            requires bound == 0x20_0000_0000_0000;
    }
    while i < a.len()
        invariant
            sa == wides(a@),
            sb == wides(b@),
            a.len() == b.len() <= MAX_LEN,
            bound == CENTRED_BOUND,
            bound * bound == 0x400_0000_0000_0000_0000_0000_0000,
            forall|i: int| 0 <= i < a.len() ==> -bound <= #[trigger] a@[i] <= bound,
            forall|i: int| 0 <= i < b.len() ==> -bound <= #[trigger] b@[i] <= bound,
            0 <= i <= a.len(),
            total == dot_to(sa, sb, i as int),
            -i * (bound * bound) <= total <= i * (bound * bound),
        decreases a.len() - i,
    {
        let (x, y) = (a[i], b[i]);
        proof {
            assert(forall|k: int| 0 <= k < a.len() ==> -bound <= #[trigger] sa[k] <= bound);
            assert(forall|k: int| 0 <= k < b.len() ==> -bound <= #[trigger] sb[k] <= bound);
            lemma_dot_bound(sa, sb, i + 1, bound, bound);
            assert((i + 1) * (bound * bound) <= MAX_LEN * 0x400_0000_0000_0000_0000_0000_0000)
                by (nonlinear_arith)
                requires
                    i + 1 <= MAX_LEN,
                    bound * bound == 0x400_0000_0000_0000_0000_0000_0000;
            assert(-(bound * bound) <= x * y <= bound * bound) by (nonlinear_arith)
                requires -bound <= x <= bound, -bound <= y <= bound;
        }
        total = total + x * y;
        i = i + 1;
    }
    proof {
        assert(a.len() * (bound * bound) <= SPREAD_BOUND) by (nonlinear_arith)
            requires
                a.len() <= MAX_LEN,
                bound * bound == 0x400_0000_0000_0000_0000_0000_0000;
    }
    total
}

fn copy_wide(v: &Vec<i128>) -> (r: Vec<i128>)
    ensures
        r@ == v@,
{
    let mut out: Vec<i128> = Vec::new();
    let mut i: usize = 0;
    while i < v.len()
        invariant
            0 <= i <= v.len(),
            out@ == v@.take(i as int),
        decreases v.len() - i,
    {
        out.push(v[i]);
        i = i + 1;
        assert(out@ =~= v@.take(i as int));
    }
    assert(v@.take(v.len() as int) =~= v@);
    out
}

pub(crate) fn copy_fixed(v: &Vec<Fixed>) -> (r: Vec<Fixed>)
    ensures
        r@ == v@,
{
    let mut out: Vec<Fixed> = Vec::new();
    let mut i: usize = 0;
    while i < v.len()
        invariant
            0 <= i <= v.len(),
            out@ == v@.take(i as int),
        decreases v.len() - i,
    {
        out.push(v[i]);
        i = i + 1;
        assert(out@ =~= v@.take(i as int));
    }
    assert(v@.take(v.len() as int) =~= v@);
    out
}

impl Dataset {
    /// The series is valid and every cached statistic is the one it stands for.
    pub closed spec fn wf(&self) -> bool {
        &&& valid_series(self@)
        &&& self.mean matches Some(m) ==> m.raw == mean_of(self@)
        &&& self.diffs matches Some(d) ==> wides(d@) == centred_of(self@)
        &&& self.variance matches Some(v) ==> variance_result(self@) == Ok::<(int, int), FitError>(
            ratio_of(v),
        )
        &&& self.stdev matches Some(sd) ==> stdev_result(self@) == Ok::<int, FitError>(
            sd.raw as int,
        )
        &&& self.diffs is Some ==> self.mean is Some
        &&& self.variance is Some ==> self.diffs is Some
        &&& self.stdev is Some ==> self.variance is Some
    }

    /// The mean is cached.
    pub closed spec fn has_mean(&self) -> bool {
        self.mean is Some
    }

    /// The centred values are cached.
    pub closed spec fn has_diffs(&self) -> bool {
        self.diffs is Some
    }

    /// The variance is cached.
    pub closed spec fn has_variance(&self) -> bool {
        self.variance is Some
    }

    /// The standard deviation is cached.
    pub closed spec fn has_stdev(&self) -> bool {
        self.stdev is Some
    }

    /// A well-formed dataset holds a valid series.
    pub proof fn lemma_wf_valid(&self)
        requires
            self.wf(),
        ensures
            valid_series(self@),
    {
    }

    /// A dataset over `data`; fails on an empty series, a series longer than
    /// `MAX_LEN`, or a value beyond `LIMIT`.
    pub fn new(data: Vec<Fixed>) -> (r: Result<Dataset, FitError>)
        ensures
            data.len() == 0 ==> r == Err::<Dataset, FitError>(FitError::EmptyInput),
            data.len() > 0 && !valid_series(raws(data@)) ==> r == Err::<Dataset, FitError>(
                FitError::OutOfRange,
            ),
            valid_series(raws(data@)) ==> (r matches Ok(d) && d.wf() && d@ == raws(data@)
                && !d.has_mean() && !d.has_diffs() && !d.has_variance() && !d.has_stdev()),
    {
        if data.len() == 0 {
            return Err(FitError::EmptyInput);
        }
        if data.len() > MAX_LEN {
            return Err(FitError::OutOfRange);
        }
        let mut i: usize = 0;
        while i < data.len()
            invariant
                0 <= i <= data.len(),
                forall|k: int| 0 <= k < i ==> in_range(#[trigger] raws(data@)[k]),
            decreases data.len() - i,
        {
            if data[i].raw < -LIMIT || data[i].raw > LIMIT {
                assert(!in_range(raws(data@)[i as int]));
                return Err(FitError::OutOfRange);
            }
            i = i + 1;
        }
        Ok(Dataset { data, mean: None, diffs: None, variance: None, stdev: None })
    }

    /// The number of samples.
    pub fn len(&self) -> (r: usize)
        requires
            self.wf(),
        ensures
            r == self@.len(),
    {
        self.data.len()
    }

    /// The sum of the samples, in millionths.
    pub fn total(&self) -> (r: i128)
        requires
            self.wf(),
        ensures
            r == sum(self@),
            -0x10_0000_0000_0000 <= r <= 0x10_0000_0000_0000,
    {
        proof {
            lemma_sum_bound(self@, self@.len() as int, LIMIT as int);
            assert(self@.len() * LIMIT <= 0x10_0000_0000_0000) by (nonlinear_arith)
                requires self@.len() <= MAX_LEN;
        }
        sum_raw(&self.data)
    }

    /// The sample at index `i`.
    pub fn get(&self, i: usize) -> (r: Fixed)
        requires
            i < self@.len(),
        ensures
            r.raw == self@[i as int],
    {
        self.data[i]
    }

    /// A copy of the samples.
    pub fn values(&self) -> (r: Vec<Fixed>)
        ensures
            raws(r@) == self@,
    {
        copy_fixed(&self.data)
    }

    /// The mean, rounded down.
    pub fn mean(&mut self) -> (r: Fixed)
        requires
            old(self).wf(),
        ensures
            final(self).wf(),
            final(self)@ == old(self)@,
            final(self).has_mean(),
            old(self).has_diffs() ==> final(self).has_diffs(),
            old(self).has_variance() ==> final(self).has_variance(),
            old(self).has_stdev() ==> final(self).has_stdev(),
            r.raw == mean_of(old(self)@),
    {
        match self.mean {
            Some(m) => m,
            None => {
                let total = sum_raw(&self.data);
                let n = self.data.len();
                proof {
                    lemma_sum_bound(self@, n as int, LIMIT as int);
                    lemma_mean_bound(total as int, n as int, LIMIT as int);
                }
                let m = floor_div(total, n as i128);
                let f = Fixed { raw: m as i64 };
                self.mean = Some(f);
                f
            },
        }
    }

    /// Each value minus the mean, scaled by the number of samples `n`
    /// (`n * x[i] - sum`), so that nothing is rounded: the values sum to zero.
    pub fn diffs(&mut self) -> (r: Vec<i128>)
        requires
            old(self).wf(),
        ensures
            final(self).wf(),
            final(self)@ == old(self)@,
            final(self).has_mean(),
            final(self).has_diffs(),
            old(self).has_variance() ==> final(self).has_variance(),
            old(self).has_stdev() ==> final(self).has_stdev(),
            wides(r@) == centred_of(old(self)@),
            forall|i: int|
                0 <= i < r.len() ==> -CENTRED_BOUND <= #[trigger] r@[i] <= CENTRED_BOUND,
    {
        let _ = self.mean();
        proof {
            lemma_centred_bound(self@);
        }
        match &self.diffs {
            Some(d) => {
                let out = copy_wide(d);
                assert(forall|i: int| 0 <= i < out.len() ==> #[trigger] out@[i] == wides(out@)[i]);
                out
            },
            None => {
                let total = sum_raw(&self.data);
                let d = centred_from(&self.data, total);
                let out = copy_wide(&d);
                assert(forall|i: int| 0 <= i < out.len() ==> #[trigger] out@[i] == wides(out@)[i]);
                self.diffs = Some(d);
                out
            },
        }
    }

    /// The sample variance as an exact fraction: squared differences from
    /// the mean, summed and divided by `n - 1`. A single sample gives
    /// `DegenerateVariance`.
    pub fn variance(&mut self) -> (r: Result<Ratio, FitError>)
        requires
            old(self).wf(),
        ensures
            final(self).wf(),
            final(self)@ == old(self)@,
            match variance_result(old(self)@) {
                Ok(v) => r matches Ok(q) && ratio_of(q) == v,
                Err(e) => r == Err::<Ratio, FitError>(e),
            },
            old(self).has_stdev() ==> final(self).has_stdev(),
            old(self)@.len() >= 2 ==> final(self).has_mean() && final(self).has_diffs(),
            r is Ok <==> final(self).has_variance(),
    {
        if let Some(v) = self.variance {
            return Ok(v);
        }
        let n = self.data.len();
        if n <= 1 {
            return Err(FitError::DegenerateVariance);
        }
        let d = self.diffs();
        let total = dot_wide(&d, &d);
        let nn = n as i128;
        let den = denominator(nn);
        let v = Ratio { num: total, den: den * 1_000_000_000_000 };
        self.variance = Some(v);
        Ok(v)
    }

    /// The sample standard deviation in millionths: the square root of the
    /// variance, rounded down.
    pub fn stdev(&mut self) -> (r: Result<Fixed, FitError>)
        requires
            old(self).wf(),
        ensures
            final(self).wf(),
            final(self)@ == old(self)@,
            r == lift(stdev_result(old(self)@)),
            old(self)@.len() >= 2 ==> final(self).has_mean() && final(self).has_diffs(),
            r is Ok <==> final(self).has_variance() && final(self).has_stdev(),
    {
        if let Some(sd) = self.stdev {
            return Ok(sd);
        }
        match self.variance() {
            Ok(v) => {
                let n = self.data.len() as i128;
                let den = denominator(n);
                proof {
                    lemma_dot_self_nonneg(centred_of(self@), self@.len() as int);
                    lemma_spread_bound(self@);
                    vstd::arithmetic::div_mod::lemma_div_is_ordered(0, v.num as int, n * n * (n - 1));
                    vstd::arithmetic::div_mod::lemma_div_is_ordered(
                        v.num as int,
                        SPREAD_BOUND as int,
                        n * n * (n - 1),
                    );
                    vstd::arithmetic::div_mod::lemma_div_is_ordered_by_denominator(
                        SPREAD_BOUND as int,
                        1,
                        n * n * (n - 1),
                    );
                }
                let root = isqrt(floor_div(v.num, den) as u128);
                let sd = Fixed { raw: root as i64 };
                self.stdev = Some(sd);
                Ok(sd)
            },
            Err(e) => Err(e),
        }
    }

    /// The values minus the matching predictions.
    pub fn residuals(&self, predictions: &Vec<Fixed>) -> (r: Result<Vec<Fixed>, FitError>)
        requires
            self.wf(),
        ensures
            match residuals_result(self@, raws(predictions@)) {
                Ok(s) => r matches Ok(v) && raws(v@) == s,
                Err(e) => r == Err::<Vec<Fixed>, FitError>(e),
            },
    {
        residuals_of(&self.data, predictions)
    }
}

/// `a[i] - b[i]` for each index.
pub(crate) fn residuals_of(a: &Vec<Fixed>, b: &Vec<Fixed>) -> (r: Result<Vec<Fixed>, FitError>)
    requires
        valid_series(raws(a@)),
    ensures
        match residuals_result(raws(a@), raws(b@)) {
            Ok(s) => r matches Ok(v) && raws(v@) == s,
            Err(e) => r == Err::<Vec<Fixed>, FitError>(e),
        },
{
    let ghost (sa, sb) = (raws(a@), raws(b@));
    if a.len() != b.len() {
        return Err(FitError::LengthMismatch);
    }
    let mut out: Vec<Fixed> = Vec::new();
    let mut i: usize = 0;
    while i < a.len()
        invariant
            sa == raws(a@),
            sb == raws(b@),
            valid_series(sa),
            a.len() == b.len(),
            0 <= i <= a.len(),
            out.len() == i,
            forall|k: int| 0 <= k < i ==> in_range(#[trigger] sa[k] - sb[k]),
            forall|k: int| 0 <= k < i ==> #[trigger] out@[k].raw == sa[k] - sb[k],
        decreases a.len() - i,
    {
        assert(in_range(sa[i as int]));
        let d = a[i].raw as i128 - b[i].raw as i128;
        if d < -(LIMIT as i128) || d > LIMIT as i128 {
            assert(!in_range(sa[i as int] - sb[i as int]));
            return Err(FitError::OutOfRange);
        }
        out.push(Fixed { raw: d as i64 });
        i = i + 1;
    }
    assert(raws(out@) =~= Seq::new(sa.len(), |i: int| sa[i] - sb[i]));
    Ok(out)
}

pub proof fn lemma_dot_self_nonneg(s: Seq<int>, n: int)
    requires
        0 <= n <= s.len(),
    ensures
        dot_to(s, s, n) >= 0,
    decreases n,
{
    if n > 0 {
        lemma_dot_self_nonneg(s, n - 1);
        assert(s[n - 1] * s[n - 1] >= 0) by (nonlinear_arith);
    }
}

/// `n * n * (n - 1)` for a series length.
fn denominator(n: i128) -> (r: i128)
    requires
        2 <= n <= MAX_LEN,
    ensures
        r == n * n * (n - 1),
        1 <= r <= 0x80_0000_0000,
        r * (SCALE * SCALE) <= 0x1_0000_0000_0000_0000_0000,
{
    proof {
        assert(1 <= n * n <= 0x400_0000) by (nonlinear_arith)
            requires 2 <= n <= 8192;
        assert(1 <= n * n * (n - 1) <= 0x80_0000_0000) by (nonlinear_arith)
            requires 2 <= n <= 8192, n * n <= 0x400_0000;
        let m = n * n * (n - 1);
        assert(SCALE * SCALE == 1_000_000_000_000);
        assert(m * 1_000_000_000_000 <= 0x80_0000_0000 * 1_000_000_000_000) by (nonlinear_arith)
            requires 1 <= m <= 0x80_0000_0000;
        assert((0x80_0000_0000 as int) * (1_000_000_000_000 as int) <= (0x1_0000_0000_0000_0000_0000 as int))
            by (nonlinear_arith);
    }
    n * n * (n - 1)
}

/// The spread of a valid series is at most `SPREAD_BOUND`.
pub proof fn lemma_spread_bound(s: Seq<int>)
    requires
        valid_series(s),
    ensures
        0 <= spread_of(s) <= SPREAD_BOUND,
{
    lemma_centred_bound(s);
    let c = centred_of(s);
    let b = CENTRED_BOUND as int;
    lemma_dot_bound(c, c, s.len() as int, b, b);
    lemma_dot_self_nonneg(c, s.len() as int);
    assert(s.len() * (b * b) <= SPREAD_BOUND) by (nonlinear_arith)
        requires s.len() <= MAX_LEN, b == 0x20_0000_0000_0000;
}

/// Each centred value is at most `CENTRED_BOUND` in magnitude.
pub proof fn lemma_centred_bound(s: Seq<int>)
    requires
        valid_series(s),
    ensures
        forall|i: int|
            0 <= i < s.len() ==> -CENTRED_BOUND <= #[trigger] centred_of(s)[i] <= CENTRED_BOUND,
{
    let n = s.len() as int;
    lemma_sum_bound(s, n, LIMIT as int);
    assert forall|i: int| 0 <= i < s.len() implies -CENTRED_BOUND <= #[trigger] centred_of(
        s,
    )[i] <= CENTRED_BOUND by {
        let x = s[i];
        assert(in_range(x));
        assert(-n * LIMIT <= n * x <= n * LIMIT) by (nonlinear_arith)
            requires -LIMIT <= x <= LIMIT, n >= 0;
        assert(n * LIMIT <= 0x10_0000_0000_0000) by (nonlinear_arith)
            requires n <= MAX_LEN;
    }
}

} // verus!
