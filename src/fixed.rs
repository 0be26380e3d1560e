//! Fixed-point numbers and the integer arithmetic that the statistics rest on.
//!
//! A `Fixed` counts millionths: the value it stands for is `raw / SCALE`.
//! Every quotient in this library rounds toward negative infinity, which in
//! spec code is plain `/` on `int` with a positive divisor.
use vstd::arithmetic::div_mod::{
    lemma_div_is_ordered, lemma_div_multiples_vanish, lemma_fundamental_div_mod,
    lemma_fundamental_div_mod_converse_div,
};
use vstd::prelude::*;

verus! {

/// Raw units per unit value.
pub const SCALE: i64 = 1_000_000;

/// Largest magnitude of a raw value that a series or a fitted parameter may hold.
pub const LIMIT: i64 = 549_755_813_888;

/// Largest number of samples in a series, and of predictors in a model.
pub const MAX_LEN: usize = 8192;

/// A number with six decimal places, held as an integer count of millionths.
#[derive(Clone, Copy, Debug, PartialEq, Eq, Structural)]
pub struct Fixed {
    pub raw: i64,
}

/// An exact fraction `num / den`, with `den > 0`.
#[derive(Clone, Copy, Debug, PartialEq, Eq, Structural)]
pub struct Ratio {
    pub num: i128,
    pub den: i128,
}

/// The ways in which a computation on series can fail.
#[derive(Clone, Copy, Debug, PartialEq, Eq, Structural)]
pub enum FitError {
    /// A series, or the list of predictors, is empty.
    EmptyInput,
    /// Paired series, or a row and the model's predictors, differ in length.
    LengthMismatch,
    /// A sample variance is undefined (one sample) or zero (all values equal).
    DegenerateVariance,
    /// A value that must go through a logarithm is zero or negative.
    NonPositiveDomainValue,
    /// A value lies beyond `LIMIT`, or a series beyond `MAX_LEN` samples.
    OutOfRange,
}

pub open spec fn in_range(v: int) -> bool {
    -LIMIT <= v <= LIMIT
}

/// The raw values of a sequence of fixed-point numbers.
pub open spec fn raws(v: Seq<Fixed>) -> Seq<int> {
    Seq::new(v.len(), |i: int| v[i].raw as int)
}

/// A series that the statistics accept: non-empty, not too long, every value in range.
pub open spec fn valid_series(s: Seq<int>) -> bool {
    1 <= s.len() <= MAX_LEN && forall|i: int| 0 <= i < s.len() ==> in_range(#[trigger] s[i])
}

/// `Ok(v)` where `v` is in range, else `OutOfRange`.
pub open spec fn checked(v: int) -> Result<int, FitError> {
    if in_range(v) {
        Ok(v)
    } else {
        Err(FitError::OutOfRange)
    }
}

/// A raw result as a fixed-point result.
pub open spec fn lift(r: Result<int, FitError>) -> Result<Fixed, FitError> {
    match r {
        Ok(v) => Ok(Fixed { raw: v as i64 }),
        Err(e) => Err(e),
    }
}

/// The raw product of two fixed-point values, rounded down.
pub open spec fn fixed_mul(a: int, b: int) -> int {
    (a * b) / (SCALE as int)
}

/// Sum of the first `n` elements.
pub open spec fn sum_to(s: Seq<int>, n: int) -> int
    decreases n,
{
    if n <= 0 {
        0
    } else {
        sum_to(s, n - 1) + s[n - 1]
    }
}

pub open spec fn sum(s: Seq<int>) -> int {
    sum_to(s, s.len() as int)
}

/// Sum of `a[i] * b[i]` over the first `n` indices.
pub open spec fn dot_to(a: Seq<int>, b: Seq<int>, n: int) -> int
    decreases n,
{
    if n <= 0 {
        0
    } else {
        dot_to(a, b, n - 1) + a[n - 1] * b[n - 1]
    }
}

pub open spec fn dot(a: Seq<int>, b: Seq<int>) -> int {
    dot_to(a, b, a.len() as int)
}

/// `r` is the integer square root of `v`.
pub open spec fn is_isqrt(r: int, v: int) -> bool {
    0 <= r && r * r <= v && v < (r + 1) * (r + 1)
}

/// The integer square root of a non-negative `v`.
pub open spec fn isqrt_of(v: int) -> int {
    choose|r: int| is_isqrt(r, v)
}

/// Every non-negative integer has an integer square root.
pub proof fn lemma_isqrt_exists(v: int) -> (r: int)
    requires
        v >= 0,
    ensures
        is_isqrt(r, v),
    decreases v,
{
    if v == 0 {
        assert(is_isqrt(0, 0));
        0
    } else {
        let q = lemma_isqrt_exists(v - 1);
        if (q + 1) * (q + 1) <= v {
            assert(v < (q + 2) * (q + 2)) by (nonlinear_arith)
                requires v <= (q + 1) * (q + 1), q >= 0;
            assert(is_isqrt(q + 1, v));
            q + 1
        } else {
            q
        }
    }
}

/// There is one integer square root, and `isqrt_of` names it.
pub proof fn lemma_isqrt_unique(r: int, v: int)
    requires
        is_isqrt(r, v),
    ensures
        r == isqrt_of(v),
{
    let q = isqrt_of(v);
    assert(is_isqrt(q, v));
    if q < r {
        assert((q + 1) * (q + 1) <= r * r) by (nonlinear_arith)
            requires 0 <= q + 1 <= r;
    } else if r < q {
        assert((r + 1) * (r + 1) <= q * q) by (nonlinear_arith)
            requires 0 <= r + 1 <= q;
    }
}

/// The character of a decimal digit.
pub open spec fn digit_char(d: int) -> char {
    if d == 0 {
        '0'
    } else if d == 1 {
        '1'
    } else if d == 2 {
        '2'
    } else if d == 3 {
        '3'
    } else if d == 4 {
        '4'
    } else if d == 5 {
        '5'
    } else if d == 6 {
        '6'
    } else if d == 7 {
        '7'
    } else if d == 8 {
        '8'
    } else {
        '9'
    }
}

/// The decimal digits of `w`, without leading zeros.
pub open spec fn whole_digits(w: nat) -> Seq<char>
    decreases w,
{
    if w < 10 {
        seq![digit_char(w as int)]
    } else {
        whole_digits(w / 10).push(digit_char((w % 10) as int))
    }
}

/// The last `k` decimal digits of `f`, with leading zeros.
pub open spec fn padded_digits(f: nat, k: nat) -> Seq<char>
    decreases k,
{
    if k == 0 {
        Seq::empty()
    } else {
        padded_digits(f / 10, (k - 1) as nat).push(digit_char((f % 10) as int))
    }
}

/// A raw value in decimal: a sign for negatives, the whole part, a point and
/// six places.
pub open spec fn fixed_text(v: int) -> Seq<char> {
    let m: nat = if v < 0 {
        (-v) as nat
    } else {
        v as nat
    };
    let sign: Seq<char> = if v < 0 {
        seq!['-']
    } else {
        Seq::empty()
    };
    sign + whole_digits(m / (SCALE as nat)) + seq!['.'] + padded_digits(m % (SCALE as nat), 6)
}

/// The text of one decimal digit.
fn digit_str(d: u64) -> (r: &'static str)
    requires
        d < 10,
    ensures
        r@ == seq![digit_char(d as int)],
{
    proof {
        reveal_strlit("0");
        reveal_strlit("1");
        reveal_strlit("2");
        reveal_strlit("3");
        reveal_strlit("4");
        reveal_strlit("5");
        reveal_strlit("6");
        reveal_strlit("7");
        reveal_strlit("8");
        reveal_strlit("9");
    }
    if d == 0 {
        "0"
    } else if d == 1 {
        "1"
    } else if d == 2 {
        "2"
    } else if d == 3 {
        "3"
    } else if d == 4 {
        "4"
    } else if d == 5 {
        "5"
    } else if d == 6 {
        "6"
    } else if d == 7 {
        "7"
    } else if d == 8 {
        "8"
    } else {
        "9"
    }
}

fn whole_text(w: u64) -> (r: String)
    ensures
        r@ == whole_digits(w as nat),
    decreases w,
{
    if w < 10 {
        String::from_str(digit_str(w))
    } else {
        let mut t = whole_text(w / 10);
        t.append(digit_str(w % 10));
        t
    }
}

fn padded_text(f: u64, k: u8) -> (r: String)
    ensures
        r@ == padded_digits(f as nat, k as nat),
    decreases k,
{
    if k == 0 {
        String::new()
    } else {
        let mut t = padded_text(f / 10, k - 1);
        t.append(digit_str(f % 10));
        t
    }
}

/// `SCALE * a / b` rounded down, where it is in range.
pub fn scaled_ratio(a: i128, b: i128) -> (r: Option<i64>)
    requires
        -0x100_0000_0000_0000_0000_0000_0000_0000 <= a <= 0x100_0000_0000_0000_0000_0000_0000_0000,
        0 < b <= 0x100_0000_0000_0000_0000_0000_0000_0000,
    ensures
        match r {
            Some(v) => v == (SCALE * a) / (b as int) && in_range(v as int),
            None => !in_range((SCALE * a) / (b as int)),
        },
{
    let q = floor_div(a, b);
    proof {
        lemma_fundamental_div_mod(a as int, b as int);
        vstd::arithmetic::div_mod::lemma_mod_bound(a as int, b as int);
        assert(q * b == a - (a as int) % (b as int)) by (nonlinear_arith)
            requires a == b * q + (a as int) % (b as int);
    }
    let rem = a - q * b;
    if q > 0x100_0000 || q < -0x100_0000 {
        proof {
            let (ai, bi, qi) = (a as int, b as int, q as int);
            assert(SCALE * ai == bi * (SCALE * qi) + SCALE * (rem as int)) by (nonlinear_arith)
                requires ai == bi * qi + rem;
            lemma_scaled_floor_bounds(ai, bi, qi, rem as int);
        }
        return None;
    }
    let mut acc: i128 = 0;
    let mut r: i128 = rem;
    let mut k: u8 = 0;
    let ghost mut p: int = 1;
    proof {
        reveal_with_fuel(pow10, 7);
        assert(pow10(5) == 100_000);
    }
    while k < 6
        invariant
            pow10(5) == 100_000,
            k <= 5 ==> p <= pow10(5),
            k <= 4 ==> p <= 10_000,
            k <= 3 ==> p <= 1_000,
            k <= 2 ==> p <= 100,
            k <= 1 ==> p <= 10,
            0 < b <= 0x100_0000_0000_0000_0000_0000_0000_0000,
            0 <= r < b,
            0 <= k <= 6,
            p == pow10(k as nat),
            0 <= acc < p,
            acc * b + r == p * rem,
        decreases 6 - k,
    {
        let d = (10 * r) / b;
        proof {
            lemma_fundamental_div_mod(10 * r as int, b as int);
            vstd::arithmetic::div_mod::lemma_mod_bound(10 * r as int, b as int);
            assert(d * b == 10 * r - (10 * r as int) % (b as int)) by (nonlinear_arith)
                requires 10 * r == b * d + (10 * r as int) % (b as int);
            assert(0 <= d < 10) by (nonlinear_arith)
                requires d == (10 * r) / (b as int), 0 <= r < b, b > 0;
            assert((acc * 10 + d) * b + (10 * r - d * b) == 10 * p * rem) by (nonlinear_arith)
                requires acc * b + r == p * rem;
            assert(acc * 10 + d < 10 * p) by (nonlinear_arith)
                requires acc < p, acc >= 0, d < 10, d >= 0;
        }
        acc = acc * 10 + d;
        r = 10 * r - d * b;
        k = k + 1;
        proof {
            p = 10 * p;
        }
    }
    proof {
        reveal_with_fuel(pow10, 7);
        assert(p == SCALE);
        let (ai, bi, qi) = (a as int, b as int, q as int);
        assert(SCALE * ai == (SCALE * qi + acc) * bi + r) by (nonlinear_arith)
            requires ai == bi * qi + rem, acc * bi + r == SCALE * rem;
        lemma_fundamental_div_mod_converse_div(SCALE * ai, bi, SCALE * qi + acc, r as int);
    }
    let v = q * 1_000_000 + acc;
    if v < -(LIMIT as i128) || v > LIMIT as i128 {
        return None;
    }
    Some(v as i64)
}

pub open spec fn pow10(k: nat) -> int
    decreases k,
{
    if k == 0 {
        1
    } else {
        10 * pow10((k - 1) as nat)
    }
}

/// Where the whole quotient is large, the scaled quotient is out of range.
proof fn lemma_scaled_floor_bounds(a: int, b: int, q: int, rem: int)
    requires
        b > 0,
        0 <= rem < b,
        a == b * q + rem,
        q > 0x100_0000 || q < -0x100_0000,
    ensures
        !in_range((SCALE * a) / b),
{
    assert(SCALE * a == b * (SCALE * q) + SCALE * rem) by (nonlinear_arith)
        requires a == b * q + rem;
    assert(0 <= SCALE * rem < SCALE * b) by (nonlinear_arith)
        requires 0 <= rem < b;
    let f = (SCALE * a) / b;
    lemma_fundamental_div_mod(SCALE * a, b);
    // f * b + m == SCALE * a with 0 <= m < b, so f is within SCALE of SCALE * q
    assert(SCALE * q <= f <= SCALE * q + SCALE) by (nonlinear_arith)
        requires
            SCALE * a == b * (SCALE * q) + SCALE * rem,
            0 <= SCALE * rem < SCALE * b,
            SCALE * a == b * f + (SCALE * a) % b,
            0 <= (SCALE * a) % b < b,
            b > 0;
}

impl Fixed {
    /// The fixed-point number with the given count of millionths.
    pub fn from_raw(raw: i64) -> (r: Fixed)
        ensures
            r.raw == raw,
    {
        Fixed { raw }
    }

    /// The value in decimal with six places, such as `-3.250000`.
    pub fn to_text(&self) -> (r: String)
        ensures
            r@ == fixed_text(self.raw as int),
    {
        let negative = self.raw < 0;
        let magnitude: u64 = if negative {
            (-(self.raw as i128)) as u64
        } else {
            self.raw as u64
        };
        let mut text = if negative {
            String::from_str("-")
        } else {
            String::new()
        };
        proof {
            reveal_strlit("-");
        }
        text.append(whole_text(magnitude / (SCALE as u64)).as_str());
        text.append(".");
        text.append(padded_text(magnitude % (SCALE as u64), 6).as_str());
        proof {
            reveal_strlit(".");
            assert(text@ =~= fixed_text(self.raw as int));
        }
        text
    }

    /// The fixed-point number equal to the integer `n`.
    pub fn from_int(n: i32) -> (r: Fixed)
        ensures
            r.raw == n * SCALE,
    {
        Fixed { raw: (n as i64) * SCALE }
    }
}

/// Floor division by a positive divisor.
pub fn floor_div(a: i128, d: i128) -> (r: i128)
    requires
        d > 0,
    ensures
        r == a / d,
{
    proof {
        let (ai, di) = (a as int, d as int);
        if ai >= 0 {
            lemma_div_is_ordered(0, ai, di);
            assert(ai / di <= ai) by (nonlinear_arith)
                requires ai >= 0, di >= 1;
        } else {
            lemma_div_is_ordered(ai, 0, di);
            assert(ai / di >= ai) by (nonlinear_arith)
                requires ai < 0, di >= 1;
        }
    }
    match a.checked_div_euclid(d) {
        Some(q) => q,
        None => 0,
    }
}

/// Keeps `v` when it is in range.
pub fn check_range(v: i128) -> (r: Result<Fixed, FitError>)
    ensures
        r == lift(checked(v as int)),
{
    if -(LIMIT as i128) <= v && v <= LIMIT as i128 {
        Ok(Fixed { raw: v as i64 })
    } else {
        Err(FitError::OutOfRange)
    }
}

/// Integer square root by bisection.
pub fn isqrt(v: u128) -> (r: u128)
    requires
        v < 0x100_0000_0000_0000_0000_0000_0000_0000,
    ensures
        is_isqrt(r as int, v as int),
        r == isqrt_of(v as int),
        r < 0x1000_0000_0000_0000,
{
    let mut lo: u128 = 0;
    let mut hi: u128 = 0x1000_0000_0000_0000;
    assert(hi * hi == 0x100_0000_0000_0000_0000_0000_0000_0000) by (nonlinear_arith)
        requires hi == 0x1000_0000_0000_0000;
    while hi - lo > 1
        invariant
            lo < hi <= 0x1000_0000_0000_0000,
            lo * lo <= v,
            v < hi * hi,
        decreases hi - lo,
    {
        let mid: u128 = lo + (hi - lo) / 2;
        assert(mid * mid <= 0x1000_0000_0000_0000 * 0x1000_0000_0000_0000) by (nonlinear_arith)
            requires mid <= 0x1000_0000_0000_0000;
        if mid * mid <= v {
            lo = mid;
        } else {
            hi = mid;
        }
    }
    proof {
        lemma_isqrt_unique(lo as int, v as int);
    }
    lo
}

pub proof fn lemma_dot_bound(a: Seq<int>, b: Seq<int>, n: int, ba: int, bb: int)
    requires
        0 <= n <= a.len(),
        n <= b.len(),
        0 <= ba,
        0 <= bb,
        forall|i: int| 0 <= i < n ==> -ba <= #[trigger] a[i] <= ba,
        forall|i: int| 0 <= i < n ==> -bb <= #[trigger] b[i] <= bb,
    ensures
        -n * (ba * bb) <= dot_to(a, b, n) <= n * (ba * bb),
    decreases n,
{
    if n > 0 {
        lemma_dot_bound(a, b, n - 1, ba, bb);
        let (x, y) = (a[n - 1], b[n - 1]);
        assert(-(ba * bb) <= x * y <= ba * bb) by (nonlinear_arith)
            requires -ba <= x <= ba, -bb <= y <= bb;
        assert(n * (ba * bb) == (n - 1) * (ba * bb) + ba * bb) by (nonlinear_arith);
        assert(-n * (ba * bb) == -(n - 1) * (ba * bb) - ba * bb) by (nonlinear_arith);
    }
}

pub proof fn lemma_sum_bound(s: Seq<int>, n: int, bound: int)
    requires
        0 <= n <= s.len(),
        forall|i: int| 0 <= i < n ==> -bound <= #[trigger] s[i] <= bound,
    ensures
        -n * bound <= sum_to(s, n) <= n * bound,
    decreases n,
{
    if n > 0 {
        lemma_sum_bound(s, n - 1, bound);
        assert(n * bound == (n - 1) * bound + bound) by (nonlinear_arith);
        assert(-n * bound == -(n - 1) * bound - bound) by (nonlinear_arith);
    }
}

/// The rounded-down average of values within `[-bound, bound]` stays there.
pub proof fn lemma_mean_bound(total: int, n: int, bound: int)
    requires
        n >= 1,
        -n * bound <= total <= n * bound,
    ensures
        -bound <= total / n <= bound,
{
    lemma_div_is_ordered(total, n * bound, n);
    lemma_div_is_ordered(-n * bound, total, n);
    lemma_div_multiples_vanish(bound, n);
    lemma_div_multiples_vanish(-bound, n);
    assert(n * -bound == -n * bound) by (nonlinear_arith);
}

} // verus!
