//! The operations that every single-predictor model shares, written once
//! against the model's own point prediction.
use crate::dataset::{dot_raw, lemma_dot_self_nonneg, residuals_result, Dataset};
use crate::fixed::{
    check_range, checked, dot, floor_div, lift, raws, FitError, Fixed, SCALE,
};
use vstd::prelude::*;

verus! {

/// The raw values of a result that holds a sequence.
pub open spec fn raw_result(r: Result<Vec<Fixed>, FitError>) -> Result<Seq<int>, FitError> {
    match r {
        Ok(v) => Ok(raws(v@)),
        Err(e) => Err(e),
    }
}

/// The model applied to each input, in order; `OutOfRange` where it leaves
/// the range on any of them.
pub open spec fn mapped(m: spec_fn(int) -> Option<int>, xs: Seq<int>) -> Result<
    Seq<int>,
    FitError,
> {
    if forall|i: int| 0 <= i < xs.len() ==> #[trigger] m(xs[i]) is Some {
        Ok(Seq::new(xs.len(), |i: int| m(xs[i])->0))
    } else {
        Err(FitError::OutOfRange)
    }
}

/// The observed values minus the model's predictions at the fitted inputs.
pub open spec fn model_residuals(m: spec_fn(int) -> Option<int>, x: Seq<int>, y: Seq<int>) -> Result<
    Seq<int>,
    FitError,
> {
    match mapped(m, x) {
        Ok(p) => residuals_result(y, p),
        Err(e) => Err(e),
    }
}

/// The sum of squared residuals, in millionths.
pub open spec fn squared_error(r: Result<Seq<int>, FitError>) -> Result<int, FitError> {
    match r {
        Ok(v) => checked(dot(v, v) / (SCALE as int)),
        Err(e) => Err(e),
    }
}

pub trait Regression: Sized {
    /// The model's state is consistent.
    spec fn inv(&self) -> bool;

    /// The predictor series that the model was fitted on.
    spec fn x_values(&self) -> Seq<int>;

    /// The response series that the model was fitted on.
    spec fn y_values(&self) -> Seq<int>;

    /// The raw prediction at raw input `x`, where it is in range.
    spec fn model(&self, x: int) -> Option<int>;

    fn x_data(&self) -> (r: &Dataset)
        requires
            self.inv(),
        ensures
            r.wf(),
            r@ == self.x_values(),
    ;

    fn y_data(&self) -> (r: &Dataset)
        requires
            self.inv(),
        ensures
            r.wf(),
            r@ == self.y_values(),
    ;

    /// The text of the fitted equation.
    spec fn equation_text(&self) -> Seq<char>;

    /// The fitted equation, for display.
    fn equation_string(&self) -> (r: String)
        requires
            self.inv(),
        ensures
            r@ == self.equation_text(),
    ;

    /// The prediction at `x`.
    fn predict_single(&self, x: Fixed) -> (r: Result<Fixed, FitError>)
        requires
            self.inv(),
        ensures
            match self.model(x.raw as int) {
                Some(v) => r matches Ok(p) && p.raw == v,
                None => r == Err::<Fixed, FitError>(FitError::OutOfRange),
            },
    ;

    /// The prediction at each of `xs`, in order.
    fn predict_multi(&self, xs: &Vec<Fixed>) -> (r: Result<Vec<Fixed>, FitError>)
        requires
            self.inv(),
        ensures
            raw_result(r) == mapped(|x: int| self.model(x), raws(xs@)),
    {
        let ghost s = raws(xs@);
        let mut out: Vec<Fixed> = Vec::new();
        let mut i: usize = 0;
        while i < xs.len()
            invariant
                self.inv(),
                s == raws(xs@),
                0 <= i <= xs.len(),
                out.len() == i,
                forall|k: int|
                    0 <= k < i ==> #[trigger] self.model(s[k]) == Some(out@[k].raw as int),
            decreases xs.len() - i,
        {
            match self.predict_single(xs[i]) {
                Ok(p) => out.push(p),
                Err(e) => {
                    let ghost m = |x: int| self.model(x);
                    assert(m(s[i as int]) is None);
                    assert(!(forall|k: int| 0 <= k < s.len() ==> #[trigger] m(s[k]) is Some));
                    return Err(e);
                },
            }
            i = i + 1;
        }
        let ghost m = |x: int| self.model(x);
        assert(forall|k: int| 0 <= k < s.len() ==> #[trigger] m(s[k]) is Some);
        assert(raws(out@) =~= Seq::new(s.len(), |i: int| m(s[i])->0));
        Ok(out)
    }

    /// The prediction at each sample of the fitted predictor, in order.
    fn predictions(&self) -> (r: Result<Vec<Fixed>, FitError>)
        requires
            self.inv(),
        ensures
            raw_result(r) == mapped(|x: int| self.model(x), self.x_values()),
    {
        let xs = self.x_data().values();
        self.predict_multi(&xs)
    }

    /// The observed responses minus the predictions.
    fn residuals(&self) -> (r: Result<Vec<Fixed>, FitError>)
        requires
            self.inv(),
        ensures
            raw_result(r) == model_residuals(
                |x: int| self.model(x),
                self.x_values(),
                self.y_values(),
            ),
    {
        let p = self.predictions()?;
        self.y_data().residuals(&p)
    }

    /// The sum (not the mean) of the squared residuals.
    fn mean_square_error(&self) -> (r: Result<Fixed, FitError>)
        requires
            self.inv(),
        ensures
            r == lift(
                squared_error(
                    model_residuals(|x: int| self.model(x), self.x_values(), self.y_values()),
                ),
            ),
    {
        let y = self.y_data();
        proof {
            y.lemma_wf_valid();
        }
        let res = self.residuals()?;
        proof {
            assert(forall|i: int| 0 <= i < res.len() ==> #[trigger] res@[i].raw == raws(res@)[i]);
        }
        let total = dot_raw(&res, &res);
        proof {
            lemma_dot_self_nonneg(raws(res@), res.len() as int);
        }
        check_range(floor_div(total, SCALE as i128))
    }
}

} // verus!
