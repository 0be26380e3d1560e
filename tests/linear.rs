use regression::{FitError, Fixed, Linear, Ratio, Regression};

fn series(values: &[i32]) -> Vec<Fixed> {
    values.iter().map(|v| Fixed::from_int(*v)).collect()
}

fn raws(values: &[Fixed]) -> Vec<i64> {
    values.iter().map(|v| v.raw).collect()
}

#[test]
fn it_generates_a_correct_linear_regression_for_simple_data() {
    let x: Vec<Fixed> = (1..7).map(Fixed::from_int).collect();
    // y = 3x + 4
    let y: Vec<Fixed> = (1..7).map(|v| Fixed::from_int(3 * v + 4)).collect();
    let results = Linear::new(y, x).unwrap();

    assert_eq!(3.0, results.gradient.raw as f64 / 1_000_000.0);
    assert_eq!(4.0, results.intercept.raw as f64 / 1_000_000.0);
    // 10.5 as an exact fraction
    assert_eq!(
        Ratio { num: 1_890_000_000_000_000, den: 180_000_000_000_000 },
        results.covariance
    );
}

#[test]
fn predictions_follow_the_fitted_line() {
    let x = series(&[1, 2, 3, 4, 5, 6]);
    let y = series(&[7, 10, 13, 16, 19, 22]);
    let line = Linear::new(y.clone(), x.clone()).unwrap();
    let predictions = line.predictions().unwrap();
    assert_eq!(raws(&y), raws(&predictions));
    assert_eq!(Ok(predictions), line.predict_multi(&x));
    assert_eq!(Ok(Fixed::from_raw(11_500_000)), line.predict_single(Fixed::from_raw(2_500_000)));
    assert_eq!(vec![0; 6], raws(&line.residuals().unwrap()));
    assert_eq!(Ok(Fixed::from_raw(0)), line.mean_square_error());
}

#[test]
fn mean_square_error_is_a_sum_of_squares() {
    let x = series(&[1, 2, 3, 4]);
    let y = series(&[1, 3, 2, 4]);
    let line = Linear::new(y, x).unwrap();
    // gradient 0.8, intercept 0.5: residuals -0.3, 0.9, -0.9, 0.3
    assert_eq!(Fixed::from_raw(800_000), line.gradient);
    assert_eq!(Fixed::from_raw(500_000), line.intercept);
    assert_eq!(
        vec![-300_000, 900_000, -900_000, 300_000],
        raws(&line.residuals().unwrap())
    );
    assert_eq!(Ok(Fixed::from_raw(1_800_000)), line.mean_square_error());
}

#[test]
fn perfect_line_has_unit_correlation() {
    let x = series(&[1, 2, 3, 4, 5, 6]);
    let y = series(&[7, 10, 13, 16, 19, 22]);
    let mut line = Linear::new(y, x).unwrap();
    assert_eq!(Ok(Fixed::from_raw(1_000_000)), line.pearsons_correlation());
    let mut flat = Linear::new(series(&[5, 5, 5]), series(&[1, 2, 3])).unwrap();
    assert_eq!(Fixed::from_raw(0), flat.gradient);
    assert_eq!(Err(FitError::DegenerateVariance), flat.pearsons_correlation());
}

#[test]
fn exact_lines_are_recovered() {
    // y = 2x on x = 0, 0.0014, 0.0028
    let x = vec![Fixed::from_raw(0), Fixed::from_raw(1_400), Fixed::from_raw(2_800)];
    let y = vec![Fixed::from_raw(0), Fixed::from_raw(2_800), Fixed::from_raw(5_600)];
    let line = Linear::new(y, x).unwrap();
    assert_eq!(Fixed::from_raw(2_000_000), line.gradient);
    assert_eq!(Fixed::from_raw(0), line.intercept);
    // a predictor that moves by one millionth still has a variance
    let x = vec![Fixed::from_raw(0), Fixed::from_raw(1)];
    let y = vec![Fixed::from_raw(0), Fixed::from_raw(2)];
    let line = Linear::new(y, x).unwrap();
    assert_eq!(Fixed::from_raw(2_000_000), line.gradient);
}

#[test]
fn correlation_has_the_sign_of_the_gradient() {
    let mut line = Linear::new(series(&[1, 3, 2, 4]), series(&[1, 2, 3, 4])).unwrap();
    assert_eq!(Ok(Fixed::from_raw(800_000)), line.pearsons_correlation());
    let mut down = Linear::new(series(&[4, 2, 3, 1]), series(&[1, 2, 3, 4])).unwrap();
    assert!(down.gradient.raw < 0);
    let r = down.pearsons_correlation().unwrap().raw;
    assert!(-1_000_000 <= r && r < 0);
}

#[test]
fn degenerate_predictors_are_reported() {
    assert!(matches!(
        Linear::new(series(&[1]), series(&[2])),
        Err(FitError::DegenerateVariance)
    ));
    assert!(matches!(
        Linear::new(series(&[1, 2, 3]), series(&[4, 4, 4])),
        Err(FitError::DegenerateVariance)
    ));
}

#[test]
fn malformed_inputs_are_reported() {
    assert!(matches!(Linear::new(Vec::new(), series(&[1])), Err(FitError::EmptyInput)));
    assert!(matches!(
        Linear::new(series(&[1, 2]), series(&[1, 2, 3])),
        Err(FitError::LengthMismatch)
    ));
    let wide = vec![Fixed::from_int(1), Fixed::from_raw(i64::MAX)];
    assert!(matches!(Linear::new(series(&[1, 2]), wide), Err(FitError::OutOfRange)));
}

#[test]
fn predictions_beyond_the_range_fail() {
    let line = Linear::new(series(&[7, 10, 13]), series(&[1, 2, 3])).unwrap();
    assert_eq!(Err(FitError::OutOfRange), line.predict_single(Fixed::from_raw(i64::MAX)));
    let xs = vec![Fixed::from_int(1), Fixed::from_raw(i64::MIN)];
    assert_eq!(Err(FitError::OutOfRange), line.predict_multi(&xs));
}

#[test]
fn linear_equation_text() {
    let line = Linear::new(series(&[7, 10, 13]), series(&[1, 2, 3])).unwrap();
    assert_eq!("y = 3.000000x + 4.000000", line.equation_string());
}
