use regression::{FitError, Fixed, Linear, MultipleLinear};

fn series(values: &[i32]) -> Vec<Fixed> {
    values.iter().map(|v| Fixed::from_int(*v)).collect()
}

fn raws(values: &[Fixed]) -> Vec<i64> {
    values.iter().map(|v| v.raw).collect()
}

#[test]
fn it_generates_a_correct_multiple_linear_regression() {
    let x1 = series(&[1, 2, 3, 4, 5, 6]);
    let x2 = series(&[2, 1, 4, 3, 6, 5]);
    // y = 2 x1 + 3 x2 + 1, fitted one predictor at a time
    let y = series(&[9, 8, 19, 18, 29, 28]);
    let model = MultipleLinear::new(y, vec![x1, x2]).unwrap();
    assert_eq!(vec![4_485_714, 940_408], raws(&model.coefficients));
    assert_eq!(Fixed::from_raw(-491_427), model.intercept);
    assert_eq!(
        vec![5_875_103, 9_420_409, 16_727_347, 20_272_653, 27_579_591, 31_124_897],
        raws(&model.predictions().unwrap())
    );
}

#[test]
fn single_predictor_matches_simple_linear() {
    let x = series(&[1, 2, 3, 4, 5, 6]);
    let y = series(&[9, 8, 19, 18, 29, 28]);
    let model = MultipleLinear::new(y.clone(), vec![x.clone()]).unwrap();
    let line = Linear::new(y, x).unwrap();
    assert_eq!(vec![line.gradient.raw], raws(&model.coefficients));
    assert_eq!(line.intercept, model.intercept);
    assert_eq!(Fixed::from_raw(2_800_001), model.intercept);
}

#[test]
fn predictor_order_changes_the_fit() {
    let x1 = series(&[1, 2, 3, 4, 5, 6]);
    let x2 = series(&[2, 1, 4, 3, 6, 5]);
    let y = series(&[9, 8, 19, 18, 29, 28]);
    let forward = MultipleLinear::new(y.clone(), vec![x1.clone(), x2.clone()]).unwrap();
    let backward = MultipleLinear::new(y, vec![x2, x1]).unwrap();
    assert_ne!(forward.coefficients[0], backward.coefficients[1]);
}

#[test]
fn multiple_predict_single_checks_the_row() {
    let model = MultipleLinear::new(
        series(&[9, 8, 19, 18, 29, 28]),
        vec![series(&[1, 2, 3, 4, 5, 6]), series(&[2, 1, 4, 3, 6, 5])],
    )
    .unwrap();
    assert_eq!(Ok(Fixed::from_raw(5_875_103)), model.predict_single(&series(&[1, 2])));
    assert_eq!(Err(FitError::LengthMismatch), model.predict_single(&series(&[1])));
    let wide = vec![Fixed::from_int(1), Fixed::from_raw(i64::MAX)];
    assert_eq!(Err(FitError::OutOfRange), model.predict_single(&wide));
    assert_eq!("-0.491427 [4.485714, 0.940408]", model.equation_string());
}

#[test]
fn multiple_linear_input_errors() {
    assert!(matches!(MultipleLinear::new(series(&[1, 2]), Vec::new()), Err(FitError::EmptyInput)));
    assert!(matches!(
        MultipleLinear::new(series(&[1, 2, 3]), vec![series(&[1, 2, 3]), series(&[1, 2])]),
        Err(FitError::LengthMismatch)
    ));
    assert!(matches!(
        MultipleLinear::new(series(&[1, 2, 3]), vec![series(&[1, 2, 3]), series(&[5, 5, 5])]),
        Err(FitError::DegenerateVariance)
    ));
    // every length is checked before any fit
    assert!(matches!(
        MultipleLinear::new(series(&[1, 2, 3]), vec![series(&[5, 5, 5]), series(&[1, 2])]),
        Err(FitError::LengthMismatch)
    ));
    assert!(matches!(
        MultipleLinear::new(Vec::new(), vec![series(&[1, 2])]),
        Err(FitError::EmptyInput)
    ));
}
