use regression::{FitError, Fixed, Linear, Polynomial, Regression};

fn series(values: &[i32]) -> Vec<Fixed> {
    values.iter().map(|v| Fixed::from_int(*v)).collect()
}

fn raws(values: &[Fixed]) -> Vec<i64> {
    values.iter().map(|v| v.raw).collect()
}

#[test]
fn first_order_polynomial_matches_simple_linear() {
    let x = series(&[1, 2, 3, 4, 5, 6]);
    let y = series(&[2, 5, 10, 17, 26, 37]);
    let poly = Polynomial::new(y.clone(), x.clone(), 1).unwrap();
    let line = Linear::new(y, x).unwrap();
    assert_eq!(vec![line.gradient.raw], raws(&poly.coefficients));
    assert_eq!(line.intercept, poly.intercept);
    assert_eq!(Fixed::from_raw(7_000_000), line.gradient);
}

#[test]
fn second_order_polynomial_fits_powers_in_turn() {
    let x = series(&[1, 2, 3, 4, 5, 6]);
    // y = x^2 + 1
    let y = series(&[2, 5, 10, 17, 26, 37]);
    let poly = Polynomial::new(y, x.clone(), 2).unwrap();
    assert_eq!(vec![7_000_000, 41_720], raws(&poly.coefficients));
    assert_eq!(Fixed::from_raw(-8_966_087), poly.intercept);
    assert_eq!(2, poly.order);
    let predictions = poly.predictions().unwrap();
    assert_eq!(
        vec![-1_924_367, 5_200_793, 12_409_393, 19_701_433, 27_076_913, 34_535_833],
        raws(&predictions)
    );
    assert_eq!(Ok(predictions), poly.predict_multi(&x));
    assert_eq!(Ok(Fixed::from_raw(8_794_663)), poly.predict_single(Fixed::from_raw(2_500_000)));
    assert_eq!("-8.966087 [7.000000, 0.041720]", poly.equation_string());
}

#[test]
fn polynomial_input_errors() {
    assert!(matches!(
        Polynomial::new(series(&[1, 2]), series(&[1, 2]), 0),
        Err(FitError::EmptyInput)
    ));
    let big = vec![Fixed::from_int(1), Fixed::from_raw(4_000_000_000_000_000)];
    assert!(matches!(
        Polynomial::new(series(&[1, 2]), big, 2),
        Err(FitError::OutOfRange)
    ));
}

#[test]
fn polynomial_prediction_out_of_range() {
    let poly = Polynomial::new(series(&[2, 5, 10, 17]), series(&[1, 2, 3, 4]), 2).unwrap();
    assert_eq!(
        Err(FitError::OutOfRange),
        poly.predict_single(Fixed::from_raw(4_000_000_000_000_000))
    );
}
