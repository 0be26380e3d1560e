use regression::{Fixed, Linear};

fn to_fixed(v: f64) -> Fixed {
    Fixed::from_raw((v * 1_000_000.0).round() as i64)
}

fn from_fixed(v: Fixed) -> f64 {
    v.raw as f64 / 1_000_000.0
}

#[test]
fn it_generates_a_correct_exponential_regression_for_simple_data() {
    let x: Vec<f64> = (1u32..7u32).map(|x| x as f64).collect();
    // y = 2e^(3x), fitted as ln(y) = 3x + ln(2)
    let y: Vec<f64> = x.iter().map(|x| 2.0 * (3.0 * x).exp()).collect();
    let y_lns: Vec<Fixed> = y.iter().map(|v| to_fixed(v.ln())).collect();
    let xs: Vec<Fixed> = x.iter().map(|v| to_fixed(*v)).collect();
    let results = Linear::new(y_lns, xs).unwrap();
    let coefficient = from_fixed(results.intercept).exp();
    let exponent = from_fixed(results.gradient);

    assert_eq!(2.0, (coefficient * 100_000.0).round() / 100_000.0);
    assert_eq!(3.0, exponent);
}

#[test]
fn it_generates_a_correct_power_regression_for_simple_data() {
    let x: Vec<f64> = (1u32..7u32).map(|x| x as f64).collect();
    // y = 2x^3, fitted as ln(y) = 3 ln(x) + ln(2)
    let y: Vec<f64> = x.iter().map(|x| 2.0 * x.powf(3.0)).collect();
    let y_lns: Vec<Fixed> = y.iter().map(|v| to_fixed(v.ln())).collect();
    let x_lns: Vec<Fixed> = x.iter().map(|v| to_fixed(v.ln())).collect();
    let results = Linear::new(y_lns, x_lns).unwrap();
    let coefficient = from_fixed(results.intercept).exp();
    let exponent = from_fixed(results.gradient);

    assert_eq!(2.0, coefficient.round());
    assert_eq!(3.0, exponent.round());
}
