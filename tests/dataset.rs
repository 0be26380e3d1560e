use regression::{Dataset, FitError, Fixed, Ratio};

fn series(values: &[i32]) -> Vec<Fixed> {
    values.iter().map(|v| Fixed::from_int(*v)).collect()
}

fn raws(values: &[Fixed]) -> Vec<i64> {
    values.iter().map(|v| v.raw).collect()
}

#[test]
fn it_calculates_mean() {
    let x: Vec<Fixed> = (1..11).map(Fixed::from_int).collect();
    let mut dataset = Dataset::new(x).unwrap();
    assert_eq!(5.5, dataset.mean().raw as f64 / 1_000_000.0);
}

#[test]
fn it_calculates_standard_deviation() {
    let x: Vec<Fixed> = (1..11).map(Fixed::from_int).collect();
    let mut dataset = Dataset::new(x).unwrap();
    let dps = 100000.0;
    let stdev = dataset.stdev().unwrap().raw as f64 / 1_000_000.0;
    assert_eq!(3.02765, (stdev * dps).round() / dps);
}

#[test]
fn stdev_is_the_integer_root_of_the_variance() {
    let mut dataset = Dataset::new(series(&[1, 2, 3, 4, 5, 6, 7, 8, 9, 10])).unwrap();
    // 82.5 / 9 as an exact fraction
    assert_eq!(
        Ok(Ratio { num: 8_250_000_000_000_000, den: 900_000_000_000_000 }),
        dataset.variance()
    );
    assert_eq!(Ok(Fixed::from_raw(3_027_650)), dataset.stdev());
    assert_eq!(Ok(Fixed::from_raw(3_027_650)), dataset.stdev());
}

#[test]
fn diffs_sum_to_zero() {
    // 1, 2 and 4 have mean 7/3; the differences are kept times 3
    let mut dataset = Dataset::new(series(&[1, 2, 4])).unwrap();
    let diffs = dataset.diffs();
    assert_eq!(vec![-4_000_000, -1_000_000, 5_000_000], diffs);
    assert_eq!(0, diffs.iter().sum::<i128>());
}

#[test]
fn variance_divides_by_one_less_than_the_count() {
    let mut dataset = Dataset::new(series(&[1, 2, 3, 4])).unwrap();
    // squared differences sum to 5; 5 / 3, not 5 / 4
    let v = dataset.variance().unwrap();
    assert_eq!(Ratio { num: 80_000_000_000_000, den: 48_000_000_000_000 }, v);
    assert_eq!(v.num * 3, v.den * 5);
}

#[test]
fn variance_of_one_sample_is_degenerate() {
    let mut dataset = Dataset::new(series(&[7])).unwrap();
    assert_eq!(Err(FitError::DegenerateVariance), dataset.variance());
    assert_eq!(Err(FitError::DegenerateVariance), dataset.stdev());
}

#[test]
fn variance_is_zero_only_for_identical_values() {
    let mut same = Dataset::new(series(&[3, 3, 3])).unwrap();
    assert_eq!(0, same.variance().unwrap().num);
    let mut close = Dataset::new(vec![Fixed::from_raw(0), Fixed::from_raw(1)]).unwrap();
    let v = close.variance().unwrap();
    assert!(v.num > 0);
    assert_eq!(Ok(Fixed::from_raw(0)), close.stdev());
}

#[test]
fn wide_values_keep_their_variance() {
    let mut dataset = Dataset::new(series(&[0, 200_000])).unwrap();
    let v = dataset.variance().unwrap();
    // (100000^2 * 2) / 1 = 2e10
    assert_eq!(v.num, v.den * 20_000_000_000);
}

#[test]
fn new_rejects_empty_and_out_of_range_series() {
    assert!(matches!(Dataset::new(Vec::new()), Err(FitError::EmptyInput)));
    let too_large = vec![Fixed::from_int(1), Fixed::from_raw(9_007_199_254_740_993)];
    assert!(matches!(Dataset::new(too_large), Err(FitError::OutOfRange)));
    let at_limit = vec![Fixed::from_raw(-549_755_813_888)];
    assert!(Dataset::new(vec![Fixed::from_raw(549_755_813_889)]).is_err());
    assert!(Dataset::new(at_limit).is_ok());
}

#[test]
fn residuals_subtract_predictions() {
    let dataset = Dataset::new(series(&[5, 7, 9])).unwrap();
    let predictions = vec![Fixed::from_int(4), Fixed::from_int(8), Fixed::from_raw(9_500_000)];
    let residuals = dataset.residuals(&predictions).unwrap();
    assert_eq!(vec![1_000_000, -1_000_000, -500_000], raws(&residuals));
    assert_eq!(Err(FitError::LengthMismatch), dataset.residuals(&series(&[1, 2])));
    let far = vec![Fixed::from_int(0), Fixed::from_int(0), Fixed::from_raw(-9_007_199_254_740_000)];
    assert_eq!(Err(FitError::OutOfRange), dataset.residuals(&far));
}

#[test]
fn mean_rounds_down() {
    let mut dataset = Dataset::new(vec![Fixed::from_raw(-1), Fixed::from_raw(0)]).unwrap();
    assert_eq!(Fixed::from_raw(-1), dataset.mean());
    assert_eq!(2, dataset.len());
    assert_eq!(Fixed::from_raw(0), dataset.get(1));
}

#[test]
fn fixed_text_has_six_places() {
    assert_eq!("3.000000", Fixed::from_int(3).to_text());
    assert_eq!("-0.000005", Fixed::from_raw(-5).to_text());
    assert_eq!("12.345678", Fixed::from_raw(12_345_678).to_text());
}
