//! Curve fitting over fixed-point series: simple, multiple and polynomial
//! least-squares regression built on per-series statistics.
//!
//! Numbers are `Fixed` values with six decimal places. The statistics are
//! kept exact: differences from the mean are held scaled by the sample
//! count, and variances and covariances are exact fractions. A fitted
//! parameter is computed from those exact sums and rounded down once, so a
//! result can be checked digit for digit. Inputs that would make a
//! statistic undefined, or push a value beyond the representable range,
//! give a `FitError` instead of a meaningless number.

pub mod dataset;
pub mod fixed;
pub mod laws;
pub mod linear;
pub mod multiple_linear;
pub mod polynomial;
pub mod regression;

pub use dataset::Dataset;
pub use fixed::{FitError, Fixed, Ratio};
pub use linear::Linear;
pub use multiple_linear::MultipleLinear;
pub use polynomial::Polynomial;
pub use regression::Regression;

